use segment_map::{Interval, IntervalMap};

#[test]
fn test_remove() {
    let permutations = vec![(
            format!("{}\n{}\n{}\n{}\n{}\n",
                "  [0----)",
                "       \\",
                "      [1----)",
                "           \\",
                "          [2----)"
            ),
            vec![0, 1, 2]
        ), (
            format!("{}\n{}\n{}\n{}\n{}\n",
                "  [0----)",
                "       \\",
                "      [2----)",
                "       /",
                "  [1----)"
            ),
            vec![0, 2, 1]
        ), (
            format!("{}\n{}\n{}\n",
                "      [1----)",
                "       /   \\",
                "  [0----) [2----)",
            ),
            vec![1, 0, 2]
        ), (
            format!("{}\n{}\n{}\n{}\n{}\n",
                "      [2----)",
                "       /",
                "  [0----)",
                "       \\",
                "      [1----)"
            ),
            vec![2, 0, 1]
        ), (
            format!("{}\n{}\n{}\n{}\n{}\n",
                "          [2----)",
                "           /",
                "      [1----)",
                "       /",
                "  [0----)"
            ),
            vec![2, 1, 0]
        )
    ];
    let cases = vec![(
            format!("{}\n{}\n{}\n",
                "  [-----------------)",
                "                      -> -------------------",
                "  [0----|1----|2----)"
            ),
            Interval::new(0, 18),
            vec![
                (Interval::new(0, 6), 0),
                (Interval::new(6, 12), 1),
                (Interval::new(12, 18), 2)
            ],
            vec![],
        ), (
            format!("{}\n{}\n{}\n",
                "  [--------------)---",
                "                      -> ---------------[2-)",
                "  [0----|1----|2----)"
            ),
            Interval::new(0, 15),
            vec![
                (Interval::new(0, 6), 0),
                (Interval::new(6, 12), 1),
                (Interval::new(12, 18), 2)
            ],
            vec![
                (Interval::new(15, 18), 2)
            ],
        ), (
            format!("{}\n{}\n{}\n",
                "  [-----------)------",
                "                      -> ------------[2----)",
                "  [0----|1----|2----)"
            ),
            Interval::new(0, 12),
            vec![
                (Interval::new(0, 6), 0),
                (Interval::new(6, 12), 1),
                (Interval::new(12, 18), 2)
            ],
            vec![
                (Interval::new(12, 18), 2)
            ],
        ), (
            format!("{}\n{}\n{}\n",
                "  [--------)---------",
                "                      -> ---------[1-|2----)",
                "  [0----|1----|2----)"
            ),
            Interval::new(0, 9),
            vec![
                (Interval::new(0, 6), 0),
                (Interval::new(6, 12), 1),
                (Interval::new(12, 18), 2)
            ],
            vec![
                (Interval::new(9, 12), 1),
                (Interval::new(12, 18), 2)
            ],
        ), (
            format!("{}\n{}\n{}\n",
                "  [-----)------------",
                "                      -> ------[1----|2----)",
                "  [0----|1----|2----)"
            ),
            Interval::new(0, 6),
            vec![
                (Interval::new(0, 6), 0),
                (Interval::new(6, 12), 1),
                (Interval::new(12, 18), 2)
            ],
            vec![
                (Interval::new(6, 12), 1),
                (Interval::new(12, 18), 2)
            ],
        ), (
            format!("{}\n{}\n{}\n",
                "  [--)---------------",
                "                      -> ---[0-|1----|2----)",
                "  [0----|1----|2----)"
            ),
            Interval::new(0, 3),
            vec![
                (Interval::new(0, 6), 0),
                (Interval::new(6, 12), 1),
                (Interval::new(12, 18), 2)
            ],
            vec![
                (Interval::new(3, 6), 0),
                (Interval::new(6, 12), 1),
                (Interval::new(12, 18), 2)
            ],
        ), (
            format!("{}\n{}\n{}\n",
                "  |------------------",
                "                      -> [0----|1----|2----)",
                "  [0----|1----|2----)"
            ),
            Interval::new(0, 0),
            vec![
                (Interval::new(0, 6), 0),
                (Interval::new(6, 12), 1),
                (Interval::new(12, 18), 2)
            ],
            vec![
                (Interval::new(0, 6), 0),
                (Interval::new(6, 12), 1),
                (Interval::new(12, 18), 2)
            ],
        ), (
            format!("{}\n{}\n{}\n",
                "  ---[--------------)",
                "                      -> [0-)---------------",
                "  [0----|1----|2----)"
            ),
            Interval::new(3, 18),
            vec![
                (Interval::new(0, 6), 0),
                (Interval::new(6, 12), 1),
                (Interval::new(12, 18), 2)
            ],
            vec![
                (Interval::new(0, 3), 0)
            ],
        ), (
            format!("{}\n{}\n{}\n",
                "  ---[-----------)---",
                "                      -> [0-)-----------[2-)",
                "  [0----|1----|2----)"
            ),
            Interval::new(3, 15),
            vec![
                (Interval::new(0, 6), 0),
                (Interval::new(6, 12), 1),
                (Interval::new(12, 18), 2)
            ],
            vec![
                (Interval::new(0, 3), 0),
                (Interval::new(15, 18), 2)
            ],
        ), (
            format!("{}\n{}\n{}\n",
                "  ---[--------)------",
                "                      -> [0-)--------[2----)",
                "  [0----|1----|2----)"
            ),
            Interval::new(3, 12),
            vec![
                (Interval::new(0, 6), 0),
                (Interval::new(6, 12), 1),
                (Interval::new(12, 18), 2)
            ],
            vec![
                (Interval::new(0, 3), 0),
                (Interval::new(12, 18), 2)
            ],
        ), (
            format!("{}\n{}\n{}\n",
                "  ---[-----)---------",
                "                      -> [0-)-----[1-|2----)",
                "  [0----|1----|2----)"
            ),
            Interval::new(3, 9),
            vec![
                (Interval::new(0, 6), 0),
                (Interval::new(6, 12), 1),
                (Interval::new(12, 18), 2)
            ],
            vec![
                (Interval::new(0, 3), 0),
                (Interval::new(9, 12), 1),
                (Interval::new(12, 18), 2)
            ],
        ), (
            format!("{}\n{}\n{}\n",
                "  ---[--)------------",
                "                      -> [0-)--[1----|2----)",
                "  [0----|1----|2----)"
            ),
            Interval::new(3, 6),
            vec![
                (Interval::new(0, 6), 0),
                (Interval::new(6, 12), 1),
                (Interval::new(12, 18), 2)
            ],
            vec![
                (Interval::new(0, 3), 0),
                (Interval::new(6, 12), 1),
                (Interval::new(12, 18), 2)
            ],
        ), (
            format!("{}\n{}\n{}\n",
                "  --[-)--------------",
                "                      -> [0)-[0|1----|2----)",
                "  [0----|1----|2----)"
            ),
            Interval::new(2, 4),
            vec![
                (Interval::new(0, 6), 0),
                (Interval::new(6, 12), 1),
                (Interval::new(12, 18), 2)
            ],
            vec![
                (Interval::new(0, 2), 0),
                (Interval::new(4, 6), 0),
                (Interval::new(6, 12), 1),
                (Interval::new(12, 18), 2)
            ],
        ), (
            format!("{}\n{}\n{}\n",
                "  ---|---------------",
                "                      -> [0----|1----|2----)",
                "  [0----|1----|2----)"
            ),
            Interval::new(3, 3),
            vec![
                (Interval::new(0, 6), 0),
                (Interval::new(6, 12), 1),
                (Interval::new(12, 18), 2)
            ],
            vec![
                (Interval::new(0, 6), 0),
                (Interval::new(6, 12), 1),
                (Interval::new(12, 18), 2)
            ],
        ), (
            format!("{}\n{}\n{}\n",
                "  ------[-----------)",
                "                      -> [0----)------------",
                "  [0----|1----|2----)"
            ),
            Interval::new(6, 18),
            vec![
                (Interval::new(0, 6), 0),
                (Interval::new(6, 12), 1),
                (Interval::new(12, 18), 2)
            ],
            vec![
                (Interval::new(0, 6), 0)
            ],
        ), (
            format!("{}\n{}\n{}\n",
                "  ------[--------)---",
                "                      -> [0----)--------[2-)",
                "  [0----|1----|2----)"
            ),
            Interval::new(6, 15),
            vec![
                (Interval::new(0, 6), 0),
                (Interval::new(6, 12), 1),
                (Interval::new(12, 18), 2)
            ],
            vec![
                (Interval::new(0, 6), 0),
                (Interval::new(15, 18), 2)
            ],
        ), (
            format!("{}\n{}\n{}\n",
                "  ------[-----)------",
                "                      -> [0----)-----[2----)",
                "  [0----|1----|2----)"
            ),
            Interval::new(6, 12),
            vec![
                (Interval::new(0, 6), 0),
                (Interval::new(6, 12), 1),
                (Interval::new(12, 18), 2)
            ],
            vec![
                (Interval::new(0, 6), 0),
                (Interval::new(12, 18), 2)
            ],
        ), (
            format!("{}\n{}\n{}\n",
                "  ------[--)---------",
                "                      -> [0----)--[1-|2----)",
                "  [0----|1----|2----)"
            ),
            Interval::new(6, 9),
            vec![
                (Interval::new(0, 6), 0),
                (Interval::new(6, 12), 1),
                (Interval::new(12, 18), 2)
            ],
            vec![
                (Interval::new(0, 6), 0),
                (Interval::new(9, 12), 1),
                (Interval::new(12, 18), 2)
            ],
        ), (
            format!("{}\n{}\n{}\n",
                "  ------|------------",
                "                      -> [0----|1----|2----)",
                "  [0----|1----|2----)"
            ),
            Interval::new(6, 6),
            vec![
                (Interval::new(0, 6), 0),
                (Interval::new(6, 12), 1),
                (Interval::new(12, 18), 2)
            ],
            vec![
                (Interval::new(0, 6), 0),
                (Interval::new(6, 12), 1),
                (Interval::new(12, 18), 2)
            ],
        ),

    ];
    for (case_description, remove_interval, insert_intervals, expected_intervals) in cases {
        for (permutation_description, indices) in &permutations {
            let mut interval_map = IntervalMap::new();
            for &index in indices {
                let (insert_interval, insert_value) = insert_intervals[index];
                interval_map.insert(insert_interval, insert_value);
            }
            interval_map.remove(&remove_interval);
            assert_eq!(expected_intervals, interval_map.into_iter().collect::<Vec<_>>(), "\npermutation:\n\n{}\ncase:\n\n{}\n", permutation_description, case_description);
        }
    }
}

#[test]
fn test_update() {
    let permutations = vec![
        vec![
        ], vec![(
                format!("{}\n",
                    "  [0----)"
                ),
                vec![0]
            )
        ], vec![(
                format!("{}\n{}\n{}\n",
                    "  [0----)",
                    "       \\",
                    "      [1----)"
                ),
                vec![0, 1]
            ), (
                format!("{}\n{}\n{}\n",
                    "      [1----)",
                    "       /",
                    "  [0----)"
                ),
                vec![1, 0]
            )
        ], vec![(
                format!("{}\n{}\n{}\n{}\n{}\n",
                    "  [0----)",
                    "       \\",
                    "      [1----)",
                    "           \\",
                    "          [2----)"
                ),
                vec![0, 1, 2]
            ), (
                format!("{}\n{}\n{}\n{}\n{}\n",
                    "  [0----)",
                    "       \\",
                    "      [2----)",
                    "       /",
                    "  [1----)"
                ),
                vec![0, 2, 1]
            ), (
                format!("{}\n{}\n{}\n",
                    "      [1----)",
                    "       /   \\",
                    "  [0----) [2----)",
                ),
                vec![1, 0, 2]
            ), (
                format!("{}\n{}\n{}\n{}\n{}\n",
                    "      [2----)",
                    "       /",
                    "  [0----)",
                    "       \\",
                    "      [1----)"
                ),
                vec![2, 0, 1]
            ), (
                format!("{}\n{}\n{}\n{}\n{}\n",
                    "          [2----)",
                    "           /",
                    "      [1----)",
                    "       /",
                    "  [0----)"
                ),
                vec![2, 1, 0]
            )
        ]
    ];
    let cases = vec![(
            format!("{}\n{}\n{}\n",
                "  [3----------------)",
                "                      -> [3----|3----|3----)",
                "  [0----|1----|2----)"
            ),
            (Interval::new(0, 18), 3),
            vec![
                (Interval::new(0, 6), 0),
                (Interval::new(6, 12), 1),
                (Interval::new(12, 18), 2)
            ],
            vec![
                (Interval::new(0, 6), 3),
                (Interval::new(6, 12), 3),
                (Interval::new(12, 18), 3)
            ],
        ), (
            format!("{}\n{}\n{}\n",
                "  [3-------------)---",
                "                      -> [3----|3----|3-|2-)",
                "  [0----|1----|2----)"
            ),
            (Interval::new(0, 15), 3),
            vec![
                (Interval::new(0, 6), 0),
                (Interval::new(6, 12), 1),
                (Interval::new(12, 18), 2)
            ],
            vec![
                (Interval::new(0, 6), 3),
                (Interval::new(6, 12), 3),
                (Interval::new(12, 15), 3),
                (Interval::new(15, 18), 2)
            ],
        ), (
            format!("{}\n{}\n{}\n",
                "  [3----------)------",
                "                      -> [3----|3----|2----)",
                "  [0----|1----|2----)"
            ),
            (Interval::new(0, 12), 3),
            vec![
                (Interval::new(0, 6), 0),
                (Interval::new(6, 12), 1),
                (Interval::new(12, 18), 2)
            ],
            vec![
                (Interval::new(0, 6), 3),
                (Interval::new(6, 12), 3),
                (Interval::new(12, 18), 2)
            ],
        ), (
            format!("{}\n{}\n{}\n",
                "  [3-------)---------",
                "                      -> [3----|3-|1-|2----)",
                "  [0----|1----|2----)"
            ),
            (Interval::new(0, 9), 3),
            vec![
                (Interval::new(0, 6), 0),
                (Interval::new(6, 12), 1),
                (Interval::new(12, 18), 2)
            ],
            vec![
                (Interval::new(0, 6), 3),
                (Interval::new(6, 9), 3),
                (Interval::new(9, 12), 1),
                (Interval::new(12, 18), 2)
            ],
        ), (
            format!("{}\n{}\n{}\n",
                "  [3----)------------",
                "                      -> [3----|1----|2----)",
                "  [0----|1----|2----)"
            ),
            (Interval::new(0, 6), 3),
            vec![
                (Interval::new(0, 6), 0),
                (Interval::new(6, 12), 1),
                (Interval::new(12, 18), 2)
            ],
            vec![
                (Interval::new(0, 6), 3),
                (Interval::new(6, 12), 1),
                (Interval::new(12, 18), 2)
            ],
        ), (
            format!("{}\n{}\n{}\n",
                "  [3-)---------------",
                "                      -> [3-|0-|1----|2----)",
                "  [0----|1----|2----)"
            ),
            (Interval::new(0, 3), 3),
            vec![
                (Interval::new(0, 6), 0),
                (Interval::new(6, 12), 1),
                (Interval::new(12, 18), 2)
            ],
            vec![
                (Interval::new(0, 3), 3),
                (Interval::new(3, 6), 0),
                (Interval::new(6, 12), 1),
                (Interval::new(12, 18), 2)
            ],
        ), (
            format!("{}\n{}\n{}\n",
                "  |------------------",
                "                      -> [0----|1----|2----)",
                "  [0----|1----|2----)"
            ),
            (Interval::new(0, 0), 3),
            vec![
                (Interval::new(0, 6), 0),
                (Interval::new(6, 12), 1),
                (Interval::new(12, 18), 2)
            ],
            vec![
                (Interval::new(0, 0), 3),
                (Interval::new(0, 6), 0),
                (Interval::new(6, 12), 1),
                (Interval::new(12, 18), 2)
            ],
        ), (
            format!("{}\n{}\n{}\n",
                "  ---[3-------------)",
                "                      -> [0-|3-|3----|3----)",
                "  [0----|1----|2----)"
            ),
            (Interval::new(3, 18), 3),
            vec![
                (Interval::new(0, 6), 0),
                (Interval::new(6, 12), 1),
                (Interval::new(12, 18), 2)
            ],
            vec![
                (Interval::new(0, 3), 0),
                (Interval::new(3, 6), 3),
                (Interval::new(6, 12), 3),
                (Interval::new(12, 18), 3)
            ],
        ), (
            format!("{}\n{}\n{}\n",
                "  ---[3----------)---",
                "                      -> [0-|3-|3----|3-|2-)",
                "  [0----|1----|2----)"
            ),
            (Interval::new(3, 15), 3),
            vec![
                (Interval::new(0, 6), 0),
                (Interval::new(6, 12), 1),
                (Interval::new(12, 18), 2)
            ],
            vec![
                (Interval::new(0, 3), 0),
                (Interval::new(3, 6), 3),
                (Interval::new(6, 12), 3),
                (Interval::new(12, 15), 3),
                (Interval::new(15, 18), 2)
            ],
        ), (
            format!("{}\n{}\n{}\n",
                "  ---[3-------)------",
                "                      -> [0-|3-|3----|2----)",
                "  [0----|1----|2----)"
            ),
            (Interval::new(3, 12), 3),
            vec![
                (Interval::new(0, 6), 0),
                (Interval::new(6, 12), 1),
                (Interval::new(12, 18), 2)
            ],
            vec![
                (Interval::new(0, 3), 0),
                (Interval::new(3, 6), 3),
                (Interval::new(6, 12), 3),
                (Interval::new(12, 18), 2)
            ],
        ), (
            format!("{}\n{}\n{}\n",
                "  ---[3----)---------",
                "                      -> [0-|3-|3-|1-|2----)",
                "  [0----|1----|2----)"
            ),
            (Interval::new(3, 9), 3),
            vec![
                (Interval::new(0, 6), 0),
                (Interval::new(6, 12), 1),
                (Interval::new(12, 18), 2)
            ],
            vec![
                (Interval::new(0, 3), 0),
                (Interval::new(3, 6), 3),
                (Interval::new(6, 9), 3),
                (Interval::new(9, 12), 1),
                (Interval::new(12, 18), 2)
            ],
        ), (
            format!("{}\n{}\n{}\n",
                "  ---[3-)------------",
                "                      -> [0-|3-|1----|2----)",
                "  [0----|1----|2----)"
            ),
            (Interval::new(3, 6), 3),
            vec![
                (Interval::new(0, 6), 0),
                (Interval::new(6, 12), 1),
                (Interval::new(12, 18), 2)
            ],
            vec![
                (Interval::new(0, 3), 0),
                (Interval::new(3, 6), 3),
                (Interval::new(6, 12), 1),
                (Interval::new(12, 18), 2)
            ],
        ), (
            format!("{}\n{}\n{}\n",
                "  --[3)--------------",
                "                      -> [0|3|0|1----|2----)",
                "  [0----|1----|2----)"
            ),
            (Interval::new(2, 4), 3),
            vec![
                (Interval::new(0, 6), 0),
                (Interval::new(6, 12), 1),
                (Interval::new(12, 18), 2)
            ],
            vec![
                (Interval::new(0, 2), 0),
                (Interval::new(2, 4), 3),
                (Interval::new(4, 6), 0),
                (Interval::new(6, 12), 1),
                (Interval::new(12, 18), 2)
            ],
        ), (
            format!("{}\n{}\n{}\n",
                "  ---|---------------",
                "                      -> [0----|1----|2----)",
                "  [0----|1----|2----)"
            ),
            (Interval::new(3, 3), 3),
            vec![
                (Interval::new(0, 6), 0),
                (Interval::new(6, 12), 1),
                (Interval::new(12, 18), 2)
            ],
            vec![
                (Interval::new(0, 3), 0),
                (Interval::new(3, 3), 3),
                (Interval::new(3, 6), 0),
                (Interval::new(6, 12), 1),
                (Interval::new(12, 18), 2)
            ],
        ), (
            format!("{}\n{}\n{}\n",
                "  ------[3----------)",
                "                      -> [0----|3----|3----)",
                "  [0----|1----|2----)"
            ),
            (Interval::new(6, 18), 3),
            vec![
                (Interval::new(0, 6), 0),
                (Interval::new(6, 12), 1),
                (Interval::new(12, 18), 2)
            ],
            vec![
                (Interval::new(0, 6), 0),
                (Interval::new(6, 12), 3),
                (Interval::new(12, 18), 3)
            ],
        ), (
            format!("{}\n{}\n{}\n",
                "  ------[3-------)---",
                "                      -> [0----|3----|3-|2-)",
                "  [0----|1----|2----)"
            ),
            (Interval::new(6, 15), 3),
            vec![
                (Interval::new(0, 6), 0),
                (Interval::new(6, 12), 1),
                (Interval::new(12, 18), 2)
            ],
            vec![
                (Interval::new(0, 6), 0),
                (Interval::new(6, 12), 3),
                (Interval::new(12, 15), 3),
                (Interval::new(15, 18), 2)
            ],
        ), (
            format!("{}\n{}\n{}\n",
                "  ------[3----)------",
                "                      -> [0----|3----|2----)",
                "  [0----|1----|2----)"
            ),
            (Interval::new(6, 12), 3),
            vec![
                (Interval::new(0, 6), 0),
                (Interval::new(6, 12), 1),
                (Interval::new(12, 18), 2)
            ],
            vec![
                (Interval::new(0, 6), 0),
                (Interval::new(6, 12), 3),
                (Interval::new(12, 18), 2)
            ],
        ), (
            format!("{}\n{}\n{}\n",
                "  ------[3-)---------",
                "                      -> [0----|3-|1-|2----)",
                "  [0----|1----|2----)"
            ),
            (Interval::new(6, 9), 3),
            vec![
                (Interval::new(0, 6), 0),
                (Interval::new(6, 12), 1),
                (Interval::new(12, 18), 2)
            ],
            vec![
                (Interval::new(0, 6), 0),
                (Interval::new(6, 9), 3),
                (Interval::new(9, 12), 1),
                (Interval::new(12, 18), 2)
            ],
        ), (
            format!("{}\n{}\n{}\n",
                "  ------|------------",
                "                      -> [0----|1----|2----)",
                "  [0----|1----|2----)"
            ),
            (Interval::new(6, 6), 3),
            vec![
                (Interval::new(0, 6), 0),
                (Interval::new(6, 12), 1),
                (Interval::new(12, 18), 2)
            ],
            vec![
                (Interval::new(0, 6), 0),
                (Interval::new(6, 6), 3),
                (Interval::new(6, 12), 1),
                (Interval::new(12, 18), 2)
            ],
        ), (
            format!("{}\n{}\n{}\n",
                "  [3----------------)",
                "                      -> [3----|3----|3----)",
                "  ------[1----|2----)"
            ),
            (Interval::new(0, 18), 3),
            vec![
                (Interval::new(6, 12), 1),
                (Interval::new(12, 18), 2)
            ],
            vec![
                (Interval::new(0, 6), 3),
                (Interval::new(6, 12), 3),
                (Interval::new(12, 18), 3)
            ],
        ), (
            format!("{}\n{}\n{}\n",
                "  [3-------------)---",
                "                      -> [3----|3----|3-|2-)",
                "  ------[1----|2----)"
            ),
            (Interval::new(0, 15), 3),
            vec![
                (Interval::new(6, 12), 1),
                (Interval::new(12, 18), 2)
            ],
            vec![
                (Interval::new(0, 6), 3),
                (Interval::new(6, 12), 3),
                (Interval::new(12, 15), 3),
                (Interval::new(15, 18), 2)
            ],
        ), (
            format!("{}\n{}\n{}\n",
                "  [3----------)------",
                "                      -> [3----|3----|2----)",
                "  ------[1----|2----)"
            ),
            (Interval::new(0, 12), 3),
            vec![
                (Interval::new(6, 12), 1),
                (Interval::new(12, 18), 2)
            ],
            vec![
                (Interval::new(0, 6), 3),
                (Interval::new(6, 12), 3),
                (Interval::new(12, 18), 2)
            ],
        ), (
            format!("{}\n{}\n{}\n",
                "  [3-------)---------",
                "                      -> [3----|3-|1-|2----)",
                "  ------[1----|2----)"
            ),
            (Interval::new(0, 9), 3),
            vec![
                (Interval::new(6, 12), 1),
                (Interval::new(12, 18), 2)
            ],
            vec![
                (Interval::new(0, 6), 3),
                (Interval::new(6, 9), 3),
                (Interval::new(9, 12), 1),
                (Interval::new(12, 18), 2)
            ],
        ), (
            format!("{}\n{}\n{}\n",
                "  [3----)------------",
                "                      -> [3----|1----|2----)",
                "  ------[1----|2----)"
            ),
            (Interval::new(0, 6), 3),
            vec![
                (Interval::new(6, 12), 1),
                (Interval::new(12, 18), 2)
            ],
            vec![
                (Interval::new(0, 6), 3),
                (Interval::new(6, 12), 1),
                (Interval::new(12, 18), 2)
            ],
        ), (
            format!("{}\n{}\n{}\n",
                "  [3-)---------------",
                "                      -> [3-)--[1----|2----)",
                "  ------[1----|2----)"
            ),
            (Interval::new(0, 3), 3),
            vec![
                (Interval::new(6, 12), 1),
                (Interval::new(12, 18), 2)
            ],
            vec![
                (Interval::new(0, 3), 3),
                (Interval::new(6, 12), 1),
                (Interval::new(12, 18), 2)
            ],
        ), (
            format!("{}\n{}\n{}\n",
                "  |------------------",
                "                      -> ------[1----|2----)",
                "  ------[1----|2----)"
            ),
            (Interval::new(0, 0), 3),
            vec![
                (Interval::new(6, 12), 1),
                (Interval::new(12, 18), 2)
            ],
            vec![
                (Interval::new(0, 0), 3),
                (Interval::new(6, 12), 1),
                (Interval::new(12, 18), 2)
            ],
        ), (
            format!("{}\n{}\n{}\n",
                "  [3----------------)",
                "                      -> [3----|3----|3----)",
                "  [0----)-----[2----)"
            ),
            (Interval::new(0, 18), 3),
            vec![
                (Interval::new(0, 6), 0),
                (Interval::new(12, 18), 2)
            ],
            vec![
                (Interval::new(0, 6), 3),
                (Interval::new(6, 12), 3),
                (Interval::new(12, 18), 3)
            ],
        ), (
            format!("{}\n{}\n{}\n",
                "  [3-------------)---",
                "                      -> [3----|3----|3-|2-)",
                "  [0----)-----[2----)"
            ),
            (Interval::new(0, 15), 3),
            vec![
                (Interval::new(0, 6), 0),
                (Interval::new(12, 18), 2)
            ],
            vec![
                (Interval::new(0, 6), 3),
                (Interval::new(6, 12), 3),
                (Interval::new(12, 15), 3),
                (Interval::new(15, 18), 2)
            ],
        ), (
            format!("{}\n{}\n{}\n",
                "  [3----------)------",
                "                      -> [3----|3----|2----)",
                "  [0----)-----[2----)"
            ),
            (Interval::new(0, 12), 3),
            vec![
                (Interval::new(0, 6), 0),
                (Interval::new(12, 18), 2)
            ],
            vec![
                (Interval::new(0, 6), 3),
                (Interval::new(6, 12), 3),
                (Interval::new(12, 18), 2)
            ],
        ), (
            format!("{}\n{}\n{}\n",
                "  [3-------)---------",
                "                      -> [3----|3-)--[2----)",
                "  [0----)-----[2----)"
            ),
            (Interval::new(0, 9), 3),
            vec![
                (Interval::new(0, 6), 0),
                (Interval::new(12, 18), 2)
            ],
            vec![
                (Interval::new(0, 6), 3),
                (Interval::new(6, 9), 3),
                (Interval::new(12, 18), 2)
            ],
        ), (
            format!("{}\n{}\n{}\n",
                "  ---[3-------------)",
                "                      -> [0-|3-|3----|3----)",
                "  [0----)-----[2----)"
            ),
            (Interval::new(3, 18), 3),
            vec![
                (Interval::new(0, 6), 0),
                (Interval::new(12, 18), 2)
            ],
            vec![
                (Interval::new(0, 3), 0),
                (Interval::new(3, 6), 3),
                (Interval::new(6, 12), 3),
                (Interval::new(12, 18), 3)
            ],
        ), (
            format!("{}\n{}\n{}\n",
                "  ---[3----------)---",
                "                      -> [0-|3-|3----|3-|2-)",
                "  [0----)-----[2----)"
            ),
            (Interval::new(3, 15), 3),
            vec![
                (Interval::new(0, 6), 0),
                (Interval::new(12, 18), 2)
            ],
            vec![
                (Interval::new(0, 3), 0),
                (Interval::new(3, 6), 3),
                (Interval::new(6, 12), 3),
                (Interval::new(12, 15), 3),
                (Interval::new(15, 18), 2)
            ],
        ), (
            format!("{}\n{}\n{}\n",
                "  ---[3-------)------",
                "                      -> [0-|3-|3----|2----)",
                "  [0----)-----[2----)"
            ),
            (Interval::new(3, 12), 3),
            vec![
                (Interval::new(0, 6), 0),
                (Interval::new(12, 18), 2)
            ],
            vec![
                (Interval::new(0, 3), 0),
                (Interval::new(3, 6), 3),
                (Interval::new(6, 12), 3),
                (Interval::new(12, 18), 2)
            ],
        ), (
            format!("{}\n{}\n{}\n",
                "  ---[3----)---------",
                "                      -> [0-|3-|3-)--[2----)",
                "  [0----)-----[2----)"
            ),
            (Interval::new(3, 9), 3),
            vec![
                (Interval::new(0, 6), 0),
                (Interval::new(12, 18), 2)
            ],
            vec![
                (Interval::new(0, 3), 0),
                (Interval::new(3, 6), 3),
                (Interval::new(6, 9), 3),
                (Interval::new(12, 18), 2)
            ],
        ), (
            format!("{}\n{}\n{}\n",
                "  [3----------------)",
                "                      -> [3----|3----|3----)",
                "  [0----|1----)------"
            ),
            (Interval::new(0, 18), 3),
            vec![
                (Interval::new(0, 6), 0),
                (Interval::new(6, 12), 1)
            ],
            vec![
                (Interval::new(0, 6), 3),
                (Interval::new(6, 12), 3),
                (Interval::new(12, 18), 3)
            ],
        ), (
            format!("{}\n{}\n{}\n",
                "  [3-------------)---",
                "                      -> [3----|3----|3-)---",
                "  [0----|1----)------"
            ),
            (Interval::new(0, 15), 3),
            vec![
                (Interval::new(0, 6), 0),
                (Interval::new(6, 12), 1)
            ],
            vec![
                (Interval::new(0, 6), 3),
                (Interval::new(6, 12), 3),
                (Interval::new(12, 15), 3)
            ],
        ), (
            format!("{}\n{}\n{}\n",
                "  ---[3-------------)",
                "                      -> [0-|3-|3----|3----)",
                "  [0----|1----)------"
            ),
            (Interval::new(3, 18), 3),
            vec![
                (Interval::new(0, 6), 0),
                (Interval::new(6, 12), 1)
            ],
            vec![
                (Interval::new(0, 3), 0),
                (Interval::new(3, 6), 3),
                (Interval::new(6, 12), 3),
                (Interval::new(12, 18), 3)
            ],
        ), (
            format!("{}\n{}\n{}\n",
                "  [3----------------)",
                "                      -> [3----|3----|3----)",
                "  ------[1----)------"
            ),
            (Interval::new(0, 18), 3),
            vec![
                (Interval::new(6, 12), 1)
            ],
            vec![
                (Interval::new(0, 6), 3),
                (Interval::new(6, 12), 3),
                (Interval::new(12, 18), 3)
            ],
        ),
    ];
    for (case_description, update_interval, insert_intervals, expected_intervals) in cases {
        for (permutation_description, indices) in &permutations[insert_intervals.len()] {
            let mut interval_map = IntervalMap::new();
            for &index in indices {
                let (insert_interval, insert_value) = insert_intervals[index];
                interval_map.insert(insert_interval, insert_value);
            }
            let (update_interval, update_value) = update_interval;
            interval_map.update(&update_interval, |_| Some(update_value));
            assert_eq!(expected_intervals, interval_map.into_iter().collect::<Vec<_>>(), "\npermutation:\n\n{}\ncase:\n\n{}\n", permutation_description, case_description);
        }
    }
}

#[test]
fn test_update_remove() {
    let permutations = vec![
        vec![
        ], vec![(
                format!("{}\n",
                    "  [0----)"
                ),
                vec![0]
            )
        ], vec![(
                format!("{}\n{}\n{}\n",
                    "  [0----)",
                    "       \\",
                    "      [1----)"
                ),
                vec![0, 1]
            ), (
                format!("{}\n{}\n{}\n",
                    "      [1----)",
                    "       /",
                    "  [0----)"
                ),
                vec![1, 0]
            )
        ], vec![(
                format!("{}\n{}\n{}\n{}\n{}\n",
                    "  [0----)",
                    "       \\",
                    "      [1----)",
                    "           \\",
                    "          [2----)"
                ),
                vec![0, 1, 2]
            ), (
                format!("{}\n{}\n{}\n{}\n{}\n",
                    "  [0----)",
                    "       \\",
                    "      [2----)",
                    "       /",
                    "  [1----)"
                ),
                vec![0, 2, 1]
            ), (
                format!("{}\n{}\n{}\n",
                    "      [1----)",
                    "       /   \\",
                    "  [0----) [2----)",
                ),
                vec![1, 0, 2]
            ), (
                format!("{}\n{}\n{}\n{}\n{}\n",
                    "      [2----)",
                    "       /",
                    "  [0----)",
                    "       \\",
                    "      [1----)"
                ),
                vec![2, 0, 1]
            ), (
                format!("{}\n{}\n{}\n{}\n{}\n",
                    "          [2----)",
                    "           /",
                    "      [1----)",
                    "       /",
                    "  [0----)"
                ),
                vec![2, 1, 0]
            )
        ]
    ];
    let cases = vec![(
            format!("{}\n{}\n{}\n",
                "  [-----------------)",
                "                      -> -------------------",
                "  [0----|1----|2----)"
            ),
            Interval::new(0, 18),
            vec![
                (Interval::new(0, 6), 0),
                (Interval::new(6, 12), 1),
                (Interval::new(12, 18), 2)
            ],
            vec![],
        ), (
            format!("{}\n{}\n{}\n",
                "  [--------------)---",
                "                      -> ---------------[2-)",
                "  [0----|1----|2----)"
            ),
            Interval::new(0, 15),
            vec![
                (Interval::new(0, 6), 0),
                (Interval::new(6, 12), 1),
                (Interval::new(12, 18), 2)
            ],
            vec![
                (Interval::new(15, 18), 2)
            ],
        ), (
            format!("{}\n{}\n{}\n",
                "  [-----------)------",
                "                      -> ------------[2----)",
                "  [0----|1----|2----)"
            ),
            Interval::new(0, 12),
            vec![
                (Interval::new(0, 6), 0),
                (Interval::new(6, 12), 1),
                (Interval::new(12, 18), 2)
            ],
            vec![
                (Interval::new(12, 18), 2)
            ],
        ), (
            format!("{}\n{}\n{}\n",
                "  [--------)---------",
                "                      -> ---------[1-|2----)",
                "  [0----|1----|2----)"
            ),
            Interval::new(0, 9),
            vec![
                (Interval::new(0, 6), 0),
                (Interval::new(6, 12), 1),
                (Interval::new(12, 18), 2)
            ],
            vec![
                (Interval::new(9, 12), 1),
                (Interval::new(12, 18), 2)
            ],
        ), (
            format!("{}\n{}\n{}\n",
                "  [-----)------------",
                "                      -> ------[1----|2----)",
                "  [0----|1----|2----)"
            ),
            Interval::new(0, 6),
            vec![
                (Interval::new(0, 6), 0),
                (Interval::new(6, 12), 1),
                (Interval::new(12, 18), 2)
            ],
            vec![
                (Interval::new(6, 12), 1),
                (Interval::new(12, 18), 2)
            ],
        ), (
            format!("{}\n{}\n{}\n",
                "  [--)---------------",
                "                      -> ---[0-|1----|2----)",
                "  [0----|1----|2----)"
            ),
            Interval::new(0, 3),
            vec![
                (Interval::new(0, 6), 0),
                (Interval::new(6, 12), 1),
                (Interval::new(12, 18), 2)
            ],
            vec![
                (Interval::new(3, 6), 0),
                (Interval::new(6, 12), 1),
                (Interval::new(12, 18), 2)
            ],
        ), (
            format!("{}\n{}\n{}\n",
                "  |------------------",
                "                      -> [0----|1----|2----)",
                "  [0----|1----|2----)"
            ),
            Interval::new(0, 0),
            vec![
                (Interval::new(0, 6), 0),
                (Interval::new(6, 12), 1),
                (Interval::new(12, 18), 2)
            ],
            vec![
                (Interval::new(0, 6), 0),
                (Interval::new(6, 12), 1),
                (Interval::new(12, 18), 2)
            ],
        ), (
            format!("{}\n{}\n{}\n",
                "  ---[--------------)",
                "                      -> [0-)---------------",
                "  [0----|1----|2----)"
            ),
            Interval::new(3, 18),
            vec![
                (Interval::new(0, 6), 0),
                (Interval::new(6, 12), 1),
                (Interval::new(12, 18), 2)
            ],
            vec![
                (Interval::new(0, 3), 0)
            ],
        ), (
            format!("{}\n{}\n{}\n",
                "  ---[-----------)---",
                "                      -> [0-)-----------[2-)",
                "  [0----|1----|2----)"
            ),
            Interval::new(3, 15),
            vec![
                (Interval::new(0, 6), 0),
                (Interval::new(6, 12), 1),
                (Interval::new(12, 18), 2)
            ],
            vec![
                (Interval::new(0, 3), 0),
                (Interval::new(15, 18), 2)
            ],
        ), (
            format!("{}\n{}\n{}\n",
                "  ---[--------)------",
                "                      -> [0-)--------[2----)",
                "  [0----|1----|2----)"
            ),
            Interval::new(3, 12),
            vec![
                (Interval::new(0, 6), 0),
                (Interval::new(6, 12), 1),
                (Interval::new(12, 18), 2)
            ],
            vec![
                (Interval::new(0, 3), 0),
                (Interval::new(12, 18), 2)
            ],
        ), (
            format!("{}\n{}\n{}\n",
                "  ---[-----)---------",
                "                      -> [0-)-----[1-|2----)",
                "  [0----|1----|2----)"
            ),
            Interval::new(3, 9),
            vec![
                (Interval::new(0, 6), 0),
                (Interval::new(6, 12), 1),
                (Interval::new(12, 18), 2)
            ],
            vec![
                (Interval::new(0, 3), 0),
                (Interval::new(9, 12), 1),
                (Interval::new(12, 18), 2)
            ],
        ), (
            format!("{}\n{}\n{}\n",
                "  ---[--)------------",
                "                      -> [0-)--[1----|2----)",
                "  [0----|1----|2----)"
            ),
            Interval::new(3, 6),
            vec![
                (Interval::new(0, 6), 0),
                (Interval::new(6, 12), 1),
                (Interval::new(12, 18), 2)
            ],
            vec![
                (Interval::new(0, 3), 0),
                (Interval::new(6, 12), 1),
                (Interval::new(12, 18), 2)
            ],
        ), (
            format!("{}\n{}\n{}\n",
                "  --[-)--------------",
                "                      -> [0)-[0|1----|2----)",
                "  [0----|1----|2----)"
            ),
            Interval::new(2, 4),
            vec![
                (Interval::new(0, 6), 0),
                (Interval::new(6, 12), 1),
                (Interval::new(12, 18), 2)
            ],
            vec![
                (Interval::new(0, 2), 0),
                (Interval::new(4, 6), 0),
                (Interval::new(6, 12), 1),
                (Interval::new(12, 18), 2)
            ],
        ), (
            format!("{}\n{}\n{}\n",
                "  ---|---------------",
                "                      -> [0----|1----|2----)",
                "  [0----|1----|2----)"
            ),
            Interval::new(3, 3),
            vec![
                (Interval::new(0, 6), 0),
                (Interval::new(6, 12), 1),
                (Interval::new(12, 18), 2)
            ],
            vec![
                (Interval::new(0, 3), 0),
                (Interval::new(3, 6), 0),
                (Interval::new(6, 12), 1),
                (Interval::new(12, 18), 2)
            ],
        ), (
            format!("{}\n{}\n{}\n",
                "  ------[-----------)",
                "                      -> [0----)------------",
                "  [0----|1----|2----)"
            ),
            Interval::new(6, 18),
            vec![
                (Interval::new(0, 6), 0),
                (Interval::new(6, 12), 1),
                (Interval::new(12, 18), 2)
            ],
            vec![
                (Interval::new(0, 6), 0)
            ],
        ), (
            format!("{}\n{}\n{}\n",
                "  ------[--------)---",
                "                      -> [0----)--------[2-)",
                "  [0----|1----|2----)"
            ),
            Interval::new(6, 15),
            vec![
                (Interval::new(0, 6), 0),
                (Interval::new(6, 12), 1),
                (Interval::new(12, 18), 2)
            ],
            vec![
                (Interval::new(0, 6), 0),
                (Interval::new(15, 18), 2)
            ],
        ), (
            format!("{}\n{}\n{}\n",
                "  ------[-----)------",
                "                      -> [0----)-----[2----)",
                "  [0----|1----|2----)"
            ),
            Interval::new(6, 12),
            vec![
                (Interval::new(0, 6), 0),
                (Interval::new(6, 12), 1),
                (Interval::new(12, 18), 2)
            ],
            vec![
                (Interval::new(0, 6), 0),
                (Interval::new(12, 18), 2)
            ],
        ), (
            format!("{}\n{}\n{}\n",
                "  ------[--)---------",
                "                      -> [0----)--[1-|2----)",
                "  [0----|1----|2----)"
            ),
            Interval::new(6, 9),
            vec![
                (Interval::new(0, 6), 0),
                (Interval::new(6, 12), 1),
                (Interval::new(12, 18), 2)
            ],
            vec![
                (Interval::new(0, 6), 0),
                (Interval::new(9, 12), 1),
                (Interval::new(12, 18), 2)
            ],
        ), (
            format!("{}\n{}\n{}\n",
                "  ------|------------",
                "                      -> [0----|1----|2----)",
                "  [0----|1----|2----)"
            ),
            Interval::new(6, 6),
            vec![
                (Interval::new(0, 6), 0),
                (Interval::new(6, 12), 1),
                (Interval::new(12, 18), 2)
            ],
            vec![
                (Interval::new(0, 6), 0),
                (Interval::new(6, 12), 1),
                (Interval::new(12, 18), 2)
            ],
        ), (
            format!("{}\n{}\n{}\n",
                "  [-----------------)",
                "                      -> -------------------",
                "  ------[1----|2----)"
            ),
            Interval::new(0, 18),
            vec![
                (Interval::new(6, 12), 1),
                (Interval::new(12, 18), 2)
            ],
            vec![],
        ), (
            format!("{}\n{}\n{}\n",
                "  [--------------)---",
                "                      -> ---------------[2-)",
                "  ------[1----|2----)"
            ),
            Interval::new(0, 15),
            vec![
                (Interval::new(6, 12), 1),
                (Interval::new(12, 18), 2)
            ],
            vec![
                (Interval::new(15, 18), 2)
            ],
        ), (
            format!("{}\n{}\n{}\n",
                "  [-----------)------",
                "                      -> ------------[2----)",
                "  ------[1----|2----)"
            ),
            Interval::new(0, 12),
            vec![
                (Interval::new(6, 12), 1),
                (Interval::new(12, 18), 2)
            ],
            vec![
                (Interval::new(12, 18), 2)
            ],
        ), (
            format!("{}\n{}\n{}\n",
                "  [--------)---------",
                "                      -> ---------[1-|2----)",
                "  ------[1----|2----)"
            ),
            Interval::new(0, 9),
            vec![
                (Interval::new(6, 12), 1),
                (Interval::new(12, 18), 2)
            ],
            vec![
                (Interval::new(9, 12), 1),
                (Interval::new(12, 18), 2)
            ],
        ), (
            format!("{}\n{}\n{}\n",
                "  [-----)------------",
                "                      -> ------[1----|2----)",
                "  ------[1----|2----)"
            ),
            Interval::new(0, 6),
            vec![
                (Interval::new(6, 12), 1),
                (Interval::new(12, 18), 2)
            ],
            vec![
                (Interval::new(6, 12), 1),
                (Interval::new(12, 18), 2)
            ],
        ), (
            format!("{}\n{}\n{}\n",
                "  [--)---------------",
                "                      -> ------[1----|2----)",
                "  ------[1----|2----)"
            ),
            Interval::new(0, 3),
            vec![
                (Interval::new(6, 12), 1),
                (Interval::new(12, 18), 2)
            ],
            vec![
                (Interval::new(6, 12), 1),
                (Interval::new(12, 18), 2)
            ],
        ), (
            format!("{}\n{}\n{}\n",
                "  |------------------",
                "                      -> ------[1----|2----)",
                "  ------[1----|2----)"
            ),
            Interval::new(0, 0),
            vec![
                (Interval::new(6, 12), 1),
                (Interval::new(12, 18), 2)
            ],
            vec![
                (Interval::new(6, 12), 1),
                (Interval::new(12, 18), 2)
            ],
        ), (
            format!("{}\n{}\n{}\n",
                "  [-----------------)",
                "                      -> -------------------",
                "  [0----)-----[2----)"
            ),
            Interval::new(0, 18),
            vec![
                (Interval::new(0, 6), 0),
                (Interval::new(12, 18), 2)
            ],
            vec![],
        ), (
            format!("{}\n{}\n{}\n",
                "  [--------------)---",
                "                      -> ---------------[2-)",
                "  [0----)-----[2----)"
            ),
            Interval::new(0, 15),
            vec![
                (Interval::new(0, 6), 0),
                (Interval::new(12, 18), 2)
            ],
            vec![
                (Interval::new(15, 18), 2)
            ],
        ), (
            format!("{}\n{}\n{}\n",
                "  [-----------)------",
                "                      -> ------------[2----)",
                "  [0----)-----[2----)"
            ),
            Interval::new(0, 12),
            vec![
                (Interval::new(0, 6), 0),
                (Interval::new(12, 18), 2)
            ],
            vec![
                (Interval::new(12, 18), 2)
            ],
        ), (
            format!("{}\n{}\n{}\n",
                "  [--------)---------",
                "                      -> ------------[2----)",
                "  [0----)-----[2----)"
            ),
            Interval::new(0, 9),
            vec![
                (Interval::new(0, 6), 0),
                (Interval::new(12, 18), 2)
            ],
            vec![
                (Interval::new(12, 18), 2)
            ],
        ), (
            format!("{}\n{}\n{}\n",
                "  ---[--------------)",
                "                      -> [0-)---------------",
                "  [0----)-----[2----)"
            ),
            Interval::new(3, 18),
            vec![
                (Interval::new(0, 6), 0),
                (Interval::new(12, 18), 2)
            ],
            vec![
                (Interval::new(0, 3), 0)
            ],
        ), (
            format!("{}\n{}\n{}\n",
                "  ---[-----------)---",
                "                      -> [0-)-----------[2-)",
                "  [0----)-----[2----)"
            ),
            Interval::new(3, 15),
            vec![
                (Interval::new(0, 6), 0),
                (Interval::new(12, 18), 2)
            ],
            vec![
                (Interval::new(0, 3), 0),
                (Interval::new(15, 18), 2)
            ],
        ), (
            format!("{}\n{}\n{}\n",
                "  ---[--------)------",
                "                      -> [0-)--------[2----)",
                "  [0----)-----[2----)"
            ),
            Interval::new(3, 12),
            vec![
                (Interval::new(0, 6), 0),
                (Interval::new(12, 18), 2)
            ],
            vec![
                (Interval::new(0, 3), 0),
                (Interval::new(12, 18), 2)
            ],
        ), (
            format!("{}\n{}\n{}\n",
                "  ---[-----)---------",
                "                      -> [0-)--------[2----)",
                "  [0----)-----[2----)"
            ),
            Interval::new(3, 9),
            vec![
                (Interval::new(0, 6), 0),
                (Interval::new(12, 18), 2)
            ],
            vec![
                (Interval::new(0, 3), 0),
                (Interval::new(12, 18), 2)
            ],
        ), (
            format!("{}\n{}\n{}\n",
                "  [-----------------)",
                "                      -> -------------------",
                "  [0----|1----)------"
            ),
            Interval::new(0, 18),
            vec![
                (Interval::new(0, 6), 0),
                (Interval::new(6, 12), 1)
            ],
            vec![],
        ), (
            format!("{}\n{}\n{}\n",
                "  [--------------)---",
                "                      -> -------------------",
                "  [0----|1----)------"
            ),
            Interval::new(0, 15),
            vec![
                (Interval::new(0, 6), 0),
                (Interval::new(6, 12), 1)
            ],
            vec![],
        ), (
            format!("{}\n{}\n{}\n",
                "  ---[--------------)",
                "                      -> [0-)---------------",
                "  [0----|1----)------"
            ),
            Interval::new(3, 18),
            vec![
                (Interval::new(0, 6), 0),
                (Interval::new(6, 12), 1)
            ],
            vec![
                (Interval::new(0, 3), 0)
            ],
        ), (
            format!("{}\n{}\n{}\n",
                "  [-----------------)",
                "                      -> -------------------",
                "  ------[1----)------"
            ),
            Interval::new(0, 18),
            vec![
                (Interval::new(6, 12), 1)
            ],
            vec![],
        ),
    ];
    for (case_description, update_interval, insert_intervals, expected_intervals) in cases {
        for (permutation_description, indices) in &permutations[insert_intervals.len()] {
            let mut interval_map = IntervalMap::new();
            for &index in indices {
                let (insert_interval, insert_value) = insert_intervals[index];
                interval_map.insert(insert_interval, insert_value);
            }
            interval_map.update(&update_interval, |_| None);
            assert_eq!(expected_intervals, interval_map.into_iter().collect::<Vec<_>>(), "\npermutation:\n\n{}\ncase:\n\n{}\n", permutation_description, case_description);
        }
    }
}
