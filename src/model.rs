//! The abstract content of a segment map: a `Map` from stored segments to values,
//! and what removal does to it.
use vstd::prelude::*;

use crate::segment::Segment;

verus! {

/// Every stored segment is valid and any two of them are disjoint.
pub open spec fn disjoint_keys<V>(m: Map<Segment, V>) -> bool {
    &&& forall|s: Segment| #[trigger] m.contains_key(s) ==> s.is_valid()
    &&& forall|s1: Segment, s2: Segment|
        #[trigger] m.contains_key(s1) && #[trigger] m.contains_key(s2) && s1 != s2 ==> s1.disjoint(
            s2,
        )
}

/// `x` may be added beside every stored segment of `m`.
pub open spec fn fits<V>(m: Map<Segment, V>, x: Segment) -> bool {
    &&& x.is_valid()
    &&& forall|s: Segment| #[trigger] m.contains_key(s) ==> x.disjoint(s)
}

/// `t` cuts the stored segment `s`: `s` is not empty and overlaps `t` past its
/// ends (an empty `t` strictly inside `s` cuts it in two), or `s` is `t` itself.
pub open spec fn cuts(t: Segment, s: Segment) -> bool {
    (s.lower < s.upper && s.lower < t.upper && t.lower < s.upper) || s == t
}

/// `s` starts below `t.lower` and runs past it: its part below `t` survives.
pub open spec fn holds_lower_end(t: Segment, s: Segment) -> bool {
    s.lower < t.lower && t.lower < s.upper
}

/// `s` starts below `t.upper` and runs past it: its part above `t` survives.
pub open spec fn holds_upper_end(t: Segment, s: Segment) -> bool {
    s.lower < t.upper && t.upper < s.upper
}

/// The entries of `m` that removing `t` leaves as they are.
pub open spec fn kept<V>(m: Map<Segment, V>, t: Segment) -> Map<Segment, V> {
    Map::new(|k: Segment| m.contains_key(k) && !cuts(t, k), |k: Segment| m[k])
}

/// The entry of `m` that holds the lower end of `t`, where there is one.
pub open spec fn lower_holder<V>(m: Map<Segment, V>, t: Segment) -> Segment {
    choose|s: Segment| m.contains_key(s) && holds_lower_end(t, s)
}

/// The entry of `m` that holds the upper end of `t`, where there is one.
pub open spec fn upper_holder<V>(m: Map<Segment, V>, t: Segment) -> Segment {
    choose|s: Segment| m.contains_key(s) && holds_upper_end(t, s)
}

/// `m` with every part of `t` erased: the entries that `t` cuts are taken out, and
/// the parts of them below and above `t` come back with the same value.
pub open spec fn removed<V>(m: Map<Segment, V>, t: Segment) -> Map<Segment, V> {
    let with_lower = if exists|s: Segment| m.contains_key(s) && holds_lower_end(t, s) {
        let s = lower_holder(m, t);
        kept(m, t).insert(lower_part(s, t), m[s])
    } else {
        kept(m, t)
    };
    if exists|s: Segment| m.contains_key(s) && holds_upper_end(t, s) {
        let s = upper_holder(m, t);
        with_lower.insert(upper_part(s, t), m[s])
    } else {
        with_lower
    }
}

/// The part of `s` below `t`.
pub open spec fn lower_part(s: Segment, t: Segment) -> Segment {
    Segment { lower: s.lower, upper: t.lower }
}

/// The part of `s` above `t`.
pub open spec fn upper_part(s: Segment, t: Segment) -> Segment {
    Segment { lower: t.upper, upper: s.upper }
}

/// At most one stored segment holds each end of `t`.
pub proof fn lemma_holders_unique<V>(m: Map<Segment, V>, t: Segment)
    requires
        disjoint_keys(m),
        t.is_valid(),
    ensures
        forall|s: Segment|
            #[trigger] m.contains_key(s) && holds_lower_end(t, s) ==> lower_holder(m, t) == s,
        forall|s: Segment|
            #[trigger] m.contains_key(s) && holds_upper_end(t, s) ==> upper_holder(m, t) == s,
{
    assert forall|s: Segment|
        #[trigger] m.contains_key(s) && holds_lower_end(t, s) implies lower_holder(m, t) == s by {
        let h = lower_holder(m, t);
        assert(m.contains_key(h) && holds_lower_end(t, h));
    }
    assert forall|s: Segment|
        #[trigger] m.contains_key(s) && holds_upper_end(t, s) implies upper_holder(m, t) == s by {
        let h = upper_holder(m, t);
        assert(m.contains_key(h) && holds_upper_end(t, h));
    }
}

/// What `removed` holds, entry by entry.
pub proof fn lemma_removed<V>(m: Map<Segment, V>, t: Segment)
    requires
        disjoint_keys(m),
        t.is_valid(),
    ensures
        forall|k: Segment| #[trigger]
            removed(m, t).contains_key(k) <==> (m.contains_key(k) && !cuts(t, k)) || (exists|s: Segment|
                m.contains_key(s) && holds_lower_end(t, s) && k == lower_part(s, t)) || (exists|
                s: Segment,
            | m.contains_key(s) && holds_upper_end(t, s) && k == upper_part(s, t)),
        forall|k: Segment| #[trigger]
            m.contains_key(k) && !cuts(t, k) ==> removed(m, t)[k] == m[k],
        forall|s: Segment| #[trigger]
            m.contains_key(s) && holds_lower_end(t, s) ==> removed(m, t)[lower_part(s, t)] == m[s],
        forall|s: Segment| #[trigger]
            m.contains_key(s) && holds_upper_end(t, s) ==> removed(m, t)[upper_part(s, t)] == m[s],
{
    lemma_holders_unique(m, t);
    assert forall|s: Segment| #[trigger]
        m.contains_key(s) && holds_lower_end(t, s) implies !m.contains_key(lower_part(s, t)) by {
        if m.contains_key(lower_part(s, t)) {
            assert(lower_part(s, t) != s);
        }
    }
    assert forall|s: Segment| #[trigger]
        m.contains_key(s) && holds_upper_end(t, s) implies !m.contains_key(upper_part(s, t)) by {
        if m.contains_key(upper_part(s, t)) {
            assert(upper_part(s, t) != s);
        }
    }
    assert forall|s1: Segment, s2: Segment|
        m.contains_key(s1) && holds_lower_end(t, s1) && m.contains_key(s2) && holds_upper_end(t, s2)
            implies #[trigger] lower_part(s1, t) != #[trigger] upper_part(s2, t) by {}
}

/// A segment that fits beside every entry of `m` still fits once `t` is removed.
pub proof fn lemma_removed_fits<V>(m: Map<Segment, V>, t: Segment, x: Segment)
    requires
        disjoint_keys(m),
        t.is_valid(),
        fits(m, x),
    ensures
        fits(removed(m, t), x),
{
    lemma_removed(m, t);
    assert forall|k: Segment| #[trigger] removed(m, t).contains_key(k) implies x.disjoint(k) by {
        if m.contains_key(k) && !cuts(t, k) {
        } else if exists|s: Segment|
            m.contains_key(s) && holds_lower_end(t, s) && k == lower_part(s, t) {
            let s = choose|s: Segment|
                m.contains_key(s) && holds_lower_end(t, s) && k == lower_part(s, t);
            assert(x.disjoint(s));
        } else {
            let s = choose|s: Segment|
                m.contains_key(s) && holds_upper_end(t, s) && k == upper_part(s, t);
            assert(x.disjoint(s));
        }
    }
}

/// Removal leaves valid, pairwise disjoint entries.
pub proof fn lemma_removed_disjoint<V>(m: Map<Segment, V>, t: Segment)
    requires
        disjoint_keys(m),
        t.is_valid(),
    ensures
        disjoint_keys(removed(m, t)),
{
    lemma_removed(m, t);
    let r = removed(m, t);
    assert forall|k: Segment| #[trigger] r.contains_key(k) implies k.is_valid() && (forall|
        j: Segment,
    | #[trigger] kept(m, t).contains_key(j) && j != k ==> k.disjoint(j)) by {
        if m.contains_key(k) && !cuts(t, k) {
            assert forall|j: Segment| #[trigger] kept(m, t).contains_key(j) && j != k implies k.disjoint(j) by {
                assert(m.contains_key(j));
            }
        } else if exists|s: Segment|
            m.contains_key(s) && holds_lower_end(t, s) && k == lower_part(s, t) {
            let s = choose|s: Segment|
                m.contains_key(s) && holds_lower_end(t, s) && k == lower_part(s, t);
            assert forall|j: Segment| #[trigger] kept(m, t).contains_key(j) && j != k implies k.disjoint(j) by {
                assert(m.contains_key(j));
                assert(j != s);
                assert(s.disjoint(j));
            }
        } else {
            let s = choose|s: Segment|
                m.contains_key(s) && holds_upper_end(t, s) && k == upper_part(s, t);
            assert forall|j: Segment| #[trigger] kept(m, t).contains_key(j) && j != k implies k.disjoint(j) by {
                assert(m.contains_key(j));
                assert(j != s);
                assert(s.disjoint(j));
            }
        }
    }
    assert forall|k1: Segment, k2: Segment|
        #[trigger] r.contains_key(k1) && #[trigger] r.contains_key(k2) && k1 != k2 implies k1.disjoint(
        k2,
    ) by {
        if kept(m, t).contains_key(k1) {
            assert(kept(m, t).contains_key(k1));
        } else if kept(m, t).contains_key(k2) {
            assert(kept(m, t).contains_key(k2));
        } else {
        }
    }
}

/// Removal from a union of maps with no common segment is the union of the removals.
pub proof fn lemma_removed_union<V>(a: Map<Segment, V>, b: Map<Segment, V>, t: Segment)
    requires
        disjoint_keys(a.union_prefer_right(b)),
        forall|k: Segment| #[trigger] a.contains_key(k) ==> !b.contains_key(k),
        t.is_valid(),
    ensures
        removed(a.union_prefer_right(b), t) == removed(a, t).union_prefer_right(removed(b, t)),
{
    let m = a.union_prefer_right(b);
    assert forall|k: Segment| #[trigger] a.contains_key(k) implies m.contains_key(k) && m[k] == a[k] by {}
    assert forall|k: Segment| #[trigger] b.contains_key(k) implies m.contains_key(k) && m[k] == b[k] by {}
    lemma_removed(m, t);
    lemma_removed(a, t);
    lemma_removed(b, t);
    lemma_holders_unique(m, t);
    let ra = removed(a, t);
    let rb = removed(b, t);
    let rm = removed(m, t);
    assert forall|k: Segment| #[trigger] rm.contains_key(k) <==> ra.contains_key(k) || rb.contains_key(k) by {
        if exists|s: Segment| m.contains_key(s) && holds_lower_end(t, s) && k == lower_part(s, t) {
            let s = choose|s: Segment| m.contains_key(s) && holds_lower_end(t, s) && k == lower_part(s, t);
            if a.contains_key(s) {} else {}
        }
        if exists|s: Segment| m.contains_key(s) && holds_upper_end(t, s) && k == upper_part(s, t) {
            let s = choose|s: Segment| m.contains_key(s) && holds_upper_end(t, s) && k == upper_part(s, t);
            if a.contains_key(s) {} else {}
        }
        if exists|s: Segment| a.contains_key(s) && holds_lower_end(t, s) && k == lower_part(s, t) {
            let s = choose|s: Segment| a.contains_key(s) && holds_lower_end(t, s) && k == lower_part(s, t);
            assert(m.contains_key(s));
        }
        if exists|s: Segment| a.contains_key(s) && holds_upper_end(t, s) && k == upper_part(s, t) {
            let s = choose|s: Segment| a.contains_key(s) && holds_upper_end(t, s) && k == upper_part(s, t);
            assert(m.contains_key(s));
        }
        if exists|s: Segment| b.contains_key(s) && holds_lower_end(t, s) && k == lower_part(s, t) {
            let s = choose|s: Segment| b.contains_key(s) && holds_lower_end(t, s) && k == lower_part(s, t);
            assert(m.contains_key(s));
        }
        if exists|s: Segment| b.contains_key(s) && holds_upper_end(t, s) && k == upper_part(s, t) {
            let s = choose|s: Segment| b.contains_key(s) && holds_upper_end(t, s) && k == upper_part(s, t);
            assert(m.contains_key(s));
        }
    }
    assert forall|k: Segment| #[trigger] rm.contains_key(k) implies rm[k] == ra.union_prefer_right(rb)[k] by {
        if m.contains_key(k) && !cuts(t, k) {
            if b.contains_key(k) {
                assert(rb.contains_key(k));
            } else {
                assert(a.contains_key(k));
                if rb.contains_key(k) {
                    lemma_origin_b(a, b, t, k);
                }
            }
        } else if exists|s: Segment| m.contains_key(s) && holds_lower_end(t, s) && k == lower_part(s, t) {
            let s = choose|s: Segment| m.contains_key(s) && holds_lower_end(t, s) && k == lower_part(s, t);
            if a.contains_key(s) {
                if rb.contains_key(k) {
                    lemma_origin_b(a, b, t, k);
                }
            }
        } else {
            let s = choose|s: Segment| m.contains_key(s) && holds_upper_end(t, s) && k == upper_part(s, t);
            if a.contains_key(s) {
                if rb.contains_key(k) {
                    lemma_origin_b(a, b, t, k);
                }
            }
        }
    }
    assert(rm =~= ra.union_prefer_right(rb));
}

/// A segment that removal leaves in `b` comes from `b` alone: it is not a segment of
/// `a`, nor a part of one.
proof fn lemma_origin_b<V>(a: Map<Segment, V>, b: Map<Segment, V>, t: Segment, k: Segment)
    requires
        disjoint_keys(a.union_prefer_right(b)),
        forall|j: Segment| #[trigger] a.contains_key(j) ==> !b.contains_key(j),
        t.is_valid(),
        removed(b, t).contains_key(k),
    ensures
        !removed(a, t).contains_key(k),
{
    let m = a.union_prefer_right(b);
    assert forall|j: Segment| #[trigger] a.contains_key(j) implies m.contains_key(j) by {}
    assert forall|j: Segment| #[trigger] b.contains_key(j) implies m.contains_key(j) by {}
    lemma_removed(a, t);
    lemma_removed(b, t);
    lemma_holders_unique(m, t);
    if removed(a, t).contains_key(k) {
        let kb = if b.contains_key(k) && !cuts(t, k) {
            k
        } else if exists|s: Segment| b.contains_key(s) && holds_lower_end(t, s) && k == lower_part(s, t) {
            choose|s: Segment| b.contains_key(s) && holds_lower_end(t, s) && k == lower_part(s, t)
        } else {
            choose|s: Segment| b.contains_key(s) && holds_upper_end(t, s) && k == upper_part(s, t)
        };
        let ka = if a.contains_key(k) && !cuts(t, k) {
            k
        } else if exists|s: Segment| a.contains_key(s) && holds_lower_end(t, s) && k == lower_part(s, t) {
            choose|s: Segment| a.contains_key(s) && holds_lower_end(t, s) && k == lower_part(s, t)
        } else {
            choose|s: Segment| a.contains_key(s) && holds_upper_end(t, s) && k == upper_part(s, t)
        };
        assert(m.contains_key(ka) && m.contains_key(kb) && ka != kb);
        assert(ka.disjoint(kb));
    }
}

/// Removal changes nothing where it cuts no entry.
pub proof fn lemma_removed_none<V>(m: Map<Segment, V>, t: Segment)
    requires
        disjoint_keys(m),
        t.is_valid(),
        forall|k: Segment| #[trigger] m.contains_key(k) ==> !cuts(t, k),
    ensures
        removed(m, t) == m,
{
    lemma_removed(m, t);
    assert(removed(m, t) =~= m);
}

/// Removal depends on the target only through how it meets each entry.
pub proof fn lemma_removed_same<V>(m: Map<Segment, V>, t1: Segment, t2: Segment)
    requires
        disjoint_keys(m),
        t1.is_valid(),
        t2.is_valid(),
        forall|k: Segment| #[trigger]
            m.contains_key(k) ==> {
                &&& cuts(t1, k) == cuts(t2, k)
                &&& holds_lower_end(t1, k) == holds_lower_end(t2, k)
                &&& holds_upper_end(t1, k) == holds_upper_end(t2, k)
                &&& holds_lower_end(t1, k) ==> lower_part(k, t1) == lower_part(k, t2)
                &&& holds_upper_end(t1, k) ==> upper_part(k, t1) == upper_part(k, t2)
            },
    ensures
        removed(m, t1) == removed(m, t2),
{
    lemma_removed(m, t1);
    lemma_removed(m, t2);
    let r1 = removed(m, t1);
    let r2 = removed(m, t2);
    assert forall|k: Segment| #[trigger] r1.contains_key(k) <==> r2.contains_key(k) by {
        if exists|s: Segment| m.contains_key(s) && holds_lower_end(t1, s) && k == lower_part(s, t1) {
            let s = choose|s: Segment| m.contains_key(s) && holds_lower_end(t1, s) && k == lower_part(s, t1);
            assert(m.contains_key(s));
        }
        if exists|s: Segment| m.contains_key(s) && holds_upper_end(t1, s) && k == upper_part(s, t1) {
            let s = choose|s: Segment| m.contains_key(s) && holds_upper_end(t1, s) && k == upper_part(s, t1);
            assert(m.contains_key(s));
        }
        if exists|s: Segment| m.contains_key(s) && holds_lower_end(t2, s) && k == lower_part(s, t2) {
            let s = choose|s: Segment| m.contains_key(s) && holds_lower_end(t2, s) && k == lower_part(s, t2);
            assert(m.contains_key(s));
        }
        if exists|s: Segment| m.contains_key(s) && holds_upper_end(t2, s) && k == upper_part(s, t2) {
            let s = choose|s: Segment| m.contains_key(s) && holds_upper_end(t2, s) && k == upper_part(s, t2);
            assert(m.contains_key(s));
        }
    }
    assert forall|k: Segment| #[trigger] r1.contains_key(k) implies r1[k] == r2[k] by {
        if m.contains_key(k) && !cuts(t1, k) {
        } else if exists|s: Segment| m.contains_key(s) && holds_lower_end(t1, s) && k == lower_part(s, t1) {
            let s = choose|s: Segment| m.contains_key(s) && holds_lower_end(t1, s) && k == lower_part(s, t1);
            assert(m.contains_key(s));
        } else {
            let s = choose|s: Segment| m.contains_key(s) && holds_upper_end(t1, s) && k == upper_part(s, t1);
            assert(m.contains_key(s));
        }
    }
    assert(r1 =~= r2);
}

/// Removal keeps every entry on the side of `x` where it was.
pub proof fn lemma_removed_sides<V>(m: Map<Segment, V>, t: Segment, x: Segment)
    requires
        disjoint_keys(m),
        t.is_valid(),
        x.is_valid(),
    ensures
        (forall|k: Segment| #[trigger] m.contains_key(k) ==> k.before(x)) ==> (forall|k: Segment|
            #[trigger] removed(m, t).contains_key(k) ==> k.before(x)),
        (forall|k: Segment| #[trigger] m.contains_key(k) ==> x.before(k)) ==> (forall|k: Segment|
            #[trigger] removed(m, t).contains_key(k) ==> x.before(k)),
{
    lemma_removed(m, t);
    assert forall|k: Segment| #[trigger] removed(m, t).contains_key(k) implies exists|s: Segment|
        m.contains_key(s) && (s == k || (s.lower <= k.lower && k.lower < k.upper && k.upper <= s.upper)) by {
        if m.contains_key(k) && !cuts(t, k) {
            assert(m.contains_key(k));
        } else if exists|s: Segment| m.contains_key(s) && holds_lower_end(t, s) && k == lower_part(s, t) {
            let s = choose|s: Segment| m.contains_key(s) && holds_lower_end(t, s) && k == lower_part(s, t);
            assert(m.contains_key(s));
        } else {
            let s = choose|s: Segment| m.contains_key(s) && holds_upper_end(t, s) && k == upper_part(s, t);
            assert(m.contains_key(s));
        }
    }
}

/// Removal from a single entry.
pub proof fn lemma_removed_single<V>(s: Segment, v: V, t: Segment)
    requires
        s.is_valid(),
        t.is_valid(),
    ensures
        removed(map![s => v], t) == ({
            let base = if cuts(t, s) { Map::<Segment, V>::empty() } else { map![s => v] };
            let with_lower = if holds_lower_end(t, s) { base.insert(lower_part(s, t), v) } else { base };
            if holds_upper_end(t, s) { with_lower.insert(upper_part(s, t), v) } else { with_lower }
        }),
{
    let m = map![s => v];
    assert(m.contains_key(s));
    lemma_removed(m, t);
    let base = if cuts(t, s) { Map::<Segment, V>::empty() } else { map![s => v] };
    let with_lower = if holds_lower_end(t, s) { base.insert(lower_part(s, t), v) } else { base };
    let r = if holds_upper_end(t, s) { with_lower.insert(upper_part(s, t), v) } else { with_lower };
    assert forall|k: Segment| #[trigger] removed(m, t).contains_key(k) <==> r.contains_key(k) by {
        if holds_lower_end(t, s) && k == lower_part(s, t) {
            assert(m.contains_key(s));
        }
        if holds_upper_end(t, s) && k == upper_part(s, t) {
            assert(m.contains_key(s));
        }
    }
    assert(removed(m, t) =~= r);
}

/// Removal that cuts a stored segment `s`, taken in the order a tree does it: `s`
/// goes, the part of `t` below `s` is removed from what is left, or else the part
/// of `s` below `t` comes back, and the same above.
pub proof fn lemma_removed_cut<V>(
    lm: Map<Segment, V>,
    rm: Map<Segment, V>,
    s: Segment,
    v: V,
    t: Segment,
)
    requires
        disjoint_keys(lm.union_prefer_right(rm).insert(s, v)),
        forall|k: Segment| #[trigger] lm.contains_key(k) ==> k.before(s),
        forall|k: Segment| #[trigger] rm.contains_key(k) ==> s.before(k),
        t.is_valid(),
        cuts(t, s),
    ensures
        s.lower < t.lower ==> fits(lm.union_prefer_right(rm), lower_part(s, t)),
        ({
            let m0 = lm.union_prefer_right(rm);
            let m1 = if t.lower < s.lower {
                removed(m0, Segment { lower: t.lower, upper: s.lower })
            } else if s.lower < t.lower {
                m0.insert(lower_part(s, t), v)
            } else {
                m0
            };
            &&& disjoint_keys(m1)
            &&& t.upper < s.upper ==> fits(m1, upper_part(s, t))
            &&& removed(lm.union_prefer_right(rm).insert(s, v), t) == if s.upper < t.upper {
                removed(m1, Segment { lower: s.upper, upper: t.upper })
            } else if t.upper < s.upper {
                m1.insert(upper_part(s, t), v)
            } else {
                m1
            }
        }),
        ({
            let x = if t.lower < s.lower {
                removed(lm, Segment { lower: t.lower, upper: s.lower })
            } else {
                lm
            };
            let x1 = if s.lower < t.lower { x.insert(lower_part(s, t), v) } else { x };
            let y = if s.upper < t.upper {
                removed(rm, Segment { lower: s.upper, upper: t.upper })
            } else {
                rm
            };
            &&& removed(lm.union_prefer_right(rm).insert(s, v), t) == x1.union_prefer_right(y).union_prefer_right(
                if t.upper < s.upper { map![upper_part(s, t) => v] } else { Map::empty() },
            )
            &&& forall|k: Segment| #[trigger] x1.contains_key(k) ==> k.upper <= s.lower || k == lower_part(s, t)
            &&& forall|k: Segment| #[trigger] y.contains_key(k) ==> s.before(k)
        }),
{
    let m = lm.union_prefer_right(rm).insert(s, v);
    let m0 = lm.union_prefer_right(rm);
    let tl = Segment { lower: t.lower, upper: s.lower };
    let tr = Segment { lower: s.upper, upper: t.upper };
    let one = map![s => v];
    assert forall|k: Segment| #[trigger] lm.contains_key(k) implies !rm.contains_key(k) && k != s
        && m.contains_key(k) by {
        if rm.contains_key(k) {
            assert(k.before(s) && s.before(k));
        }
    }
    assert forall|k: Segment| #[trigger] rm.contains_key(k) implies k != s && m.contains_key(k) by {}
    assert(disjoint_keys(m0));
    assert(disjoint_keys(lm));
    assert(disjoint_keys(rm));
    assert(m =~= m0.union_prefer_right(one));
    assert(m.contains_key(s));
    lemma_removed_union(m0, one, t);
    lemma_removed_union(lm, rm, t);
    lemma_removed_single(s, v, t);
    // what removal leaves on each side of s
    let x = if t.lower < s.lower { removed(lm, tl) } else { lm };
    let y = if s.upper < t.upper { removed(rm, tr) } else { rm };
    if t.lower < s.lower {
        lemma_removed_same(lm, t, tl);
        lemma_removed_union(lm, rm, tl);
        lemma_removed_none(rm, tl);
        lemma_removed_sides(lm, tl, s);
        lemma_removed_disjoint(m0, tl);
    } else {
        lemma_removed_none(lm, t);
    }
    if s.upper < t.upper {
        lemma_removed_same(rm, t, tr);
        lemma_removed_sides(rm, tr, s);
    } else {
        lemma_removed_none(rm, t);
    }
    let lp = lower_part(s, t);
    let up = upper_part(s, t);
    let m1 = if t.lower < s.lower {
        removed(m0, tl)
    } else if s.lower < t.lower {
        m0.insert(lp, v)
    } else {
        m0
    };
    let x1 = if s.lower < t.lower { x.insert(lp, v) } else { x };
    assert(m1 =~= x1.union_prefer_right(rm));
    assert forall|k: Segment| #[trigger] x1.contains_key(k) implies !rm.contains_key(k) && !cuts(tr, k)
        && (k.upper <= s.lower || k == lp) && m1.contains_key(k) by {
        if k != lp || !(s.lower < t.lower) {
            assert(k.before(s));
        }
    }
    assert(disjoint_keys(m1));
    if s.upper < t.upper {
        lemma_removed_union(x1, rm, tr);
        lemma_removed_none(x1, tr);
    }
    let p = removed(one, t);
    assert(removed(m, t) =~= x1.union_prefer_right(y).union_prefer_right(
        if t.upper < s.upper { map![up => v] } else { Map::empty() },
    ));
}

/// Removal that does not cut the stored segment `s` reaches the segments on each
/// side of `s` with the part of `t` on that side.
pub proof fn lemma_removed_descend<V>(
    lm: Map<Segment, V>,
    rm: Map<Segment, V>,
    s: Segment,
    v: V,
    t: Segment,
)
    requires
        disjoint_keys(lm.union_prefer_right(rm).insert(s, v)),
        forall|k: Segment| #[trigger] lm.contains_key(k) ==> k.before(s),
        forall|k: Segment| #[trigger] rm.contains_key(k) ==> s.before(k),
        t.is_valid(),
        !cuts(t, s),
    ensures
        t.upper <= s.lower ==> removed(lm.union_prefer_right(rm).insert(s, v), t) == removed(
            lm,
            t,
        ).union_prefer_right(rm).insert(s, v),
        s.upper <= t.lower ==> removed(lm.union_prefer_right(rm).insert(s, v), t) == lm.union_prefer_right(
            removed(rm, t),
        ).insert(s, v),
        s.lower < t.upper && t.lower < s.upper ==> s.lower == s.upper && removed(
            lm.union_prefer_right(rm).insert(s, v),
            t,
        ) == removed(lm, Segment { lower: t.lower, upper: s.lower }).union_prefer_right(
            removed(rm, Segment { lower: s.upper, upper: t.upper }),
        ).insert(s, v),
        forall|k: Segment| #[trigger]
            removed(lm, t).contains_key(k) ==> k.before(s),
        forall|k: Segment| #[trigger]
            removed(rm, t).contains_key(k) ==> s.before(k),
        forall|k: Segment| #[trigger]
            removed(lm, Segment { lower: t.lower, upper: s.lower }).contains_key(k) ==> k.before(s),
        forall|k: Segment| #[trigger]
            removed(rm, Segment { lower: s.upper, upper: t.upper }).contains_key(k) ==> s.before(k),
{
    let m = lm.union_prefer_right(rm).insert(s, v);
    let tl = Segment { lower: t.lower, upper: s.lower };
    let tr = Segment { lower: s.upper, upper: t.upper };
    let one = map![s => v];
    assert forall|k: Segment| #[trigger] lm.contains_key(k) implies !rm.contains_key(k) && k != s
        && m.contains_key(k) by {
        if rm.contains_key(k) {
            assert(k.before(s) && s.before(k));
        }
    }
    assert forall|k: Segment| #[trigger] rm.contains_key(k) implies k != s && m.contains_key(k) by {}
    assert(m.contains_key(s));
    assert(disjoint_keys(lm));
    assert(disjoint_keys(rm));
    let r1 = rm.insert(s, v);
    assert(m =~= lm.union_prefer_right(r1));
    assert(r1 =~= rm.union_prefer_right(one));
    lemma_removed_union(lm, r1, t);
    lemma_removed_union(rm, one, t);
    lemma_removed_single(s, v, t);
    lemma_removed_sides(lm, t, s);
    lemma_removed_sides(rm, t, s);
    if t.lower <= s.lower {
        lemma_removed_sides(lm, tl, s);
    }
    if s.upper <= t.upper {
        lemma_removed_sides(rm, tr, s);
    }
    if t.upper <= s.lower {
        lemma_removed_none(rm, t);
        assert(removed(m, t) =~= removed(lm, t).union_prefer_right(rm).insert(s, v));
    } else if s.upper <= t.lower {
        lemma_removed_none(lm, t);
        assert(removed(m, t) =~= lm.union_prefer_right(removed(rm, t)).insert(s, v));
    } else {
        lemma_removed_same(lm, t, tl);
        lemma_removed_same(rm, t, tr);
        assert(removed(m, t) =~= removed(lm, tl).union_prefer_right(removed(rm, tr)).insert(s, v));
    }
}

/// The part of the stored segment `s` that `t` covers.
pub open spec fn inner_part(s: Segment, t: Segment) -> Segment {
    Segment { lower: s.max_lower(t), upper: s.min_upper(t) }
}

/// The stored segment `k` stands in the way of a new segment `g`.
pub open spec fn blocks(k: Segment, g: Segment) -> bool {
    (k.lower < g.upper && g.lower < k.upper) || k == g
}

/// `g` is a gap of `t` in `m`: a largest part of `t` that no stored segment blocks.
/// It is empty only where it is the whole of an empty `t`.
pub open spec fn is_gap<V>(m: Map<Segment, V>, t: Segment, g: Segment) -> bool {
    &&& t.lower <= g.lower && g.lower <= g.upper && g.upper <= t.upper
    &&& (g.lower < g.upper || g == t)
    &&& forall|k: Segment| #[trigger] m.contains_key(k) ==> !blocks(k, g)
    &&& (g.lower == t.lower || exists|k: Segment| #[trigger] m.contains_key(k) && k.upper == g.lower)
    &&& (g.upper == t.upper || exists|k: Segment| #[trigger] m.contains_key(k) && k.lower == g.upper)
}

/// `p` is the part that `t` covers of a stored segment that it cuts.
pub open spec fn is_inner<V>(m: Map<Segment, V>, t: Segment, p: Segment) -> bool {
    exists|s: Segment| #[trigger] m.contains_key(s) && cuts(t, s) && p == inner_part(s, t)
}

/// The value that `p` had, where it is the covered part of a stored segment.
pub open spec fn old_value<V>(m: Map<Segment, V>, t: Segment, p: Segment) -> Option<V> {
    if is_inner(m, t, p) {
        Some(m[choose|s: Segment| #[trigger] m.contains_key(s) && cuts(t, s) && p == inner_part(s, t)])
    } else {
        None
    }
}

/// The segments that an update of `t` hands to its function: the covered part of
/// each stored segment that `t` cuts, and each gap of `t`.
pub open spec fn is_piece<V>(m: Map<Segment, V>, t: Segment, p: Segment) -> bool {
    is_inner(m, t, p) || is_gap(m, t, p)
}

/// `r` is what updating `t` in `m` with `f` may give: what removal of `t` leaves,
/// and, for each piece, what `f` returned for it with its old value.
pub open spec fn updated<V, F: Fn(&Segment, Option<V>) -> Option<V>>(
    m: Map<Segment, V>,
    t: Segment,
    f: F,
    r: Map<Segment, V>,
) -> bool {
    &&& forall|k: Segment| #[trigger]
        removed(m, t).contains_key(k) ==> r.contains_key(k) && r[k] == removed(m, t)[k]
    &&& forall|k: Segment| #[trigger]
        r.contains_key(k) ==> removed(m, t).contains_key(k) || is_piece(m, t, k)
    &&& forall|k: Segment| #[trigger]
        is_piece(m, t, k) ==> f.ensures(
            (&k, old_value(m, t, k)),
            if r.contains_key(k) { Some(r[k]) } else { None },
        )
}

/// Each piece lies within `t`, and no piece is a segment that removal of `t` leaves.
pub proof fn lemma_pieces<V>(m: Map<Segment, V>, t: Segment)
    requires
        disjoint_keys(m),
        t.is_valid(),
    ensures
        forall|p: Segment| #[trigger]
            is_piece(m, t, p) ==> t.lower <= p.lower && p.lower <= p.upper && p.upper <= t.upper
                && (p.lower < p.upper || p == t) && !removed(m, t).contains_key(p),
        forall|s: Segment|
            #[trigger] m.contains_key(s) && cuts(t, s) ==> is_inner(m, t, inner_part(s, t))
                && old_value(m, t, inner_part(s, t)) == Some(m[s]),
{
    lemma_removed(m, t);
    assert forall|s: Segment|
        #[trigger] m.contains_key(s) && cuts(t, s) implies is_inner(m, t, inner_part(s, t))
        && old_value(m, t, inner_part(s, t)) == Some(m[s]) by {
        let p = inner_part(s, t);
        let o = choose|o: Segment| #[trigger] m.contains_key(o) && cuts(t, o) && p == inner_part(o, t);
        if o != s {
            assert(o.disjoint(s));
        }
    }
    assert forall|p: Segment| #[trigger] is_piece(m, t, p) implies t.lower <= p.lower && p.lower
        <= p.upper && p.upper <= t.upper && (p.lower < p.upper || p == t) && !removed(
        m,
        t,
    ).contains_key(p) by {
        if is_inner(m, t, p) {
            let s = choose|s: Segment| #[trigger] m.contains_key(s) && cuts(t, s) && p == inner_part(s, t);
            if removed(m, t).contains_key(p) {
                if m.contains_key(p) && !cuts(t, p) {
                    assert(p != s);
                    assert(p.disjoint(s));
                } else if exists|o: Segment|
                    m.contains_key(o) && holds_lower_end(t, o) && p == lower_part(o, t) {
                } else {
                }
            }
        } else {
            if removed(m, t).contains_key(p) {
                if m.contains_key(p) && !cuts(t, p) {
                    assert(!blocks(p, p));
                } else if exists|o: Segment|
                    m.contains_key(o) && holds_lower_end(t, o) && p == lower_part(o, t) {
                } else {
                }
            }
        }
    }
}

/// Updating over no entries: the only piece is the whole target.
pub proof fn lemma_updated_empty<V, F: Fn(&Segment, Option<V>) -> Option<V>>(
    t: Segment,
    f: F,
    r: Map<Segment, V>,
)
    requires
        t.is_valid(),
        f.ensures((&t, None::<V>), if r.contains_key(t) { Some(r[t]) } else { None }),
        forall|k: Segment| #[trigger] r.contains_key(k) ==> k == t,
    ensures
        updated(Map::<Segment, V>::empty(), t, f, r),
{
    let m = Map::<Segment, V>::empty();
    lemma_removed_none(m, t);
    assert(is_gap(m, t, t));
    assert forall|p: Segment| #[trigger] is_piece(m, t, p) implies p == t by {}
    assert(old_value(m, t, t) == None::<V>);
}

/// An update keeps its result on the side of `x` where the entries and the target were.
pub proof fn lemma_updated_sides<V, F: Fn(&Segment, Option<V>) -> Option<V>>(
    m: Map<Segment, V>,
    t: Segment,
    f: F,
    r: Map<Segment, V>,
    x: Segment,
)
    requires
        disjoint_keys(m),
        t.is_valid(),
        x.is_valid(),
        updated(m, t, f, r),
    ensures
        (forall|k: Segment| #[trigger] m.contains_key(k) ==> k.before(x)) && t.before(x) ==> (
        forall|k: Segment| #[trigger] r.contains_key(k) ==> k.before(x)),
        (forall|k: Segment| #[trigger] m.contains_key(k) ==> x.before(k)) && x.before(t) ==> (
        forall|k: Segment| #[trigger] r.contains_key(k) ==> x.before(k)),
{
    lemma_removed_sides(m, t, x);
    lemma_pieces(m, t);
}

/// Entries of a subtree and of its whole tree are the same pieces for a target
/// that only the subtree can meet.
pub proof fn lemma_pieces_within<V>(m: Map<Segment, V>, a: Map<Segment, V>, t: Segment, ta: Segment)
    requires
        disjoint_keys(m),
        t.is_valid(),
        ta.is_valid(),
        forall|k: Segment| #[trigger] a.contains_key(k) ==> m.contains_key(k) && m[k] == a[k],
        forall|k: Segment| #[trigger]
            m.contains_key(k) && !a.contains_key(k) ==> !cuts(t, k) && !blocks(k, ta),
        forall|k: Segment| #[trigger]
            a.contains_key(k) ==> cuts(t, k) == cuts(ta, k) && (cuts(t, k) ==> inner_part(k, t)
                == inner_part(k, ta)),
        forall|g: Segment| #[trigger] is_gap(m, t, g) <==> is_gap(a, ta, g),
    ensures
        forall|p: Segment| #[trigger] is_piece(m, t, p) <==> is_piece(a, ta, p),
        forall|p: Segment| #[trigger] is_piece(m, t, p) ==> old_value(m, t, p) == old_value(a, ta, p),
{
    assert(disjoint_keys(a));
    lemma_pieces(m, t);
    lemma_pieces(a, ta);
    assert forall|p: Segment| #[trigger] is_inner(m, t, p) <==> is_inner(a, ta, p) by {
        if is_inner(m, t, p) {
            let s = choose|s: Segment| #[trigger] m.contains_key(s) && cuts(t, s) && p == inner_part(s, t);
            assert(a.contains_key(s));
        }
        if is_inner(a, ta, p) {
            let s = choose|s: Segment| #[trigger] a.contains_key(s) && cuts(ta, s) && p == inner_part(s, ta);
            assert(m.contains_key(s));
        }
    }
    assert forall|p: Segment| #[trigger] is_piece(m, t, p) implies old_value(m, t, p) == old_value(a, ta, p) by {
        if is_inner(m, t, p) {
            let s = choose|s: Segment| #[trigger] m.contains_key(s) && cuts(t, s) && p == inner_part(s, t);
            assert(a.contains_key(s));
            assert(old_value(m, t, p) == Some(m[s]));
            assert(old_value(a, ta, p) == Some(a[s]));
        }
    }
}

/// An update that does not cut the stored segment `s` reaches the entries on each
/// side of `s` with the part of `t` on that side.
pub proof fn lemma_updated_descend<V, F: Fn(&Segment, Option<V>) -> Option<V>>(
    lm: Map<Segment, V>,
    rm: Map<Segment, V>,
    s: Segment,
    v: V,
    t: Segment,
    f: F,
    lr: Map<Segment, V>,
    rr: Map<Segment, V>,
)
    requires
        disjoint_keys(lm.union_prefer_right(rm).insert(s, v)),
        forall|k: Segment| #[trigger] lm.contains_key(k) ==> k.before(s),
        forall|k: Segment| #[trigger] rm.contains_key(k) ==> s.before(k),
        t.is_valid(),
        !cuts(t, s),
        t.upper <= s.lower ==> updated(lm, t, f, lr) && rr == rm,
        s.upper <= t.lower ==> updated(rm, t, f, rr) && lr == lm,
        s.lower < t.upper && t.lower < s.upper ==> updated(
            lm,
            Segment { lower: t.lower, upper: s.lower },
            f,
            lr,
        ) && updated(rm, Segment { lower: s.upper, upper: t.upper }, f, rr),
    ensures
        updated(lm.union_prefer_right(rm).insert(s, v), t, f, lr.union_prefer_right(rr).insert(s, v)),
        forall|k: Segment| #[trigger] lr.contains_key(k) ==> k.before(s),
        forall|k: Segment| #[trigger] rr.contains_key(k) ==> s.before(k),
{
    let m = lm.union_prefer_right(rm).insert(s, v);
    let res = lr.union_prefer_right(rr).insert(s, v);
    let tl = Segment { lower: t.lower, upper: s.lower };
    let tr = Segment { lower: s.upper, upper: t.upper };
    lemma_removed_descend(lm, rm, s, v, t);
    assert forall|k: Segment| #[trigger] lm.contains_key(k) implies !rm.contains_key(k) && k != s
        && m.contains_key(k) && m[k] == lm[k] by {
        if rm.contains_key(k) {
            assert(k.before(s) && s.before(k));
        }
    }
    assert forall|k: Segment| #[trigger] rm.contains_key(k) implies k != s && m.contains_key(k)
        && m[k] == rm[k] by {}
    assert(m.contains_key(s));
    assert(disjoint_keys(lm));
    assert(disjoint_keys(rm));
    lemma_pieces(m, t);
    if t.upper <= s.lower {
        lemma_updated_sides(lm, t, f, lr, s);
        assert forall|g: Segment| #[trigger] is_gap(m, t, g) <==> is_gap(lm, t, g) by {
            if is_gap(lm, t, g) {
                assert forall|k: Segment| #[trigger] m.contains_key(k) implies !blocks(k, g) by {
                    if !lm.contains_key(k) {
                        assert(k == s || s.before(k));
                    }
                }
            }
            if is_gap(m, t, g) {
                if g.lower != t.lower {
                    let k = choose|k: Segment| #[trigger] m.contains_key(k) && k.upper == g.lower;
                    assert(lm.contains_key(k));
                }
                if g.upper != t.upper {
                    let k = choose|k: Segment| #[trigger] m.contains_key(k) && k.lower == g.upper;
                    assert(lm.contains_key(k));
                }
            }
        }
        lemma_pieces_within(m, lm, t, t);
        lemma_pieces(lm, t);
    } else if s.upper <= t.lower {
        lemma_updated_sides(rm, t, f, rr, s);
        assert forall|g: Segment| #[trigger] is_gap(m, t, g) <==> is_gap(rm, t, g) by {
            if is_gap(rm, t, g) {
                assert forall|k: Segment| #[trigger] m.contains_key(k) implies !blocks(k, g) by {
                    if !rm.contains_key(k) {
                        assert(k == s || k.before(s));
                    }
                }
            }
            if is_gap(m, t, g) {
                if g.lower != t.lower {
                    let k = choose|k: Segment| #[trigger] m.contains_key(k) && k.upper == g.lower;
                    assert(rm.contains_key(k));
                }
                if g.upper != t.upper {
                    let k = choose|k: Segment| #[trigger] m.contains_key(k) && k.lower == g.upper;
                    assert(rm.contains_key(k));
                }
            }
        }
        lemma_pieces_within(m, rm, t, t);
        lemma_pieces(rm, t);
    } else {
        lemma_updated_sides(lm, tl, f, lr, s);
        lemma_updated_sides(rm, tr, f, rr, s);
        lemma_pieces(lm, tl);
        lemma_pieces(rm, tr);
        lemma_pieces_around(lm, rm, s, v, t);
    }
    assert(updated(m, t, f, res));
}

/// Around an empty stored segment strictly inside `t`, the pieces of `t` are those
/// of its part below `s` among the entries below, and of its part above among those above.
proof fn lemma_pieces_around<V>(lm: Map<Segment, V>, rm: Map<Segment, V>, s: Segment, v: V, t: Segment)
    requires
        disjoint_keys(lm.union_prefer_right(rm).insert(s, v)),
        forall|k: Segment| #[trigger] lm.contains_key(k) ==> k.before(s) && !rm.contains_key(k),
        forall|k: Segment| #[trigger] rm.contains_key(k) ==> s.before(k),
        t.is_valid(),
        s.lower == s.upper,
        t.lower < s.lower,
        s.upper < t.upper,
    ensures
        forall|p: Segment| #[trigger]
            is_piece(lm.union_prefer_right(rm).insert(s, v), t, p) <==> is_piece(
                lm,
                Segment { lower: t.lower, upper: s.lower },
                p,
            ) || is_piece(rm, Segment { lower: s.upper, upper: t.upper }, p),
        forall|p: Segment| #[trigger]
            is_piece(lm, Segment { lower: t.lower, upper: s.lower }, p) ==> old_value(
                lm.union_prefer_right(rm).insert(s, v),
                t,
                p,
            ) == old_value(lm, Segment { lower: t.lower, upper: s.lower }, p),
        forall|p: Segment| #[trigger]
            is_piece(rm, Segment { lower: s.upper, upper: t.upper }, p) ==> old_value(
                lm.union_prefer_right(rm).insert(s, v),
                t,
                p,
            ) == old_value(rm, Segment { lower: s.upper, upper: t.upper }, p),
{
    let m = lm.union_prefer_right(rm).insert(s, v);
    let tl = Segment { lower: t.lower, upper: s.lower };
    let tr = Segment { lower: s.upper, upper: t.upper };
    assert forall|k: Segment| #[trigger] lm.contains_key(k) implies k != s && m.contains_key(k)
        && m[k] == lm[k] by {}
    assert forall|k: Segment| #[trigger] rm.contains_key(k) implies k != s && m.contains_key(k)
        && m[k] == rm[k] by {}
    assert(m.contains_key(s));
    assert(disjoint_keys(lm));
    assert(disjoint_keys(rm));
    lemma_pieces(m, t);
    lemma_pieces(lm, tl);
    lemma_pieces(rm, tr);
    assert forall|g: Segment| #[trigger] is_gap(m, t, g) <==> is_gap(lm, tl, g) || is_gap(rm, tr, g) by {
        if is_gap(lm, tl, g) {
            assert forall|k: Segment| #[trigger] m.contains_key(k) implies !blocks(k, g) by {
                if !lm.contains_key(k) {
                    assert(k == s || s.before(k));
                }
            }
            if g.upper != t.upper {
                assert(m.contains_key(s));
            }
        }
        if is_gap(rm, tr, g) {
            assert forall|k: Segment| #[trigger] m.contains_key(k) implies !blocks(k, g) by {
                if !rm.contains_key(k) {
                    assert(k == s || k.before(s));
                }
            }
            if g.lower != t.lower {
                assert(m.contains_key(s));
            }
        }
        if is_gap(m, t, g) {
            assert(!blocks(s, g));
            if g.upper <= s.lower {
                if g.lower != t.lower {
                    let k = choose|k: Segment| #[trigger] m.contains_key(k) && k.upper == g.lower;
                    assert(lm.contains_key(k));
                }
                if g.upper != s.lower {
                    let k = choose|k: Segment| #[trigger] m.contains_key(k) && k.lower == g.upper;
                    assert(lm.contains_key(k));
                }
                assert(is_gap(lm, tl, g));
            } else {
                if g.lower != s.upper {
                    let k = choose|k: Segment| #[trigger] m.contains_key(k) && k.upper == g.lower;
                    assert(rm.contains_key(k));
                }
                if g.upper != t.upper {
                    let k = choose|k: Segment| #[trigger] m.contains_key(k) && k.lower == g.upper;
                    assert(rm.contains_key(k));
                }
                assert(is_gap(rm, tr, g));
            }
        }
    }
    assert forall|p: Segment| #[trigger] is_inner(m, t, p) <==> is_inner(lm, tl, p) || is_inner(rm, tr, p) by {
        if is_inner(m, t, p) {
            let o = choose|o: Segment| #[trigger] m.contains_key(o) && cuts(t, o) && p == inner_part(o, t);
            if lm.contains_key(o) {
                assert(cuts(tl, o) && p == inner_part(o, tl));
            } else {
                assert(rm.contains_key(o));
                assert(cuts(tr, o) && p == inner_part(o, tr));
            }
        }
        if is_inner(lm, tl, p) {
            let o = choose|o: Segment| #[trigger] lm.contains_key(o) && cuts(tl, o) && p == inner_part(o, tl);
            assert(m.contains_key(o) && cuts(t, o) && p == inner_part(o, t));
        }
        if is_inner(rm, tr, p) {
            let o = choose|o: Segment| #[trigger] rm.contains_key(o) && cuts(tr, o) && p == inner_part(o, tr);
            assert(m.contains_key(o) && cuts(t, o) && p == inner_part(o, t));
        }
    }
    assert forall|p: Segment| #[trigger] is_piece(lm, tl, p) implies old_value(m, t, p) == old_value(lm, tl, p) by {
        if is_inner(lm, tl, p) {
            let o = choose|o: Segment| #[trigger] lm.contains_key(o) && cuts(tl, o) && p == inner_part(o, tl);
            assert(m.contains_key(o) && cuts(t, o) && p == inner_part(o, t));
            assert(old_value(m, t, p) == Some(m[o]));
        } else {
            assert(!is_inner(m, t, p)) by {
                if is_inner(m, t, p) {
                    let o = choose|o: Segment| #[trigger] m.contains_key(o) && cuts(t, o) && p == inner_part(o, t);
                    if lm.contains_key(o) {
                        assert(cuts(tl, o) && p == inner_part(o, tl));
                    }
                }
            }
        }
    }
    assert forall|p: Segment| #[trigger] is_piece(rm, tr, p) implies old_value(m, t, p) == old_value(rm, tr, p) by {
        if is_inner(rm, tr, p) {
            let o = choose|o: Segment| #[trigger] rm.contains_key(o) && cuts(tr, o) && p == inner_part(o, tr);
            assert(m.contains_key(o) && cuts(t, o) && p == inner_part(o, t));
            assert(old_value(m, t, p) == Some(m[o]));
        } else {
            assert(!is_inner(m, t, p)) by {
                if is_inner(m, t, p) {
                    let o = choose|o: Segment| #[trigger] m.contains_key(o) && cuts(t, o) && p == inner_part(o, t);
                    if rm.contains_key(o) {
                        assert(cuts(tr, o) && p == inner_part(o, tr));
                    }
                }
            }
        }
    }
}

/// Entries that lie wholly beyond `t` change neither what removing `t` takes nor
/// the pieces of `t`.
pub proof fn lemma_beyond<V>(a: Map<Segment, V>, b: Map<Segment, V>, t: Segment)
    requires
        disjoint_keys(a.union_prefer_right(b)),
        forall|k: Segment| #[trigger] a.contains_key(k) ==> !b.contains_key(k),
        t.is_valid(),
        (forall|k: Segment| #[trigger] b.contains_key(k) ==> t.before(k)) || (forall|k: Segment|
            #[trigger] b.contains_key(k) ==> k.before(t)),
    ensures
        removed(a.union_prefer_right(b), t) == removed(a, t).union_prefer_right(b),
        forall|p: Segment| #[trigger]
            is_piece(a.union_prefer_right(b), t, p) <==> is_piece(a, t, p),
        forall|p: Segment| #[trigger]
            is_piece(a.union_prefer_right(b), t, p) ==> old_value(a.union_prefer_right(b), t, p)
                == old_value(a, t, p),
{
    let m = a.union_prefer_right(b);
    assert forall|k: Segment| #[trigger] a.contains_key(k) implies m.contains_key(k) && m[k] == a[k] by {}
    assert forall|k: Segment| #[trigger] b.contains_key(k) implies m.contains_key(k) && m[k] == b[k] by {}
    assert(disjoint_keys(a));
    assert(disjoint_keys(b));
    assert forall|k: Segment| #[trigger] b.contains_key(k) implies !cuts(t, k) && !blocks(k, t) by {}
    lemma_removed_union(a, b, t);
    lemma_removed_none(b, t);
    assert forall|g: Segment| #[trigger] is_gap(m, t, g) <==> is_gap(a, t, g) by {
        if is_gap(a, t, g) {
            assert forall|k: Segment| #[trigger] m.contains_key(k) implies !blocks(k, g) by {
                if b.contains_key(k) {
                    assert(t.before(k) || k.before(t));
                }
            }
        }
        if is_gap(m, t, g) {
            if g.lower != t.lower {
                let k = choose|k: Segment| #[trigger] m.contains_key(k) && k.upper == g.lower;
                if b.contains_key(k) {
                    assert(t.before(k) || k.before(t));
                }
            }
            if g.upper != t.upper {
                let k = choose|k: Segment| #[trigger] m.contains_key(k) && k.lower == g.upper;
                if b.contains_key(k) {
                    assert(t.before(k) || k.before(t));
                }
            }
        }
    }
    lemma_pieces_within(m, a, t, t);
}

/// The pieces of a target that cuts the stored segment `s`: the part of `s` that it
/// covers, and the pieces of its parts below and above `s`.
proof fn lemma_pieces_cut<V>(lm: Map<Segment, V>, rm: Map<Segment, V>, s: Segment, v: V, t: Segment)
    requires
        disjoint_keys(lm.union_prefer_right(rm).insert(s, v)),
        forall|k: Segment| #[trigger] lm.contains_key(k) ==> k.before(s) && !rm.contains_key(k),
        forall|k: Segment| #[trigger] rm.contains_key(k) ==> s.before(k),
        t.is_valid(),
        cuts(t, s),
    ensures
        ({
            let m = lm.union_prefer_right(rm).insert(s, v);
            let tl = Segment { lower: t.lower, upper: s.lower };
            let tr = Segment { lower: s.upper, upper: t.upper };
            &&& forall|p: Segment| #[trigger]
                is_piece(m, t, p) <==> p == inner_part(s, t) || (t.lower < s.lower && is_piece(lm, tl, p))
                    || (s.upper < t.upper && is_piece(rm, tr, p))
            &&& is_piece(m, t, inner_part(s, t)) && old_value(m, t, inner_part(s, t)) == Some(v)
            &&& t.lower < s.lower ==> forall|p: Segment| #[trigger]
                is_piece(lm, tl, p) ==> old_value(m, t, p) == old_value(lm, tl, p) && p.before(
                    inner_part(s, t),
                ) && p.upper <= s.lower
            &&& s.upper < t.upper ==> forall|p: Segment| #[trigger]
                is_piece(rm, tr, p) ==> old_value(m, t, p) == old_value(rm, tr, p) && inner_part(
                    s,
                    t,
                ).before(p) && s.upper <= p.lower
        }),
{
    let m = lm.union_prefer_right(rm).insert(s, v);
    let tl = Segment { lower: t.lower, upper: s.lower };
    let tr = Segment { lower: s.upper, upper: t.upper };
    let i = inner_part(s, t);
    assert forall|k: Segment| #[trigger] lm.contains_key(k) implies k != s && m.contains_key(k)
        && m[k] == lm[k] by {}
    assert forall|k: Segment| #[trigger] rm.contains_key(k) implies k != s && m.contains_key(k)
        && m[k] == rm[k] by {}
    assert(m.contains_key(s));
    assert(disjoint_keys(lm));
    assert(disjoint_keys(rm));
    lemma_pieces(m, t);
    if t.lower < s.lower {
        lemma_pieces(lm, tl);
    }
    if s.upper < t.upper {
        lemma_pieces(rm, tr);
    }
    assert forall|g: Segment| #[trigger] is_gap(m, t, g) <==> (t.lower < s.lower && is_gap(lm, tl, g)) || (
    s.upper < t.upper && is_gap(rm, tr, g)) by {
        if t.lower < s.lower && is_gap(lm, tl, g) {
            assert forall|k: Segment| #[trigger] m.contains_key(k) implies !blocks(k, g) by {
                if !lm.contains_key(k) {
                    assert(k == s || s.before(k));
                }
            }
            if g.upper != t.upper {
                assert(m.contains_key(s));
            }
        }
        if s.upper < t.upper && is_gap(rm, tr, g) {
            assert forall|k: Segment| #[trigger] m.contains_key(k) implies !blocks(k, g) by {
                if !rm.contains_key(k) {
                    assert(k == s || k.before(s));
                }
            }
            if g.lower != t.lower {
                assert(m.contains_key(s));
            }
        }
        if is_gap(m, t, g) {
            assert(!blocks(s, g));
            if g.upper <= s.lower {
                if g.lower != t.lower {
                    let k = choose|k: Segment| #[trigger] m.contains_key(k) && k.upper == g.lower;
                    assert(lm.contains_key(k));
                }
                if g.upper != s.lower {
                    let k = choose|k: Segment| #[trigger] m.contains_key(k) && k.lower == g.upper;
                    assert(lm.contains_key(k));
                }
                assert(is_gap(lm, tl, g));
            } else {
                if g.lower != s.upper {
                    let k = choose|k: Segment| #[trigger] m.contains_key(k) && k.upper == g.lower;
                    assert(rm.contains_key(k));
                }
                if g.upper != t.upper {
                    let k = choose|k: Segment| #[trigger] m.contains_key(k) && k.lower == g.upper;
                    assert(rm.contains_key(k));
                }
                assert(is_gap(rm, tr, g));
            }
        }
    }
    assert forall|p: Segment| #[trigger] is_inner(m, t, p) <==> p == i || (t.lower < s.lower
        && is_inner(lm, tl, p)) || (s.upper < t.upper && is_inner(rm, tr, p)) by {
        if is_inner(m, t, p) {
            let o = choose|o: Segment| #[trigger] m.contains_key(o) && cuts(t, o) && p == inner_part(o, t);
            if lm.contains_key(o) {
                assert(cuts(tl, o) && p == inner_part(o, tl));
            } else if rm.contains_key(o) {
                assert(cuts(tr, o) && p == inner_part(o, tr));
            }
        }
        if t.lower < s.lower && is_inner(lm, tl, p) {
            let o = choose|o: Segment| #[trigger] lm.contains_key(o) && cuts(tl, o) && p == inner_part(o, tl);
            assert(m.contains_key(o) && cuts(t, o) && p == inner_part(o, t));
        }
        if s.upper < t.upper && is_inner(rm, tr, p) {
            let o = choose|o: Segment| #[trigger] rm.contains_key(o) && cuts(tr, o) && p == inner_part(o, tr);
            assert(m.contains_key(o) && cuts(t, o) && p == inner_part(o, t));
        }
    }
    if t.lower < s.lower {
        assert forall|p: Segment| #[trigger] is_piece(lm, tl, p) implies old_value(m, t, p) == old_value(
            lm,
            tl,
            p,
        ) && p.before(i) && p.upper <= s.lower by {
            if is_inner(lm, tl, p) {
                let o = choose|o: Segment| #[trigger] lm.contains_key(o) && cuts(tl, o) && p == inner_part(o, tl);
                assert(m.contains_key(o) && cuts(t, o) && p == inner_part(o, t));
                assert(old_value(m, t, p) == Some(m[o]));
            } else {
                assert(!is_inner(m, t, p)) by {
                    if is_inner(m, t, p) {
                        let o = choose|o: Segment| #[trigger] m.contains_key(o) && cuts(t, o) && p == inner_part(o, t);
                        if lm.contains_key(o) {
                            assert(cuts(tl, o) && p == inner_part(o, tl));
                        }
                    }
                }
            }
        }
    }
    if s.upper < t.upper {
        assert forall|p: Segment| #[trigger] is_piece(rm, tr, p) implies old_value(m, t, p) == old_value(
            rm,
            tr,
            p,
        ) && i.before(p) && s.upper <= p.lower by {
            if is_inner(rm, tr, p) {
                let o = choose|o: Segment| #[trigger] rm.contains_key(o) && cuts(tr, o) && p == inner_part(o, tr);
                assert(m.contains_key(o) && cuts(t, o) && p == inner_part(o, t));
                assert(old_value(m, t, p) == Some(m[o]));
            } else {
                assert(!is_inner(m, t, p)) by {
                    if is_inner(m, t, p) {
                        let o = choose|o: Segment| #[trigger] m.contains_key(o) && cuts(t, o) && p == inner_part(o, t);
                        if rm.contains_key(o) {
                            assert(cuts(tr, o) && p == inner_part(o, tr));
                        }
                    }
                }
            }
        }
    }
}

/// Updating a target that cuts the stored segment `s`, in the order a tree does it:
/// `s` goes, its covered part gets what `f` gives for it, the part of `t` below `s`
/// is updated in what is left (or else the part of `s` below `t` comes back), and
/// the same above.
pub proof fn lemma_updated_cut<V, F: Fn(&Segment, Option<V>) -> Option<V>>(
    lm: Map<Segment, V>,
    rm: Map<Segment, V>,
    s: Segment,
    v: V,
    t: Segment,
    f: F,
    oi: Option<V>,
    m1: Map<Segment, V>,
    m2: Map<Segment, V>,
)
    requires
        disjoint_keys(lm.union_prefer_right(rm).insert(s, v)),
        forall|k: Segment| #[trigger] lm.contains_key(k) ==> k.before(s),
        forall|k: Segment| #[trigger] rm.contains_key(k) ==> s.before(k),
        t.is_valid(),
        cuts(t, s),
        f.ensures((&inner_part(s, t), Some(v)), oi),
        ({
            let m0 = lm.union_prefer_right(rm);
            let mi = if oi is Some { m0.insert(inner_part(s, t), oi.unwrap()) } else { m0 };
            &&& disjoint_keys(m1)
            &&& t.lower < s.lower ==> updated(mi, Segment { lower: t.lower, upper: s.lower }, f, m1)
            &&& !(t.lower < s.lower) ==> m1 == if s.lower < t.lower {
                mi.insert(lower_part(s, t), v)
            } else {
                mi
            }
            &&& s.upper < t.upper ==> updated(m1, Segment { lower: s.upper, upper: t.upper }, f, m2)
            &&& !(s.upper < t.upper) ==> m2 == if t.upper < s.upper {
                m1.insert(upper_part(s, t), v)
            } else {
                m1
            }
        }),
    ensures
        updated(lm.union_prefer_right(rm).insert(s, v), t, f, m2),
{
    let m = lm.union_prefer_right(rm).insert(s, v);
    let m0 = lm.union_prefer_right(rm);
    let i = inner_part(s, t);
    let mi = if oi is Some { m0.insert(i, oi.unwrap()) } else { m0 };
    let tl = Segment { lower: t.lower, upper: s.lower };
    let tr = Segment { lower: s.upper, upper: t.upper };
    let lp = lower_part(s, t);
    let up = upper_part(s, t);
    assert forall|k: Segment| #[trigger] lm.contains_key(k) implies !rm.contains_key(k) && k != s
        && m.contains_key(k) by {
        if rm.contains_key(k) {
            assert(k.before(s) && s.before(k));
        }
    }
    assert forall|k: Segment| #[trigger] rm.contains_key(k) implies k != s && m.contains_key(k) by {}
    assert(m.contains_key(s));
    assert(disjoint_keys(lm));
    assert(disjoint_keys(rm));
    lemma_removed_cut(lm, rm, s, v, t);
    lemma_pieces_cut(lm, rm, s, v, t);
    lemma_pieces(m, t);
    assert(is_piece(m, t, i));
    assert(old_value(m, t, i) == Some(v));
    assert(!lm.contains_key(i));
    assert(!rm.contains_key(i));
    assert(!m0.contains_key(i));
    // the entries above s, with the covered part of s where it stays
    let ri = if oi is Some { rm.insert(i, oi.unwrap()) } else { rm };
    assert(mi =~= lm.union_prefer_right(ri));
    assert forall|k: Segment| #[trigger] ri.contains_key(k) implies !lm.contains_key(k) && (k == i
        || rm.contains_key(k)) by {}
    if t.lower < s.lower {
        assert forall|k: Segment| #[trigger] ri.contains_key(k) implies tl.before(k) by {}
        lemma_beyond(lm, ri, tl);
        lemma_pieces(lm, tl);
        lemma_removed_disjoint(lm, tl);
        lemma_removed_sides(lm, tl, s);
    }
    // what the first step leaves besides the entries above s
    let c = Map::new(|k: Segment| m1.contains_key(k) && !rm.contains_key(k), |k: Segment| m1[k]);
    assert forall|k: Segment| #[trigger] rm.contains_key(k) implies m1.contains_key(k) && m1[k] == rm[k] by {
        if t.lower < s.lower {
            assert(removed(lm, tl).union_prefer_right(ri).contains_key(k));
        }
    }
    assert forall|k: Segment| #[trigger] c.contains_key(k) implies k.upper <= s.upper && k.lower
        <= s.upper && (k.upper <= s.lower || k == lp || k == i) by {
        if t.lower < s.lower {
            if !removed(mi, tl).contains_key(k) {
                assert(is_piece(mi, tl, k));
                assert(is_piece(lm, tl, k));
            }
        } else {
            if k != lp && k != i {
                assert(m0.contains_key(k));
                assert(lm.contains_key(k));
            }
        }
    }
    assert(m1 =~= rm.union_prefer_right(c));
    if s.upper < t.upper {
        lemma_beyond(rm, c, tr);
        lemma_pieces(rm, tr);
        lemma_removed_sides(rm, tr, s);
    }
    // the three clauses
    let rt = removed(m, t);
    let x = if t.lower < s.lower { removed(lm, tl) } else { lm };
    let x1 = if s.lower < t.lower { x.insert(lp, v) } else { x };
    let y = if s.upper < t.upper { removed(rm, tr) } else { rm };
    let rp = if t.upper < s.upper { map![up => v] } else { Map::<Segment, V>::empty() };
    assert(rt == x1.union_prefer_right(y).union_prefer_right(rp));
    assert forall|k: Segment| #[trigger] x1.contains_key(k) implies m1.contains_key(k) && m1[k]
        == x1[k] && !rm.contains_key(k) && c.contains_key(k) && k != up by {
        if t.lower < s.lower {
            assert(removed(lm, tl).union_prefer_right(ri).contains_key(k));
            assert(!ri.contains_key(k));
        } else if k != lp {
            assert(lm.contains_key(k));
            assert(m0.contains_key(k));
        }
    }
    assert forall|k: Segment| #[trigger] rt.contains_key(k) implies m2.contains_key(k) && m2[k] == rt[k] by {
        if rp.contains_key(k) {
        } else if y.contains_key(k) {
            assert(!x1.contains_key(k));
            if s.upper < t.upper {
                assert(removed(rm, tr).union_prefer_right(c).contains_key(k));
            } else {
                assert(m1.contains_key(k));
            }
        } else {
            assert(x1.contains_key(k));
            if s.upper < t.upper {
                assert(removed(rm, tr).union_prefer_right(c).contains_key(k));
                assert(!removed(rm, tr).contains_key(k));
            }
        }
    }
    assert forall|k: Segment| #[trigger] m2.contains_key(k) implies rt.contains_key(k) || is_piece(m, t, k) by {
        if s.upper < t.upper && !removed(m1, tr).contains_key(k) {
            assert(is_piece(rm, tr, k));
        } else if c.contains_key(k) && t.lower < s.lower && !removed(mi, tl).contains_key(k) {
            assert(is_piece(lm, tl, k));
        }
    }
    assert forall|k: Segment| #[trigger] is_piece(m, t, k) implies f.ensures(
        (&k, old_value(m, t, k)),
        if m2.contains_key(k) { Some(m2[k]) } else { None },
    ) by {
        if k == i {
            assert(old_value(m, t, k) == Some(v));
            if t.lower < s.lower {
                assert(!removed(lm, tl).contains_key(i)) by {
                    if removed(lm, tl).contains_key(i) {
                        assert(i.before(s));
                    }
                }
                assert(!is_piece(lm, tl, i)) by {
                    if is_piece(lm, tl, i) {
                        assert(i.before(i));
                    }
                }
                assert(!is_piece(mi, tl, i));
                assert(removed(mi, tl).contains_key(i) == ri.contains_key(i));
                assert(m1.contains_key(i) == removed(mi, tl).contains_key(i));
            } else {
                assert(s.lower < t.lower ==> lp != i);
                assert(mi.contains_key(i) == (oi is Some));
                if s.lower < t.lower {
                    assert(m1 == mi.insert(lp, v));
                } else {
                    assert(m1 == mi);
                }
            }
            assert(m1.contains_key(i) == (oi is Some));
            assert(oi is Some ==> m1[i] == oi.unwrap());
            if s.upper < t.upper {
                assert(c.contains_key(i) == (oi is Some));
                assert(!is_piece(rm, tr, i));
                assert(!removed(rm, tr).contains_key(i)) by {
                    if removed(rm, tr).contains_key(i) {
                        assert(s.before(i));
                    }
                }
                assert(removed(m1, tr).contains_key(i) == c.contains_key(i));
                assert(m2.contains_key(i) == (oi is Some));
            } else {
                assert(t.upper < s.upper ==> up != i);
                assert(m2.contains_key(i) == (oi is Some));
            }
            assert(oi is Some ==> m2[i] == oi.unwrap());
        } else if t.lower < s.lower && is_piece(lm, tl, k) {
            assert(is_piece(mi, tl, k));
            assert(k.before(i));
            if s.upper < t.upper {
                assert(!is_piece(rm, tr, k)) by {
                    if is_piece(rm, tr, k) {
                        assert(i.before(k));
                    }
                }
                assert(!removed(rm, tr).contains_key(k)) by {
                    if removed(rm, tr).contains_key(k) {
                        assert(s.before(k));
                    }
                }
                assert(!rm.contains_key(k)) by {
                    if rm.contains_key(k) {
                        assert(s.before(k));
                    }
                }
                assert(!is_piece(m1, tr, k));
                assert(c.contains_key(k) == m1.contains_key(k));
                assert(removed(m1, tr).contains_key(k) == m1.contains_key(k));
                assert(m2.contains_key(k) == m1.contains_key(k));
                assert(m1.contains_key(k) ==> m2[k] == m1[k]);
            } else {
                assert(t.upper < s.upper ==> up != k);
            }
        } else {
            assert(is_piece(rm, tr, k));
            assert(is_piece(m1, tr, k));
        }
    }
}

/// The parts of a cut stored segment fit beside the other entries and each other.
pub proof fn lemma_cut_fits<V>(m0: Map<Segment, V>, s: Segment, t: Segment)
    requires
        disjoint_keys(m0),
        fits(m0, s),
        t.is_valid(),
        cuts(t, s),
    ensures
        fits(m0, inner_part(s, t)),
        s.lower < t.lower ==> fits(m0, lower_part(s, t)) && lower_part(s, t).disjoint(
            inner_part(s, t),
        ),
        t.upper < s.upper ==> fits(m0, upper_part(s, t)) && upper_part(s, t).disjoint(
            inner_part(s, t),
        ) && (s.lower < t.lower ==> upper_part(s, t).disjoint(lower_part(s, t))),
{
    assert forall|k: Segment| #[trigger] m0.contains_key(k) implies inner_part(s, t).disjoint(k) by {
        assert(s.disjoint(k));
    }
    if s.lower < t.lower {
        assert forall|k: Segment| #[trigger] m0.contains_key(k) implies lower_part(s, t).disjoint(k) by {
            assert(s.disjoint(k));
        }
    }
    if t.upper < s.upper {
        assert forall|k: Segment| #[trigger] m0.contains_key(k) implies upper_part(s, t).disjoint(k) by {
            assert(s.disjoint(k));
        }
    }
}

/// A segment on one side of `t` that fits beside the entries still fits after `t`
/// is updated.
pub proof fn lemma_updated_fits<V, F: Fn(&Segment, Option<V>) -> Option<V>>(
    m: Map<Segment, V>,
    t: Segment,
    f: F,
    r: Map<Segment, V>,
    x: Segment,
)
    requires
        disjoint_keys(m),
        t.is_valid(),
        updated(m, t, f, r),
        fits(m, x),
        t.before(x) || x.before(t),
    ensures
        fits(r, x),
{
    lemma_removed_fits(m, t, x);
    lemma_pieces(m, t);
}

/// `r` is what updating `t` in `m` with `f`, a function of the old value alone, may
/// give: as `updated`, with `f` called on the old value of each piece.
pub open spec fn updated_values<V, F: Fn(Option<V>) -> Option<V>>(
    m: Map<Segment, V>,
    t: Segment,
    f: F,
    r: Map<Segment, V>,
) -> bool {
    &&& forall|k: Segment| #[trigger]
        removed(m, t).contains_key(k) ==> r.contains_key(k) && r[k] == removed(m, t)[k]
    &&& forall|k: Segment| #[trigger]
        r.contains_key(k) ==> removed(m, t).contains_key(k) || is_piece(m, t, k)
    &&& forall|k: Segment| #[trigger]
        is_piece(m, t, k) ==> f.ensures(
            (old_value(m, t, k),),
            if r.contains_key(k) { Some(r[k]) } else { None },
        )
}

/// Segments in ascending order: each lies before the next.
pub open spec fn ascending<V>(e: Seq<(Segment, V)>) -> bool {
    forall|i: int, j: int| 0 <= i < j < e.len() ==> (#[trigger] e[i]).0.before((#[trigger] e[j]).0)
}

/// `e` lists exactly the entries of `m`.
pub open spec fn lists<V>(e: Seq<(Segment, V)>, m: Map<Segment, V>) -> bool {
    &&& forall|i: int| 0 <= i < e.len() ==> m.contains_key((#[trigger] e[i]).0) && m[e[i].0] == e[i].1
    &&& forall|s: Segment| #[trigger] m.contains_key(s) ==> exists|i: int| 0 <= i < e.len() && e[i].0 == s
}

/// What `remove` leaves: for a non-empty target, `removed`; an empty target takes
/// out only a stored segment equal to it, and splits nothing.
pub open spec fn removal<V>(m: Map<Segment, V>, t: Segment) -> Map<Segment, V> {
    if t.lower < t.upper {
        removed(m, t)
    } else {
        m.remove(t)
    }
}

/// An empty target reaches, on the side of `s` where it lies, only an equal entry.
pub proof fn lemma_removal_point<V>(
    lm: Map<Segment, V>,
    rm: Map<Segment, V>,
    s: Segment,
    v: V,
    t: Segment,
)
    requires
        disjoint_keys(lm.union_prefer_right(rm).insert(s, v)),
        forall|k: Segment| #[trigger] lm.contains_key(k) ==> k.before(s),
        forall|k: Segment| #[trigger] rm.contains_key(k) ==> s.before(k),
        t.lower == t.upper,
        t != s,
    ensures
        t.upper <= s.lower ==> removal(lm.union_prefer_right(rm).insert(s, v), t) == removal(
            lm,
            t,
        ).union_prefer_right(rm).insert(s, v),
        s.upper <= t.lower ==> removal(lm.union_prefer_right(rm).insert(s, v), t)
            == lm.union_prefer_right(removal(rm, t)).insert(s, v),
        s.lower < t.lower && t.upper < s.upper ==> removal(lm.union_prefer_right(rm).insert(s, v), t)
            == lm.union_prefer_right(rm).insert(s, v),
        forall|k: Segment| #[trigger] removal(lm, t).contains_key(k) ==> k.before(s),
        forall|k: Segment| #[trigger] removal(rm, t).contains_key(k) ==> s.before(k),
{
    let m = lm.union_prefer_right(rm).insert(s, v);
    assert(m.contains_key(s));
    if t.upper <= s.lower && rm.contains_key(t) {
        assert(s.before(t));
    }
    if s.upper <= t.lower && lm.contains_key(t) {
        assert(t.before(s));
    }
    if s.lower < t.lower && t.upper < s.upper && m.contains_key(t) {
        assert(t.disjoint(s));
    }
    if t.upper <= s.lower {
        assert(removal(m, t) =~= removal(lm, t).union_prefer_right(rm).insert(s, v));
    }
    if s.upper <= t.lower {
        assert(removal(m, t) =~= lm.union_prefer_right(removal(rm, t)).insert(s, v));
    }
    if s.lower < t.lower && t.upper < s.upper {
        assert(removal(m, t) =~= m);
    }
}

/// Removing the same segment twice leaves what removing it once leaves.
pub proof fn lemma_remove_twice<V>(m: Map<Segment, V>, t: Segment)
    requires
        disjoint_keys(m),
        t.is_valid(),
    ensures
        removal(removal(m, t), t) == removal(m, t),
{
    if t.lower == t.upper {
        assert(m.remove(t).remove(t) =~= m.remove(t));
    } else {
        lemma_removed(m, t);
        lemma_removed_disjoint(m, t);
        assert forall|k: Segment| #[trigger] removed(m, t).contains_key(k) implies !cuts(t, k) by {
            if m.contains_key(k) && !cuts(t, k) {
            } else if exists|s: Segment| m.contains_key(s) && holds_lower_end(t, s) && k == lower_part(s, t) {
            } else {
            }
        }
        lemma_removed_none(removed(m, t), t);
    }
}

/// An update whose function never returns a value is a removal: of `removed`
/// always, and of what `remove` does where the target is not an empty segment
/// strictly inside a stored one (there the update splits, and `remove` does not).
pub proof fn lemma_update_to_none<V, F: Fn(Option<V>) -> Option<V>>(
    m: Map<Segment, V>,
    t: Segment,
    f: F,
    r: Map<Segment, V>,
)
    requires
        disjoint_keys(m),
        t.is_valid(),
        updated_values(m, t, f, r),
        forall|v: Option<V>, o: Option<V>| f.ensures((v,), o) ==> o is None,
    ensures
        r == removed(m, t),
        (forall|s: Segment| #[trigger] m.contains_key(s) ==> !(s.lower < t.lower && t.upper < s.upper))
            ==> r == removal(m, t),
{
    lemma_point_removed(m, t);
    lemma_pieces(m, t);
    assert forall|k: Segment| #[trigger] r.contains_key(k) implies removed(m, t).contains_key(k) by {
        if is_piece(m, t, k) {
            assert(f.ensures((old_value(m, t, k),), Some(r[k])));
        }
    }
    assert(r =~= removed(m, t));
}

/// An update whose function never returns a value is a removal, for functions that
/// also read the piece.
pub proof fn lemma_update_entry_to_none<V, F: Fn(&Segment, Option<V>) -> Option<V>>(
    m: Map<Segment, V>,
    t: Segment,
    f: F,
    r: Map<Segment, V>,
)
    requires
        disjoint_keys(m),
        t.is_valid(),
        updated(m, t, f, r),
        forall|s: &Segment, v: Option<V>, o: Option<V>| f.ensures((s, v), o) ==> o is None,
    ensures
        r == removed(m, t),
        (forall|s: Segment| #[trigger] m.contains_key(s) ==> !(s.lower < t.lower && t.upper < s.upper))
            ==> r == removal(m, t),
{
    lemma_point_removed(m, t);
    lemma_pieces(m, t);
    assert forall|k: Segment| #[trigger] r.contains_key(k) implies removed(m, t).contains_key(k) by {
        if is_piece(m, t, k) {
            assert(f.ensures((&k, old_value(m, t, k)), Some(r[k])));
        }
    }
    assert(r =~= removed(m, t));
}

/// After `s -> v` is added beside the entries of `m`, the entry that contains a key
/// `k` is `s -> v` exactly where `s` contains `k`.
pub proof fn lemma_insert_then_find<V>(m: Map<Segment, V>, s: Segment, v: V, k: i64)
    requires
        disjoint_keys(m),
        fits(m, s),
    ensures
        disjoint_keys(m.insert(s, v)),
        m.insert(s, v).contains_key(s) && m.insert(s, v)[s] == v,
        s.contains_spec(k) ==> forall|e: Segment| #[trigger]
            m.insert(s, v).contains_key(e) && e.contains_spec(k) ==> e == s,
        !s.contains_spec(k) ==> forall|e: Segment| #[trigger]
            m.insert(s, v).contains_key(e) && e.contains_spec(k) ==> e != s && m.contains_key(e),
{
    let m2 = m.insert(s, v);
    assert forall|e: Segment| #[trigger] m2.contains_key(e) && e != s implies m.contains_key(e) && s.disjoint(e) by {}
}

/// Where no stored segment strictly holds an empty target, `removed` and `removal`
/// agree.
pub proof fn lemma_point_removed<V>(m: Map<Segment, V>, t: Segment)
    requires
        disjoint_keys(m),
        t.is_valid(),
    ensures
        (forall|s: Segment| #[trigger] m.contains_key(s) ==> !(s.lower < t.lower && t.upper < s.upper))
            ==> removed(m, t) == removal(m, t),
{
    lemma_removed(m, t);
    if t.lower == t.upper && (forall|s: Segment| #[trigger] m.contains_key(s) ==> !(s.lower < t.lower
        && t.upper < s.upper)) {
        assert(removed(m, t) =~= m.remove(t));
    }
}

/// Updating an empty target `t`: strictly inside a stored segment `s`, `s` is split
/// into its parts below and above `t`, which keep its value, and `f` decides `t`
/// from that value; where no stored segment holds or equals `t`, `f` decides `t`
/// from `None` and every other entry stays.
pub proof fn lemma_update_point<V, F: Fn(&Segment, Option<V>) -> Option<V>>(
    m: Map<Segment, V>,
    t: Segment,
    f: F,
    r: Map<Segment, V>,
)
    requires
        disjoint_keys(m),
        t.lower == t.upper,
        updated(m, t, f, r),
    ensures
        forall|s: Segment|
            #[trigger] m.contains_key(s) && s.lower < t.lower && t.upper < s.upper ==> {
                &&& !r.contains_key(s)
                &&& r.contains_key(lower_part(s, t)) && r[lower_part(s, t)] == m[s]
                &&& r.contains_key(upper_part(s, t)) && r[upper_part(s, t)] == m[s]
                &&& f.ensures((&t, Some(m[s])), if r.contains_key(t) { Some(r[t]) } else { None })
            },
        (forall|s: Segment| #[trigger] m.contains_key(s) ==> !(s.lower < t.lower && t.upper < s.upper))
            && !m.contains_key(t) ==> {
            &&& f.ensures((&t, None::<V>), if r.contains_key(t) { Some(r[t]) } else { None })
            &&& forall|k: Segment| #[trigger]
                r.contains_key(k) && k != t ==> m.contains_key(k) && r[k] == m[k]
            &&& forall|k: Segment| #[trigger] m.contains_key(k) ==> r.contains_key(k)
        },
{
    lemma_removed(m, t);
    lemma_pieces(m, t);
    assert forall|s: Segment|
        #[trigger] m.contains_key(s) && s.lower < t.lower && t.upper < s.upper implies {
            &&& !r.contains_key(s)
            &&& r.contains_key(lower_part(s, t)) && r[lower_part(s, t)] == m[s]
            &&& r.contains_key(upper_part(s, t)) && r[upper_part(s, t)] == m[s]
            &&& f.ensures((&t, Some(m[s])), if r.contains_key(t) { Some(r[t]) } else { None })
        } by {
        assert(cuts(t, s));
        assert(inner_part(s, t) == t);
        assert(holds_lower_end(t, s) && holds_upper_end(t, s));
        assert(!removed(m, t).contains_key(s));
        assert(!is_piece(m, t, s));
        assert(removed(m, t).contains_key(lower_part(s, t)));
        assert(removed(m, t).contains_key(upper_part(s, t)));
        assert(is_piece(m, t, t));
        assert(old_value(m, t, t) == Some(m[s]));
    }
    if (forall|s: Segment| #[trigger] m.contains_key(s) ==> !(s.lower < t.lower && t.upper < s.upper))
        && !m.contains_key(t) {
        assert forall|k: Segment| #[trigger] m.contains_key(k) implies !cuts(t, k) by {}
        lemma_removed_none(m, t);
        assert(is_gap(m, t, t));
        assert(!is_inner(m, t, t)) by {
            if is_inner(m, t, t) {
                let o = choose|o: Segment| #[trigger] m.contains_key(o) && cuts(t, o) && t == inner_part(o, t);
                assert(cuts(t, o));
            }
        }
        assert(is_piece(m, t, t));
        assert(old_value(m, t, t) == None::<V>);
        assert forall|k: Segment| #[trigger] m.contains_key(k) implies r.contains_key(k) by {
            assert(removed(m, t).contains_key(k));
        }
        assert forall|k: Segment| #[trigger] r.contains_key(k) && k != t implies m.contains_key(k)
            && r[k] == m[k] by {
            if is_piece(m, t, k) {
                if is_inner(m, t, k) {
                    let o = choose|o: Segment| #[trigger] m.contains_key(o) && cuts(t, o) && k == inner_part(o, t);
                    assert(cuts(t, o));
                }
            }
        }
    }
}

} // verus!
