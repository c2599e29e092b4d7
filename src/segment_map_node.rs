use vstd::prelude::*;

use crate::model::{
    lemma_removal_point, removal, cuts, disjoint_keys, fits, inner_part, lemma_cut_fits, lemma_removed_cut,
    lemma_removed_descend, lemma_removed_none, lemma_updated_cut, lemma_updated_descend,
    lemma_updated_empty, lemma_updated_fits, removed, upper_part, updated,
    updated_values, ascending, lists, is_piece, old_value,
};
use crate::segment::Segment;

verus! {

/// A node of an unbalanced binary search tree of disjoint segments.
///
/// Every segment of `left` lies before `segment`, every segment of `right` after it.
#[derive(Debug, PartialEq, Eq)]
pub struct SegmentMapNode<V> {
    pub segment: Segment,
    pub value: V,
    pub left: Box<Option<SegmentMapNode<V>>>,
    pub right: Box<Option<SegmentMapNode<V>>>,
}

impl<V> SegmentMapNode<V> {
    /// The entries of an optional subtree.
    pub open spec fn opt_map(node: Option<SegmentMapNode<V>>) -> Map<Segment, V>
        decreases node,
    {
        match node {
            None => Map::empty(),
            Some(n) => n.as_map(),
        }
    }

    /// The entries of this subtree.
    pub open spec fn as_map(self) -> Map<Segment, V>
        decreases self,
    {
        Self::opt_map(*self.left).union_prefer_right(Self::opt_map(*self.right)).insert(
            self.segment,
            self.value,
        )
    }

    pub open spec fn opt_wf(node: Option<SegmentMapNode<V>>) -> bool
        decreases node,
    {
        match node {
            None => true,
            Some(n) => n.well_formed(),
        }
    }

    /// The search-tree order holds throughout, and every segment is valid.
    pub open spec fn well_formed(self) -> bool
        decreases self,
    {
        &&& self.segment.is_valid()
        &&& forall|s: Segment| #[trigger]
            Self::opt_map(*self.left).contains_key(s) ==> s.before(self.segment)
        &&& forall|s: Segment| #[trigger]
            Self::opt_map(*self.right).contains_key(s) ==> self.segment.before(s)
        &&& Self::opt_wf(*self.left)
        &&& Self::opt_wf(*self.right)
    }

    pub proof fn lemma_disjoint_keys(self)
        requires
            self.well_formed(),
        ensures
            disjoint_keys(self.as_map()),
        decreases self,
    {
        Self::lemma_opt_disjoint_keys(*self.left);
        Self::lemma_opt_disjoint_keys(*self.right);
    }

    /// The two subtrees share no segment with each other or with the node.
    pub proof fn lemma_children(self)
        requires
            self.well_formed(),
        ensures
            disjoint_keys(self.as_map()),
            forall|s: Segment| #[trigger]
                Self::opt_map(*self.left).contains_key(s) ==> !Self::opt_map(
                    *self.right,
                ).contains_key(s) && s != self.segment && self.as_map()[s] == Self::opt_map(
                    *self.left,
                )[s],
            forall|s: Segment| #[trigger]
                Self::opt_map(*self.right).contains_key(s) ==> s != self.segment
                    && self.as_map()[s] == Self::opt_map(*self.right)[s],
    {
        self.lemma_disjoint_keys();
        assert forall|s: Segment| #[trigger]
            Self::opt_map(*self.left).contains_key(s) implies !Self::opt_map(
            *self.right,
        ).contains_key(s) && s != self.segment && self.as_map()[s] == Self::opt_map(
            *self.left,
        )[s] by {
            assert(self.as_map().contains_key(s));
            if Self::opt_map(*self.right).contains_key(s) {
                assert(s.before(self.segment));
                assert(self.segment.before(s));
            }
        }
    }

    pub proof fn lemma_opt_disjoint_keys(node: Option<SegmentMapNode<V>>)
        requires
            Self::opt_wf(node),
        ensures
            disjoint_keys(Self::opt_map(node)),
        decreases node,
    {
        if let Some(n) = node {
            n.lemma_disjoint_keys();
        }
    }

    /// A node without children holds its own entry alone.
    pub proof fn lemma_leaf(segment: Segment, value: V)
        requires
            segment.is_valid(),
        ensures
            ({
                let n = SegmentMapNode {
                    segment,
                    value,
                    left: Box::new(None::<SegmentMapNode<V>>),
                    right: Box::new(None::<SegmentMapNode<V>>),
                };
                n.well_formed() && n.as_map() == map![segment => value]
                    && Self::opt_map(Some(n)) == map![segment => value] && Self::opt_wf(Some(n))
            }),
    {
        let n = SegmentMapNode {
            segment,
            value,
            left: Box::new(None::<SegmentMapNode<V>>),
            right: Box::new(None::<SegmentMapNode<V>>),
        };
        assert(Self::opt_map(None) == Map::<Segment, V>::empty());
        assert(Self::opt_wf(None));
        assert(n.as_map() =~= map![segment => value]);
        assert(n.well_formed());
        assert(Self::opt_map(Some(n)) == n.as_map());
        assert(Self::opt_wf(Some(n)));
    }

    /// The entries of an optional subtree, in order.
    pub open spec fn opt_entries(node: Option<SegmentMapNode<V>>) -> Seq<(Segment, V)>
        decreases node,
    {
        match node {
            None => Seq::empty(),
            Some(n) => n.entries(),
        }
    }

    /// The entries of this subtree, in order: the left subtree's, this node's, the
    /// right subtree's.
    pub open spec fn entries(self) -> Seq<(Segment, V)>
        decreases self,
    {
        Self::opt_entries(*self.left) + seq![(self.segment, self.value)] + Self::opt_entries(
            *self.right,
        )
    }

    pub proof fn lemma_opt_entries(node: Option<SegmentMapNode<V>>)
        requires
            Self::opt_wf(node),
        ensures
            ascending(Self::opt_entries(node)),
            lists(Self::opt_entries(node), Self::opt_map(node)),
        decreases node,
    {
        if let Some(n) = node {
            n.lemma_entries();
        }
    }

    /// In order, the entries ascend, and they are those of the subtree.
    pub proof fn lemma_entries(self)
        requires
            self.well_formed(),
        ensures
            ascending(self.entries()),
            lists(self.entries(), self.as_map()),
        decreases self,
    {
        self.lemma_children();
        Self::lemma_opt_entries(*self.left);
        Self::lemma_opt_entries(*self.right);
        let l = Self::opt_entries(*self.left);
        let r = Self::opt_entries(*self.right);
        let e = self.entries();
        let m = self.as_map();
        assert(e == l + seq![(self.segment, self.value)] + r);
        assert forall|i: int, j: int| 0 <= i < j < e.len() implies (#[trigger] e[i]).0.before(
            (#[trigger] e[j]).0,
        ) by {
            if j < l.len() {
                assert(e[i] == l[i] && e[j] == l[j]);
            } else if i > l.len() {
                assert(e[i] == r[i - l.len() - 1] && e[j] == r[j - l.len() - 1]);
            } else if i == l.len() {
                assert(e[j] == r[j - l.len() - 1]);
                assert(Self::opt_map(*self.right).contains_key(e[j].0));
            } else if j == l.len() {
                assert(e[i] == l[i]);
                assert(Self::opt_map(*self.left).contains_key(e[i].0));
            } else {
                assert(e[i] == l[i] && e[j] == r[j - l.len() - 1]);
                assert(Self::opt_map(*self.left).contains_key(e[i].0));
                assert(Self::opt_map(*self.right).contains_key(e[j].0));
                assert(m.contains_key(e[j].0));
            }
        }
        assert forall|i: int| 0 <= i < e.len() implies m.contains_key((#[trigger] e[i]).0) && m[e[i].0]
            == e[i].1 by {
            if i < l.len() {
                assert(e[i] == l[i]);
                assert(Self::opt_map(*self.left).contains_key(e[i].0));
            } else if i > l.len() {
                assert(e[i] == r[i - l.len() - 1]);
                assert(Self::opt_map(*self.right).contains_key(e[i].0));
            }
        }
        assert forall|s: Segment| #[trigger] m.contains_key(s) implies exists|i: int|
            0 <= i < e.len() && e[i].0 == s by {
            if Self::opt_map(*self.left).contains_key(s) {
                let i = choose|i: int| 0 <= i < l.len() && l[i].0 == s;
                assert(e[i] == l[i]);
            } else if Self::opt_map(*self.right).contains_key(s) {
                let i = choose|i: int| 0 <= i < r.len() && r[i].0 == s;
                assert(e[i + l.len() + 1] == r[i]);
            } else {
                assert(e[l.len() as int].0 == s);
            }
        }
    }


    pub fn new(
        segment: Segment,
        value: V,
        left: Option<SegmentMapNode<V>>,
        right: Option<SegmentMapNode<V>>,
    ) -> (r: SegmentMapNode<V>)
        ensures
            r.segment == segment,
            r.value == value,
            *r.left == left,
            *r.right == right,
    {
        SegmentMapNode { segment, value, left: Box::new(left), right: Box::new(right) }
    }

    /// The lower bound of the first segment.
    pub fn min_key(&self) -> (r: &i64)
        requires
            self.well_formed(),
        ensures
            exists|s: Segment| self.as_map().contains_key(s) && s.lower == *r,
            forall|s: Segment| #[trigger] self.as_map().contains_key(s) ==> *r <= s.lower,
    {
        let n = self.min_node();
        proof {
            self.lemma_disjoint_keys();
        }
        n.segment.lower()
    }

    /// The node of the first segment.
    pub fn min_node(&self) -> (r: &SegmentMapNode<V>)
        requires
            self.well_formed(),
        ensures
            self.as_map().contains_key(r.segment),
            self.as_map()[r.segment] == r.value,
            forall|s: Segment|
                #[trigger] self.as_map().contains_key(s) && s != r.segment ==> r.segment.before(s),
        decreases self,
    {
        match &*self.left {
            Some(left) => {
                let r = left.min_node();
                proof {
                    self.lemma_children();
                    assert(Self::opt_map(*self.left) == left.as_map());
                    assert(self.as_map().contains_key(r.segment));
                    assert forall|s: Segment| #[trigger]
                        self.as_map().contains_key(s) && s != r.segment implies r.segment.before(
                        s,
                    ) by {
                        if !left.as_map().contains_key(s) {
                            assert(self.as_map().contains_key(r.segment));
                        }
                    }
                }
                r
            },
            None => {
                proof {
                    self.lemma_children();
                    assert forall|s: Segment| #[trigger]
                        self.as_map().contains_key(s) && s != self.segment implies self.segment.before(
                        s,
                    ) by {
                        assert(Self::opt_map(*self.right).contains_key(s));
                    }
                }
                self
            },
        }
    }

    /// The upper bound of the last segment.
    pub fn max_key(&self) -> (r: &i64)
        requires
            self.well_formed(),
        ensures
            exists|s: Segment| self.as_map().contains_key(s) && s.upper == *r,
            forall|s: Segment| #[trigger] self.as_map().contains_key(s) ==> s.upper <= *r,
    {
        let n = self.max_node();
        proof {
            self.lemma_disjoint_keys();
        }
        n.segment.upper()
    }

    /// The node of the last segment.
    pub fn max_node(&self) -> (r: &SegmentMapNode<V>)
        requires
            self.well_formed(),
        ensures
            self.as_map().contains_key(r.segment),
            self.as_map()[r.segment] == r.value,
            forall|s: Segment|
                #[trigger] self.as_map().contains_key(s) && s != r.segment ==> s.before(r.segment),
        decreases self,
    {
        match &*self.right {
            Some(right) => {
                let r = right.max_node();
                proof {
                    self.lemma_children();
                    assert(Self::opt_map(*self.right) == right.as_map());
                    assert(self.as_map().contains_key(r.segment));
                    assert forall|s: Segment| #[trigger]
                        self.as_map().contains_key(s) && s != r.segment implies s.before(
                        r.segment,
                    ) by {
                        assert(self.as_map().contains_key(r.segment));
                        assert(r.segment.is_valid());
                        if Self::opt_map(*self.left).contains_key(s) {
                            assert(s.before(self.segment));
                        }
                    }
                }
                r
            },
            None => {
                proof {
                    self.lemma_children();
                    assert forall|s: Segment| #[trigger]
                        self.as_map().contains_key(s) && s != self.segment implies s.before(
                        self.segment,
                    ) by {
                        assert(Self::opt_map(*self.left).contains_key(s));
                    }
                }
                self
            },
        }
    }

    /// Adds `segment -> value` beside the stored segments, which it must not overlap.
    pub fn insert(&mut self, segment: Segment, value: V)
        requires
            old(self).well_formed(),
            fits(old(self).as_map(), segment),
        ensures
            final(self).well_formed(),
            final(self).as_map() == old(self).as_map().insert(segment, value),
            final(self).segment == old(self).segment,
            final(self).value == old(self).value,
        decreases *old(self),
    {
        proof {
            self.lemma_children();
            assert(self.as_map().contains_key(self.segment));
        }
        if segment.upper <= self.segment.lower {
            assert(segment.before(self.segment));
            assert(!Self::opt_map(*self.right).contains_key(segment)) by {
                if Self::opt_map(*self.right).contains_key(segment) {
                    assert(old(self).as_map().contains_key(segment));
                }
            }
            match self.left.take() {
                Some(mut left) => {
                    proof {
                        assert forall|s: Segment| #[trigger]
                            left.as_map().contains_key(s) implies segment.disjoint(s) by {
                            assert(old(self).as_map().contains_key(s));
                        }
                    }
                    left.insert(segment, value);
                    self.left = Box::new(Some(left));
                    proof {
                        assert(Self::opt_map(*self.left) == left.as_map());
                        assert(Self::opt_wf(*self.left));
                        assert(!Self::opt_map(*self.right).contains_key(segment)) by {
                            if Self::opt_map(*self.right).contains_key(segment) {
                                assert(old(self).as_map().contains_key(segment));
                            }
                        }
                        assert forall|s: Segment| #[trigger]
                            Self::opt_map(*self.left).contains_key(s) implies s.before(self.segment) by {
                            if s != segment {
                                assert(Self::opt_map(*old(self).left).contains_key(s));
                            }
                        }
                    }
                },
                None => {
                    proof {
                        Self::lemma_leaf(segment, value);
                    }
                    self.left = Box::new(Some(SegmentMapNode::new(segment, value, None, None)));
                    proof {
                        assert(Self::opt_map(*self.left) == map![segment => value]);
                        assert(Self::opt_map(*old(self).left) == Map::<Segment, V>::empty());
                    }
                },
            }
        } else {
            assert(self.segment.before(segment));
            assert(!Self::opt_map(*self.left).contains_key(segment)) by {
                if Self::opt_map(*self.left).contains_key(segment) {
                    assert(old(self).as_map().contains_key(segment));
                }
            }
            match self.right.take() {
                Some(mut right) => {
                    proof {
                        assert forall|s: Segment| #[trigger]
                            right.as_map().contains_key(s) implies segment.disjoint(s) by {
                            assert(old(self).as_map().contains_key(s));
                        }
                    }
                    right.insert(segment, value);
                    self.right = Box::new(Some(right));
                    proof {
                        assert(Self::opt_map(*self.right) == right.as_map());
                        assert(Self::opt_wf(*self.right));
                        assert(!Self::opt_map(*self.left).contains_key(segment)) by {
                            if Self::opt_map(*self.left).contains_key(segment) {
                                assert(old(self).as_map().contains_key(segment));
                            }
                        }
                        assert forall|s: Segment| #[trigger]
                            Self::opt_map(*self.right).contains_key(s) implies self.segment.before(s) by {
                            if s != segment {
                                assert(Self::opt_map(*old(self).right).contains_key(s));
                            }
                        }
                    }
                },
                None => {
                    proof {
                        Self::lemma_leaf(segment, value);
                    }
                    self.right = Box::new(Some(SegmentMapNode::new(segment, value, None, None)));
                    proof {
                        assert(Self::opt_map(*self.right) == map![segment => value]);
                        assert(Self::opt_map(*old(self).right) == Map::<Segment, V>::empty());
                    }
                },
            }
        }
        proof {
            assert(self.as_map() =~= old(self).as_map().insert(segment, value));
        }
    }

    /// The stored segment that contains `key`, with its value.
    pub fn get_entry(&self, key: &i64) -> (r: Option<(&Segment, &V)>)
        requires
            self.well_formed(),
        ensures
            r is Some ==> ({
                let (s, v) = r.unwrap();
                self.as_map().contains_key(*s) && self.as_map()[*s] == *v && s.contains_spec(*key)
            }),
            r is None ==> forall|s: Segment| #[trigger]
                self.as_map().contains_key(s) ==> !s.contains_spec(*key),
        decreases self,
    {
        proof {
            self.lemma_children();
        }
        if self.segment.contains(key) {
            proof {
                assert(self.as_map().contains_key(self.segment));
                assert(self.as_map()[self.segment] == self.value);
            }
            Some((&self.segment, &self.value))
        } else if *key < self.segment.lower {
            proof {
                assert forall|s: Segment| #[trigger]
                    Self::opt_map(*self.right).contains_key(s) implies !s.contains_spec(*key) by {
                    assert(self.segment.before(s));
                }
            }
            match &*self.left {
                Some(left) => {
                    let r = left.get_entry(key);
                    proof {
                        assert(Self::opt_map(*self.left) == left.as_map());
                        if let Some((s, v)) = r {
                            assert(Self::opt_map(*self.left).contains_key(*s));
                        }
                        if r is None {
                            assert forall|s: Segment| #[trigger]
                                self.as_map().contains_key(s) implies !s.contains_spec(*key) by {
                                if Self::opt_map(*self.left).contains_key(s) {
                                    assert(left.as_map().contains_key(s));
                                } else if Self::opt_map(*self.right).contains_key(s) {
                                }
                            }
                        }
                    }
                    r
                },
                None => {
                    proof {
                        assert(Self::opt_map(*self.left) == Map::<Segment, V>::empty());
                        assert forall|s: Segment| #[trigger]
                            self.as_map().contains_key(s) implies !s.contains_spec(*key) by {
                            if Self::opt_map(*self.right).contains_key(s) {
                            }
                        }
                    }
                    None
                },
            }
        } else {
            proof {
                assert forall|s: Segment| #[trigger]
                    Self::opt_map(*self.left).contains_key(s) implies !s.contains_spec(*key) by {
                    assert(s.before(self.segment));
                }
            }
            match &*self.right {
                Some(right) => {
                    let r = right.get_entry(key);
                    proof {
                        assert(Self::opt_map(*self.right) == right.as_map());
                        if let Some((s, v)) = r {
                            assert(Self::opt_map(*self.right).contains_key(*s));
                        }
                        if r is None {
                            assert forall|s: Segment| #[trigger]
                                self.as_map().contains_key(s) implies !s.contains_spec(*key) by {
                                if Self::opt_map(*self.right).contains_key(s) {
                                    assert(right.as_map().contains_key(s));
                                } else if Self::opt_map(*self.left).contains_key(s) {
                                }
                            }
                        }
                    }
                    r
                },
                None => {
                    proof {
                        assert(Self::opt_map(*self.right) == Map::<Segment, V>::empty());
                        assert forall|s: Segment| #[trigger]
                            self.as_map().contains_key(s) implies !s.contains_spec(*key) by {
                            if Self::opt_map(*self.left).contains_key(s) {
                            }
                        }
                    }
                    None
                },
            }
        }
    }

    /// The value of the stored segment that contains `key`.
    pub fn get(&self, key: &i64) -> (r: Option<&V>)
        requires
            self.well_formed(),
        ensures
            match r {
                Some(v) => exists|s: Segment|
                    self.as_map().contains_key(s) && self.as_map()[s] == *v && s.contains_spec(*key),
                None => forall|s: Segment| #[trigger]
                    self.as_map().contains_key(s) ==> !s.contains_spec(*key),
            },
    {
        match self.get_entry(key) {
            Some((_, v)) => Some(v),
            None => None,
        }
    }

    /// Detaches the node of the first segment; the rest of the subtree comes back
    /// as the first part of the pair.
    pub fn remove_min_node(self) -> (r: (Option<SegmentMapNode<V>>, SegmentMapNode<V>))
        requires
            self.well_formed(),
        ensures
            Self::opt_wf(r.0),
            r.1.segment.is_valid(),
            *r.1.left == None::<SegmentMapNode<V>>,
            *r.1.right == None::<SegmentMapNode<V>>,
            self.as_map().contains_key(r.1.segment),
            self.as_map()[r.1.segment] == r.1.value,
            Self::opt_map(r.0) == self.as_map().remove(r.1.segment),
            forall|s: Segment| #[trigger]
                Self::opt_map(r.0).contains_key(s) ==> r.1.segment.before(s),
        decreases self,
    {
        proof {
            self.lemma_children();
        }
        let ghost m = self.as_map();
        let mut node = self;
        match node.left.take() {
            Some(left) => {
                let (rest, min) = left.remove_min_node();
                proof {
                    assert(Self::opt_map(Some(left)) == left.as_map());
                    assert(Self::opt_map(Some(left)).contains_key(min.segment));
                }
                node.left = Box::new(rest);
                proof {
                    assert(node.as_map() =~= m.remove(min.segment));
                }
                (Some(node), min)
            },
            None => {
                let rest = node.right.take();
                proof {
                    assert(Self::opt_map(rest) =~= m.remove(node.segment));
                }
                (rest, node)
            },
        }
    }

    /// Takes this node out of its subtree. With two children the first node of the
    /// right subtree takes its place; with one child that child does.
    fn take_out(self) -> (r: Option<SegmentMapNode<V>>)
        requires
            self.well_formed(),
        ensures
            Self::opt_wf(r),
            Self::opt_map(r) == self.as_map().remove(self.segment),
    {
        proof {
            self.lemma_children();
        }
        let ghost m = self.as_map();
        let segment = self.segment;
        let left = *self.left;
        let right = *self.right;
        match (left, right) {
            (Some(left), Some(right)) => {
                let (rest, mut result) = right.remove_min_node();
                proof {
                    assert(Self::opt_map(Some(right)) == right.as_map());
                    assert(Self::opt_map(Some(left)) == left.as_map());
                    assert(segment.before(result.segment));
                    assert forall|s: Segment| #[trigger]
                        left.as_map().contains_key(s) implies s.before(result.segment) by {
                        assert(Self::opt_map(Some(left)).contains_key(s));
                        assert(s.before(segment));
                        assert(m.contains_key(result.segment));
                    }
                }
                result.right = Box::new(rest);
                result.left = Box::new(Some(left));
                proof {
                    assert(result.as_map() =~= m.remove(segment));
                }
                Some(result)
            },
            (Some(left), None) => {
                proof {
                    assert(Self::opt_map(Some(left)) =~= m.remove(segment));
                }
                Some(left)
            },
            (None, Some(right)) => {
                proof {
                    assert(Self::opt_map(Some(right)) =~= m.remove(segment));
                }
                Some(right)
            },
            (None, None) => {
                proof {
                    assert(Self::opt_map(None) =~= m.remove(segment));
                }
                None
            },
        }
    }


    /// Replaces each value, in order, by what `f` gives for its segment and value.
    pub fn rewrite_values<F>(self, f: &F) -> (r: SegmentMapNode<V>) where
        F: Fn(&Segment, V) -> V,
        requires
            self.well_formed(),
            forall|s: &Segment, v: V| #[trigger] f.requires((s, v)),
        ensures
            r.well_formed(),
            r.as_map().dom() == self.as_map().dom(),
            forall|k: Segment| #[trigger]
                r.as_map().contains_key(k) ==> f.ensures((&k, self.as_map()[k]), r.as_map()[k]),
        decreases self,
    {
        proof {
            self.lemma_children();
        }
        let ghost m = self.as_map();
        let old_left = *self.left;
        let old_right = *self.right;
        let left = match old_left {
            Some(n) => Some(n.rewrite_values(f)),
            None => None,
        };
        let value = f(&self.segment, self.value);
        let right = match old_right {
            Some(n) => Some(n.rewrite_values(f)),
            None => None,
        };
        proof {
            assert(Self::opt_map(left).dom() == Self::opt_map(old_left).dom());
            assert(Self::opt_map(right).dom() == Self::opt_map(old_right).dom());
            assert(Self::opt_wf(left) && Self::opt_wf(right));
        }
        let r = SegmentMapNode { segment: self.segment, value, left: Box::new(left), right: Box::new(right) };
        proof {
            assert(r.as_map().dom() =~= m.dom());
            assert forall|k: Segment| #[trigger] r.as_map().contains_key(k) implies f.ensures(
                (&k, m[k]),
                r.as_map()[k],
            ) by {
                if Self::opt_map(old_right).contains_key(k) {
                    assert(Self::opt_map(right).contains_key(k));
                } else if Self::opt_map(old_left).contains_key(k) {
                    assert(Self::opt_map(left).contains_key(k));
                    assert(!Self::opt_map(right).contains_key(k));
                }
            }
        }
        r
    }

    /// From the lower bound of the first segment to the upper bound of the last.
    pub fn span(&self) -> (r: Segment)
        requires
            self.well_formed(),
        ensures
            exists|s: Segment| self.as_map().contains_key(s) && s.lower == r.lower,
            exists|s: Segment| self.as_map().contains_key(s) && s.upper == r.upper,
            forall|s: Segment| #[trigger]
                self.as_map().contains_key(s) ==> r.lower <= s.lower && s.upper <= r.upper,
    {
        Segment::new(*self.min_key(), *self.max_key())
    }
}

impl<V: Copy> SegmentMapNode<V> {
    /// Adds `segment -> value` to an optional subtree.
    fn insert_into(node: Option<SegmentMapNode<V>>, segment: Segment, value: V) -> (r: Option<
        SegmentMapNode<V>,
    >)
        requires
            Self::opt_wf(node),
            fits(Self::opt_map(node), segment),
        ensures
            Self::opt_wf(r),
            Self::opt_map(r) == Self::opt_map(node).insert(segment, value),
    {
        match node {
            Some(mut n) => {
                n.insert(segment, value);
                Some(n)
            },
            None => {
                proof {
                    Self::lemma_leaf(segment, value);
                    assert(Self::opt_map(None) == Map::<Segment, V>::empty());
                    assert(map![segment => value] =~= Map::<Segment, V>::empty().insert(segment, value));
                }
                Some(SegmentMapNode::new(segment, value, None, None))
            },
        }
    }

    /// Removes `segment` from an optional subtree.
    fn remove_from(node: Option<SegmentMapNode<V>>, segment: &Segment) -> (r: Option<
        SegmentMapNode<V>,
    >)
        requires
            Self::opt_wf(node),
            segment.is_valid(),
        ensures
            Self::opt_wf(r),
            Self::opt_map(r) == removal(Self::opt_map(node), *segment),
        decreases segment.upper - segment.lower, node,
    {
        match node {
            Some(n) => n.remove(segment),
            None => {
                proof {
                    assert(Self::opt_map(None) == Map::<Segment, V>::empty());
                    lemma_removed_none(Map::<Segment, V>::empty(), *segment);
                    assert(removal(Map::<Segment, V>::empty(), *segment) =~= Map::<Segment, V>::empty());
                }
                None
            },
        }
    }

    /// Updates `segment` in an optional subtree; an empty one takes a new leaf for the
    /// whole of `segment` where `value` gives one.
    fn update_from<F>(node: Option<SegmentMapNode<V>>, segment: &Segment, value: &F) -> (r: Option<
        SegmentMapNode<V>,
    >) where F: Fn(&Segment, Option<V>) -> Option<V>
        requires
            Self::opt_wf(node),
            segment.is_valid(),
            forall|s: &Segment, v: Option<V>| #[trigger] value.requires((s, v)),
        ensures
            Self::opt_wf(r),
            updated(Self::opt_map(node), *segment, *value, Self::opt_map(r)),
        decreases segment.upper - segment.lower, node,
    {
        match node {
            Some(n) => n.update_entry_ref(segment, value),
            None => {
                proof {
                    assert(Self::opt_map(None) == Map::<Segment, V>::empty());
                }
                match value(segment, None) {
                    Some(v) => {
                        proof {
                            Self::lemma_leaf(*segment, v);
                            lemma_updated_empty(*segment, *value, map![*segment => v]);
                        }
                        Some(SegmentMapNode::new(*segment, v, None, None))
                    },
                    None => {
                        proof {
                            lemma_updated_empty(*segment, *value, Map::<Segment, V>::empty());
                        }
                        None
                    },
                }
            },
        }
    }

    /// Replaces what this subtree holds over `segment` by what `value` gives. It is
    /// called with the part of each stored segment that `segment` cuts and its old
    /// value, and with each gap of `segment` and `None`; a `None` that it returns
    /// leaves that part empty. The parts of cut segments outside `segment` keep their
    /// values.
    fn update_entry_ref<F>(self, segment: &Segment, value: &F) -> (r: Option<SegmentMapNode<V>>) where
        F: Fn(&Segment, Option<V>) -> Option<V>,
        requires
            self.well_formed(),
            segment.is_valid(),
            forall|s: &Segment, v: Option<V>| #[trigger] value.requires((s, v)),
        ensures
            Self::opt_wf(r),
            updated(self.as_map(), *segment, *value, Self::opt_map(r)),
        decreases segment.upper - segment.lower, self,
    {
        proof {
            self.lemma_children();
        }
        let ghost m = self.as_map();
        let ghost lm = Self::opt_map(*self.left);
        let ghost rm = Self::opt_map(*self.right);
        let t = *segment;
        let s = self.segment;
        let v = self.value;
        proof {
            assert(m == lm.union_prefer_right(rm).insert(s, v));
        }
        if (s.lower < s.upper && s.lower < t.upper && t.lower < s.upper) || (s.lower == t.lower
            && s.upper == t.upper) {
            let ghost m0 = lm.union_prefer_right(rm);
            proof {
                assert(cuts(t, s));
                assert(m.remove(s) =~= m0);
                assert forall|k: Segment| #[trigger] m0.contains_key(k) implies s.disjoint(k) by {
                    assert(m.contains_key(k) && m.contains_key(s) && k != s);
                }
                lemma_cut_fits(m0, s, t);
            }
            let mut result = self.take_out();
            let part = Segment::new(
                if s.lower < t.lower { t.lower } else { s.lower },
                if t.upper < s.upper { t.upper } else { s.upper },
            );
            assert(part == inner_part(s, t));
            let got = value(&part, Some(v));
            if let Some(new_value) = got {
                result = Self::insert_into(result, part, new_value);
            }
            let ghost mi = Self::opt_map(result);
            if t.lower < s.lower {
                result = Self::update_from(result, &Segment::new(t.lower, s.lower), value);
            } else if s.lower < t.lower {
                result = Self::insert_into(result, Segment::new(s.lower, t.lower), v);
            }
            let ghost m1 = Self::opt_map(result);
            proof {
                Self::lemma_opt_disjoint_keys(result);
                if t.upper < s.upper {
                    assert(fits(mi, upper_part(s, t)));
                    if t.lower < s.lower {
                        Self::lemma_opt_disjoint_keys(result);
                        lemma_updated_fits(
                            mi,
                            Segment { lower: t.lower, upper: s.lower },
                            *value,
                            m1,
                            upper_part(s, t),
                        );
                    } else if s.lower < t.lower {
                        assert(fits(m1, upper_part(s, t)));
                    }
                }
            }
            if s.upper < t.upper {
                result = Self::update_from(result, &Segment::new(s.upper, t.upper), value);
            } else if t.upper < s.upper {
                result = Self::insert_into(result, Segment::new(t.upper, s.upper), v);
            }
            proof {
                lemma_updated_cut(lm, rm, s, v, t, *value, got, m1, Self::opt_map(result));
            }
            result
        } else {
            let mut node = self;
            if t.upper <= s.lower {
                let left = *node.left;
                node.left = Box::new(Self::update_from(left, segment, value));
            } else if s.upper <= t.lower {
                let right = *node.right;
                node.right = Box::new(Self::update_from(right, segment, value));
            } else {
                // `s` is an empty segment strictly inside `segment`: each side gets
                // its own part of `segment`, and `s` stays.
                let left = *node.left;
                let right = *node.right;
                node.left = Box::new(
                    Self::update_from(left, &Segment::new(t.lower, s.lower), value),
                );
                node.right = Box::new(
                    Self::update_from(right, &Segment::new(s.upper, t.upper), value),
                );
            }
            proof {
                lemma_updated_descend(
                    lm,
                    rm,
                    s,
                    v,
                    t,
                    *value,
                    Self::opt_map(*node.left),
                    Self::opt_map(*node.right),
                );
                assert(node.as_map() == Self::opt_map(*node.left).union_prefer_right(
                    Self::opt_map(*node.right),
                ).insert(s, v));
                Self::lemma_opt_disjoint_keys(*node.left);
                Self::lemma_opt_disjoint_keys(*node.right);
            }
            Some(node)
        }
    }

    /// Replaces what this subtree holds over `segment` by what `value` gives for each
    /// piece of it and its old value (`None` for a gap).
    pub fn update_entry<F>(self, segment: &Segment, value: F) -> (r: Option<SegmentMapNode<V>>) where
        F: Fn(&Segment, Option<V>) -> Option<V>,
        requires
            self.well_formed(),
            segment.is_valid(),
            forall|s: &Segment, v: Option<V>| #[trigger] value.requires((s, v)),
        ensures
            Self::opt_wf(r),
            updated(self.as_map(), *segment, value, Self::opt_map(r)),
    {
        self.update_entry_ref(segment, &value)
    }

    /// As `update_entry`, with a `value` that reads the old value only.
    pub fn update<F>(self, segment: &Segment, value: F) -> (r: Option<SegmentMapNode<V>>) where
        F: Fn(Option<V>) -> Option<V>,
        requires
            self.well_formed(),
            segment.is_valid(),
            forall|v: Option<V>| #[trigger] value.requires((v,)),
        ensures
            Self::opt_wf(r),
            updated_values(self.as_map(), *segment, value, Self::opt_map(r)),
    {
        let f = &value;
        let entry = move |s: &Segment, v: Option<V>| -> (r: Option<V>)
            requires
                f.requires((v,)),
            ensures
                f.ensures((v,), r),
            { f(v) };
        let r = self.update_entry_ref(segment, &entry);
        proof {
            let m = self.as_map();
            assert forall|k: Segment| #[trigger] is_piece(m, *segment, k) implies value.ensures(
                (old_value(m, *segment, k),),
                if Self::opt_map(r).contains_key(k) { Some(Self::opt_map(r)[k]) } else { None },
            ) by {
                assert(entry.ensures(
                    (&k, old_value(m, *segment, k)),
                    if Self::opt_map(r).contains_key(k) { Some(Self::opt_map(r)[k]) } else { None },
                ));
            }
        }
        r
    }

    /// Erases every part of `segment` from this subtree. A stored segment that it
    /// cuts is taken out, and its parts outside `segment` go back in with the same
    /// value; the parts of `segment` beyond it are removed from what is left.
    pub fn remove(self, segment: &Segment) -> (r: Option<SegmentMapNode<V>>)
        requires
            self.well_formed(),
            segment.is_valid(),
        ensures
            Self::opt_wf(r),
            Self::opt_map(r) == removal(self.as_map(), *segment),
        decreases segment.upper - segment.lower, self,
    {
        proof {
            self.lemma_children();
        }
        let ghost m = self.as_map();
        let ghost lm = Self::opt_map(*self.left);
        let ghost rm = Self::opt_map(*self.right);
        let t = *segment;
        let s = self.segment;
        let v = self.value;
        proof {
            assert(m == lm.union_prefer_right(rm).insert(s, v));
        }
        if (t.lower < t.upper && s.lower < s.upper && s.lower < t.upper && t.lower < s.upper) || (
        s.lower == t.lower && s.upper == t.upper) {
            proof {
                assert(cuts(t, s));
                lemma_removed_cut(lm, rm, s, v, t);
                assert(m.remove(s) =~= lm.union_prefer_right(rm));
            }
            let mut result = self.take_out();
            if t.lower < s.lower {
                result = Self::remove_from(result, &Segment::new(t.lower, s.lower));
            } else if s.lower < t.lower {
                result = Self::insert_into(result, Segment::new(s.lower, t.lower), v);
            }
            if s.upper < t.upper {
                result = Self::remove_from(result, &Segment::new(s.upper, t.upper));
            } else if t.upper < s.upper {
                result = Self::insert_into(result, Segment::new(t.upper, s.upper), v);
            }
            proof {
                if t.lower == t.upper {
                    assert(removal(m, t) == m.remove(s));
                }
            }
            result
        } else {
            proof {
                if t.lower < t.upper {
                    lemma_removed_descend(lm, rm, s, v, t);
                } else {
                    lemma_removal_point(lm, rm, s, v, t);
                }
            }
            let mut node = self;
            if t.upper <= s.lower {
                let left = *node.left;
                node.left = Box::new(Self::remove_from(left, segment));
            } else if s.upper <= t.lower {
                let right = *node.right;
                node.right = Box::new(Self::remove_from(right, segment));
            } else if t.lower == t.upper {
                // an empty `segment` strictly inside `s`: nothing to remove
            } else {
                // `s` is an empty segment strictly inside `segment`: each side loses
                // its own part of `segment`, and `s` stays.
                let left = *node.left;
                let right = *node.right;
                node.left = Box::new(Self::remove_from(left, &Segment::new(t.lower, s.lower)));
                node.right = Box::new(Self::remove_from(right, &Segment::new(s.upper, t.upper)));
            }
            proof {
                assert(node.as_map() =~= removal(m, t));
            }
            Some(node)
        }
    }
}

impl<V: Copy> Clone for SegmentMapNode<V> {
    /// A copy of the whole subtree.
    fn clone(&self) -> (r: Self)
        ensures
            r == *self,
        decreases self,
    {
        let left = match &*self.left {
            Some(n) => Some(n.clone()),
            None => None,
        };
        let right = match &*self.right {
            Some(n) => Some(n.clone()),
            None => None,
        };
        SegmentMapNode {
            segment: self.segment,
            value: self.value,
            left: Box::new(left),
            right: Box::new(right),
        }
    }
}

} // verus!
