use vstd::prelude::*;
use vstd::std_specs::iter::IteratorSpec;
use vstd::std_specs::vec::axiom_spec_into_iter;

use crate::model::{
    ascending, disjoint_keys, fits, is_gap, is_piece, lemma_removed_none, lemma_updated_empty,
    lists, old_value, removal, updated, updated_values,
};
use crate::segment::Segment;
use crate::segment_map_node::SegmentMapNode;

verus! {

broadcast use axiom_spec_into_iter;

/// The entries of a map, in ascending order.
pub type Iter<V> = std::vec::IntoIter<(Segment, V)>;

/// The entries of a map, in ascending order, taken from it.
pub type IntoIter<V> = std::vec::IntoIter<(Segment, V)>;

/// The segments of a map, in ascending order.
pub type Intervals = std::vec::IntoIter<Segment>;

/// The values of a map, in the order of their segments.
pub type Values<V> = std::vec::IntoIter<V>;

/// The entries of the subtree that `node` points to, in order.
pub open spec fn opt_entries_ref<V>(node: Option<&SegmentMapNode<V>>) -> Seq<(Segment, V)> {
    match node {
        Some(n) => n.entries(),
        None => Seq::empty(),
    }
}

/// What a stack of nodes still has to give: from the top down, each node's entry
/// and then its right subtree's entries.
pub open spec fn pending<V>(stack: Seq<&SegmentMapNode<V>>) -> Seq<(Segment, V)>
    decreases stack.len(),
{
    if stack.len() == 0 {
        Seq::empty()
    } else {
        let top = stack.last();
        seq![(top.segment, top.value)] + SegmentMapNode::opt_entries(*top.right) + pending(
            stack.drop_last(),
        )
    }
}

/// A map from disjoint half-open segments to values.
#[derive(Debug, PartialEq, Eq)]
pub struct IntervalMap<V> {
    root: Option<SegmentMapNode<V>>,
}

impl<V> View for IntervalMap<V> {
    type V = Map<Segment, V>;

    closed spec fn view(&self) -> Map<Segment, V> {
        SegmentMapNode::opt_map(self.root)
    }
}

impl<V> IntervalMap<V> {
    /// The tree behind the map is a well-formed search tree.
    pub closed spec fn well_formed(&self) -> bool {
        SegmentMapNode::opt_wf(self.root)
    }

    /// The entries of the map in ascending order.
    pub closed spec fn entries(&self) -> Seq<(Segment, V)> {
        SegmentMapNode::opt_entries(self.root)
    }

    /// The entries of a well-formed map ascend and are those of its view.
    pub proof fn lemma_entries(&self)
        requires
            self.well_formed(),
        ensures
            ascending(self.entries()),
            lists(self.entries(), self@),
            disjoint_keys(self@),
    {
        SegmentMapNode::lemma_opt_entries(self.root);
        SegmentMapNode::lemma_opt_disjoint_keys(self.root);
    }

    pub fn new() -> (r: IntervalMap<V>)
        ensures
            r.well_formed(),
            r@ == Map::<Segment, V>::empty(),
    {
        IntervalMap { root: None }
    }

    /// From the lower bound of the first segment to the upper bound of the last.
    pub fn span(&self) -> (r: Option<Segment>)
        requires
            self.well_formed(),
        ensures
            r is None <==> self@.dom() == Set::<Segment>::empty(),
            r matches Some(sp) ==> (exists|s: Segment| self@.contains_key(s) && s.lower == sp.lower)
                && (exists|s: Segment| self@.contains_key(s) && s.upper == sp.upper) && (forall|
                s: Segment,
            | #[trigger] self@.contains_key(s) ==> sp.lower <= s.lower && s.upper <= sp.upper),
    {
        match &self.root {
            Some(root) => {
                let r = root.span();
                proof {
                    assert(root.as_map().contains_key(root.segment));
                    assert(self@ == root.as_map());
                }
                Some(r)
            },
            None => {
                proof {
                    assert(self@.dom() =~= Set::<Segment>::empty());
                }
                None
            },
        }
    }

    pub fn is_empty(&self) -> (r: bool)
        ensures
            r <==> self@.dom() == Set::<Segment>::empty(),
    {
        match &self.root {
            Some(root) => {
                proof {
                    assert(root.as_map().contains_key(root.segment));
                }
                false
            },
            None => {
                proof {
                    assert(self@.dom() =~= Set::<Segment>::empty());
                }
                true
            },
        }
    }

    pub fn clear(&mut self)
        ensures
            final(self).well_formed(),
            final(self)@ == Map::<Segment, V>::empty(),
    {
        self.root = None;
    }

    /// The value of the stored segment that contains `key`.
    pub fn get(&self, key: &i64) -> (r: Option<&V>)
        requires
            self.well_formed(),
        ensures
            r is Some ==> exists|s: Segment|
                self@.contains_key(s) && self@[s] == *r.unwrap() && s.contains_spec(*key),
            r is None ==> forall|s: Segment| #[trigger]
                self@.contains_key(s) ==> !s.contains_spec(*key),
    {
        match &self.root {
            Some(root) => {
                proof {
                    assert(self@ == root.as_map());
                }
                root.get(key)
            },
            None => {
                proof {
                    assert(self@ == Map::<Segment, V>::empty());
                }
                None
            },
        }
    }

    /// The stored segment that contains `key`, with its value.
    pub fn get_entry(&self, key: &i64) -> (r: Option<(&Segment, &V)>)
        requires
            self.well_formed(),
        ensures
            r is Some ==> ({
                let (s, v) = r.unwrap();
                self@.contains_key(*s) && self@[*s] == *v && s.contains_spec(*key)
            }),
            r is None ==> forall|s: Segment| #[trigger]
                self@.contains_key(s) ==> !s.contains_spec(*key),
    {
        match &self.root {
            Some(root) => {
                proof {
                    assert(self@ == root.as_map());
                }
                root.get_entry(key)
            },
            None => {
                proof {
                    assert(self@ == Map::<Segment, V>::empty());
                }
                None
            },
        }
    }

    /// Whether a stored segment contains `key`.
    pub fn contains_key(&self, key: &i64) -> (r: bool)
        requires
            self.well_formed(),
        ensures
            r <==> exists|s: Segment| self@.contains_key(s) && s.contains_spec(*key),
    {
        self.get_entry(key).is_some()
    }

    /// Adds `interval -> value`; `interval` must not overlap a stored segment.
    pub fn insert(&mut self, interval: Segment, value: V)
        requires
            old(self).well_formed(),
            fits(old(self)@, interval),
        ensures
            final(self).well_formed(),
            final(self)@ == old(self)@.insert(interval, value),
    {
        match self.root.take() {
            Some(mut root) => {
                root.insert(interval, value);
                self.root = Some(root);
            },
            None => {
                proof {
                    SegmentMapNode::<V>::lemma_leaf(interval, value);
                    assert(map![interval => value] =~= Map::<Segment, V>::empty().insert(
                        interval,
                        value,
                    ));
                }
                self.root = Some(SegmentMapNode::new(interval, value, None, None));
            },
        }
    }
}

impl<V: Copy> IntervalMap<V> {
    /// Erases every part of `interval`: stored segments that it cuts lose that part
    /// and keep the rest with their values. An empty `interval` takes out only an
    /// equal empty entry, and splits nothing.
    pub fn remove(&mut self, interval: &Segment)
        requires
            old(self).well_formed(),
            interval.is_valid(),
        ensures
            final(self).well_formed(),
            final(self)@ == removal(old(self)@, *interval),
    {
        match self.root.take() {
            Some(root) => {
                self.root = root.remove(interval);
            },
            None => {
                proof {
                    assert(removal(Map::<Segment, V>::empty(), *interval) =~= Map::<Segment, V>::empty());
                }
            },
        }
    }

    /// Replaces what the map holds over `interval` by what `value` gives for the old
    /// value of each piece of it (`None` for a gap). An empty `interval` strictly
    /// inside a stored segment splits it there; elsewhere it is a gap unless stored.
    pub fn update<F>(&mut self, interval: &Segment, value: F) where F: Fn(Option<V>) -> Option<V>
        requires
            old(self).well_formed(),
            interval.is_valid(),
            forall|v: Option<V>| #[trigger] value.requires((v,)),
        ensures
            final(self).well_formed(),
            updated_values(old(self)@, *interval, value, final(self)@),
    {
        match self.root.take() {
            Some(root) => {
                self.root = root.update(interval, value);
            },
            None => {
                let got = value(None);
                proof {
                    self.lemma_update_empty(*interval, value, got);
                }
                if let Some(v) = got {
                    proof {
                        SegmentMapNode::<V>::lemma_leaf(*interval, v);
                    }
                    self.root = Some(SegmentMapNode::new(*interval, v, None, None));
                }
            },
        }
    }

    /// Replaces what the map holds over `interval` by what `value` gives for each
    /// piece of it and its old value (`None` for a gap).
    pub fn update_entry<F>(&mut self, interval: &Segment, value: F) where
        F: Fn(&Segment, Option<V>) -> Option<V>,
        requires
            old(self).well_formed(),
            interval.is_valid(),
            forall|s: &Segment, v: Option<V>| #[trigger] value.requires((s, v)),
        ensures
            final(self).well_formed(),
            updated(old(self)@, *interval, value, final(self)@),
    {
        match self.root.take() {
            Some(root) => {
                self.root = root.update_entry(interval, value);
            },
            None => {
                let got = value(interval, None);
                match got {
                    Some(v) => {
                        proof {
                            SegmentMapNode::<V>::lemma_leaf(*interval, v);
                            lemma_updated_empty(
                                *interval,
                                value,
                                map![*interval => v],
                            );
                        }
                        self.root = Some(SegmentMapNode::new(*interval, v, None, None));
                    },
                    None => {
                        proof {
                            lemma_updated_empty(
                                *interval,
                                value,
                                Map::<Segment, V>::empty(),
                            );
                        }
                    },
                }
            },
        }
    }

    /// Replaces each value, in ascending order of segments, by what `f` gives for
    /// its segment and value.
    pub fn iter_mut<F>(&mut self, f: F) where F: Fn(&Segment, V) -> V
        requires
            old(self).well_formed(),
            forall|s: &Segment, v: V| #[trigger] f.requires((s, v)),
        ensures
            final(self).well_formed(),
            final(self)@.dom() == old(self)@.dom(),
            forall|k: Segment| #[trigger]
                final(self)@.contains_key(k) ==> f.ensures((&k, old(self)@[k]), final(self)@[k]),
    {
        match self.root.take() {
            Some(root) => {
                self.root = Some(root.rewrite_values(&f));
            },
            None => {},
        }
    }

    /// Replaces each value, in ascending order of segments, by what `f` gives for it.
    pub fn values_mut<F>(&mut self, f: F) where F: Fn(V) -> V
        requires
            old(self).well_formed(),
            forall|v: V| #[trigger] f.requires((v,)),
        ensures
            final(self).well_formed(),
            final(self)@.dom() == old(self)@.dom(),
            forall|k: Segment| #[trigger]
                final(self)@.contains_key(k) ==> f.ensures((old(self)@[k],), final(self)@[k]),
    {
        let g = &f;
        let entry = move |s: &Segment, v: V| -> (r: V)
            requires
                g.requires((v,)),
            ensures
                g.ensures((v,), r),
            { g(v) };
        self.iter_mut(entry);
    }

    /// Adds each of `entries`; their segments must fit beside the stored ones and
    /// beside each other.
    pub fn extend(&mut self, entries: Vec<(Segment, V)>)
        requires
            old(self).well_formed(),
            forall|i: int| 0 <= i < entries.len() ==> fits(old(self)@, #[trigger] entries@[i].0),
            forall|i: int, j: int|
                0 <= i < entries.len() && 0 <= j < entries.len() && i != j ==> (
                #[trigger] entries@[i]).0.disjoint((#[trigger] entries@[j]).0),
        ensures
            final(self).well_formed(),
            forall|k: Segment| #[trigger]
                final(self)@.contains_key(k) <==> old(self)@.contains_key(k) || exists|i: int|
                    0 <= i < entries.len() && entries@[i].0 == k,
            forall|k: Segment| #[trigger]
                old(self)@.contains_key(k) ==> final(self)@[k] == old(self)@[k],
            forall|i: int|
                0 <= i < entries.len() ==> final(self)@[(#[trigger] entries@[i]).0] == entries@[i].1,
    {
        let ghost m = self@;
        let mut i: usize = 0;
        while i < entries.len()
            invariant
                self.well_formed(),
                i <= entries.len(),
                forall|j: int| 0 <= j < entries.len() ==> fits(m, #[trigger] entries@[j].0),
                forall|a: int, b: int|
                    0 <= a < entries.len() && 0 <= b < entries.len() && a != b ==> (
                    #[trigger] entries@[a]).0.disjoint((#[trigger] entries@[b]).0),
                forall|k: Segment| #[trigger]
                    self@.contains_key(k) <==> m.contains_key(k) || exists|j: int|
                        0 <= j < i && entries@[j].0 == k,
                forall|k: Segment| #[trigger] m.contains_key(k) ==> self@[k] == m[k],
                forall|j: int| 0 <= j < i ==> self@[(#[trigger] entries@[j]).0] == entries@[j].1,
            decreases entries.len() - i,
        {
            let (segment, value) = entries[i];
            proof {
                assert(segment == entries@[i as int].0);
                assert forall|k: Segment| #[trigger] self@.contains_key(k) implies segment.disjoint(k) by {
                    if !m.contains_key(k) {
                        let j = choose|j: int| 0 <= j < i && entries@[j].0 == k;
                        assert(entries@[i as int].0.disjoint(entries@[j].0));
                    }
                }
            }
            self.insert(segment, value);
            proof {
                assert forall|k: Segment| #[trigger] m.contains_key(k) implies self@[k] == m[k] by {
                    assert(k != segment) by {
                        assert(fits(m, entries@[i as int].0));
                        assert(segment.disjoint(k));
                    }
                }
                assert forall|j: int| 0 <= j < i + 1 implies self@[(#[trigger] entries@[j]).0]
                    == entries@[j].1 by {
                    if j < i {
                        assert(entries@[i as int].0.disjoint(entries@[j].0));
                    }
                }
                assert forall|k: Segment| #[trigger] self@.contains_key(k) <==> m.contains_key(k)
                    || exists|j: int| 0 <= j < i + 1 && entries@[j].0 == k by {
                    if k == segment {
                        assert(entries@[i as int].0 == k);
                    }
                    if exists|j: int| 0 <= j < i + 1 && entries@[j].0 == k {
                        let j = choose|j: int| 0 <= j < i + 1 && entries@[j].0 == k;
                        if j < i {
                            assert(exists|j2: int| 0 <= j2 < i && entries@[j2].0 == k);
                        }
                    }
                }
            }
            i = i + 1;
        }
    }

    /// The entries in ascending order, as a vector. The walk keeps the nodes whose
    /// entry and right subtree are still to come on an explicit stack.
    pub fn to_vec(&self) -> (r: Vec<(Segment, V)>)
        requires
            self.well_formed(),
        ensures
            r@ == self.entries(),
            ascending(r@),
            lists(r@, self@),
    {
        let mut out: Vec<(Segment, V)> = Vec::new();
        let mut stack: Vec<&SegmentMapNode<V>> = Vec::new();
        let mut current: Option<&SegmentMapNode<V>> = match &self.root {
            Some(root) => Some(root),
            None => None,
        };
        proof {
            assert(out@ + opt_entries_ref(current) + pending(stack@) =~= self.entries());
        }
        loop
            invariant
                out@ + opt_entries_ref(current) + pending(stack@) == self.entries(),
            ensures
                out@ == self.entries(),
            decreases self.entries().len() - out@.len(),
        {
            while current.is_some()
                invariant
                    out@ + opt_entries_ref(current) + pending(stack@) == self.entries(),
                decreases opt_entries_ref(current).len(),
            {
                let node = current.unwrap();
                proof {
                    assert(pending(stack@.push(node)) == seq![(node.segment, node.value)]
                        + SegmentMapNode::opt_entries(*node.right) + pending(stack@)) by {
                        assert(stack@.push(node).drop_last() == stack@);
                    }
                    assert(opt_entries_ref(current) == node.entries());
                }
                stack.push(node);
                current = match &*node.left {
                    Some(left) => Some(left),
                    None => None,
                };
                proof {
                    assert(opt_entries_ref(current) == SegmentMapNode::opt_entries(*node.left));
                    assert(out@ + opt_entries_ref(current) + pending(stack@) =~= self.entries());
                }
            }
            let ghost before = stack@;
            match stack.pop() {
                Some(node) => {
                    proof {
                        assert(before.drop_last() == stack@);
                        assert(pending(before) == seq![(node.segment, node.value)]
                            + SegmentMapNode::opt_entries(*node.right) + pending(stack@));
                    }
                    out.push((node.segment, node.value));
                    current = match &*node.right {
                        Some(right) => Some(right),
                        None => None,
                    };
                    proof {
                        assert(opt_entries_ref(current) == SegmentMapNode::opt_entries(*node.right));
                        assert(out@ + opt_entries_ref(current) + pending(stack@) =~= self.entries());
                    }
                },
                None => {
                    proof {
                        assert(out@ =~= self.entries());
                    }
                    break;
                },
            }
        }
        proof {
            self.lemma_entries();
        }
        out
    }

    /// The entries in ascending order.
    pub fn iter(&self) -> (r: Iter<V>)
        requires
            self.well_formed(),
        ensures
            r.remaining() == self.entries(),
    {
        self.to_vec().into_iter()
    }

    /// The entries in ascending order, taken out of the map.
    pub fn into_iter(self) -> (r: IntoIter<V>)
        requires
            self.well_formed(),
        ensures
            r.remaining() == self.entries(),
    {
        self.to_vec().into_iter()
    }

    /// The segments in ascending order.
    pub fn intervals(&self) -> (r: Intervals)
        requires
            self.well_formed(),
        ensures
            r.remaining() == self.entries().map_values(|e: (Segment, V)| e.0),
    {
        let all = self.to_vec();
        let mut out: Vec<Segment> = Vec::new();
        let mut i: usize = 0;
        while i < all.len()
            invariant
                i <= all.len(),
                all@ == self.entries(),
                out@ == all@.subrange(0, i as int).map_values(|e: (Segment, V)| e.0),
            decreases all.len() - i,
        {
            out.push(all[i].0);
            proof {
                assert(all@.subrange(0, i + 1) == all@.subrange(0, i as int).push(all@[i as int]));
            }
            i = i + 1;
        }
        proof {
            assert(all@.subrange(0, i as int) == all@);
        }
        out.into_iter()
    }

    /// The values in the order of their segments.
    pub fn values(&self) -> (r: Values<V>)
        requires
            self.well_formed(),
        ensures
            r.remaining() == self.entries().map_values(|e: (Segment, V)| e.1),
    {
        let all = self.to_vec();
        let mut out: Vec<V> = Vec::new();
        let mut i: usize = 0;
        while i < all.len()
            invariant
                i <= all.len(),
                all@ == self.entries(),
                out@ == all@.subrange(0, i as int).map_values(|e: (Segment, V)| e.1),
            decreases all.len() - i,
        {
            out.push(all[i].1);
            proof {
                assert(all@.subrange(0, i + 1) == all@.subrange(0, i as int).push(all@[i as int]));
            }
            i = i + 1;
        }
        proof {
            assert(all@.subrange(0, i as int) == all@);
        }
        out.into_iter()
    }

    proof fn lemma_update_empty<F: Fn(Option<V>) -> Option<V>>(
        &self,
        t: Segment,
        f: F,
        got: Option<V>,
    )
        requires
            self@ == Map::<Segment, V>::empty(),
            t.is_valid(),
            f.ensures((None::<V>,), got),
        ensures
            updated_values(
                self@,
                t,
                f,
                if got is Some { map![t => got.unwrap()] } else { Map::<Segment, V>::empty() },
            ),
    {
        let m = Map::<Segment, V>::empty();
        let r = if got is Some { map![t => got.unwrap()] } else { Map::<Segment, V>::empty() };
        lemma_removed_none(m, t);
        assert(is_gap(m, t, t));
        assert forall|p: Segment| #[trigger] is_piece(m, t, p) implies p == t by {}
        assert(old_value(m, t, t) == None::<V>);
    }
}

impl<V: Copy> Clone for IntervalMap<V> {
    /// A copy of the whole map.
    fn clone(&self) -> (r: Self)
        ensures
            r == *self,
    {
        IntervalMap {
            root: match &self.root {
                Some(n) => Some(n.clone()),
                None => None,
            },
        }
    }
}

} // verus!
