//! An ordered set of byte strings, based on a prefix tree.
//!
//! The set is a prefix-tree map whose values carry no information; its
//! abstract value is a finite `Set<Seq<u8>>`, and `keys()` lists the
//! members in strict lexicographic order.

use vstd::prelude::*;

use crate::map::PrefixTreeMap;
use crate::map::seq_key_set;

verus! {

/// The set after toggling a sequence of keys left to right: a key that is
/// present is removed, one that is absent is inserted.
pub open spec fn toggle_keys(x: Set<Seq<u8>>, s: Seq<Vec<u8>>) -> Set<Seq<u8>>
    decreases s.len(),
{
    if s.len() == 0 {
        x
    } else {
        toggle_keys(
            if x.contains(s[0]@) {
                x.remove(s[0]@)
            } else {
                x.insert(s[0]@)
            },
            s.drop_first(),
        )
    }
}

/// Toggling one more key at the end toggles it in the folded set.
pub proof fn lemma_toggle_keys_push(x: Set<Seq<u8>>, s: Seq<Vec<u8>>, k: Vec<u8>)
    ensures
        toggle_keys(x, s.push(k)) == (if toggle_keys(x, s).contains(k@) {
            toggle_keys(x, s).remove(k@)
        } else {
            toggle_keys(x, s).insert(k@)
        }),
    decreases s.len(),
{
    if s.len() == 0 {
        assert(s.push(k)[0] == k);
        assert(s.push(k).drop_first() =~= Seq::<Vec<u8>>::empty());
        let step = if x.contains(k@) {
            x.remove(k@)
        } else {
            x.insert(k@)
        };
        assert(toggle_keys(x, s.push(k)) == toggle_keys(step, s.push(k).drop_first()));
        assert(toggle_keys(step, Seq::<Vec<u8>>::empty()) == step);
        assert(toggle_keys(x, s) == x);
    } else {
        assert(s.push(k)[0] == s[0]);
        assert(s.push(k).drop_first() =~= s.drop_first().push(k));
        let step = if x.contains(s[0]@) {
            x.remove(s[0]@)
        } else {
            x.insert(s[0]@)
        };
        assert(toggle_keys(x, s.push(k)) == toggle_keys(step, s.push(k).drop_first()));
        assert(toggle_keys(x, s) == toggle_keys(step, s.drop_first()));
        lemma_toggle_keys_push(step, s.drop_first(), k);
    }
}

/// The keys of a nonempty sequence are its first key and the keys of the
/// rest.
pub proof fn lemma_key_set_drop_first(s: Seq<Vec<u8>>)
    requires
        s.len() > 0,
    ensures
        seq_key_set(s) == seq_key_set(s.drop_first()).insert(s[0]@),
{
    assert(seq_key_set(s) =~= seq_key_set(s.drop_first()).insert(s[0]@)) by {
        assert forall|k: Seq<u8>|
            seq_key_set(s).contains(k) <==> seq_key_set(s.drop_first()).insert(s[0]@).contains(
                k,
            ) by {
            if seq_key_set(s).contains(k) {
                let i = choose|i: int| 0 <= i < s.len() && (#[trigger] s[i])@ == k;
                if i > 0 {
                    assert(s.drop_first()[i - 1]@ == k);
                    assert(seq_key_set(s.drop_first()).contains(k));
                }
            }
            if seq_key_set(s.drop_first()).contains(k) {
                let i = choose|i: int|
                    0 <= i < s.drop_first().len() && (#[trigger] s.drop_first()[i])@ == k;
                assert(s[i + 1]@ == k);
                assert(seq_key_set(s).contains(k));
            }
            if k == s[0]@ {
                assert(seq_key_set(s).contains(k));
            }
        }
    }
}

/// Set algebra on one set: the union and the intersection of a set with
/// itself are the set, and the difference is empty.
pub proof fn lemma_set_algebra_self(x: Set<Seq<u8>>)
    ensures
        x.union(x) == x,
        x.intersect(x) == x,
        x.difference(x) == Set::<Seq<u8>>::empty(),
{
    assert(x.union(x) =~= x);
    assert(x.intersect(x) =~= x);
    assert(x.difference(x) =~= Set::<Seq<u8>>::empty());
}

/// Toggling a sequence of distinct keys computes the symmetric difference:
/// what remains is the keys on exactly one side.
pub proof fn lemma_toggle_keys_distinct(x: Set<Seq<u8>>, s: Seq<Vec<u8>>)
    requires
        forall|i: int, j: int| 0 <= i < j < s.len() ==> (#[trigger] s[i])@ != (#[trigger] s[j])@,
    ensures
        toggle_keys(x, s) == x.difference(seq_key_set(s)).union(seq_key_set(s).difference(x)),
    decreases s.len(),
{
    if s.len() == 0 {
        assert(seq_key_set(s) =~= Set::<Seq<u8>>::empty()) by {
            assert forall|k: Seq<u8>| !seq_key_set(s).contains(k) by {
                if seq_key_set(s).contains(k) {
                    let i = choose|i: int| 0 <= i < s.len() && (#[trigger] s[i])@ == k;
                }
            }
        }
        assert(toggle_keys(x, s) =~= x.difference(seq_key_set(s)).union(
            seq_key_set(s).difference(x),
        ));
    } else {
        let k0 = s[0]@;
        let rest = s.drop_first();
        let step = if x.contains(k0) {
            x.remove(k0)
        } else {
            x.insert(k0)
        };
        assert forall|i: int, j: int| 0 <= i < j < rest.len() implies (#[trigger] rest[i])@ != (
        #[trigger] rest[j])@ by {
            assert(rest[i] == s[i + 1] && rest[j] == s[j + 1]);
        }
        lemma_toggle_keys_distinct(step, rest);
        assert(!seq_key_set(rest).contains(k0)) by {
            if seq_key_set(rest).contains(k0) {
                let i = choose|i: int| 0 <= i < rest.len() && (#[trigger] rest[i])@ == k0;
                assert(s[i + 1]@ == s[0]@);
            }
        }
        lemma_key_set_drop_first(s);
        assert(toggle_keys(x, s) == toggle_keys(step, rest));
        assert(step.difference(seq_key_set(rest)).union(seq_key_set(rest).difference(step)) =~= x.difference(
            seq_key_set(s),
        ).union(seq_key_set(s).difference(x)));
    }
}

/// Symmetric difference of a set with its own members, each listed once,
/// empties the set.
pub proof fn lemma_sym_diff_self(x: Set<Seq<u8>>, s: Seq<Vec<u8>>)
    requires
        forall|i: int, j: int| 0 <= i < j < s.len() ==> (#[trigger] s[i])@ != (#[trigger] s[j])@,
        seq_key_set(s) == x,
    ensures
        toggle_keys(x, s) == Set::<Seq<u8>>::empty(),
{
    lemma_toggle_keys_distinct(x, s);
    assert(x.difference(x).union(x.difference(x)) =~= Set::<Seq<u8>>::empty());
}

/// Order invariance for sets: two well-formed sets with the same members
/// list them identically.
pub proof fn lemma_order_invariance(s1: PrefixTreeSet, s2: PrefixTreeSet)
    requires
        s1.wf(),
        s2.wf(),
        s1@ == s2@,
    ensures
        s1.keys() == s2.keys(),
        s1@.len() == s2@.len(),
{
    assert(s1.map@ =~= s2.map@) by {
        assert forall|k: Seq<u8>| s1.map@.contains_key(k) <==> s2.map@.contains_key(k) by {
            assert(s1.map@.dom().contains(k) == s1@.contains(k));
            assert(s2.map@.dom().contains(k) == s2@.contains(k));
        }
    }
    crate::map::lemma_order_invariance(s1.map, s2.map);
}

/// An ordered set of byte strings, based on a prefix tree.
#[derive(Clone, PartialEq, Eq, Hash, Debug)]
pub struct PrefixTreeSet {
    map: PrefixTreeMap<()>,
}

impl View for PrefixTreeSet {
    type V = Set<Seq<u8>>;

    /// The abstract value: a finite set of byte strings.
    closed spec fn view(&self) -> Set<Seq<u8>> {
        self.map@.dom()
    }
}

impl PrefixTreeSet {
    /// Internal well-formedness of the underlying tree.
    pub closed spec fn wf(self) -> bool {
        self.map.wf()
    }

    /// The members of the set, in strict lexicographic order.
    pub closed spec fn keys(self) -> Seq<Seq<u8>> {
        self.map.entries().map_values(crate::node::entry_key::<()>())
    }

    /// What `keys()` promises of a well-formed set: strictly sorted, and
    /// exactly the members of the view.
    pub proof fn lemma_keys(self)
        requires
            self.wf(),
        ensures
            self@.finite(),
            self.keys().len() == self@.len(),
            forall|i: int, j: int|
                0 <= i < j < self.keys().len() ==> crate::order::lex_lt(
                    self.keys()[i],
                    self.keys()[j],
                ),
            forall|i: int| 0 <= i < self.keys().len() ==> self@.contains(#[trigger] self.keys()[i]),
            forall|k: Seq<u8>| self@.contains(k) ==> self.keys().contains(k),
    {
        self.map.lemma_entries();
        assert forall|k: Seq<u8>| self@.contains(k) implies self.keys().contains(k) by {
            assert(self.map.entries().contains((k, self.map@[k])));
            let i = choose|i: int|
                0 <= i < self.map.entries().len() && self.map.entries()[i] == (k, self.map@[k]);
            assert(self.keys()[i] == k);
        }
    }

    /// Creates an empty set. The same as `Default`.
    pub fn new() -> (r: Self)
        ensures
            r.wf(),
            r@ == Set::<Seq<u8>>::empty(),
            r.keys() == Seq::<Seq<u8>>::empty(),
    {
        let map = PrefixTreeMap::new();
        proof {
            assert(map@.dom() =~= Set::<Seq<u8>>::empty());
            assert(map.entries().map_values(|e: (Seq<u8>, ())| e.0) =~= Seq::<Seq<u8>>::empty());
        }
        PrefixTreeSet { map }
    }

    /// Returns the number of items in this set.
    pub fn len(&self) -> (r: usize)
        requires
            self.wf(),
        ensures
            r == self@.len(),
    {
        self.map.len()
    }

    /// Returns `true` if and only if this set is empty.
    pub fn is_empty(&self) -> (r: bool)
        requires
            self.wf(),
        ensures
            r == (self@.len() == 0),
    {
        self.map.is_empty()
    }

    /// Returns `true` if the item is found in the set, `false` otherwise.
    pub fn contains(&self, item: &[u8]) -> (r: bool)
        requires
            self.wf(),
        ensures
            r == self@.contains(item@),
    {
        self.map.contains_key(item)
    }

    /// Returns `true` if and only if some member of the set starts with the
    /// given byte sequence, without walking the members.
    pub fn contains_prefix(&self, key: &[u8]) -> (r: bool)
        requires
            self.wf(),
        ensures
            r == exists|k: Seq<u8>| self@.contains(k) && key@.is_prefix_of(k),
    {
        self.map.contains_prefix(key)
    }

    /// Inserts the key if it did not exist. Returns `true` if an insertion
    /// happened, and `false` if the key already existed.
    pub fn insert(&mut self, key: &[u8]) -> (r: bool)
        requires
            old(self).wf(),
            old(self)@.len() < usize::MAX,
        ensures
            final (self).wf(),
            final (self)@ == old(self)@.insert(key@),
            r == !old(self)@.contains(key@),
    {
        let r = self.map.insert(key, ()).is_none();
        proof {
            assert(self.map@.dom() =~= old(self)@.insert(key@));
        }
        r
    }

    /// Removes a key if it existed. Returns `true` if a removal happened,
    /// and `false` if the key did not exist in the first place.
    pub fn remove(&mut self, key: &[u8]) -> (r: bool)
        requires
            old(self).wf(),
        ensures
            final (self).wf(),
            final (self)@ == old(self)@.remove(key@),
            r == old(self)@.contains(key@),
    {
        let r = self.map.remove(key).is_some();
        proof {
            assert(self.map@.dom() =~= old(self)@.remove(key@));
        }
        r
    }

    /// Removes all internal nodes which hold no member and no useful
    /// descendant. Membership, order and length do not change.
    pub fn compact(&mut self)
        requires
            old(self).wf(),
        ensures
            final (self).wf(),
            final (self)@ == old(self)@,
            final (self).keys() == old(self).keys(),
    {
        self.map.compact();
    }
}

impl Default for PrefixTreeSet {
    /// The empty set, the same as `new`.
    fn default() -> (r: Self)
        ensures
            r.wf(),
            r@ == Set::<Seq<u8>>::empty(),
            r.keys() == Seq::<Seq<u8>>::empty(),
    {
        PrefixTreeSet::new()
    }
}

/// Projecting the keys out of filtered entries is filtering the projected
/// keys.
proof fn lemma_filter_map_keys(es: Seq<(Seq<u8>, ())>, prefix: Seq<u8>)
    ensures
        es.filter(crate::node::entry_key_has_prefix::<()>(prefix)).map_values(
            crate::node::entry_key::<()>(),
        ) == es.map_values(crate::node::entry_key::<()>()).filter(
            crate::node::key_has_prefix(prefix),
        ),
    decreases es.len(),
{
    reveal(Seq::filter);
    let p = crate::node::key_has_prefix(prefix);
    let proj = crate::node::entry_key::<()>();
    let pred = crate::node::entry_key_has_prefix::<()>(prefix);
    if es.len() == 0 {
        assert(es.filter(pred).map_values(proj) =~= es.map_values(proj).filter(p));
    } else {
        lemma_filter_map_keys(es.drop_last(), prefix);
        let front = es.drop_last();
        let ms = es.map_values(proj);
        assert(ms.drop_last() =~= front.map_values(proj));
        assert(ms.last() == es.last().0);
        assert(ms.len() == es.len());
        assert(es.filter(pred) == front.filter(pred) + (if pred(es.last()) {
            seq![es.last()]
        } else {
            seq![]
        }));
        assert(ms.filter(p) == ms.drop_last().filter(p) + (if p(ms.last()) {
            seq![ms.last()]
        } else {
            seq![]
        }));
        if pred(es.last()) {
            assert((front.filter(pred) + seq![es.last()]).map_values(proj) =~= front.filter(
                pred,
            ).map_values(proj).push(es.last().0));
            assert(ms.drop_last().filter(p) + seq![ms.last()] =~= front.map_values(proj).filter(
                p,
            ).push(es.last().0));
        } else {
            assert((front.filter(pred) + seq![]).map_values(proj) =~= front.filter(
                pred,
            ).map_values(proj));
            assert(ms.drop_last().filter(p) + seq![] =~= front.map_values(proj).filter(p));
        }
        assert(es.filter(pred).map_values(proj) =~= es.map_values(proj).filter(p));
    }
}

impl PrefixTreeSet {
    /// An iterator over the borrowed members, in lexicographic order.
    pub fn iter(&self) -> (it: Iter<'_>)
        requires
            self.wf(),
        ensures
            it.wf_iter(),
            it.remaining() == self.keys(),
    {
        Iter { keys: self.map.keys() }
    }

    /// An iterator over the owned members, in lexicographic order.
    pub fn into_iter(self) -> (it: IntoIter)
        requires
            self.wf(),
        ensures
            it.wf_iter(),
            it.remaining() == self.keys(),
    {
        IntoIter { keys: self.map.into_keys() }
    }

    /// An iterator over borrowed members that start with the given prefix,
    /// in lexicographic order.
    pub fn prefix_iter(&self, key: &[u8]) -> (it: PrefixIter<'_>)
        requires
            self.wf(),
        ensures
            it.remaining() == self.keys().filter(crate::node::key_has_prefix(key@)),
    {
        proof {
            lemma_filter_map_keys(self.map.entries(), key@);
        }
        PrefixIter { iter: self.map.prefix_iter(key) }
    }

    /// An iterator over owned members that start with the given prefix, in
    /// lexicographic order.
    pub fn into_prefix_iter(self, key: &[u8]) -> (it: IntoPrefixIter)
        requires
            self.wf(),
        ensures
            it.remaining() == self.keys().filter(crate::node::key_has_prefix(key@)),
    {
        proof {
            lemma_filter_map_keys(self.map.entries(), key@);
        }
        IntoPrefixIter { iter: self.map.into_prefix_iter(key) }
    }

    /// Inserts every key of `other` into `self`.
    pub fn union_in_place(&mut self, other: Vec<Vec<u8>>)
        requires
            old(self).wf(),
            old(self)@.len() + other@.len() <= usize::MAX,
        ensures
            final (self).wf(),
            final (self)@ == old(self)@.union(seq_key_set(other@)),
    {
        let ghost other0 = other@;
        let ghost x0 = self@;
        let mut rest = other;
        let ghost processed: int = 0;
        proof {
            self.map.lemma_len_bound();
            assert(self@ =~= x0.union(seq_key_set(other0.take(0))));
        }
        while rest.len() > 0
            invariant
                self.wf(),
                0 <= processed <= other0.len(),
                rest@ =~= other0.skip(processed),
                self@ == x0.union(seq_key_set(other0.take(processed))),
                self@.len() <= x0.len() + processed,
                x0.len() + other0.len() <= usize::MAX,
                self@.finite(),
                x0.finite(),
            decreases rest@.len(),
        {
            let key = rest.remove(0);
            proof {
                assert(key == other0[processed]);
                assert(rest@ =~= other0.skip(processed + 1));
                crate::map::lemma_key_set_take_push(other0, processed);
            }
            let ghost before = self@;
            self.insert(key.as_slice());
            proof {
                processed = processed + 1;
                assert(self@ =~= x0.union(seq_key_set(other0.take(processed))));
            }
        }
        proof {
            assert(other0.take(other0.len() as int) =~= other0);
        }
    }

    /// The union of `self` and the keys of `other`, by value.
    pub fn union(self, other: Vec<Vec<u8>>) -> (r: Self)
        requires
            self.wf(),
            self@.len() + other@.len() <= usize::MAX,
        ensures
            r.wf(),
            r@ == self@.union(seq_key_set(other@)),
    {
        let mut s = self;
        s.union_in_place(other);
        s
    }

    /// The members of `self` whose key also occurs in `other`. Takes `self`
    /// by reference: the intersection is a fresh set either way.
    pub fn intersection(&self, other: Vec<Vec<u8>>) -> (r: Self)
        requires
            self.wf(),
        ensures
            r.wf(),
            r@ == self@.intersect(seq_key_set(other@)),
    {
        let ghost other0 = other@;
        let mut out = PrefixTreeSet::new();
        let mut rest = other;
        let ghost processed: int = 0;
        proof {
            self.map.lemma_len_bound();
            assert(out@ =~= self@.intersect(seq_key_set(other0.take(0))));
        }
        while rest.len() > 0
            invariant
                self.wf(),
                out.wf(),
                self@.finite(),
                0 <= processed <= other0.len(),
                rest@ =~= other0.skip(processed),
                out@ == self@.intersect(seq_key_set(other0.take(processed))),
                self@.len() <= usize::MAX,
            decreases rest@.len(),
        {
            let key = rest.remove(0);
            proof {
                assert(key == other0[processed]);
                assert(rest@ =~= other0.skip(processed + 1));
                crate::map::lemma_key_set_take_push(other0, processed);
            }
            let ghost before = out@;
            if self.contains(key.as_slice()) && !out.contains(key.as_slice()) {
                proof {
                    assert(before.subset_of(self@.remove(key@)));
                    vstd::set_lib::lemma_len_subset(before, self@.remove(key@));
                    assert(self@.remove(key@).len() == self@.len() - 1);
                }
                out.insert(key.as_slice());
            }
            proof {
                processed = processed + 1;
                assert(out@ =~= self@.intersect(seq_key_set(other0.take(processed))));
            }
        }
        proof {
            assert(other0.take(other0.len() as int) =~= other0);
        }
        out
    }

    /// Removes the keys of `other` from `self`.
    pub fn difference_in_place(&mut self, other: Vec<Vec<u8>>)
        requires
            old(self).wf(),
        ensures
            final (self).wf(),
            final (self)@ == old(self)@.difference(seq_key_set(other@)),
    {
        let ghost other0 = other@;
        let ghost x0 = self@;
        let mut rest = other;
        let ghost processed: int = 0;
        proof {
            assert(self@ =~= x0.difference(seq_key_set(other0.take(0))));
        }
        while rest.len() > 0
            invariant
                self.wf(),
                0 <= processed <= other0.len(),
                rest@ =~= other0.skip(processed),
                self@ == x0.difference(seq_key_set(other0.take(processed))),
            decreases rest@.len(),
        {
            let key = rest.remove(0);
            proof {
                assert(key == other0[processed]);
                assert(rest@ =~= other0.skip(processed + 1));
                crate::map::lemma_key_set_take_push(other0, processed);
            }
            self.remove(key.as_slice());
            proof {
                processed = processed + 1;
                assert(self@ =~= x0.difference(seq_key_set(other0.take(processed))));
            }
        }
        proof {
            assert(other0.take(other0.len() as int) =~= other0);
        }
    }

    /// Removes the keys of `other` from `self`, by value.
    pub fn difference(self, other: Vec<Vec<u8>>) -> (r: Self)
        requires
            self.wf(),
        ensures
            r.wf(),
            r@ == self@.difference(seq_key_set(other@)),
    {
        let mut s = self;
        s.difference_in_place(other);
        s
    }

    /// For each key of `other` in turn: if it is in `self`, remove it;
    /// otherwise insert it.
    pub fn symmetric_difference_in_place(&mut self, other: Vec<Vec<u8>>)
        requires
            old(self).wf(),
            old(self)@.len() + other@.len() <= usize::MAX,
        ensures
            final (self).wf(),
            final (self)@ == toggle_keys(old(self)@, other@),
    {
        let ghost other0 = other@;
        let ghost x0 = self@;
        let mut rest = other;
        let ghost processed: int = 0;
        proof {
            self.map.lemma_len_bound();
        }
        while rest.len() > 0
            invariant
                self.wf(),
                0 <= processed <= other0.len(),
                rest@ =~= other0.skip(processed),
                self@ == toggle_keys(x0, other0.take(processed)),
                self@.len() <= x0.len() + processed,
                x0.len() + other0.len() <= usize::MAX,
                self@.finite(),
                x0.finite(),
            decreases rest@.len(),
        {
            let key = rest.remove(0);
            proof {
                assert(key == other0[processed]);
                assert(rest@ =~= other0.skip(processed + 1));
                assert(other0.take(processed + 1) =~= other0.take(processed).push(key));
                lemma_toggle_keys_push(x0, other0.take(processed), key);
            }
            let ghost before = self@;
            if self.contains(key.as_slice()) {
                self.remove(key.as_slice());
            } else {
                self.insert(key.as_slice());
            }
            proof {
                processed = processed + 1;
            }
        }
        proof {
            assert(other0.take(other0.len() as int) =~= other0);
        }
    }

    /// The symmetric difference, by value.
    pub fn symmetric_difference(self, other: Vec<Vec<u8>>) -> (r: Self)
        requires
            self.wf(),
            self@.len() + other@.len() <= usize::MAX,
        ensures
            r.wf(),
            r@ == toggle_keys(self@, other@),
    {
        let mut s = self;
        s.symmetric_difference_in_place(other);
        s
    }

    /// Builds a set from a sequence of keys; duplicates collapse.
    pub fn from_keys(keys: Vec<Vec<u8>>) -> (r: Self)
        ensures
            r.wf(),
            r@ == seq_key_set(keys@),
    {
        let mut r = PrefixTreeSet::new();
        let n = keys.len();
        proof {
            assert(r@.len() == 0);
            assert(keys@.len() == n);
        }
        r.union_in_place(keys);
        proof {
            assert(r@ =~= seq_key_set(keys@));
        }
        r
    }

    /// Inserts every key of `other`; the same as taking the union in place.
    pub fn extend(&mut self, other: Vec<Vec<u8>>)
        requires
            old(self).wf(),
            old(self)@.len() + other@.len() <= usize::MAX,
        ensures
            final (self).wf(),
            final (self)@ == old(self)@.union(seq_key_set(other@)),
    {
        self.union_in_place(other);
    }
}

/// Iterator over the borrowed members of a set, in lexicographic order,
/// with exact length reporting.
pub struct Iter<'a> {
    keys: crate::map::Keys<'a, ()>,
}

impl<'a> Iter<'a> {
    /// The members this iterator has yet to yield, in order.
    pub closed spec fn remaining(self) -> Seq<Seq<u8>> {
        self.keys.remaining().map_values(crate::node::entry_key::<()>())
    }

    pub closed spec fn wf_iter(self) -> bool {
        self.keys.wf_iter()
    }

    /// The exact number of members left.
    pub fn len(&self) -> (r: usize)
        requires
            self.wf_iter(),
        ensures
            r == self.remaining().len(),
    {
        self.keys.len()
    }

    /// The next member in lexicographic order, if one is left.
    pub fn next(&mut self) -> (r: Option<&'a Vec<u8>>)
        requires
            old(self).wf_iter(),
        ensures
            final (self).wf_iter(),
            match r {
                Some(k) => {
                    &&& old(self).remaining().len() > 0
                    &&& k@ == old(self).remaining()[0]
                    &&& final (self).remaining() == old(self).remaining().drop_first()
                },
                None => old(self).remaining().len() == 0 && final (self).remaining() == old(
                    self,
                ).remaining(),
            },
    {
        let r = self.keys.next();
        proof {
            if r is Some {
                assert(final (self).remaining() =~= old(self).remaining().drop_first());
            }
        }
        r
    }
}

/// Iterator over the owned members of a set, in lexicographic order, with
/// exact length reporting.
pub struct IntoIter {
    keys: crate::map::IntoKeys<()>,
}

impl IntoIter {
    /// The members this iterator has yet to yield, in order.
    pub closed spec fn remaining(self) -> Seq<Seq<u8>> {
        self.keys.remaining().map_values(crate::node::entry_key::<()>())
    }

    pub closed spec fn wf_iter(self) -> bool {
        self.keys.wf_iter()
    }

    /// The exact number of members left.
    pub fn len(&self) -> (r: usize)
        requires
            self.wf_iter(),
        ensures
            r == self.remaining().len(),
    {
        self.keys.len()
    }

    /// The next member in lexicographic order, if one is left.
    pub fn next(&mut self) -> (r: Option<Vec<u8>>)
        requires
            old(self).wf_iter(),
        ensures
            final (self).wf_iter(),
            match r {
                Some(k) => {
                    &&& old(self).remaining().len() > 0
                    &&& k@ == old(self).remaining()[0]
                    &&& final (self).remaining() == old(self).remaining().drop_first()
                },
                None => old(self).remaining().len() == 0 && final (self).remaining() == old(
                    self,
                ).remaining(),
            },
    {
        let r = self.keys.next();
        proof {
            if r is Some {
                assert(final (self).remaining() =~= old(self).remaining().drop_first());
            }
        }
        r
    }
}

/// Iterator over borrowed members sharing a common prefix, in lexicographic
/// order.
pub struct PrefixIter<'a> {
    iter: crate::iter::NodeIter<'a, ()>,
}

impl<'a> PrefixIter<'a> {
    /// The members this iterator has yet to yield, in order.
    pub closed spec fn remaining(self) -> Seq<Seq<u8>> {
        self.iter.remaining().map_values(crate::node::entry_key::<()>())
    }

    /// The next member in lexicographic order, if one is left.
    pub fn next(&mut self) -> (r: Option<&'a Vec<u8>>)
        ensures
            match r {
                Some(k) => {
                    &&& old(self).remaining().len() > 0
                    &&& k@ == old(self).remaining()[0]
                    &&& final (self).remaining() == old(self).remaining().drop_first()
                },
                None => old(self).remaining().len() == 0 && final (self).remaining() == old(
                    self,
                ).remaining(),
            },
    {
        match self.iter.next() {
            Some(kv) => {
                proof {
                    assert(final (self).remaining() =~= old(self).remaining().drop_first());
                }
                Some(kv.0)
            },
            None => None,
        }
    }
}

/// Iterator over owned members sharing a common prefix, in lexicographic
/// order.
pub struct IntoPrefixIter {
    iter: crate::iter::NodeIntoIter<()>,
}

impl IntoPrefixIter {
    /// The members this iterator has yet to yield, in order.
    pub closed spec fn remaining(self) -> Seq<Seq<u8>> {
        self.iter.remaining().map_values(crate::node::entry_key::<()>())
    }

    /// The next member in lexicographic order, if one is left.
    pub fn next(&mut self) -> (r: Option<Vec<u8>>)
        ensures
            match r {
                Some(k) => {
                    &&& old(self).remaining().len() > 0
                    &&& k@ == old(self).remaining()[0]
                    &&& final (self).remaining() == old(self).remaining().drop_first()
                },
                None => old(self).remaining().len() == 0 && final (self).remaining() == old(
                    self,
                ).remaining(),
            },
    {
        match self.iter.next() {
            Some(kv) => {
                proof {
                    assert(final (self).remaining() =~= old(self).remaining().drop_first());
                }
                Some(kv.0)
            },
            None => None,
        }
    }
}

} // verus!
