//! An ordered map from byte-string keys to arbitrary values, based on a
//! prefix tree.
//!
//! The abstract value of a map is a `Map<Seq<u8>, V>`; every operation
//! states its effect on that view. The companion sequence `entries()` lists
//! the same entries in strict lexicographic key order and governs
//! iteration.

use vstd::prelude::*;

use crate::node::Node;
use crate::node::children_entries;
use crate::node::entries_sorted;
use crate::node::has_key;
use crate::node::lemma_empty_node;
use crate::node::lemma_entries_char;
use crate::node::lemma_mut_rel_props;
use crate::node::lemma_root_dom;
use crate::node::lemma_same_view_entries;
use crate::node::lemma_wf_find;
use crate::node::mut_rel;
use crate::node::node_entries;
use crate::node::value_at;
use crate::node::wf_node;

verus! {

/// An ordered map from byte strings to arbitrary values, based on a prefix
/// tree.
#[derive(Clone, PartialEq, Eq, Hash, Debug)]
pub struct PrefixTreeMap<V> {
    root: Node<V>,
    len: usize,
}

impl<V> View for PrefixTreeMap<V> {
    type V = Map<Seq<u8>, V>;

    /// The abstract value: a finite map from key byte strings to values.
    closed spec fn view(&self) -> Map<Seq<u8>, V> {
        Map::new(|k: Seq<u8>| has_key(self.root, k), |k: Seq<u8>| value_at(self.root, k))
    }
}

impl<V> PrefixTreeMap<V> {
    /// Internal well-formedness: the node tree is well-formed and the
    /// stored length equals the number of entries.
    pub closed spec fn wf(self) -> bool {
        &&& wf_node(self.root, Seq::<u8>::empty())
        &&& self@.dom().finite()
        &&& self.len == self@.dom().len()
    }

    /// No useless nodes: every internal subtree holds at least one entry.
    /// This is the state `compact` establishes.
    pub closed spec fn is_compacted(self) -> bool {
        crate::node::compacted(self.root)
    }

    /// The entries of the map, in strict lexicographic order of their keys.
    pub closed spec fn entries(self) -> Seq<(Seq<u8>, V)> {
        node_entries(self.root)
    }

    /// What `entries()` promises of a well-formed map: the sequence is
    /// strictly sorted by key, and it lists exactly the entries of the view.
    pub proof fn lemma_entries(self)
        requires
            self.wf(),
        ensures
            entries_sorted(self.entries()),
            self@.dom().finite(),
            self.entries().len() == self@.dom().len(),
            forall|i: int|
                0 <= i < self.entries().len() ==> {
                    let e = #[trigger] self.entries()[i];
                    self@.contains_key(e.0) && self@[e.0] == e.1
                },
            forall|k: Seq<u8>|
                self@.contains_key(k) ==> self.entries().contains((k, self@[k])),
    {
        lemma_entries_char(self.root, Seq::<u8>::empty());
        lemma_root_dom(self.root);
        assert(self@.dom() =~= Set::new(|k: Seq<u8>| has_key(self.root, k)));
        assert forall|i: int| 0 <= i < self.entries().len() implies {
            let e = #[trigger] self.entries()[i];
            self@.contains_key(e.0) && self@[e.0] == e.1
        } by {
            let e = self.entries()[i];
            assert(e.0.skip(0) =~= e.0);
        }
        assert forall|k: Seq<u8>| self@.contains_key(k) implies self.entries().contains(
            (k, self@[k]),
        ) by {
            assert(self.entries().contains((Seq::<u8>::empty() + k, value_at(self.root, k))));
            assert(Seq::<u8>::empty() + k =~= k);
        }
    }

    /// A well-formed map is finite and fits the machine: it holds at most
    /// `usize::MAX` entries.
    pub proof fn lemma_len_bound(self)
        requires
            self.wf(),
        ensures
            self@.dom().finite(),
            self@.dom().len() <= usize::MAX,
    {
    }

    /// Creates an empty map. The same as `Default`.
    pub fn new() -> (r: Self)
        ensures
            r.wf(),
            r@ == Map::<Seq<u8>, V>::empty(),
            r.entries() == Seq::<(Seq<u8>, V)>::empty(),
    {
        let root = Node { item: None, key_fragment: 0, children: Vec::new() };
        let r = PrefixTreeMap { root, len: 0 };
        proof {
            assert forall|k: Seq<u8>| !has_key(r.root, k) by {
                lemma_empty_node(r.root, k);
            }
            assert(r@ =~= Map::<Seq<u8>, V>::empty());
            assert(r@.dom() =~= Set::<Seq<u8>>::empty());
            assert(children_entries(r.root.children@, 0) =~= Seq::<(Seq<u8>, V)>::empty());
            assert(r.entries() =~= Seq::<(Seq<u8>, V)>::empty());
        }
        r
    }

    /// Returns the number of entries (key-value pairs) in the map.
    pub fn len(&self) -> (r: usize)
        requires
            self.wf(),
        ensures
            r == self@.dom().len(),
    {
        self.len
    }

    /// Returns `true` if and only if this map contains no key-value pairs.
    pub fn is_empty(&self) -> (r: bool)
        requires
            self.wf(),
        ensures
            r == (self@.dom().len() == 0),
    {
        self.len == 0
    }

    /// Return a reference to the original key and value, if found.
    pub fn get_entry(&self, key: &[u8]) -> (r: Option<(&Vec<u8>, &V)>)
        requires
            self.wf(),
        ensures
            match r {
                Some(kv) => self@.contains_key(key@) && kv.0@ == key@ && *kv.1 == self@[key@],
                None => !self@.contains_key(key@),
            },
    {
        proof {
            assert(key@.skip(0) =~= key@);
            lemma_wf_find(self.root, Seq::<u8>::empty(), key@);
            assert(Seq::<u8>::empty() + key@ =~= key@);
        }
        match crate::node::search_node(&self.root, key, 0, Ghost(Seq::<u8>::empty())) {
            Some(m) => match &m.item {
                Some(kv) => Some((&kv.0, &kv.1)),
                None => None,
            },
            None => None,
        }
    }

    /// Return a reference to the value, if found.
    pub fn get(&self, key: &[u8]) -> (r: Option<&V>)
        requires
            self.wf(),
        ensures
            match r {
                Some(v) => self@.contains_key(key@) && *v == self@[key@],
                None => !self@.contains_key(key@),
            },
    {
        proof {
            assert(key@.skip(0) =~= key@);
        }
        match crate::node::search_node(&self.root, key, 0, Ghost(Seq::<u8>::empty())) {
            Some(m) => match &m.item {
                Some(kv) => Some(&kv.1),
                None => None,
            },
            None => None,
        }
    }

    /// Returns `true` if and only if the given key is found in the map.
    pub fn contains_key(&self, key: &[u8]) -> (r: bool)
        requires
            self.wf(),
        ensures
            r == self@.contains_key(key@),
    {
        self.get(key).is_some()
    }

    /// Return a reference to the original key and a mutable reference to
    /// the value, if found.
    pub fn get_entry_mut(&mut self, key: &[u8]) -> (r: Option<(Vec<u8>, &mut V)>)
        requires
            old(self).wf(),
        ensures
            match r {
                Some(kv) => {
                    &&& old(self)@.contains_key(key@)
                    &&& kv.0@ == key@
                    &&& *kv.1 == old(self)@[key@]
                    &&& final (self).wf()
                    &&& final (self)@ == old(self)@.insert(key@, *final (kv.1))
                },
                None => !old(self)@.contains_key(key@) && final (self)@ == old(self)@ && final (
                self).wf(),
            },
    {
        let owned_key = vstd::slice::slice_to_vec(key);
        match self.get_mut(key) {
            Some(v) => Some((owned_key, v)),
            None => None,
        }
    }

    /// Return a mutable reference to the value, if found. Writes through
    /// the returned reference update the entry for this key.
    pub fn get_mut(&mut self, key: &[u8]) -> (r: Option<&mut V>)
        requires
            old(self).wf(),
        ensures
            match r {
                Some(v) => {
                    &&& old(self)@.contains_key(key@)
                    &&& *v == old(self)@[key@]
                    &&& final (self).wf()
                    &&& final (self)@ == old(self)@.insert(key@, *final (v))
                },
                None => !old(self)@.contains_key(key@) && final (self)@ == old(self)@ && final (
                self).wf(),
            },
    {
        let ghost root0 = self.root;
        let ghost len0 = self.len;
        proof {
            assert(key@.skip(0) =~= key@);
            lemma_root_dom(root0);
            // whatever value is eventually written through the borrow, the
            // final tree is a well-formed presentation of the updated map
            assert forall|n2: Node<V>, v2: V| mut_rel(root0, n2, key@, v2, true) implies {
                &&& wf_node(n2, Seq::<u8>::empty())
                &&& Map::new(|k: Seq<u8>| has_key(n2, k), |k: Seq<u8>| value_at(n2, k)) == Map::new(
                    |k: Seq<u8>| has_key(root0, k),
                    |k: Seq<u8>| value_at(root0, k),
                ).insert(key@, v2)
                &&& Set::new(|k: Seq<u8>| has_key(n2, k)).len() == Set::new(
                    |k: Seq<u8>| has_key(root0, k),
                ).len()
            } by {
                lemma_mut_rel_props(root0, n2, key@, v2, true, Seq::<u8>::empty());
                let m0 = Map::new(|k: Seq<u8>| has_key(root0, k), |k: Seq<u8>| value_at(root0, k));
                let m2 = Map::new(|k: Seq<u8>| has_key(n2, k), |k: Seq<u8>| value_at(n2, k));
                assert(m2 =~= m0.insert(key@, v2));
                assert(Set::new(|k: Seq<u8>| has_key(n2, k)) =~= Set::new(
                    |k: Seq<u8>| has_key(root0, k),
                ));
            }
            assert forall|n2: Node<V>, v2: V| mut_rel(root0, n2, key@, v2, false) implies {
                &&& wf_node(n2, Seq::<u8>::empty())
                &&& Map::new(|k: Seq<u8>| has_key(n2, k), |k: Seq<u8>| value_at(n2, k)) == Map::new(
                    |k: Seq<u8>| has_key(root0, k),
                    |k: Seq<u8>| value_at(root0, k),
                )
                &&& Set::new(|k: Seq<u8>| has_key(n2, k)).len() == Set::new(
                    |k: Seq<u8>| has_key(root0, k),
                ).len()
            } by {
                lemma_mut_rel_props(root0, n2, key@, v2, false, Seq::<u8>::empty());
                let m0 = Map::new(|k: Seq<u8>| has_key(root0, k), |k: Seq<u8>| value_at(root0, k));
                let m2 = Map::new(|k: Seq<u8>| has_key(n2, k), |k: Seq<u8>| value_at(n2, k));
                assert(m2 =~= m0);
                assert(Set::new(|k: Seq<u8>| has_key(n2, k)) =~= Set::new(
                    |k: Seq<u8>| has_key(root0, k),
                ));
            }
        }
        crate::node::get_value_mut(&mut self.root, key, 0, Ghost(Seq::<u8>::empty()))
    }

    /// Replaces and returns the previous value, if any. The key stays in
    /// the map untouched if it already exists.
    pub fn insert(&mut self, key: &[u8], value: V) -> (r: Option<V>)
        requires
            old(self).wf(),
            old(self)@.dom().len() < usize::MAX,
        ensures
            final (self).wf(),
            final (self)@ == old(self)@.insert(key@, value),
            r == if old(self)@.contains_key(key@) {
                Some(old(self)@[key@])
            } else {
                None::<V>
            },
    {
        let ghost root0 = self.root;
        proof {
            assert(key@.take(0) =~= Seq::<u8>::empty());
            assert(key@.skip(0) =~= key@);
            lemma_root_dom(root0);
        }
        let r = crate::node::insert_at(&mut self.root, key, 0, value, Ghost(Seq::<u8>::empty()));
        proof {
            assert(self@ =~= old(self)@.insert(key@, value));
            if has_key(root0, key@) {
                assert(self@.dom() =~= old(self)@.dom());
            } else {
                assert(self@.dom() =~= old(self)@.dom().insert(key@));
                assert(old(self)@.dom() =~= Set::new(|k: Seq<u8>| has_key(root0, k)));
            }
        }
        if r.is_none() {
            self.len = self.len + 1;
        }
        r
    }

    /// If the key exists in the map, remove it and return the original key
    /// and the corresponding value.
    pub fn remove_entry(&mut self, key: &[u8]) -> (r: Option<(Vec<u8>, V)>)
        requires
            old(self).wf(),
        ensures
            final (self).wf(),
            final (self)@ == old(self)@.remove(key@),
            match r {
                Some(kv) => old(self)@.contains_key(key@) && kv.0@ == key@ && kv.1 == old(
                    self,
                )@[key@],
                None => !old(self)@.contains_key(key@),
            },
    {
        let ghost root0 = self.root;
        proof {
            assert(key@.take(0) =~= Seq::<u8>::empty());
            assert(key@.skip(0) =~= key@);
            lemma_root_dom(root0);
        }
        let r = crate::node::remove_at(&mut self.root, key, 0, Ghost(Seq::<u8>::empty()));
        proof {
            assert(self@ =~= old(self)@.remove(key@));
            if has_key(root0, key@) {
                assert(self@.dom() =~= old(self)@.dom().remove(key@));
                assert(old(self)@.dom() =~= Set::new(|k: Seq<u8>| has_key(root0, k)));
            } else {
                assert(self@.dom() =~= old(self)@.dom());
            }
        }
        if r.is_some() {
            self.len = self.len - 1;
        }
        r
    }

    /// If the key exists in the map, remove it and return the corresponding
    /// value.
    pub fn remove(&mut self, key: &[u8]) -> (r: Option<V>)
        requires
            old(self).wf(),
        ensures
            final (self).wf(),
            final (self)@ == old(self)@.remove(key@),
            match r {
                Some(v) => old(self)@.contains_key(key@) && v == old(self)@[key@],
                None => !old(self)@.contains_key(key@),
            },
    {
        match self.remove_entry(key) {
            Some(kv) => Some(kv.1),
            None => None,
        }
    }

    /// Removes all internal nodes that hold no entry and no useful
    /// descendant. The contents of the map — its entries, their order, its
    /// length — do not change; only useless nodes left behind by `remove`
    /// or by the entry API are reclaimed.
    pub fn compact(&mut self)
        requires
            old(self).wf(),
        ensures
            final (self).wf(),
            final (self)@ == old(self)@,
            final (self).entries() == old(self).entries(),
            final (self).is_compacted(),
    {
        let ghost root0 = self.root;
        let mut tmp: Node<V> = Node { item: None, key_fragment: 0, children: Vec::new() };
        core::mem::swap(&mut self.root, &mut tmp);
        let (root2, _) = crate::node::compact_node(tmp, Ghost(Seq::<u8>::empty()));
        self.root = root2;
        proof {
            crate::node::lemma_same_entries_view(root0, self.root);
            assert(self@ =~= old(self)@);
        }
    }

    /// Returns `true` if and only if some key of the map starts with the
    /// given byte sequence. The empty prefix is a prefix of every key.
    #[verifier::rlimit(80)]
    pub fn contains_prefix(&self, prefix: &[u8]) -> (r: bool)
        requires
            self.wf(),
        ensures
            r == exists|k: Seq<u8>| self@.contains_key(k) && prefix@.is_prefix_of(k),
    {
        proof {
            assert(prefix@.skip(0) =~= prefix@);
            crate::node::lemma_subtree_entries(self.root, prefix@);
            lemma_entries_char(self.root, Seq::<u8>::empty());
            broadcast use vstd::seq_lib::group_filter_ensures;

        }
        let ghost pred = crate::node::entry_key_has_prefix::<V>(prefix@);
        let ghost es = node_entries(self.root);
        match crate::node::search_node(&self.root, prefix, 0, Ghost(Seq::<u8>::empty())) {
            Some(m) => {
                let r = crate::node::subtree_has_item(m);
                proof {
                    if r {
                        let e = es.filter(pred)[0];
                        assert(es.filter(pred).contains(e));
                        crate::node::lemma_filter_member(es, pred, e);
                        let w = choose|w: int| 0 <= w < es.len() && es[w] == e;
                        assert(e.0.skip(0) =~= e.0);
                        assert(self@.contains_key(e.0) && prefix@.is_prefix_of(e.0));
                    } else {
                        if exists|k: Seq<u8>| self@.contains_key(k) && prefix@.is_prefix_of(k) {
                            let k = choose|k: Seq<u8>|
                                self@.contains_key(k) && prefix@.is_prefix_of(k);
                            assert(es.contains((Seq::<u8>::empty() + k, value_at(self.root, k))));
                            assert(Seq::<u8>::empty() + k =~= k);
                            let w = choose|w: int|
                                0 <= w < es.len() && es[w] == (k, value_at(self.root, k));
                            assert(pred(es[w]));
                            assert(es.filter(pred).contains(es[w]));
                        }
                    }
                }
                r
            },
            None => {
                proof {
                    if exists|k: Seq<u8>| self@.contains_key(k) && prefix@.is_prefix_of(k) {
                        let k = choose|k: Seq<u8>|
                            self@.contains_key(k) && prefix@.is_prefix_of(k);
                        assert(es.contains((Seq::<u8>::empty() + k, value_at(self.root, k))));
                        assert(Seq::<u8>::empty() + k =~= k);
                        let w = choose|w: int|
                            0 <= w < es.len() && es[w] == (k, value_at(self.root, k));
                        assert(pred(es[w]));
                        assert(es.filter(pred).contains(es[w]));
                    }
                }
                false
            },
        }
    }
    /// Return an object representing the (vacant or occupied) node of the
    /// tree corresponding to the given key.
    ///
    /// This always realizes the path to the node, even if nothing is ever
    /// inserted through the entry; `compact` reclaims such nodes. The map
    /// itself — entries, order, length — does not change.
    pub fn entry(&mut self, key: &[u8]) -> (e: Entry)
        requires
            old(self).wf(),
        ensures
            final (self).wf(),
            final (self)@ == old(self)@,
            final (self).entries() == old(self).entries(),
            e.key_view() == key@,
            e is Occupied <==> old(self)@.contains_key(key@),
    {
        let ghost root0 = self.root;
        proof {
            assert(key@.take(0) =~= Seq::<u8>::empty());
            assert(key@.skip(0) =~= key@);
        }
        let occupied = crate::node::realize_at(&mut self.root, key, 0, Ghost(Seq::<u8>::empty()));
        proof {
            assert(self@ =~= old(self)@);
            assert(self@.dom() =~= old(self)@.dom());
            lemma_same_view_entries(root0, self.root);
        }
        let key_vec = vstd::slice::slice_to_vec(key);
        if occupied {
            Entry::Occupied(OccupiedEntry { key: key_vec })
        } else {
            Entry::Vacant(VacantEntry { key: key_vec })
        }
    }
}

impl<V> PrefixTreeMap<V> {
    /// An iterator over pairs of references to keys and the corresponding
    /// values, in lexicographic order of the keys' bytes.
    pub fn iter(&self) -> (it: Iter<'_, V>)
        requires
            self.wf(),
        ensures
            it.wf_iter(),
            it.remaining() == self.entries(),
    {
        proof {
            self.lemma_entries();
        }
        Iter { inner: crate::iter::NodeIter::over(&self.root), len: self.len }
    }

    /// An iterator over the owned key-value pairs, in lexicographic order
    /// of the keys' bytes.
    pub fn into_iter(self) -> (it: IntoIter<V>)
        requires
            self.wf(),
        ensures
            it.wf_iter(),
            it.remaining() == self.entries(),
    {
        proof {
            self.lemma_entries();
        }
        let PrefixTreeMap { root, len } = self;
        IntoIter { inner: crate::iter::NodeIntoIter::over(root), len }
    }

    /// An iterator over the borrowed keys, in lexicographic order.
    pub fn keys(&self) -> (it: Keys<'_, V>)
        requires
            self.wf(),
        ensures
            it.wf_iter(),
            it.remaining() == self.entries(),
    {
        Keys { iter: self.iter() }
    }

    /// An iterator over the owned keys, in lexicographic order.
    pub fn into_keys(self) -> (it: IntoKeys<V>)
        requires
            self.wf(),
        ensures
            it.wf_iter(),
            it.remaining() == self.entries(),
    {
        IntoKeys { iter: self.into_iter() }
    }

    /// An iterator over the borrowed values, in lexicographic order of
    /// their keys.
    pub fn values(&self) -> (it: Values<'_, V>)
        requires
            self.wf(),
        ensures
            it.wf_iter(),
            it.remaining() == self.entries(),
    {
        Values { iter: self.iter() }
    }

    /// An iterator over the owned values, in lexicographic order of their
    /// keys.
    pub fn into_values(self) -> (it: IntoValues<V>)
        requires
            self.wf(),
        ensures
            it.wf_iter(),
            it.remaining() == self.entries(),
    {
        IntoValues { iter: self.into_iter() }
    }

    /// An iterator over borrowed key-value pairs whose key starts with the
    /// given prefix, in lexicographic order. A prefix no key starts with
    /// gives an iterator that yields nothing.
    pub fn prefix_iter(&self, prefix: &[u8]) -> (it: crate::iter::NodeIter<'_, V>)
        requires
            self.wf(),
        ensures
            it.remaining() == self.entries().filter(
                crate::node::entry_key_has_prefix::<V>(prefix@),
            ),
    {
        proof {
            assert(prefix@.skip(0) =~= prefix@);
            crate::node::lemma_subtree_entries(self.root, prefix@);
        }
        match crate::node::search_node(&self.root, prefix, 0, Ghost(Seq::<u8>::empty())) {
            Some(m) => crate::iter::NodeIter::over(m),
            None => crate::iter::NodeIter::empty(),
        }
    }

    /// An iterator over owned key-value pairs whose key starts with the
    /// given prefix, in lexicographic order.
    pub fn into_prefix_iter(self, prefix: &[u8]) -> (it: crate::iter::NodeIntoIter<V>)
        requires
            self.wf(),
        ensures
            it.remaining() == self.entries().filter(
                crate::node::entry_key_has_prefix::<V>(prefix@),
            ),
    {
        proof {
            assert(prefix@.skip(0) =~= prefix@);
            crate::node::lemma_subtree_entries(self.root, prefix@);
        }
        let PrefixTreeMap { root, len: _ } = self;
        match crate::node::take_subtree(root, prefix, 0, Ghost(Seq::<u8>::empty())) {
            Some(m) => crate::iter::NodeIntoIter::over(m),
            None => crate::iter::NodeIntoIter::empty(),
        }
    }
}

/// Iterator over the owned entries of a map, with exact length reporting.
pub struct IntoIter<V> {
    inner: crate::iter::NodeIntoIter<V>,
    len: usize,
}

impl<V> IntoIter<V> {
    /// The entries this iterator has yet to yield, in order.
    pub closed spec fn remaining(self) -> Seq<(Seq<u8>, V)> {
        self.inner.remaining()
    }

    /// The stored length matches the entries left.
    pub closed spec fn wf_iter(self) -> bool {
        self.len == self.remaining().len()
    }

    /// The exact number of entries left.
    pub fn len(&self) -> (r: usize)
        requires
            self.wf_iter(),
        ensures
            r == self.remaining().len(),
    {
        self.len
    }

    /// The next entry in lexicographic key order, if one is left.
    pub fn next(&mut self) -> (r: Option<(Vec<u8>, V)>)
        requires
            old(self).wf_iter(),
        ensures
            final (self).wf_iter(),
            match r {
                Some(kv) => {
                    &&& old(self).remaining().len() > 0
                    &&& (kv.0@, kv.1) == old(self).remaining()[0]
                    &&& final (self).remaining() == old(self).remaining().drop_first()
                },
                None => old(self).remaining().len() == 0 && final (self).remaining() == old(
                    self,
                ).remaining(),
            },
    {
        let r = self.inner.next();
        if r.is_some() {
            self.len = self.len - 1;
        }
        r
    }
}

/// Iterator over the borrowed entries of a map, with exact length
/// reporting.
pub struct Iter<'a, V> {
    inner: crate::iter::NodeIter<'a, V>,
    len: usize,
}

impl<'a, V> Iter<'a, V> {
    /// The entries this iterator has yet to yield, in order.
    pub closed spec fn remaining(self) -> Seq<(Seq<u8>, V)> {
        self.inner.remaining()
    }

    /// The stored length matches the entries left.
    pub closed spec fn wf_iter(self) -> bool {
        self.len == self.remaining().len()
    }

    /// The exact number of entries left.
    pub fn len(&self) -> (r: usize)
        requires
            self.wf_iter(),
        ensures
            r == self.remaining().len(),
    {
        self.len
    }

    /// The next entry in lexicographic key order, if one is left.
    pub fn next(&mut self) -> (r: Option<(&'a Vec<u8>, &'a V)>)
        requires
            old(self).wf_iter(),
        ensures
            final (self).wf_iter(),
            match r {
                Some(kv) => {
                    &&& old(self).remaining().len() > 0
                    &&& (kv.0@, *kv.1) == old(self).remaining()[0]
                    &&& final (self).remaining() == old(self).remaining().drop_first()
                },
                None => old(self).remaining().len() == 0 && final (self).remaining() == old(
                    self,
                ).remaining(),
            },
    {
        let r = self.inner.next();
        if r.is_some() {
            self.len = self.len - 1;
        }
        r
    }
}

/// Iterator over the borrowed keys of a map.
pub struct Keys<'a, V> {
    iter: Iter<'a, V>,
}

impl<'a, V> Keys<'a, V> {
    /// The entries whose keys this iterator has yet to yield, in order.
    pub closed spec fn remaining(self) -> Seq<(Seq<u8>, V)> {
        self.iter.remaining()
    }

    pub closed spec fn wf_iter(self) -> bool {
        self.iter.wf_iter()
    }

    /// The exact number of keys left.
    pub fn len(&self) -> (r: usize)
        requires
            self.wf_iter(),
        ensures
            r == self.remaining().len(),
    {
        self.iter.len()
    }

    /// The next key in lexicographic order, if one is left.
    pub fn next(&mut self) -> (r: Option<&'a Vec<u8>>)
        requires
            old(self).wf_iter(),
        ensures
            final (self).wf_iter(),
            match r {
                Some(k) => {
                    &&& old(self).remaining().len() > 0
                    &&& k@ == old(self).remaining()[0].0
                    &&& final (self).remaining() == old(self).remaining().drop_first()
                },
                None => old(self).remaining().len() == 0 && final (self).remaining() == old(
                    self,
                ).remaining(),
            },
    {
        match self.iter.next() {
            Some(kv) => Some(kv.0),
            None => None,
        }
    }
}

/// Iterator over the owned keys of a map.
pub struct IntoKeys<V> {
    iter: IntoIter<V>,
}

impl<V> IntoKeys<V> {
    /// The entries whose keys this iterator has yet to yield, in order.
    pub closed spec fn remaining(self) -> Seq<(Seq<u8>, V)> {
        self.iter.remaining()
    }

    pub closed spec fn wf_iter(self) -> bool {
        self.iter.wf_iter()
    }

    /// The exact number of keys left.
    pub fn len(&self) -> (r: usize)
        requires
            self.wf_iter(),
        ensures
            r == self.remaining().len(),
    {
        self.iter.len()
    }

    /// The next key in lexicographic order, if one is left.
    pub fn next(&mut self) -> (r: Option<Vec<u8>>)
        requires
            old(self).wf_iter(),
        ensures
            final (self).wf_iter(),
            match r {
                Some(k) => {
                    &&& old(self).remaining().len() > 0
                    &&& k@ == old(self).remaining()[0].0
                    &&& final (self).remaining() == old(self).remaining().drop_first()
                },
                None => old(self).remaining().len() == 0 && final (self).remaining() == old(
                    self,
                ).remaining(),
            },
    {
        match self.iter.next() {
            Some(kv) => Some(kv.0),
            None => None,
        }
    }
}

/// Iterator over the borrowed values of a map, in key order.
pub struct Values<'a, V> {
    iter: Iter<'a, V>,
}

impl<'a, V> Values<'a, V> {
    /// The entries whose values this iterator has yet to yield, in order.
    pub closed spec fn remaining(self) -> Seq<(Seq<u8>, V)> {
        self.iter.remaining()
    }

    pub closed spec fn wf_iter(self) -> bool {
        self.iter.wf_iter()
    }

    /// The exact number of values left.
    pub fn len(&self) -> (r: usize)
        requires
            self.wf_iter(),
        ensures
            r == self.remaining().len(),
    {
        self.iter.len()
    }

    /// The next value in lexicographic key order, if one is left.
    pub fn next(&mut self) -> (r: Option<&'a V>)
        requires
            old(self).wf_iter(),
        ensures
            final (self).wf_iter(),
            match r {
                Some(v) => {
                    &&& old(self).remaining().len() > 0
                    &&& *v == old(self).remaining()[0].1
                    &&& final (self).remaining() == old(self).remaining().drop_first()
                },
                None => old(self).remaining().len() == 0 && final (self).remaining() == old(
                    self,
                ).remaining(),
            },
    {
        match self.iter.next() {
            Some(kv) => Some(kv.1),
            None => None,
        }
    }
}

/// Iterator over the owned values of a map, in key order.
pub struct IntoValues<V> {
    iter: IntoIter<V>,
}

impl<V> IntoValues<V> {
    /// The entries whose values this iterator has yet to yield, in order.
    pub closed spec fn remaining(self) -> Seq<(Seq<u8>, V)> {
        self.iter.remaining()
    }

    pub closed spec fn wf_iter(self) -> bool {
        self.iter.wf_iter()
    }

    /// The exact number of values left.
    pub fn len(&self) -> (r: usize)
        requires
            self.wf_iter(),
        ensures
            r == self.remaining().len(),
    {
        self.iter.len()
    }

    /// The next value in lexicographic key order, if one is left.
    pub fn next(&mut self) -> (r: Option<V>)
        requires
            old(self).wf_iter(),
        ensures
            final (self).wf_iter(),
            match r {
                Some(v) => {
                    &&& old(self).remaining().len() > 0
                    &&& v == old(self).remaining()[0].1
                    &&& final (self).remaining() == old(self).remaining().drop_first()
                },
                None => old(self).remaining().len() == 0 && final (self).remaining() == old(
                    self,
                ).remaining(),
            },
    {
        match self.iter.next() {
            Some(kv) => Some(kv.1),
            None => None,
        }
    }
}

/// The map after inserting a sequence of key-value pairs left to right:
/// a later pair overwrites an earlier one with the same key.
pub open spec fn insert_all<V>(m: Map<Seq<u8>, V>, s: Seq<(Vec<u8>, V)>) -> Map<Seq<u8>, V>
    decreases s.len(),
{
    if s.len() == 0 {
        m
    } else {
        insert_all(m.insert(s[0].0@, s[0].1), s.drop_first())
    }
}

/// Inserting one more pair at the end inserts it into the folded map.
pub proof fn lemma_insert_all_push<V>(m: Map<Seq<u8>, V>, s: Seq<(Vec<u8>, V)>, x: (Vec<u8>, V))
    ensures
        insert_all(m, s.push(x)) == insert_all(m, s).insert(x.0@, x.1),
    decreases s.len(),
{
    if s.len() == 0 {
        assert(s.push(x)[0] == x);
        assert(s.push(x).drop_first() =~= Seq::<(Vec<u8>, V)>::empty());
        assert(insert_all(m, s.push(x)) == insert_all(
            m.insert(s.push(x)[0].0@, s.push(x)[0].1),
            s.push(x).drop_first(),
        ));
        assert(insert_all(m.insert(x.0@, x.1), Seq::<(Vec<u8>, V)>::empty()) == m.insert(
            x.0@,
            x.1,
        ));
    } else {
        assert(s.push(x)[0] == s[0]);
        assert(s.push(x).drop_first() =~= s.drop_first().push(x));
        assert(insert_all(m, s.push(x)) == insert_all(
            m.insert(s.push(x)[0].0@, s.push(x)[0].1),
            s.push(x).drop_first(),
        ));
        lemma_insert_all_push(m.insert(s[0].0@, s[0].1), s.drop_first(), x);
    }
}

/// The set of (abstract) keys occurring in a sequence of byte-string keys.
pub open spec fn seq_key_set(s: Seq<Vec<u8>>) -> Set<Seq<u8>> {
    Set::new(|k: Seq<u8>| exists|i: int| 0 <= i < s.len() && s[i]@ == k)
}

/// Taking one more key into account adds exactly it to the key set.
pub proof fn lemma_key_set_take_push(s: Seq<Vec<u8>>, j: int)
    requires
        0 <= j < s.len(),
    ensures
        seq_key_set(s.take(j + 1)) == seq_key_set(s.take(j)).insert(s[j]@),
{
    assert(seq_key_set(s.take(j + 1)) =~= seq_key_set(s.take(j)).insert(s[j]@)) by {
        assert forall|k: Seq<u8>|
            seq_key_set(s.take(j + 1)).contains(k) <==> seq_key_set(s.take(j)).insert(
                s[j]@,
            ).contains(k) by {
            if seq_key_set(s.take(j + 1)).contains(k) {
                let i = choose|i: int|
                    0 <= i < s.take(j + 1).len() && (#[trigger] s.take(j + 1)[i])@ == k;
                if i < j {
                    assert(s.take(j)[i]@ == k);
                    assert(seq_key_set(s.take(j)).contains(k));
                } else {
                    assert(s.take(j + 1)[i] == s[j]);
                    assert(k == s[j]@);
                }
            }
            if seq_key_set(s.take(j)).contains(k) {
                let i = choose|i: int| 0 <= i < s.take(j).len() && (#[trigger] s.take(j)[i])@ == k;
                assert(s.take(j + 1)[i]@ == k);
                assert(seq_key_set(s.take(j + 1)).contains(k));
            }
            if k == s[j]@ {
                assert(s.take(j + 1)[j]@ == k);
                assert(seq_key_set(s.take(j + 1)).contains(k));
            }
        }
    }
}

/// The map after toggling a sequence of key-value pairs left to right: a
/// pair whose key is present removes it, one whose key is absent inserts
/// its value.
pub open spec fn toggle_all<V>(m: Map<Seq<u8>, V>, s: Seq<(Vec<u8>, V)>) -> Map<Seq<u8>, V>
    decreases s.len(),
{
    if s.len() == 0 {
        m
    } else {
        toggle_all(
            if m.contains_key(s[0].0@) {
                m.remove(s[0].0@)
            } else {
                m.insert(s[0].0@, s[0].1)
            },
            s.drop_first(),
        )
    }
}

/// Toggling one more pair at the end toggles it in the folded map.
pub proof fn lemma_toggle_all_push<V>(m: Map<Seq<u8>, V>, s: Seq<(Vec<u8>, V)>, x: (Vec<u8>, V))
    ensures
        insert_all(m, s.push(x)) == insert_all(m, s).insert(x.0@, x.1),
        toggle_all(m, s.push(x)) == (if toggle_all(m, s).contains_key(x.0@) {
            toggle_all(m, s).remove(x.0@)
        } else {
            toggle_all(m, s).insert(x.0@, x.1)
        }),
    decreases s.len(),
{
    lemma_insert_all_push(m, s, x);
    if s.len() == 0 {
        assert(s.push(x)[0] == x);
        assert(s.push(x).drop_first() =~= Seq::<(Vec<u8>, V)>::empty());
        let step = if m.contains_key(x.0@) {
            m.remove(x.0@)
        } else {
            m.insert(x.0@, x.1)
        };
        assert(toggle_all(m, s.push(x)) == toggle_all(step, s.push(x).drop_first()));
        assert(toggle_all(step, Seq::<(Vec<u8>, V)>::empty()) == step);
        assert(toggle_all(m, s) == m);
    } else {
        assert(s.push(x)[0] == s[0]);
        assert(s.push(x).drop_first() =~= s.drop_first().push(x));
        let step = if m.contains_key(s[0].0@) {
            m.remove(s[0].0@)
        } else {
            m.insert(s[0].0@, s[0].1)
        };
        assert(toggle_all(m, s.push(x)) == toggle_all(step, s.push(x).drop_first()));
        assert(toggle_all(m, s) == toggle_all(step, s.drop_first()));
        lemma_toggle_all_push(step, s.drop_first(), x);
    }
}

impl<V> PrefixTreeMap<V> {
    /// Builds a map from a sequence of key-value pairs; a later pair
    /// overwrites an earlier one with the same key.
    pub fn from_pairs(pairs: Vec<(Vec<u8>, V)>) -> (r: Self)
        ensures
            r.wf(),
            r@ == insert_all(Map::<Seq<u8>, V>::empty(), pairs@),
    {
        let mut r = PrefixTreeMap::new();
        let n = pairs.len();
        proof {
            assert(Map::<Seq<u8>, V>::empty().dom() =~= Set::<Seq<u8>>::empty());
            assert(r@.dom().len() == 0);
            assert(pairs@.len() == n);
        }
        r.union_in_place(pairs);
        r
    }

    /// Takes the union of `self` with another sequence of pairs. A pair of
    /// `other` overwrites an existing entry with the same key.
    pub fn union_in_place(&mut self, other: Vec<(Vec<u8>, V)>)
        requires
            old(self).wf(),
            old(self)@.dom().len() + other@.len() <= usize::MAX,
        ensures
            final (self).wf(),
            final (self)@ == insert_all(old(self)@, other@),
    {
        let ghost other0 = other@;
        let ghost m0 = self@;
        let mut rest = other;
        let ghost processed: int = 0;
        while rest.len() > 0
            invariant
                self.wf(),
                0 <= processed <= other0.len(),
                rest@ =~= other0.skip(processed),
                self@ == insert_all(m0, other0.take(processed)),
                self@.dom().len() <= m0.dom().len() + processed,
                m0.dom().len() + other0.len() <= usize::MAX,
            decreases rest@.len(),
        {
            let kv = rest.remove(0);
            proof {
                assert(kv == other0[processed]);
                assert(rest@ =~= other0.skip(processed + 1));
                assert(other0.take(processed + 1) =~= other0.take(processed).push(kv));
                lemma_insert_all_push(m0, other0.take(processed), kv);
            }
            let ghost before = self@;
            self.insert(kv.0.as_slice(), kv.1);
            proof {
                processed = processed + 1;
                assert(self@.dom() =~= before.dom().insert(kv.0@));
            }
        }
        proof {
            assert(other0.take(other0.len() as int) =~= other0);
        }
    }

    /// Takes the union of `self` with another sequence of pairs, by value.
    pub fn union(self, other: Vec<(Vec<u8>, V)>) -> (r: Self)
        requires
            self.wf(),
            self@.dom().len() + other@.len() <= usize::MAX,
        ensures
            r.wf(),
            r@ == insert_all(self@, other@),
    {
        let mut s = self;
        s.union_in_place(other);
        s
    }

    /// Keeps only the entries whose key also occurs in `other`; the
    /// surviving values are the ones of `self`.
    pub fn intersection(self, other: Vec<Vec<u8>>) -> (r: Self)
        requires
            self.wf(),
        ensures
            r.wf(),
            r@ == self@.restrict(seq_key_set(other@)),
    {
        let ghost other0 = other@;
        let ghost m0 = self@;
        let mut src = self;
        let mut out = PrefixTreeMap::<V>::new();
        let mut rest = other;
        let ghost processed: int = 0;
        proof {
            assert(Map::<Seq<u8>, V>::empty().dom() =~= Set::<Seq<u8>>::empty());
            assert(src@ =~= m0.remove_keys(seq_key_set(other0.take(0))));
            assert(out@ =~= m0.restrict(seq_key_set(other0.take(0))));
        }
        while rest.len() > 0
            invariant
                src.wf(),
                out.wf(),
                0 <= processed <= other0.len(),
                rest@ =~= other0.skip(processed),
                src@ == m0.remove_keys(seq_key_set(other0.take(processed))),
                out@ == m0.restrict(seq_key_set(other0.take(processed))),
                out@.dom().len() + src@.dom().len() == m0.dom().len(),
                m0.dom().len() <= usize::MAX,
            decreases rest@.len(),
        {
            let key = rest.remove(0);
            proof {
                assert(key == other0[processed]);
                assert(rest@ =~= other0.skip(processed + 1));
                lemma_key_set_take_push(other0, processed);
            }
            let ghost src_before = src@;
            let ghost out_before = out@;
            match src.remove_entry(key.as_slice()) {
                Some(kv) => {
                    proof {
                        assert(src@.dom() =~= src_before.dom().remove(key@));
                        assert(!out_before.contains_key(key@)) by {
                            if out_before.contains_key(key@) {
                                assert(src_before.contains_key(key@));
                                assert(out_before.dom().len() + src_before.dom().len() > (
                                out_before.dom() + src_before.dom()).len());
                            }
                        }
                    }
                    out.insert(kv.0.as_slice(), kv.1);
                    proof {
                        assert(out@.dom() =~= out_before.dom().insert(key@));
                    }
                },
                None => {},
            }
            proof {
                processed = processed + 1;
                let s1 = seq_key_set(other0.take(processed - 1));
                let s2 = s1.insert(key@);
                assert(src@ =~= m0.remove_keys(s2));
                assert(out@ =~= m0.restrict(s2));
            }
        }
        proof {
            assert(other0.take(other0.len() as int) =~= other0);
        }
        out
    }

    /// Removes from `self` every key that occurs in `other`.
    pub fn difference_in_place(&mut self, other: Vec<Vec<u8>>)
        requires
            old(self).wf(),
        ensures
            final (self).wf(),
            final (self)@ == old(self)@.remove_keys(seq_key_set(other@)),
    {
        let ghost other0 = other@;
        let ghost m0 = self@;
        let mut rest = other;
        let ghost processed: int = 0;
        proof {
            assert(self@ =~= m0.remove_keys(seq_key_set(other0.take(0))));
        }
        while rest.len() > 0
            invariant
                self.wf(),
                0 <= processed <= other0.len(),
                rest@ =~= other0.skip(processed),
                self@ == m0.remove_keys(seq_key_set(other0.take(processed))),
            decreases rest@.len(),
        {
            let key = rest.remove(0);
            proof {
                assert(key == other0[processed]);
                assert(rest@ =~= other0.skip(processed + 1));
            }
            let ghost before = self@;
            self.remove(key.as_slice());
            proof {
                lemma_key_set_take_push(other0, processed);
                processed = processed + 1;
                assert(self@ =~= m0.remove_keys(seq_key_set(other0.take(processed))));
            }
        }
        proof {
            assert(other0.take(other0.len() as int) =~= other0);
        }
    }

    /// Removes from `self` every key that occurs in `other`, by value.
    pub fn difference(self, other: Vec<Vec<u8>>) -> (r: Self)
        requires
            self.wf(),
        ensures
            r.wf(),
            r@ == self@.remove_keys(seq_key_set(other@)),
    {
        let mut s = self;
        s.difference_in_place(other);
        s
    }

    /// For each pair of `other` in turn: if its key is in `self`, remove
    /// it; otherwise insert the pair.
    pub fn symmetric_difference_in_place(&mut self, other: Vec<(Vec<u8>, V)>)
        requires
            old(self).wf(),
            old(self)@.dom().len() + other@.len() <= usize::MAX,
        ensures
            final (self).wf(),
            final (self)@ == toggle_all(old(self)@, other@),
    {
        let ghost other0 = other@;
        let ghost m0 = self@;
        let mut rest = other;
        let ghost processed: int = 0;
        while rest.len() > 0
            invariant
                self.wf(),
                0 <= processed <= other0.len(),
                rest@ =~= other0.skip(processed),
                self@ == toggle_all(m0, other0.take(processed)),
                self@.dom().len() <= m0.dom().len() + processed,
                m0.dom().len() + other0.len() <= usize::MAX,
            decreases rest@.len(),
        {
            let kv = rest.remove(0);
            proof {
                assert(kv == other0[processed]);
                assert(rest@ =~= other0.skip(processed + 1));
                assert(other0.take(processed + 1) =~= other0.take(processed).push(kv));
                lemma_toggle_all_push(m0, other0.take(processed), kv);
            }
            let ghost before = self@;
            match self.entry(kv.0.as_slice()) {
                Entry::Occupied(e) => {
                    e.remove(self);
                    proof {
                        assert(self@.dom() =~= before.dom().remove(kv.0@));
                    }
                },
                Entry::Vacant(e) => {
                    e.insert(self, kv.1);
                    proof {
                        assert(self@.dom() =~= before.dom().insert(kv.0@));
                    }
                },
            }
            proof {
                processed = processed + 1;
            }
        }
        proof {
            assert(other0.take(other0.len() as int) =~= other0);
        }
    }

    /// The symmetric difference, by value.
    pub fn symmetric_difference(self, other: Vec<(Vec<u8>, V)>) -> (r: Self)
        requires
            self.wf(),
            self@.dom().len() + other@.len() <= usize::MAX,
        ensures
            r.wf(),
            r@ == toggle_all(self@, other@),
    {
        let mut s = self;
        s.symmetric_difference_in_place(other);
        s
    }

    /// Inserts every pair of `other`; the same as taking the union in
    /// place.
    pub fn extend(&mut self, other: Vec<(Vec<u8>, V)>)
        requires
            old(self).wf(),
            old(self)@.dom().len() + other@.len() <= usize::MAX,
        ensures
            final (self).wf(),
            final (self)@ == insert_all(old(self)@, other@),
    {
        self.union_in_place(other);
    }
}

/// Order invariance: two well-formed maps that hold the same entries — in
/// whatever order they were built, and whatever empty nodes they carry —
/// iterate identically: same length, same membership, same entry sequence.
pub proof fn lemma_order_invariance<V>(m1: PrefixTreeMap<V>, m2: PrefixTreeMap<V>)
    requires
        m1.wf(),
        m2.wf(),
        m1@ == m2@,
    ensures
        m1.entries() == m2.entries(),
        m1@.dom().len() == m2@.dom().len(),
{
    assert forall|k: Seq<u8>| has_key(m1.root, k) <==> has_key(m2.root, k) by {
        assert(m1@.contains_key(k) == has_key(m1.root, k));
        assert(m2@.contains_key(k) == has_key(m2.root, k));
    }
    assert forall|k: Seq<u8>| has_key(m1.root, k) implies value_at(m1.root, k) == value_at(
        m2.root,
        k,
    ) by {
        assert(m1@.contains_key(k));
        assert(m1@[k] == value_at(m1.root, k));
        assert(m2@[k] == value_at(m2.root, k));
    }
    lemma_same_view_entries(m1.root, m2.root);
}

/// Building a map by insertion is order-independent when the keys are
/// distinct: the result holds exactly the given pairs, wherever each pair
/// stands in the sequence.
pub proof fn lemma_insert_all_distinct<V>(s: Seq<(Vec<u8>, V)>)
    requires
        forall|i: int, j: int| 0 <= i < j < s.len() ==> s[i].0@ != s[j].0@,
    ensures
        forall|k: Seq<u8>|
            insert_all(Map::<Seq<u8>, V>::empty(), s).contains_key(k) <==> exists|i: int|
                0 <= i < s.len() && s[i].0@ == k,
        forall|i: int|
            0 <= i < s.len() ==> insert_all(Map::<Seq<u8>, V>::empty(), s)[#[trigger] s[i].0@]
                == s[i].1,
    decreases s.len(),
{
    if s.len() == 0 {
        assert forall|k: Seq<u8>| !insert_all(Map::<Seq<u8>, V>::empty(), s).contains_key(k) by {
            assert(insert_all(Map::<Seq<u8>, V>::empty(), s) == Map::<Seq<u8>, V>::empty());
        }
    } else {
        let front = s.drop_last();
        let x = s.last();
        assert(s =~= front.push(x));
        lemma_insert_all_push(Map::<Seq<u8>, V>::empty(), front, x);
        assert forall|i: int, j: int| 0 <= i < j < front.len() implies front[i].0@
            != front[j].0@ by {
            assert(front[i] == s[i] && front[j] == s[j]);
        }
        lemma_insert_all_distinct(front);
        let mf = insert_all(Map::<Seq<u8>, V>::empty(), front);
        assert(insert_all(Map::<Seq<u8>, V>::empty(), s) == mf.insert(x.0@, x.1));
        assert forall|k: Seq<u8>|
            insert_all(Map::<Seq<u8>, V>::empty(), s).contains_key(k) <==> exists|i: int|
                0 <= i < s.len() && s[i].0@ == k by {
            if mf.insert(x.0@, x.1).contains_key(k) {
                if k == x.0@ {
                    assert(s[s.len() - 1].0@ == k);
                } else {
                    let i = choose|i: int| 0 <= i < front.len() && front[i].0@ == k;
                    assert(s[i].0@ == k);
                }
            }
            if exists|i: int| 0 <= i < s.len() && s[i].0@ == k {
                let i = choose|i: int| 0 <= i < s.len() && s[i].0@ == k;
                if i < s.len() - 1 {
                    assert(front[i].0@ == k);
                }
            }
        }
        assert forall|i: int| 0 <= i < s.len() implies insert_all(
            Map::<Seq<u8>, V>::empty(),
            s,
        )[#[trigger] s[i].0@] == s[i].1 by {
            if i < s.len() - 1 {
                assert(front[i] == s[i]);
                assert(s[i].0@ != x.0@);
            }
        }
    }
}

/// Order invariance, from construction: building two maps from the same
/// distinct-keyed pairs, in any two orders, gives maps with the same
/// contents and the same iteration sequence.
pub proof fn lemma_build_order_invariant<V>(
    s1: Seq<(Vec<u8>, V)>,
    s2: Seq<(Vec<u8>, V)>,
    m1: PrefixTreeMap<V>,
    m2: PrefixTreeMap<V>,
)
    requires
        forall|i: int, j: int| 0 <= i < j < s1.len() ==> s1[i].0@ != s1[j].0@,
        forall|i: int, j: int| 0 <= i < j < s2.len() ==> s2[i].0@ != s2[j].0@,
        forall|e: (Vec<u8>, V)| s1.contains(e) <==> s2.contains(e),
        m1.wf(),
        m2.wf(),
        m1@ == insert_all(Map::<Seq<u8>, V>::empty(), s1),
        m2@ == insert_all(Map::<Seq<u8>, V>::empty(), s2),
    ensures
        m1@ == m2@,
        m1.entries() == m2.entries(),
{
    lemma_insert_all_distinct(s1);
    lemma_insert_all_distinct(s2);
    assert(m1@ =~= m2@) by {
        assert forall|k: Seq<u8>| m1@.contains_key(k) implies m2@.contains_key(k) && m2@[k]
            == m1@[k] by {
            let i = choose|i: int| 0 <= i < s1.len() && s1[i].0@ == k;
            assert(s1.contains(s1[i]));
            assert(s2.contains(s1[i]));
            let j = choose|j: int| 0 <= j < s2.len() && s2[j] == s1[i];
            assert(s2[j].0@ == k);
            assert(m2@[s2[j].0@] == s2[j].1);
            assert(m1@[s1[i].0@] == s1[i].1);
        }
        assert forall|k: Seq<u8>| m2@.contains_key(k) implies m1@.contains_key(k) by {
            let j = choose|j: int| 0 <= j < s2.len() && s2[j].0@ == k;
            assert(s2.contains(s2[j]));
            assert(s1.contains(s2[j]));
            let i = choose|i: int| 0 <= i < s1.len() && s1[i] == s2[j];
            assert(s1[i].0@ == k);
        }
    }
    lemma_order_invariance(m1, m2);
}

/// Round trip: after `insert(k, v)` a lookup of `k` yields `v`; inserting
/// `v2` over `v1` leaves exactly one entry for `k`, holding `v2`, and the
/// first insertion's map records `v1` as the prior value the second
/// insertion returns.
pub proof fn lemma_round_trip<V>(m: Map<Seq<u8>, V>, k: Seq<u8>, v1: V, v2: V)
    ensures
        m.insert(k, v1).contains_key(k),
        m.insert(k, v1)[k] == v1,
        m.insert(k, v1).insert(k, v2) == m.insert(k, v2),
        m.insert(k, v2)[k] == v2,
{
    assert(m.insert(k, v1).insert(k, v2) =~= m.insert(k, v2));
}

/// Removal: removing an absent key changes nothing, neither membership nor
/// length; removing a present key shrinks the length by exactly one and
/// afterwards the key is gone.
pub proof fn lemma_removal<V>(m: Map<Seq<u8>, V>, k: Seq<u8>)
    requires
        m.dom().finite(),
    ensures
        !m.contains_key(k) ==> m.remove(k) == m && m.remove(k).dom().len() == m.dom().len(),
        m.contains_key(k) ==> m.remove(k).dom().len() + 1 == m.dom().len(),
        !m.remove(k).contains_key(k),
{
    if !m.contains_key(k) {
        assert(m.remove(k) =~= m);
    } else {
        assert(m.remove(k).dom() =~= m.dom().remove(k));
    }
}

/// The empty prefix keeps every entry: a prefix iteration over it walks
/// exactly the whole-tree iteration.
pub proof fn lemma_empty_prefix_filter<V>(es: Seq<(Seq<u8>, V)>)
    ensures
        es.filter(crate::node::entry_key_has_prefix::<V>(Seq::<u8>::empty())) == es,
    decreases es.len(),
{
    reveal(Seq::filter);
    let pred = crate::node::entry_key_has_prefix::<V>(Seq::<u8>::empty());
    if es.len() == 0 {
        assert(es.filter(pred) =~= es);
    } else {
        lemma_empty_prefix_filter(es.drop_last());
        assert(pred(es.last())) by {
            assert(Seq::<u8>::empty().is_prefix_of(es.last().0)) by {
                assert(Seq::<u8>::empty() =~= es.last().0.subrange(0, 0));
            }
        }
        assert(es.filter(pred) == es.drop_last().filter(pred).push(es.last()));
        assert(es.drop_last().push(es.last()) =~= es);
    }
}

impl<V> Default for PrefixTreeMap<V> {
    /// The empty map, the same as `new`.
    fn default() -> (r: Self)
        ensures
            r.wf(),
            r@ == Map::<Seq<u8>, V>::empty(),
            r.entries() == Seq::<(Seq<u8>, V)>::empty(),
    {
        PrefixTreeMap::new()
    }
}

/// An entry, representing a vacant or occupied node in the tree,
/// corresponding to a specific key. It holds the key; the operations on it
/// take the map they act on.
#[derive(Debug)]
pub enum Entry {
    Vacant(VacantEntry),
    Occupied(OccupiedEntry),
}

/// An entry whose key had no value when the entry was made.
#[derive(Debug)]
pub struct VacantEntry {
    key: Vec<u8>,
}

/// An entry whose key already had a value when the entry was made.
#[derive(Debug)]
pub struct OccupiedEntry {
    key: Vec<u8>,
}

impl VacantEntry {
    /// The key this entry stands for.
    pub closed spec fn key_view(self) -> Seq<u8> {
        self.key@
    }

    pub fn key(&self) -> (r: &Vec<u8>)
        ensures
            r@ == self.key_view(),
    {
        &self.key
    }

    pub fn into_key(self) -> (r: Vec<u8>)
        ensures
            r@ == self.key_view(),
    {
        self.key
    }

    /// Writes `value` under this entry's key and hands back a mutable
    /// borrow of the stored value. Consuming `self` makes the write
    /// single-use.
    pub fn insert<'a, V>(self, map: &'a mut PrefixTreeMap<V>, value: V) -> (r: &'a mut V)
        requires
            old(map).wf(),
            !old(map)@.contains_key(self.key_view()),
            old(map)@.dom().len() < usize::MAX,
        ensures
            *r == value,
            final (map).wf(),
            final (map)@ == old(map)@.insert(self.key_view(), *final (r)),
    {
        let ghost k = self.key@;
        map.insert(self.key.as_slice(), value);
        proof {
            assert(old(map)@.insert(k, value).insert(k, value) =~= old(map)@.insert(k, value));
        }
        match map.get_mut(self.key.as_slice()) {
            Some(v) => {
                proof {
                    assert(old(map)@.insert(k, value).insert(k, value) =~= old(map)@.insert(
                        k,
                        value,
                    ));
                }
                v
            },
            None => vstd::pervasive::unreached(),
        }
    }
}

impl OccupiedEntry {
    /// The key this entry stands for.
    pub closed spec fn key_view(self) -> Seq<u8> {
        self.key@
    }

    pub fn key(&self) -> (r: &Vec<u8>)
        ensures
            r@ == self.key_view(),
    {
        &self.key
    }

    /// A shared borrow of the value under this entry's key.
    pub fn get<'a, V>(&self, map: &'a PrefixTreeMap<V>) -> (r: &'a V)
        requires
            map.wf(),
            map@.contains_key(self.key_view()),
        ensures
            *r == map@[self.key_view()],
    {
        match map.get(self.key.as_slice()) {
            Some(v) => v,
            None => vstd::pervasive::unreached(),
        }
    }

    /// A mutable borrow of the value under this entry's key.
    pub fn get_mut<'a, V>(&self, map: &'a mut PrefixTreeMap<V>) -> (r: &'a mut V)
        requires
            old(map).wf(),
            old(map)@.contains_key(self.key_view()),
        ensures
            *r == old(map)@[self.key_view()],
            final (map).wf(),
            final (map)@ == old(map)@.insert(self.key_view(), *final (r)),
    {
        match map.get_mut(self.key.as_slice()) {
            Some(v) => v,
            None => vstd::pervasive::unreached(),
        }
    }

    /// Like `get_mut`, consuming the entry.
    pub fn into_mut<'a, V>(self, map: &'a mut PrefixTreeMap<V>) -> (r: &'a mut V)
        requires
            old(map).wf(),
            old(map)@.contains_key(self.key_view()),
        ensures
            *r == old(map)@[self.key_view()],
            final (map).wf(),
            final (map)@ == old(map)@.insert(self.key_view(), *final (r)),
    {
        match map.get_mut(self.key.as_slice()) {
            Some(v) => v,
            None => vstd::pervasive::unreached(),
        }
    }

    /// Replaces the value under this entry's key and returns the old value.
    pub fn insert<V>(&self, map: &mut PrefixTreeMap<V>, value: V) -> (r: V)
        requires
            old(map).wf(),
            old(map)@.contains_key(self.key_view()),
        ensures
            r == old(map)@[self.key_view()],
            final (map).wf(),
            final (map)@ == old(map)@.insert(self.key_view(), value),
    {
        let mut v = value;
        match map.get_mut(self.key.as_slice()) {
            Some(slot) => {
                core::mem::swap(slot, &mut v);
            },
            None => {
                vstd::pervasive::unreached::<()>();
            },
        }
        v
    }

    /// Removes the entry, returning the stored key and value. The node the
    /// key led to stays in the tree, empty, until `compact` runs.
    pub fn remove_entry<V>(self, map: &mut PrefixTreeMap<V>) -> (r: (Vec<u8>, V))
        requires
            old(map).wf(),
            old(map)@.contains_key(self.key_view()),
        ensures
            r.0@ == self.key_view(),
            r.1 == old(map)@[self.key_view()],
            final (map).wf(),
            final (map)@ == old(map)@.remove(self.key_view()),
    {
        match map.remove_entry(self.key.as_slice()) {
            Some(kv) => kv,
            None => vstd::pervasive::unreached(),
        }
    }

    /// Removes the entry, returning the stored value.
    pub fn remove<V>(self, map: &mut PrefixTreeMap<V>) -> (r: V)
        requires
            old(map).wf(),
            old(map)@.contains_key(self.key_view()),
        ensures
            r == old(map)@[self.key_view()],
            final (map).wf(),
            final (map)@ == old(map)@.remove(self.key_view()),
    {
        self.remove_entry(map).1
    }
}

impl Entry {
    /// The key this entry stands for.
    pub closed spec fn key_view(self) -> Seq<u8> {
        match self {
            Entry::Vacant(e) => e.key_view(),
            Entry::Occupied(e) => e.key_view(),
        }
    }

    pub fn key(&self) -> (r: &Vec<u8>)
        ensures
            r@ == self.key_view(),
    {
        match self {
            Entry::Vacant(e) => e.key(),
            Entry::Occupied(e) => e.key(),
        }
    }

    /// Inserts `value` if the key has none, then hands back a mutable
    /// borrow of the value under the key.
    pub fn or_insert<'a, V>(self, map: &'a mut PrefixTreeMap<V>, value: V) -> (r: &'a mut V)
        requires
            old(map).wf(),
            old(map)@.dom().len() < usize::MAX,
        ensures
            *r == if old(map)@.contains_key(self.key_view()) {
                old(map)@[self.key_view()]
            } else {
                value
            },
            final (map).wf(),
            final (map)@ == old(map)@.insert(self.key_view(), *final (r)),
    {
        let ghost k = self.key_view();
        let key = match self {
            Entry::Vacant(e) => e.key,
            Entry::Occupied(e) => e.key,
        };
        if !map.contains_key(key.as_slice()) {
            map.insert(key.as_slice(), value);
        }
        proof {
            if !old(map)@.contains_key(k) {
                assert(old(map)@.insert(k, value).insert(k, value) =~= old(map)@.insert(k, value));
            }
        }
        match map.get_mut(key.as_slice()) {
            Some(v) => v,
            None => vstd::pervasive::unreached(),
        }
    }

    /// Inserts the default produced by `default` if the key has none, then
    /// hands back a mutable borrow of the value under the key. The default
    /// is not computed when the key is occupied.
    pub fn or_insert_with<'a, V, F: FnOnce() -> V>(
        self,
        map: &'a mut PrefixTreeMap<V>,
        default: F,
    ) -> (r: &'a mut V)
        requires
            old(map).wf(),
            old(map)@.dom().len() < usize::MAX,
            !old(map)@.contains_key(self.key_view()) ==> default.requires(()),
        ensures
            old(map)@.contains_key(self.key_view()) ==> *r == old(map)@[self.key_view()],
            !old(map)@.contains_key(self.key_view()) ==> call_ensures(default, (), *r),
            final (map).wf(),
            final (map)@ == old(map)@.insert(self.key_view(), *final (r)),
    {
        let ghost k = self.key_view();
        let key = match self {
            Entry::Vacant(e) => e.key,
            Entry::Occupied(e) => e.key,
        };
        if !map.contains_key(key.as_slice()) {
            let value = default();
            map.insert(key.as_slice(), value);
        }
        match map.get_mut(key.as_slice()) {
            Some(v) => {
                proof {
                    if !old(map)@.contains_key(k) {
                        let mid = old(map)@.insert(k, *v);
                        assert(mid.insert(k, *v) =~= mid);
                    }
                }
                v
            },
            None => vstd::pervasive::unreached(),
        }
    }

    /// Inserts the default produced by `default`, applied to the key, if
    /// the key has none, then hands back a mutable borrow of the value
    /// under the key. The default is not computed when the key is occupied.
    pub fn or_insert_with_key<'a, V, F: FnOnce(&Vec<u8>) -> V>(
        self,
        map: &'a mut PrefixTreeMap<V>,
        default: F,
    ) -> (r: &'a mut V)
        requires
            old(map).wf(),
            old(map)@.dom().len() < usize::MAX,
            !old(map)@.contains_key(self.key_view()) ==> forall|kr: &Vec<u8>|
                kr@ == self.key_view() ==> default.requires((kr,)),
        ensures
            old(map)@.contains_key(self.key_view()) ==> *r == old(map)@[self.key_view()],
            !old(map)@.contains_key(self.key_view()) ==> exists|kr: &Vec<u8>|
                kr@ == self.key_view() && call_ensures(default, (kr,), *r),
            final (map).wf(),
            final (map)@ == old(map)@.insert(self.key_view(), *final (r)),
    {
        let ghost k = self.key_view();
        let key = match self {
            Entry::Vacant(e) => e.key,
            Entry::Occupied(e) => e.key,
        };
        if !map.contains_key(key.as_slice()) {
            let value = default(&key);
            map.insert(key.as_slice(), value);
        }
        match map.get_mut(key.as_slice()) {
            Some(v) => {
                proof {
                    if !old(map)@.contains_key(k) {
                        let mid = old(map)@.insert(k, *v);
                        assert(mid.insert(k, *v) =~= mid);
                    }
                }
                v
            },
            None => vstd::pervasive::unreached(),
        }
    }

    /// Inserts the default value of `V` if the key has none, then hands
    /// back a mutable borrow of the value under the key. Nothing is known
    /// here about what `V::default()` returns, so the vacant case promises
    /// only that the key is afterwards bound to the returned borrow.
    pub fn or_default<'a, V: Default>(self, map: &'a mut PrefixTreeMap<V>) -> (r: &'a mut V)
        requires
            old(map).wf(),
            old(map)@.dom().len() < usize::MAX,
        ensures
            old(map)@.contains_key(self.key_view()) ==> *r == old(map)@[self.key_view()],
            final (map).wf(),
            final (map)@ == old(map)@.insert(self.key_view(), *final (r)),
    {
        let ghost k = self.key_view();
        let key = match self {
            Entry::Vacant(e) => e.key,
            Entry::Occupied(e) => e.key,
        };
        if !map.contains_key(key.as_slice()) {
            let value = V::default();
            map.insert(key.as_slice(), value);
        }
        proof {
            if !old(map)@.contains_key(k) {
                let mid = final (map)@;
            }
        }
        match map.get_mut(key.as_slice()) {
            Some(v) => {
                proof {
                    if !old(map)@.contains_key(k) {
                        let mid = old(map)@.insert(k, *v);
                        assert(mid.insert(k, *v) =~= mid);
                    }
                }
                v
            },
            None => vstd::pervasive::unreached(),
        }
    }

    /// Applies `f` to the value under the key, if there is one; a no-op on
    /// a vacant entry. Returns the entry for further chaining.
    pub fn and_modify<V, F: FnOnce(V) -> V>(
        self,
        map: &mut PrefixTreeMap<V>,
        f: F,
    ) -> (r: Entry)
        requires
            old(map).wf(),
            self is Occupied && old(map)@.contains_key(self.key_view()) ==> f.requires(
                (old(map)@[self.key_view()],),
            ),
        ensures
            final (map).wf(),
            r.key_view() == self.key_view(),
            r is Occupied <==> self is Occupied,
            self is Occupied && old(map)@.contains_key(self.key_view()) ==> call_ensures(
                f,
                (old(map)@[self.key_view()],),
                final (map)@[self.key_view()],
            ) && final (map)@ == old(map)@.insert(self.key_view(), final (map)@[self.key_view()]),
            !(self is Occupied && old(map)@.contains_key(self.key_view())) ==> final (map)@ == old(
                map,
            )@,
    {
        match self {
            Entry::Occupied(e) => {
                let ghost k = e.key_view();
                match map.remove_entry(e.key.as_slice()) {
                    Some((key0, v)) => {
                        let v2 = f(v);
                        proof {
                            assert(old(map)@.dom().remove(k).len() == old(map)@.dom().len() - 1);
                            assert(old(map)@.remove(k).dom() =~= old(map)@.dom().remove(k));
                        }
                        map.insert(key0.as_slice(), v2);
                        proof {
                            assert(old(map)@.remove(k).insert(k, v2) =~= old(map)@.insert(k, v2));
                            assert(old(map)@.insert(k, v2)[k] == v2);
                        }
                        Entry::Occupied(e)
                    },
                    None => {
                        proof {
                            assert(old(map)@.remove(k) =~= old(map)@);
                        }
                        Entry::Occupied(e)
                    },
                }
            },
            Entry::Vacant(e) => Entry::Vacant(e),
        }
    }

    /// Removes the entry if it is occupied, returning the stored key and
    /// value.
    pub fn remove_entry<V>(self, map: &mut PrefixTreeMap<V>) -> (r: Option<(Vec<u8>, V)>)
        requires
            old(map).wf(),
        ensures
            final (map).wf(),
            match r {
                Some(kv) => self is Occupied && old(map)@.contains_key(self.key_view()) && kv.0@
                    == self.key_view() && kv.1 == old(map)@[self.key_view()] && final (map)@ == old(
                    map,
                )@.remove(self.key_view()),
                None => !(self is Occupied && old(map)@.contains_key(self.key_view())) && final (
                map)@ == old(map)@,
            },
    {
        match self {
            Entry::Occupied(e) => {
                let ghost k = e.key_view();
                let r = map.remove_entry(e.key.as_slice());
                proof {
                    if r is None {
                        assert(old(map)@.remove(k) =~= old(map)@);
                    }
                }
                r
            },
            Entry::Vacant(_) => None,
        }
    }

    /// Removes the entry if it is occupied, returning the stored value.
    pub fn remove<V>(self, map: &mut PrefixTreeMap<V>) -> (r: Option<V>)
        requires
            old(map).wf(),
        ensures
            final (map).wf(),
            match r {
                Some(v) => self is Occupied && old(map)@.contains_key(self.key_view()) && v == old(
                    map,
                )@[self.key_view()] && final (map)@ == old(map)@.remove(self.key_view()),
                None => !(self is Occupied && old(map)@.contains_key(self.key_view())) && final (
                map)@ == old(map)@,
            },
    {
        match self.remove_entry(map) {
            Some(kv) => Some(kv.1),
            None => None,
        }
    }
}

} // verus!

