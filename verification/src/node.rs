//! The trie vertex: an optional stored entry, the incoming edge byte, and a
//! sorted array of children, together with the mathematical model of the
//! subtree rooted at a vertex.
//!
//! A key `b0 b1 .. b(n-1)` is represented by the path
//! root -> child(b0) -> .. -> child(b(n-1)); the entry, if any, sits on the
//! node reached after consuming the whole key. The node reached by a key
//! stores that full key beside the value.

use vstd::prelude::*;

use crate::order::lemma_lex_after_prefix;
use crate::order::lemma_lex_proper_prefix;
use crate::order::lex_lt;

verus! {

/// One vertex of the prefix tree.
#[derive(PartialEq, Eq, Hash, Debug)]
pub struct Node<V> {
    /// The entry stored at this node: the full key whose path ends here,
    /// and its value.
    pub item: Option<(Vec<u8>, V)>,
    /// The byte labelling the edge from the parent into this node.
    /// Meaningless for a root node, which uses 0.
    pub key_fragment: u8,
    /// Child vertices, strictly sorted by `key_fragment`.
    pub children: Vec<Node<V>>,
}

impl<V: Clone> Clone for Node<V> {
    /// A deep copy of the subtree. Nothing is assumed about how `V::clone`
    /// relates a copied value to the original, so nothing is promised here.
    fn clone(&self) -> (res: Self)
        decreases *self,
    {
        let item = match &self.item {
            Some(kv) => Some((vstd::slice::slice_to_vec(kv.0.as_slice()), kv.1.clone())),
            None => None,
        };
        let mut children: Vec<Node<V>> = Vec::new();
        let mut i: usize = 0;
        while i < self.children.len()
            invariant
                i <= self.children@.len(),
            decreases self.children@.len() - i,
        {
            let c = self.children[i].clone();
            children.push(c);
            i = i + 1;
        }
        Node { item, key_fragment: self.key_fragment, children }
    }
}

/// Some child in `cs` carries the edge byte `b`.
pub open spec fn has_child<V>(cs: Seq<Node<V>>, b: u8) -> bool {
    exists|i: int| 0 <= i < cs.len() && cs[i].key_fragment == b
}

/// The index of the child carrying edge byte `b` (unique when `cs` is sorted).
pub open spec fn child_idx<V>(cs: Seq<Node<V>>, b: u8) -> int {
    choose|i: int| 0 <= i < cs.len() && cs[i].key_fragment == b
}

/// Siblings are strictly sorted by their edge byte, hence the bytes are
/// unique and binary search applies.
pub open spec fn children_sorted<V>(cs: Seq<Node<V>>) -> bool {
    forall|i: int, j: int| 0 <= i < j < cs.len() ==> cs[i].key_fragment < cs[j].key_fragment
}

/// The node reached from `n` by consuming the byte sequence `k`, if the
/// whole path exists.
pub open spec fn find_node<V>(n: Node<V>, k: Seq<u8>) -> Option<Node<V>>
    decreases k.len(),
{
    if k.len() == 0 {
        Some(n)
    } else if has_child(n.children@, k[0]) {
        find_node(n.children@[child_idx(n.children@, k[0])], k.drop_first())
    } else {
        None
    }
}

/// The subtree rooted at `n` holds an entry for the (relative) key `k`.
pub open spec fn has_key<V>(n: Node<V>, k: Seq<u8>) -> bool {
    match find_node(n, k) {
        Some(m) => m.item is Some,
        None => false,
    }
}

/// The value stored for the (relative) key `k`.
pub open spec fn value_at<V>(n: Node<V>, k: Seq<u8>) -> V
    recommends
        has_key(n, k),
{
    match find_node(n, k) {
        Some(m) => match m.item {
            Some(kv) => kv.1,
            None => arbitrary(),
        },
        None => arbitrary(),
    }
}

/// The key stored beside the value for the (relative) key `k`.
pub open spec fn key_at<V>(n: Node<V>, k: Seq<u8>) -> Seq<u8>
    recommends
        has_key(n, k),
{
    match find_node(n, k) {
        Some(m) => match m.item {
            Some(kv) => kv.0@,
            None => arbitrary(),
        },
        None => arbitrary(),
    }
}

/// Well-formedness of the subtree rooted at `n`, sitting at absolute path
/// `path`: the stored key (if any) equals the path, siblings are strictly
/// sorted, and every child is well-formed one byte deeper.
pub open spec fn wf_node<V>(n: Node<V>, path: Seq<u8>) -> bool
    decreases n,
{
    &&& match n.item {
        Some(kv) => kv.0@ == path,
        None => true,
    }
    &&& children_sorted(n.children@)
    &&& forall|i: int|
        0 <= i < n.children@.len() ==> wf_node(
            #[trigger] n.children@[i],
            path.push(n.children@[i].key_fragment),
        )
}

/// The entry stored at `n` itself, as a (possibly empty) sequence.
pub open spec fn own_entry<V>(n: Node<V>) -> Seq<(Seq<u8>, V)> {
    match n.item {
        Some(kv) => seq![(kv.0@, kv.1)],
        None => seq![],
    }
}

/// All entries of the subtree rooted at `n`, in in-order traversal order:
/// the node's own entry first, then the children's entries in ascending
/// edge-byte order. Keys are the absolute keys stored in the nodes.
pub open spec fn node_entries<V>(n: Node<V>) -> Seq<(Seq<u8>, V)>
    decreases n, 0int,
{
    own_entry(n) + children_entries(n.children@, 0)
}

/// The entries of the subtrees rooted at `cs[from]`, `cs[from+1]`, ...,
/// concatenated in order.
pub open spec fn children_entries<V>(cs: Seq<Node<V>>, from: int) -> Seq<(Seq<u8>, V)>
    decreases cs, cs.len() - from,
{
    if from < 0 || from >= cs.len() {
        seq![]
    } else {
        node_entries(cs[from]) + children_entries(cs, from + 1)
    }
}

/// In a sorted sibling array the child with a given edge byte is unique,
/// and `child_idx` picks exactly it.
pub proof fn lemma_child_idx<V>(cs: Seq<Node<V>>, b: u8)
    requires
        children_sorted(cs),
        has_child(cs, b),
    ensures
        0 <= child_idx(cs, b) < cs.len(),
        cs[child_idx(cs, b)].key_fragment == b,
        forall|i: int| 0 <= i < cs.len() && cs[i].key_fragment == b ==> i == child_idx(cs, b),
{
    let w = choose|i: int| 0 <= i < cs.len() && cs[i].key_fragment == b;
    assert(0 <= w < cs.len() && cs[w].key_fragment == b);
}

/// Every node reached from a well-formed node at `path` by a key `k` is
/// itself well-formed at `path + k`; in particular the key it stores, if
/// any, is exactly `path + k`.
pub proof fn lemma_wf_find<V>(n: Node<V>, path: Seq<u8>, k: Seq<u8>)
    requires
        wf_node(n, path),
    ensures
        match find_node(n, k) {
            Some(m) => wf_node(m, path + k),
            None => true,
        },
        has_key(n, k) ==> key_at(n, k) == path + k,
    decreases k.len(),
{
    if k.len() == 0 {
        assert(path + k =~= path);
    } else if has_child(n.children@, k[0]) {
        lemma_child_idx(n.children@, k[0]);
        let i = child_idx(n.children@, k[0]);
        let c = n.children@[i];
        lemma_wf_find(c, path.push(k[0]), k.drop_first());
        assert(path.push(k[0]) + k.drop_first() =~= path + k);
    }
}

/// `n2` agrees with `n` on every key except possibly `k`: same edge byte,
/// same key population away from `k`, and same stored keys and values there.
pub open spec fn same_except<V>(n: Node<V>, n2: Node<V>, k: Seq<u8>) -> bool {
    &&& n2.key_fragment == n.key_fragment
    &&& forall|k2: Seq<u8>| k2 != k ==> (has_key(n2, k2) <==> has_key(n, k2))
    &&& forall|k2: Seq<u8>|
        k2 != k && has_key(n, k2) ==> value_at(n2, k2) == value_at(n, k2) && key_at(n2, k2)
            == key_at(n, k2)
}

/// Two nodes with the same stored entry, edge byte and children sequence
/// are observationally identical.
pub proof fn lemma_same_shape<V>(n: Node<V>, n2: Node<V>, path: Seq<u8>)
    requires
        n2.item == n.item,
        n2.key_fragment == n.key_fragment,
        n2.children@ == n.children@,
        wf_node(n, path),
    ensures
        wf_node(n2, path),
        forall|k2: Seq<u8>| has_key(n2, k2) <==> has_key(n, k2),
        forall|k2: Seq<u8>|
            has_key(n, k2) ==> value_at(n2, k2) == value_at(n, k2) && key_at(n2, k2) == key_at(
                n,
                k2,
            ),
{
    assert forall|k2: Seq<u8>| true implies find_result_eq(n, n2, k2) by {
        lemma_find_unfold(n, n2, k2);
    }
}

/// The results of `find_node` from `n` and `n2` agree at `k2`, as far as
/// the stored entry goes.
pub open spec fn find_result_eq<V>(n: Node<V>, n2: Node<V>, k2: Seq<u8>) -> bool {
    match (find_node(n, k2), find_node(n2, k2)) {
        (Some(m), Some(m2)) => m2.item == m.item,
        (None, None) => true,
        _ => false,
    }
}

proof fn lemma_find_unfold<V>(n: Node<V>, n2: Node<V>, k2: Seq<u8>)
    requires
        n2.item == n.item,
        n2.children@ == n.children@,
    ensures
        find_result_eq(n, n2, k2),
{
    if k2.len() == 0 {
    } else if has_child(n.children@, k2[0]) {
        assert(find_node(n, k2) == find_node(
            n.children@[child_idx(n.children@, k2[0])],
            k2.drop_first(),
        ));
        assert(find_node(n2, k2) == find_node(
            n2.children@[child_idx(n2.children@, k2[0])],
            k2.drop_first(),
        ));
        assert(n2.children@[child_idx(n2.children@, k2[0])] == n.children@[child_idx(
            n.children@,
            k2[0],
        )]);
        lemma_find_refl(find_node(n, k2));
    }
}

proof fn lemma_find_refl<V>(r: Option<Node<V>>)
    ensures
        match (r, r) {
            (Some(m), Some(m2)) => m2.item == m.item,
            (None, None) => true,
            _ => false,
        },
{
}

/// Changing only the stored entry of a node changes the key population at
/// the empty (relative) key alone.
pub proof fn lemma_item_update<V>(n: Node<V>, n2: Node<V>, path: Seq<u8>)
    requires
        wf_node(n, path),
        n2.key_fragment == n.key_fragment,
        n2.children@ == n.children@,
        match n2.item {
            Some(kv) => kv.0@ == path,
            None => true,
        },
    ensures
        wf_node(n2, path),
        same_except(n, n2, Seq::<u8>::empty()),
        has_key(n2, Seq::<u8>::empty()) <==> n2.item is Some,
        match n2.item {
            Some(kv) => value_at(n2, Seq::<u8>::empty()) == kv.1 && key_at(n2, Seq::<u8>::empty())
                == kv.0@,
            None => true,
        },
{
    assert forall|k2: Seq<u8>| k2 != Seq::<u8>::empty() implies (has_key(n2, k2) <==> has_key(
        n,
        k2,
    )) && (has_key(n, k2) ==> value_at(n2, k2) == value_at(n, k2) && key_at(n2, k2) == key_at(
        n,
        k2,
    )) by {
        if k2.len() == 0 {
            assert(k2 =~= Seq::<u8>::empty());
        } else {
            lemma_find_unfold2(n, n2, k2);
        }
    }
}

proof fn lemma_find_unfold2<V>(n: Node<V>, n2: Node<V>, k2: Seq<u8>)
    requires
        k2.len() > 0,
        n2.children@ == n.children@,
    ensures
        find_result_eq(n, n2, k2),
{
    if has_child(n.children@, k2[0]) {
        assert(n2.children@[child_idx(n2.children@, k2[0])] == n.children@[child_idx(
            n.children@,
            k2[0],
        )]);
        lemma_find_refl(find_node(n, k2));
    }
}

/// Replacing the child that carries `k[0]` with a node that differs from it
/// only at `k.drop_first()` yields a tree that differs from `n` only at `k`.
pub proof fn lemma_child_update<V>(n: Node<V>, n2: Node<V>, path: Seq<u8>, k: Seq<u8>)
    requires
        wf_node(n, path),
        k.len() > 0,
        has_child(n.children@, k[0]),
        n2.item == n.item,
        n2.key_fragment == n.key_fragment,
        n2.children@.len() == n.children@.len(),
        forall|i: int|
            0 <= i < n.children@.len() && i != child_idx(n.children@, k[0])
                ==> n2.children@[i] == n.children@[i],
        ({
            let j = child_idx(n.children@, k[0]);
            let c = n.children@[j];
            let c2 = n2.children@[j];
            &&& c2.key_fragment == k[0]
            &&& wf_node(c2, path.push(k[0]))
            &&& same_except(c, c2, k.drop_first())
        }),
    ensures
        wf_node(n2, path),
        same_except(n, n2, k),
        has_key(n2, k) <==> has_key(n2.children@[child_idx(n.children@, k[0])], k.drop_first()),
        has_key(n2, k) ==> value_at(n2, k) == value_at(
            n2.children@[child_idx(n.children@, k[0])],
            k.drop_first(),
        ) && key_at(n2, k) == key_at(n2.children@[child_idx(n.children@, k[0])], k.drop_first()),
{
    lemma_child_idx(n.children@, k[0]);
    let j = child_idx(n.children@, k[0]);
    let c = n.children@[j];
    let c2 = n2.children@[j];
    // sortedness and per-child well-formedness carry over
    assert(children_sorted(n2.children@)) by {
        assert forall|a: int, b: int| 0 <= a < b < n2.children@.len() implies n2.children@[a].key_fragment
            < n2.children@[b].key_fragment by {
            assert(n2.children@[a].key_fragment == n.children@[a].key_fragment);
            assert(n2.children@[b].key_fragment == n.children@[b].key_fragment);
        }
    }
    assert forall|i: int| 0 <= i < n2.children@.len() implies wf_node(
        #[trigger] n2.children@[i],
        path.push(n2.children@[i].key_fragment),
    ) by {
        if i != j {
            assert(n2.children@[i] == n.children@[i]);
        }
    }
    // lookups in n2 for keys away from k
    assert(has_child(n2.children@, k[0]) && child_idx(n2.children@, k[0]) == j) by {
        assert(n2.children@[j].key_fragment == k[0]);
        lemma_child_idx(n2.children@, k[0]);
    }
    assert forall|k2: Seq<u8>| k2 != k implies (has_key(n2, k2) <==> has_key(n, k2)) && (has_key(
        n,
        k2,
    ) ==> value_at(n2, k2) == value_at(n, k2) && key_at(n2, k2) == key_at(n, k2)) by {
        if k2.len() == 0 {
        } else if k2[0] == k[0] {
            // the lookup goes through the replaced child; since k2 != k,
            // the tails differ, and the replaced child agrees there
            assert(k2.drop_first() != k.drop_first()) by {
                if k2.drop_first() == k.drop_first() {
                    assert(k2.len() == k.len());
                    assert(k2 =~= k) by {
                        assert forall|i: int| 0 <= i < k.len() implies k2[i] == k[i] by {
                            if i > 0 {
                                assert(k2[i] == k2.drop_first()[i - 1]);
                                assert(k[i] == k.drop_first()[i - 1]);
                            }
                        }
                    }
                }
            }
            assert(find_node(n, k2) == find_node(c, k2.drop_first()));
            assert(find_node(n2, k2) == find_node(c2, k2.drop_first()));
            assert(has_key(n, k2) == has_key(c, k2.drop_first()));
            assert(has_key(n2, k2) == has_key(c2, k2.drop_first()));
            if has_key(n, k2) {
                assert(value_at(n, k2) == value_at(c, k2.drop_first()));
                assert(value_at(n2, k2) == value_at(c2, k2.drop_first()));
                assert(key_at(n, k2) == key_at(c, k2.drop_first()));
                assert(key_at(n2, k2) == key_at(c2, k2.drop_first()));
            }
        } else {
            if has_child(n.children@, k2[0]) {
                lemma_child_idx(n.children@, k2[0]);
                let j2 = child_idx(n.children@, k2[0]);
                assert(j2 != j);
                assert(n2.children@[j2] == n.children@[j2]);
                assert(has_child(n2.children@, k2[0]) && child_idx(n2.children@, k2[0]) == j2) by {
                    lemma_child_idx(n2.children@, k2[0]);
                }
                assert(find_node(n, k2) == find_node(n.children@[j2], k2.drop_first()));
                assert(find_node(n2, k2) == find_node(n.children@[j2], k2.drop_first()));
            } else {
                assert(!has_child(n2.children@, k2[0])) by {
                    if has_child(n2.children@, k2[0]) {
                        let w = child_idx(n2.children@, k2[0]);
                        lemma_child_idx(n2.children@, k2[0]);
                        assert(n.children@[w].key_fragment == k2[0]);
                    }
                }
            }
        }
    }
    // the lookup at k itself goes through the replaced child
    assert(find_node(n2, k) == find_node(c2, k.drop_first()));
}

/// A node with no stored entry and no children holds no keys at all.
pub proof fn lemma_empty_node<V>(n: Node<V>, k2: Seq<u8>)
    requires
        n.item is None,
        n.children@.len() == 0,
    ensures
        !has_key(n, k2),
{
}

/// Splicing a fresh child carrying the new edge byte `k[0]` into the sorted
/// position, where the subtree below it holds at most the key
/// `k.drop_first()`, yields a tree that differs from `n` only at `k`.
pub proof fn lemma_child_insert<V>(n: Node<V>, n2: Node<V>, path: Seq<u8>, k: Seq<u8>, pos: int)
    requires
        wf_node(n, path),
        k.len() > 0,
        !has_child(n.children@, k[0]),
        0 <= pos <= n.children@.len(),
        forall|j: int| 0 <= j < pos ==> n.children@[j].key_fragment < k[0],
        forall|j: int| pos <= j < n.children@.len() ==> n.children@[j].key_fragment > k[0],
        n2.item == n.item,
        n2.key_fragment == n.key_fragment,
        n2.children@ == n.children@.insert(pos, n2.children@[pos]),
        ({
            let c2 = n2.children@[pos];
            &&& c2.key_fragment == k[0]
            &&& wf_node(c2, path.push(k[0]))
            &&& forall|k2: Seq<u8>| has_key(c2, k2) ==> k2 == k.drop_first()
        }),
    ensures
        wf_node(n2, path),
        same_except(n, n2, k),
        has_key(n2, k) <==> has_key(n2.children@[pos], k.drop_first()),
        has_key(n2, k) ==> value_at(n2, k) == value_at(n2.children@[pos], k.drop_first())
            && key_at(n2, k) == key_at(n2.children@[pos], k.drop_first()),
{
    let c2 = n2.children@[pos];
    let cs = n.children@;
    let cs2 = n2.children@;
    assert(cs2.len() == cs.len() + 1);
    assert forall|i: int| 0 <= i < pos implies cs2[i] == cs[i] by {
        assert(cs.insert(pos, c2)[i] == cs[i]);
    }
    assert forall|i: int| pos < i < cs2.len() implies cs2[i] == cs[i - 1] by {
        assert(cs.insert(pos, c2)[i] == cs[i - 1]);
    }
    assert(children_sorted(cs2)) by {
        assert forall|a: int, b: int| 0 <= a < b < cs2.len() implies cs2[a].key_fragment
            < cs2[b].key_fragment by {}
    }
    assert forall|i: int| 0 <= i < cs2.len() implies wf_node(
        #[trigger] cs2[i],
        path.push(cs2[i].key_fragment),
    ) by {
        if i < pos {
            assert(cs2[i] == cs[i]);
        } else if i > pos {
            assert(cs2[i] == cs[i - 1]);
        }
    }
    assert(has_child(cs2, k[0]) && child_idx(cs2, k[0]) == pos) by {
        assert(cs2[pos].key_fragment == k[0]);
        lemma_child_idx(cs2, k[0]);
    }
    assert forall|k2: Seq<u8>| k2 != k implies (has_key(n2, k2) <==> has_key(n, k2)) && (has_key(
        n,
        k2,
    ) ==> value_at(n2, k2) == value_at(n, k2) && key_at(n2, k2) == key_at(n, k2)) by {
        if k2.len() == 0 {
        } else if k2[0] == k[0] {
            assert(k2.drop_first() != k.drop_first()) by {
                if k2.drop_first() == k.drop_first() {
                    assert(k2.len() == k.len());
                    assert(k2 =~= k) by {
                        assert forall|i: int| 0 <= i < k.len() implies k2[i] == k[i] by {
                            if i > 0 {
                                assert(k2[i] == k2.drop_first()[i - 1]);
                                assert(k[i] == k.drop_first()[i - 1]);
                            }
                        }
                    }
                }
            }
            // in `n` there is no child for this byte; in `n2` the fresh
            // subtree holds no key away from `k.drop_first()`
            assert(!has_key(n, k2));
            assert(find_node(n2, k2) == find_node(c2, k2.drop_first()));
            assert(!has_key(c2, k2.drop_first()));
            assert(!has_key(n2, k2));
        } else {
            if has_child(cs, k2[0]) {
                lemma_child_idx(cs, k2[0]);
                let j2 = child_idx(cs, k2[0]);
                let j3: int = if j2 < pos {
                    j2
                } else {
                    j2 + 1
                };
                assert(cs2[j3] == cs[j2]);
                assert(has_child(cs2, k2[0]) && child_idx(cs2, k2[0]) == j3) by {
                    assert(cs2[j3].key_fragment == k2[0]);
                    lemma_child_idx(cs2, k2[0]);
                }
                assert(find_node(n, k2) == find_node(cs[j2], k2.drop_first()));
                assert(find_node(n2, k2) == find_node(cs[j2], k2.drop_first()));
            } else {
                assert(!has_child(cs2, k2[0])) by {
                    if has_child(cs2, k2[0]) {
                        let w = child_idx(cs2, k2[0]);
                        lemma_child_idx(cs2, k2[0]);
                        if w < pos {
                            assert(cs[w].key_fragment == k2[0]);
                        } else if w > pos {
                            assert(cs[w - 1].key_fragment == k2[0]);
                        }
                    }
                }
            }
        }
    }
    assert(find_node(n2, k) == find_node(c2, k.drop_first()));
}

/// Binary search over the sorted sibling array: the index of the child
/// carrying edge byte `b`, or the insertion point that keeps the array
/// sorted.
pub(crate) fn find_child_index<V>(children: &Vec<Node<V>>, b: u8) -> (r: Result<usize, usize>)
    requires
        children_sorted(children@),
    ensures
        match r {
            Ok(i) => {
                &&& i < children@.len()
                &&& children@[i as int].key_fragment == b
                &&& has_child(children@, b)
                &&& child_idx(children@, b) == i as int
            },
            Err(i) => {
                &&& i <= children@.len()
                &&& !has_child(children@, b)
                &&& forall|j: int| 0 <= j < i ==> children@[j].key_fragment < b
                &&& forall|j: int| i <= j < children@.len() ==> children@[j].key_fragment > b
            },
        },
{
    let mut lo: usize = 0;
    let mut hi: usize = children.len();
    while lo < hi
        invariant
            lo <= hi <= children@.len(),
            children_sorted(children@),
            forall|j: int| 0 <= j < lo ==> children@[j].key_fragment < b,
            forall|j: int| hi <= j < children@.len() ==> children@[j].key_fragment > b,
        decreases hi - lo,
    {
        let mid = lo + (hi - lo) / 2;
        let c = children[mid].key_fragment;
        if c == b {
            proof {
                lemma_child_idx(children@, b);
            }
            return Ok(mid);
        } else if c < b {
            lo = mid + 1;
        } else {
            hi = mid;
        }
    }
    proof {
        if has_child(children@, b) {
            let w = choose|i: int| 0 <= i < children@.len() && children@[i].key_fragment == b;
            assert(children@[w].key_fragment == b);
        }
    }
    Err(lo)
}

/// Read-only search: the node at the byte path `key[i..]` below `n`, if the
/// whole path exists.
pub(crate) fn search_node<'a, V>(
    n: &'a Node<V>,
    key: &[u8],
    i: usize,
    Ghost(path): Ghost<Seq<u8>>,
) -> (r: Option<&'a Node<V>>)
    requires
        i <= key@.len(),
        wf_node(*n, path),
    ensures
        match r {
            Some(m) => find_node(*n, key@.skip(i as int)) == Some(*m),
            None => find_node(*n, key@.skip(i as int)) is None,
        },
    decreases key@.len() - i,
{
    if i == key.len() {
        proof {
            assert(key@.skip(i as int) =~= Seq::<u8>::empty());
        }
        return Some(n);
    }
    let b = key[i];
    proof {
        assert(key@.skip(i as int)[0] == key@[i as int]);
    }
    match find_child_index(&n.children, b) {
        Ok(idx) => {
            proof {
                assert(key@.skip(i as int).drop_first() =~= key@.skip(i as int + 1));
            }
            search_node(&n.children[idx], key, i + 1, Ghost(path.push(b)))
        },
        Err(_) => None,
    }
}

/// Search-or-insert traversal that stores `value` at the node the key leads
/// to, creating missing nodes along the way at their sorted positions.
/// Returns the previously stored value, if any.
pub(crate) fn insert_at<V>(
    n: &mut Node<V>,
    key: &[u8],
    i: usize,
    value: V,
    Ghost(path): Ghost<Seq<u8>>,
) -> (r: Option<V>)
    requires
        wf_node(*old(n), path),
        i <= key@.len(),
        path == key@.take(i as int),
    ensures
        wf_node(*final(n), path),
        same_except(*old(n), *final(n), key@.skip(i as int)),
        has_key(*final(n), key@.skip(i as int)),
        value_at(*final(n), key@.skip(i as int)) == value,
        key_at(*final(n), key@.skip(i as int)) == key@,
        r == if has_key(*old(n), key@.skip(i as int)) {
            Some(value_at(*old(n), key@.skip(i as int)))
        } else {
            None::<V>
        },
    decreases key@.len() - i,
{
    let ghost suffix = key@.skip(i as int);
    if i == key.len() {
        proof {
            assert(suffix =~= Seq::<u8>::empty());
            assert(path =~= key@);
        }
        let stored: Vec<u8> = vstd::slice::slice_to_vec(key);
        let prior = n.item.take();
        n.item = Some((stored, value));
        proof {
            lemma_item_update(*old(n), *n, path);
        }
        match prior {
            Some(kv) => Some(kv.1),
            None => None,
        }
    } else {
        let b = key[i];
        proof {
            assert(suffix[0] == key@[i as int]);
            assert(suffix.drop_first() =~= key@.skip(i as int + 1));
            assert(path.push(b) =~= key@.take(i as int + 1));
        }
        match find_child_index(&n.children, b) {
            Ok(j) => {
                let ghost c = n.children@[j as int];
                let r = insert_at(&mut n.children[j], key, i + 1, value, Ghost(path.push(b)));
                proof {
                    lemma_child_update(*old(n), *n, path, suffix);
                    assert(has_key(*n, suffix));
                }
                r
            },
            Err(pos) => {
                let fresh = Node { item: None, key_fragment: b, children: Vec::new() };
                n.children.insert(pos, fresh);
                proof {
                    assert(n.children@[pos as int].item is None);
                    assert(n.children@[pos as int].children@.len() == 0);
                    assert(wf_node(n.children@[pos as int], path.push(b)));
                }
                let ghost mid = *n;
                let r = insert_at(&mut n.children[pos], key, i + 1, value, Ghost(path.push(b)));
                proof {
                    let c2 = n.children@[pos as int];
                    assert(n.children@ =~= old(n).children@.insert(pos as int, c2));
                    assert forall|k2: Seq<u8>| has_key(c2, k2) implies k2 == suffix.drop_first() by {
                        if k2 != suffix.drop_first() {
                            assert(has_key(c2, k2) <==> has_key(mid.children@[pos as int], k2));
                            lemma_empty_node(mid.children@[pos as int], k2);
                        }
                    }
                    lemma_child_insert(*old(n), *n, path, suffix, pos as int);
                    lemma_empty_node(mid.children@[pos as int], suffix.drop_first());
                    assert(!has_key(*old(n), suffix)) by {
                        assert(!has_child(old(n).children@, suffix[0]));
                    }
                }
                r
            },
        }
    }
}

/// Mutable search that clears the stored entry at the node the key leads
/// to, if the whole path exists. Nodes are never deleted here. Returns the
/// removed key-value pair, if any.
pub(crate) fn remove_at<V>(
    n: &mut Node<V>,
    key: &[u8],
    i: usize,
    Ghost(path): Ghost<Seq<u8>>,
) -> (r: Option<(Vec<u8>, V)>)
    requires
        wf_node(*old(n), path),
        i <= key@.len(),
        path == key@.take(i as int),
    ensures
        wf_node(*final(n), path),
        same_except(*old(n), *final(n), key@.skip(i as int)),
        !has_key(*final(n), key@.skip(i as int)),
        match r {
            Some(kv) => has_key(*old(n), key@.skip(i as int)) && kv.0@ == key@ && kv.1
                == value_at(*old(n), key@.skip(i as int)),
            None => !has_key(*old(n), key@.skip(i as int)),
        },
    decreases key@.len() - i,
{
    let ghost suffix = key@.skip(i as int);
    if i == key.len() {
        proof {
            assert(suffix =~= Seq::<u8>::empty());
            assert(path =~= key@);
        }
        let prior = n.item.take();
        proof {
            lemma_item_update(*old(n), *n, path);
        }
        prior
    } else {
        let b = key[i];
        proof {
            assert(suffix[0] == key@[i as int]);
            assert(suffix.drop_first() =~= key@.skip(i as int + 1));
            assert(path.push(b) =~= key@.take(i as int + 1));
        }
        match find_child_index(&n.children, b) {
            Ok(j) => {
                let r = remove_at(&mut n.children[j], key, i + 1, Ghost(path.push(b)));
                proof {
                    lemma_child_update(*old(n), *n, path, suffix);
                }
                r
            },
            Err(_) => {
                proof {
                    assert(!has_child(n.children@, suffix[0]));
                }
                None
            },
        }
    }
}

/// Search-or-insert traversal that only realizes the path: missing nodes
/// are created empty, and no stored entry anywhere is touched. Returns
/// whether the node the key leads to already holds an entry.
pub(crate) fn realize_at<V>(
    n: &mut Node<V>,
    key: &[u8],
    i: usize,
    Ghost(path): Ghost<Seq<u8>>,
) -> (occupied: bool)
    requires
        wf_node(*old(n), path),
        i <= key@.len(),
        path == key@.take(i as int),
    ensures
        wf_node(*final(n), path),
        forall|k2: Seq<u8>| has_key(*final(n), k2) <==> has_key(*old(n), k2),
        forall|k2: Seq<u8>|
            has_key(*old(n), k2) ==> value_at(*final(n), k2) == value_at(*old(n), k2) && key_at(
                *final(n),
                k2,
            ) == key_at(*old(n), k2),
        (*final(n)).key_fragment == (*old(n)).key_fragment,
        occupied == has_key(*old(n), key@.skip(i as int)),
    decreases key@.len() - i,
{
    let ghost suffix = key@.skip(i as int);
    if i == key.len() {
        proof {
            assert(suffix =~= Seq::<u8>::empty());
        }
        n.item.is_some()
    } else {
        let b = key[i];
        proof {
            assert(suffix[0] == key@[i as int]);
            assert(suffix.drop_first() =~= key@.skip(i as int + 1));
            assert(path.push(b) =~= key@.take(i as int + 1));
        }
        match find_child_index(&n.children, b) {
            Ok(j) => {
                let r = realize_at(&mut n.children[j], key, i + 1, Ghost(path.push(b)));
                proof {
                    lemma_child_update(*old(n), *n, path, suffix);
                    assert(has_key(*n, suffix) <==> has_key(*old(n), suffix)) by {
                        assert(find_node(*old(n), suffix) == find_node(
                            old(n).children@[child_idx(old(n).children@, suffix[0])],
                            suffix.drop_first(),
                        ));
                    }
                }
                r
            },
            Err(pos) => {
                let fresh = Node { item: None, key_fragment: b, children: Vec::new() };
                n.children.insert(pos, fresh);
                proof {
                    assert(wf_node(n.children@[pos as int], path.push(b)));
                }
                let ghost mid = *n;
                let r = realize_at(&mut n.children[pos], key, i + 1, Ghost(path.push(b)));
                proof {
                    let c2 = n.children@[pos as int];
                    assert(n.children@ =~= old(n).children@.insert(pos as int, c2));
                    assert forall|k2: Seq<u8>| has_key(c2, k2) implies k2 == suffix.drop_first() by {
                        assert(has_key(c2, k2) <==> has_key(mid.children@[pos as int], k2));
                        lemma_empty_node(mid.children@[pos as int], k2);
                    }
                    lemma_child_insert(*old(n), *n, path, suffix, pos as int);
                    lemma_empty_node(mid.children@[pos as int], suffix.drop_first());
                    assert(!has_key(*old(n), suffix)) by {
                        assert(!has_child(old(n).children@, suffix[0]));
                    }
                    assert(!has_key(*n, suffix));
                }
                r
            },
        }
    }
}

/// The shape of a tree `n2` obtained from `n` by handing out a mutable
/// borrow of the value stored at the key `k` and letting the caller write
/// `v2` through it (`found` says whether the key was there; when it is not,
/// nothing changes). The relation is purely structural, so the verifier can
/// establish it across the lifetime of the returned borrow.
pub open spec fn mut_rel<V>(n: Node<V>, n2: Node<V>, k: Seq<u8>, v2: V, found: bool) -> bool
    decreases k.len(),
{
    &&& n2.key_fragment == n.key_fragment
    &&& if k.len() == 0 {
        &&& n2.children == n.children
        &&& if found {
            match (n.item, n2.item) {
                (Some(kv), Some(kv2)) => kv2.0 == kv.0 && kv2.1 == v2,
                _ => false,
            }
        } else {
            n.item is None && n2.item == n.item
        }
    } else if has_child(n.children@, k[0]) {
        let j = child_idx(n.children@, k[0]);
        &&& n2.item == n.item
        &&& n2.children@.len() == n.children@.len()
        &&& (forall|i: int| 0 <= i < n.children@.len() && i != j ==> n2.children@[i] == n.children@[i])
        &&& mut_rel(n.children@[j], n2.children@[j], k.drop_first(), v2, found)
    } else {
        &&& !found
        &&& n2.item == n.item
        &&& n2.children == n.children
    }
}

/// What `mut_rel` means observationally: the new tree is well-formed and
/// agrees with the old one everywhere except that the value at `k`, if the
/// key was found, is now `v2`.
pub proof fn lemma_mut_rel_props<V>(
    n: Node<V>,
    n2: Node<V>,
    k: Seq<u8>,
    v2: V,
    found: bool,
    path: Seq<u8>,
)
    requires
        wf_node(n, path),
        mut_rel(n, n2, k, v2, found),
    ensures
        wf_node(n2, path),
        same_except(n, n2, k),
        found ==> has_key(n, k) && has_key(n2, k) && value_at(n2, k) == v2 && key_at(n2, k)
            == key_at(n, k),
        !found ==> !has_key(n, k) && (has_key(n2, k) <==> has_key(n, k)),
    decreases k.len(),
{
    if k.len() == 0 {
        assert(k =~= Seq::<u8>::empty());
        lemma_item_update(n, n2, path);
    } else if has_child(n.children@, k[0]) {
        lemma_child_idx(n.children@, k[0]);
        let j = child_idx(n.children@, k[0]);
        lemma_mut_rel_props(n.children@[j], n2.children@[j], k.drop_first(), v2, found, path.push(
            k[0],
        ));
        lemma_child_update(n, n2, path, k);
        assert(find_node(n, k) == find_node(n.children@[j], k.drop_first()));
    } else {
        lemma_same_shape(n, n2, path);
        assert(!has_key(n, k));
    }
}

/// Mutable search: a mutable borrow of the value stored at the key, if the
/// whole path exists and the node it leads to holds an entry.
pub(crate) fn get_value_mut<'a, V>(
    n: &'a mut Node<V>,
    key: &[u8],
    i: usize,
    Ghost(path): Ghost<Seq<u8>>,
) -> (r: Option<&'a mut V>)
    requires
        wf_node(*old(n), path),
        i <= key@.len(),
    ensures
        match r {
            Some(v) => has_key(*old(n), key@.skip(i as int)) && *v == value_at(
                *old(n),
                key@.skip(i as int),
            ) && mut_rel(*old(n), *final(n), key@.skip(i as int), *final(v), true),
            None => !has_key(*old(n), key@.skip(i as int)) && mut_rel(
                *old(n),
                *final(n),
                key@.skip(i as int),
                arbitrary(),
                false,
            ),
        },
    decreases key@.len() - i,
{
    let ghost suffix = key@.skip(i as int);
    if i == key.len() {
        proof {
            assert(suffix =~= Seq::<u8>::empty());
        }
        match &mut n.item {
            Some(kv) => Some(&mut kv.1),
            None => None,
        }
    } else {
        let b = key[i];
        proof {
            assert(suffix[0] == key@[i as int]);
            assert(suffix.drop_first() =~= key@.skip(i as int + 1));
        }
        match find_child_index(&n.children, b) {
            Ok(j) => {
                let r = get_value_mut(&mut n.children[j], key, i + 1, Ghost(path.push(b)));
                proof {
                    assert(find_node(*old(n), suffix) == find_node(
                        old(n).children@[child_idx(old(n).children@, suffix[0])],
                        suffix.drop_first(),
                    ));
                }
                r
            },
            Err(_) => {
                proof {
                    assert(!has_child(n.children@, suffix[0]));
                }
                None
            },
        }
    }
}

/// Appending one more subtree appends its entries.
pub proof fn lemma_children_entries_push<V>(s: Seq<Node<V>>, x: Node<V>, from: int)
    requires
        0 <= from <= s.len(),
    ensures
        children_entries(s.push(x), from) == children_entries(s, from) + node_entries(x),
    decreases s.len() - from,
{
    if from == s.len() {
        assert(children_entries(s.push(x), from) == node_entries(s.push(x)[from])
            + children_entries(s.push(x), from + 1));
        assert(s.push(x)[from] == x);
        assert(children_entries(s.push(x), from + 1) =~= Seq::<(Seq<u8>, V)>::empty());
        assert(children_entries(s, from) =~= Seq::<(Seq<u8>, V)>::empty());
        assert(children_entries(s.push(x), from) =~= children_entries(s, from)
            + node_entries(x));
    } else {
        assert(s.push(x)[from] == s[from]);
        lemma_children_entries_push(s, x, from + 1);
        assert(children_entries(s.push(x), from) =~= children_entries(s, from)
            + node_entries(x));
    }
}

/// The concatenated entries of a suffix of siblings contain each block.
pub proof fn lemma_children_entries_block<V>(cs: Seq<Node<V>>, from: int, j: int)
    requires
        0 <= from <= j < cs.len(),
    ensures
        children_entries(cs, from).len() >= node_entries(cs[j]).len(),
    decreases j - from,
{
    if from < j {
        lemma_children_entries_block(cs, from + 1, j);
    }
}

/// Siblings whose subtrees hold no entries contribute no entries.
pub proof fn lemma_children_entries_empty<V>(cs: Seq<Node<V>>, from: int)
    requires
        forall|j: int| from <= j < cs.len() ==> node_entries(#[trigger] cs[j]).len() == 0,
    ensures
        children_entries(cs, from).len() == 0,
    decreases cs.len() - from,
{
    if 0 <= from < cs.len() {
        lemma_children_entries_empty(cs, from + 1);
    }
}

/// Consumes a tree and hands back the subtree the byte path `key[i..]`
/// leads to, dropping everything else.
pub(crate) fn take_subtree<V>(
    n: Node<V>,
    key: &[u8],
    i: usize,
    Ghost(path): Ghost<Seq<u8>>,
) -> (r: Option<Node<V>>)
    requires
        wf_node(n, path),
        i <= key@.len(),
    ensures
        r == find_node(n, key@.skip(i as int)),
    decreases key@.len() - i,
{
    let ghost n0 = n;
    let ghost suffix = key@.skip(i as int);
    if i == key.len() {
        proof {
            assert(suffix =~= Seq::<u8>::empty());
        }
        return Some(n);
    }
    let b = key[i];
    proof {
        assert(suffix[0] == key@[i as int]);
        assert(suffix.drop_first() =~= key@.skip(i as int + 1));
    }
    match find_child_index(&n.children, b) {
        Ok(j) => {
            let mut children = n.children;
            let c = children.remove(j);
            proof {
                assert(c == n0.children@[j as int]);
                assert(wf_node(c, path.push(b)));
            }
            take_subtree(c, key, i + 1, Ghost(path.push(b)))
        },
        Err(_) => None,
    }
}

/// Whether the subtree rooted at `n` holds at least one entry.
pub(crate) fn subtree_has_item<V>(n: &Node<V>) -> (r: bool)
    ensures
        r == (node_entries(*n).len() > 0),
    decreases *n,
{
    if n.item.is_some() {
        return true;
    }
    let mut i: usize = 0;
    while i < n.children.len()
        invariant
            i <= n.children@.len(),
            n.item is None,
            forall|j: int| 0 <= j < i ==> node_entries(#[trigger] n.children@[j]).len() == 0,
        decreases n.children@.len() - i,
    {
        if subtree_has_item(&n.children[i]) {
            proof {
                lemma_children_entries_block(n.children@, 0, i as int);
            }
            return true;
        }
        i += 1;
    }
    proof {
        lemma_children_entries_empty(n.children@, 0);
    }
    false
}

/// No useless nodes anywhere below `n`: every child subtree holds at least
/// one entry, recursively. This is the state `compact` establishes.
pub open spec fn compacted<V>(n: Node<V>) -> bool
    decreases n,
{
    forall|i: int|
        0 <= i < n.children@.len() ==> node_entries(#[trigger] n.children@[i]).len() > 0
            && compacted(n.children@[i])
}

/// Compaction: rebuilds the subtree, dropping every child whose subtree
/// holds no entry. The stored entries, their order, and well-formedness are
/// preserved; only useless nodes disappear. Returns the compacted subtree
/// and whether it is still useful (holds at least one entry).
pub(crate) fn compact_node<V>(n: Node<V>, Ghost(path): Ghost<Seq<u8>>) -> (r: (Node<V>, bool))
    requires
        wf_node(n, path),
    ensures
        wf_node(r.0, path),
        r.0.key_fragment == n.key_fragment,
        node_entries(r.0) == node_entries(n),
        compacted(r.0),
        r.1 == (node_entries(n).len() > 0),
    decreases n,
{
    let ghost n0 = n;
    let ghost cs0 = n.children@;
    let Node { item, key_fragment, children } = n;
    let mut rest = children;
    let mut kept: Vec<Node<V>> = Vec::new();
    while rest.len() > 0
        invariant
            n == n0,
            wf_node(n0, path),
            cs0 == n0.children@,
            rest@.len() <= cs0.len(),
            rest@ =~= cs0.subrange(cs0.len() - rest@.len(), cs0.len() as int),
            children_sorted(kept@),
            forall|i: int|
                0 <= i < kept@.len() && rest@.len() > 0 ==> (#[trigger] kept@[i]).key_fragment
                    < cs0[cs0.len() - rest@.len()].key_fragment,
            forall|i: int|
                0 <= i < kept@.len() ==> wf_node(
                    #[trigger] kept@[i],
                    path.push(kept@[i].key_fragment),
                ),
            forall|i: int| 0 <= i < kept@.len() ==> node_entries(#[trigger] kept@[i]).len() > 0,
            forall|i: int| 0 <= i < kept@.len() ==> compacted(#[trigger] kept@[i]),
            children_entries(kept@, 0) == children_entries(
                cs0.take(cs0.len() - rest@.len()),
                0,
            ),
        decreases rest@.len(),
    {
        let ghost k = cs0.len() - rest@.len();
        let ghost kept_before = kept@;
        let c = rest.remove(0);
        proof {
            assert(c == cs0[k]);
            assert(rest@ =~= cs0.subrange(k + 1, cs0.len() as int));
            assert(wf_node(cs0[k], path.push(cs0[k].key_fragment)));
            assert(decreases_to!(n0 => n0.children));
            assert(decreases_to!(n0.children => n0.children@));
            assert(decreases_to!(n0.children@ => n0.children@[k]));
            assert(c == n0.children@[k]);
            assert(decreases_to!(n0 => c));
        }
        let ghost cfrag = c.key_fragment;
        let (c2, useful) = compact_node(c, Ghost(path.push(cfrag)));
        proof {
            assert(cs0.take(k + 1) =~= cs0.take(k).push(cs0[k]));
            lemma_children_entries_push(cs0.take(k), cs0[k], 0);
            assert(children_entries(cs0.take(k + 1), 0) == children_entries(cs0.take(k), 0)
                + node_entries(cs0[k]));
            assert(children_sorted(cs0));
        }
        if useful {
            kept.push(c2);
            proof {
                assert(kept@ == kept_before.push(c2));
                lemma_children_entries_push(kept_before, c2, 0);
                assert(children_entries(kept@, 0) == children_entries(kept_before, 0)
                    + node_entries(c2));
                assert(node_entries(c2) == node_entries(cs0[k]));
                assert(children_entries(kept@, 0) == children_entries(cs0.take(k + 1), 0));
                assert forall|i: int|
                    0 <= i < kept@.len() && cs0.len() - rest@.len() < cs0.len() implies (
                #[trigger] kept@[i]).key_fragment < cs0[cs0.len() - rest@.len()].key_fragment by {
                    assert(cs0.len() - rest@.len() == k + 1);
                    if i < kept_before.len() {
                        assert(kept@[i] == kept_before[i]);
                        assert(kept_before[i].key_fragment < cs0[k].key_fragment);
                        assert(cs0[k].key_fragment < cs0[k + 1].key_fragment);
                    } else {
                        assert(kept@[i] == c2);
                        assert(c2.key_fragment == cs0[k].key_fragment);
                        assert(cs0[k].key_fragment < cs0[k + 1].key_fragment);
                    }
                }
            }
        } else {
            proof {
                assert(node_entries(cs0[k]).len() == 0);
                assert(node_entries(cs0[k]) =~= Seq::<(Seq<u8>, V)>::empty());
                assert(children_entries(cs0.take(k + 1), 0) =~= children_entries(
                    cs0.take(k),
                    0,
                ));
            }
        }
        proof {
            assert(children_entries(kept@, 0) == children_entries(
                cs0.take(cs0.len() - rest@.len()),
                0,
            ));
        }
    }
    proof {
        assert(cs0.take(cs0.len() as int) =~= cs0);
    }
    let useful = item.is_some() || kept.len() > 0;
    let out = Node { item, key_fragment, children: kept };
    proof {
        if out.item is None && out.children@.len() == 0 {
            lemma_children_entries_empty(out.children@, 0);
        }
        if out.children@.len() > 0 {
            lemma_children_entries_block(out.children@, 0, 0);
        }
    }
    (out, useful)
}

/// The predicate "this entry's key starts with `prefix`", as one function
/// value, so that contracts in different modules speak of the same filter.
pub open spec fn entry_key_has_prefix<V>(prefix: Seq<u8>) -> spec_fn((Seq<u8>, V)) -> bool {
    |e: (Seq<u8>, V)| prefix.is_prefix_of(e.0)
}

/// The predicate "this key starts with `prefix`", as one function value.
pub open spec fn key_has_prefix(prefix: Seq<u8>) -> spec_fn(Seq<u8>) -> bool {
    |k: Seq<u8>| prefix.is_prefix_of(k)
}

/// The projection of an entry to its key, as one function value.
pub open spec fn entry_key<V>() -> spec_fn((Seq<u8>, V)) -> Seq<u8> {
    |e: (Seq<u8>, V)| e.0
}

/// Entry sequences are strictly sorted by the lexicographic order of their
/// keys.
pub open spec fn entries_sorted<V>(es: Seq<(Seq<u8>, V)>) -> bool {
    forall|i: int, j: int| 0 <= i < j < es.len() ==> lex_lt(es[i].0, es[j].0)
}

proof fn lemma_add_contains_left<V>(a: Seq<(Seq<u8>, V)>, b: Seq<(Seq<u8>, V)>, x: (Seq<u8>, V))
    requires
        a.contains(x),
    ensures
        (a + b).contains(x),
{
    let i = choose|i: int| 0 <= i < a.len() && a[i] == x;
    assert((a + b)[i] == x);
}

proof fn lemma_add_contains_right<V>(a: Seq<(Seq<u8>, V)>, b: Seq<(Seq<u8>, V)>, x: (Seq<u8>, V))
    requires
        b.contains(x),
    ensures
        (a + b).contains(x),
{
    let i = choose|i: int| 0 <= i < b.len() && b[i] == x;
    assert((a + b)[a.len() + i] == x);
}

/// The in-order entry sequence of a well-formed subtree characterizes its
/// key population: the keys are sorted, each extends the node's path, each
/// is a key of the subtree with the recorded value, and every key of the
/// subtree appears.
pub proof fn lemma_entries_char<V>(n: Node<V>, path: Seq<u8>)
    requires
        wf_node(n, path),
    ensures
        entries_sorted(node_entries(n)),
        forall|idx: int|
            0 <= idx < node_entries(n).len() ==> {
                let e = #[trigger] node_entries(n)[idx];
                &&& path.is_prefix_of(e.0)
                &&& has_key(n, e.0.skip(path.len() as int))
                &&& value_at(n, e.0.skip(path.len() as int)) == e.1
                &&& key_at(n, e.0.skip(path.len() as int)) == e.0
            },
        forall|k: Seq<u8>|
            has_key(n, k) ==> node_entries(n).contains((path + k, value_at(n, k))),
    decreases n, 0int,
{
    let es = node_entries(n);
    let own = own_entry(n);
    let ces = children_entries(n.children@, 0);
    lemma_children_entries_char(n, path, 0);
    // the node's own entry
    if n.item is Some {
        let kv = n.item->Some_0;
        assert(own[0] == (kv.0@, kv.1));
        assert(kv.0@ == path);
        assert(path.skip(path.len() as int) =~= Seq::<u8>::empty());
        assert(find_node(n, Seq::<u8>::empty()) == Some(n));
    }
    // per-index characterization
    assert forall|idx: int| 0 <= idx < es.len() implies {
        let e = #[trigger] es[idx];
        &&& path.is_prefix_of(e.0)
        &&& has_key(n, e.0.skip(path.len() as int))
        &&& value_at(n, e.0.skip(path.len() as int)) == e.1
        &&& key_at(n, e.0.skip(path.len() as int)) == e.0
    } by {
        if idx < own.len() {
            assert(es[idx] == own[0]);
        } else {
            assert(es[idx] == ces[idx - own.len()]);
        }
    }
    // sortedness: own key strictly precedes all children keys
    assert forall|i: int, j: int| 0 <= i < j < es.len() implies lex_lt(es[i].0, es[j].0) by {
        if i < own.len() {
            assert(es[i] == own[0]);
            assert(es[j] == ces[j - own.len()]);
            assert(es[i].0 == path);
            assert(es[j].0.len() > path.len());
            assert(path.is_prefix_of(es[j].0));
            lemma_lex_proper_prefix(path, es[j].0);
        } else {
            assert(es[i] == ces[i - own.len()]);
            assert(es[j] == ces[j - own.len()]);
        }
    }
    // completeness
    assert forall|k: Seq<u8>| has_key(n, k) implies es.contains((path + k, value_at(n, k))) by {
        if k.len() == 0 {
            assert(k =~= Seq::<u8>::empty());
            assert(path + k =~= path);
            let kv = n.item->Some_0;
            assert(own[0] == (path + k, value_at(n, k)));
            assert(own.contains((path + k, value_at(n, k))));
            lemma_add_contains_left(own, ces, (path + k, value_at(n, k)));
        } else {
            lemma_child_idx(n.children@, k[0]);
            let j = child_idx(n.children@, k[0]);
            let c = n.children@[j];
            assert(find_node(n, k) == find_node(c, k.drop_first()));
            assert(has_key(c, k.drop_first()));
            assert(ces.contains(
                (path.push(c.key_fragment) + k.drop_first(), value_at(c, k.drop_first())),
            ));
            assert(path.push(c.key_fragment) + k.drop_first() =~= path + k);
            lemma_add_contains_right(own, ces, (path + k, value_at(n, k)));
        }
    }
}

/// The characterization of the concatenated entries of the sibling suffix
/// `cs[from..]` of a well-formed node.
#[verifier::rlimit(80)]
proof fn lemma_children_entries_char<V>(n: Node<V>, path: Seq<u8>, from: int)
    requires
        wf_node(n, path),
        0 <= from <= n.children@.len(),
    ensures
        entries_sorted(children_entries(n.children@, from)),
        forall|idx: int|
            0 <= idx < children_entries(n.children@, from).len() ==> {
                let e = #[trigger] children_entries(n.children@, from)[idx];
                &&& e.0.len() > path.len()
                &&& path.is_prefix_of(e.0)
                &&& (from < n.children@.len() ==> e.0[path.len() as int]
                    >= n.children@[from].key_fragment)
                &&& has_key(n, e.0.skip(path.len() as int))
                &&& value_at(n, e.0.skip(path.len() as int)) == e.1
                &&& key_at(n, e.0.skip(path.len() as int)) == e.0
            },
        forall|i: int, k2: Seq<u8>|
            from <= i < n.children@.len() && #[trigger] has_key(n.children@[i], k2)
                ==> children_entries(n.children@, from).contains(
                (
                    path.push(n.children@[i].key_fragment) + k2,
                    value_at(n.children@[i], k2),
                ),
            ),
    decreases n.children@, n.children@.len() - from,
{
    let cs = n.children@;
    let ces = children_entries(cs, from);
    if from >= cs.len() {
        return ;
    }
    let c = cs[from];
    let b = c.key_fragment;
    assert(wf_node(c, path.push(b)));
    lemma_entries_char(c, path.push(b));
    lemma_children_entries_char(n, path, from + 1);
    let block = node_entries(c);
    let rest = children_entries(cs, from + 1);
    assert(ces == block + rest);
    lemma_child_idx(cs, b);
    assert(child_idx(cs, b) == from);
    // facts about entries of the first block, lifted from the child to `n`
    assert forall|idx: int| 0 <= idx < block.len() implies {
        let e = #[trigger] block[idx];
        &&& e.0.len() > path.len()
        &&& path.is_prefix_of(e.0)
        &&& e.0[path.len() as int] == b
        &&& has_key(n, e.0.skip(path.len() as int))
        &&& value_at(n, e.0.skip(path.len() as int)) == e.1
        &&& key_at(n, e.0.skip(path.len() as int)) == e.0
    } by {
        let e = block[idx];
        assert(path.push(b).is_prefix_of(e.0));
        assert(e.0.subrange(0, path.len() as int + 1) == path.push(b));
        assert(e.0.subrange(0, path.len() as int + 1)[path.len() as int] == e.0[path.len() as int]);
        assert(path.is_prefix_of(e.0)) by {
            assert(path =~= e.0.subrange(0, path.len() as int + 1).subrange(0, path.len() as int));
            assert(e.0.subrange(0, path.len() as int + 1).subrange(0, path.len() as int) =~= e.0.subrange(
                0,
                path.len() as int,
            ));
        }
        let suffix = e.0.skip(path.len() as int);
        assert(suffix[0] == e.0[path.len() as int]);
        assert(suffix.drop_first() =~= e.0.skip(path.len() as int + 1)) by {
            assert forall|x: int|
                0 <= x < suffix.drop_first().len() implies suffix.drop_first()[x] == e.0.skip(
                path.len() as int + 1,
            )[x] by {
                assert(suffix.drop_first()[x] == suffix[x + 1]);
                assert(suffix[x + 1] == e.0[path.len() + 1 + x]);
                assert(e.0.skip(path.len() as int + 1)[x] == e.0[path.len() + 1 + x]);
            }
        }
        assert(find_node(n, suffix) == find_node(c, suffix.drop_first()));
        assert(has_key(c, e.0.skip(path.len() as int + 1)));
    }
    // per-index claims for the concatenation
    assert forall|idx: int| 0 <= idx < ces.len() implies {
        let e = #[trigger] ces[idx];
        &&& e.0.len() > path.len()
        &&& path.is_prefix_of(e.0)
        &&& e.0[path.len() as int] >= cs[from].key_fragment
        &&& has_key(n, e.0.skip(path.len() as int))
        &&& value_at(n, e.0.skip(path.len() as int)) == e.1
        &&& key_at(n, e.0.skip(path.len() as int)) == e.0
    } by {
        if idx < block.len() {
            assert(ces[idx] == block[idx]);
        } else {
            assert(ces[idx] == rest[idx - block.len()]);
            assert(from + 1 < cs.len() ==> rest[idx - block.len()].0[path.len() as int]
                >= cs[from + 1].key_fragment);
            if from + 1 < cs.len() {
                assert(cs[from].key_fragment < cs[from + 1].key_fragment);
            }
        }
    }
    // sortedness of the concatenation
    assert forall|i: int, j: int| 0 <= i < j < ces.len() implies lex_lt(ces[i].0, ces[j].0) by {
        if j < block.len() {
            assert(ces[i] == block[i] && ces[j] == block[j]);
        } else if i >= block.len() {
            assert(ces[i] == rest[i - block.len()] && ces[j] == rest[j - block.len()]);
        } else {
            assert(ces[i] == block[i] && ces[j] == rest[j - block.len()]);
            assert(ces[i].0[path.len() as int] == b);
            assert(from + 1 < cs.len() ==> ces[j].0[path.len() as int] >= cs[from
                + 1].key_fragment);
            assert(rest.len() > 0);
            assert(from + 1 < cs.len()) by {
                if from + 1 >= cs.len() {
                    assert(rest =~= Seq::<(Seq<u8>, V)>::empty());
                }
            }
            assert(cs[from].key_fragment < cs[from + 1].key_fragment);
            lemma_lex_after_prefix(path, ces[i].0, ces[j].0);
        }
    }
    // completeness for the concatenation
    assert forall|i: int, k2: Seq<u8>|
        from <= i < cs.len() && #[trigger] has_key(cs[i], k2) implies ces.contains(
        (path.push(cs[i].key_fragment) + k2, value_at(cs[i], k2)),
    ) by {
        if i == from {
            assert(block.contains((path.push(b) + k2, value_at(c, k2))));
            lemma_add_contains_left(block, rest, (path.push(b) + k2, value_at(c, k2)));
        } else {
            assert(rest.contains((path.push(cs[i].key_fragment) + k2, value_at(cs[i], k2))));
            lemma_add_contains_right(
                block,
                rest,
                (path.push(cs[i].key_fragment) + k2, value_at(cs[i], k2)),
            );
        }
    }
}

/// Two well-formed roots presenting the same map have the same entry
/// sequence: the entry sequence is canonical in the view, whatever empty
/// nodes either tree carries.
pub proof fn lemma_same_view_entries<V>(n1: Node<V>, n2: Node<V>)
    requires
        wf_node(n1, Seq::<u8>::empty()),
        wf_node(n2, Seq::<u8>::empty()),
        forall|k: Seq<u8>| has_key(n1, k) <==> has_key(n2, k),
        forall|k: Seq<u8>| has_key(n1, k) ==> value_at(n1, k) == value_at(n2, k),
    ensures
        node_entries(n1) == node_entries(n2),
{
    lemma_entries_char(n1, Seq::<u8>::empty());
    lemma_entries_char(n2, Seq::<u8>::empty());
    assert forall|e: (Seq<u8>, V)| node_entries(n1).contains(e) <==> node_entries(n2).contains(
        e,
    ) by {
        if node_entries(n1).contains(e) {
            let i = choose|i: int| 0 <= i < node_entries(n1).len() && node_entries(n1)[i] == e;
            assert(e.0.skip(0) =~= e.0);
            assert(has_key(n1, e.0) && value_at(n1, e.0) == e.1);
            assert(node_entries(n2).contains((Seq::<u8>::empty() + e.0, value_at(n2, e.0))));
            assert(Seq::<u8>::empty() + e.0 =~= e.0);
        }
        if node_entries(n2).contains(e) {
            let i = choose|i: int| 0 <= i < node_entries(n2).len() && node_entries(n2)[i] == e;
            assert(e.0.skip(0) =~= e.0);
            assert(has_key(n2, e.0) && value_at(n2, e.0) == e.1);
            assert(node_entries(n1).contains((Seq::<u8>::empty() + e.0, value_at(n1, e.0))));
            assert(Seq::<u8>::empty() + e.0 =~= e.0);
        }
    }
    lemma_sorted_entries_unique(node_entries(n1), node_entries(n2));
}

/// Conversely, two well-formed roots with the same entry sequence present
/// the same map.
pub proof fn lemma_same_entries_view<V>(n1: Node<V>, n2: Node<V>)
    requires
        wf_node(n1, Seq::<u8>::empty()),
        wf_node(n2, Seq::<u8>::empty()),
        node_entries(n1) == node_entries(n2),
    ensures
        forall|k: Seq<u8>| has_key(n1, k) <==> has_key(n2, k),
        forall|k: Seq<u8>| has_key(n1, k) ==> value_at(n1, k) == value_at(n2, k),
{
    lemma_entries_char(n1, Seq::<u8>::empty());
    lemma_entries_char(n2, Seq::<u8>::empty());
    assert forall|k: Seq<u8>| (has_key(n1, k) <==> has_key(n2, k)) && (has_key(n1, k)
        ==> value_at(n1, k) == value_at(n2, k)) by {
        if has_key(n1, k) {
            assert(node_entries(n1).contains((Seq::<u8>::empty() + k, value_at(n1, k))));
            let i = choose|i: int|
                0 <= i < node_entries(n2).len() && node_entries(n2)[i] == (
                Seq::<u8>::empty() + k,
                value_at(n1, k),
                );
            assert((Seq::<u8>::empty() + k).skip(0) =~= k);
            assert(has_key(n2, k) && value_at(n2, k) == value_at(n1, k));
        }
        if has_key(n2, k) {
            assert(node_entries(n2).contains((Seq::<u8>::empty() + k, value_at(n2, k))));
            let i = choose|i: int|
                0 <= i < node_entries(n1).len() && node_entries(n1)[i] == (
                Seq::<u8>::empty() + k,
                value_at(n2, k),
                );
            assert((Seq::<u8>::empty() + k).skip(0) =~= k);
            assert(has_key(n1, k));
        }
    }
}

/// Two strictly sorted entry sequences with the same members are equal:
/// sortedness makes the sequence a canonical presentation of its set of
/// entries.
pub proof fn lemma_sorted_entries_unique<V>(es1: Seq<(Seq<u8>, V)>, es2: Seq<(Seq<u8>, V)>)
    requires
        entries_sorted(es1),
        entries_sorted(es2),
        forall|e: (Seq<u8>, V)| es1.contains(e) <==> es2.contains(e),
    ensures
        es1 == es2,
    decreases es1.len(),
{
    if es1.len() == 0 {
        if es2.len() > 0 {
            assert(es2.contains(es2[0]));
        }
        assert(es1 =~= es2);
    } else if es2.len() == 0 {
        assert(es1.contains(es1[0]));
    } else {
        // the heads are both the least entry, so they agree
        assert(es1.contains(es1[0]));
        assert(es2.contains(es2[0]));
        let i = choose|i: int| 0 <= i < es2.len() && es2[i] == es1[0];
        let j = choose|j: int| 0 <= j < es1.len() && es1[j] == es2[0];
        if i > 0 {
            assert(lex_lt(es2[0].0, es2[i].0));
            if j > 0 {
                assert(lex_lt(es1[0].0, es1[j].0));
                crate::order::lemma_lex_trans(es1[0].0, es2[0].0, es1[0].0);
                crate::order::lemma_lex_irrefl(es1[0].0);
            } else {
                crate::order::lemma_lex_irrefl(es2[0].0);
            }
        }
        assert(es1[0] == es2[0]);
        let t1 = es1.drop_first();
        let t2 = es2.drop_first();
        assert forall|e: (Seq<u8>, V)| t1.contains(e) <==> t2.contains(e) by {
            if t1.contains(e) {
                lemma_tail_member(es1, es2, e);
            }
            if t2.contains(e) {
                lemma_tail_member(es2, es1, e);
            }
        }
        lemma_sorted_entries_unique(t1, t2);
        assert(es1 =~= es2) by {
            assert forall|q: int| 0 <= q < es1.len() implies es1[q] == es2[q] by {
                if q > 0 {
                    assert(es1[q] == t1[q - 1]);
                    assert(es2[q] == t2[q - 1]);
                }
            }
        }
    }
}

/// In a strictly sorted sequence, an entry other than the head lies in the
/// tail, and the head of an equal-membered sorted sequence is the same.
proof fn lemma_tail_member<V>(es1: Seq<(Seq<u8>, V)>, es2: Seq<(Seq<u8>, V)>, e: (Seq<u8>, V))
    requires
        entries_sorted(es1),
        entries_sorted(es2),
        es1.len() > 0,
        es2.len() > 0,
        es1[0] == es2[0],
        forall|x: (Seq<u8>, V)| es1.contains(x) <==> es2.contains(x),
        es1.drop_first().contains(e),
    ensures
        es2.drop_first().contains(e),
{
    let i = choose|i: int| 0 <= i < es1.drop_first().len() && es1.drop_first()[i] == e;
    assert(es1[i + 1] == e);
    assert(es1.contains(e));
    assert(lex_lt(es1[0].0, e.0));
    let j = choose|j: int| 0 <= j < es2.len() && es2[j] == e;
    assert(j != 0) by {
        if j == 0 {
            crate::order::lemma_lex_irrefl(e.0);
        }
    }
    assert(es2.drop_first()[j - 1] == e);
}

/// Walking a concatenated key walks first one part, then the other.
pub proof fn lemma_find_compose<V>(n: Node<V>, a: Seq<u8>, b: Seq<u8>)
    ensures
        find_node(n, a + b) == match find_node(n, a) {
            Some(m) => find_node(m, b),
            None => None::<Node<V>>,
        },
    decreases a.len(),
{
    if a.len() == 0 {
        assert(a + b =~= b);
    } else {
        assert((a + b)[0] == a[0]);
        if has_child(n.children@, a[0]) {
            let c = n.children@[child_idx(n.children@, a[0])];
            lemma_find_compose(c, a.drop_first(), b);
            assert((a + b).drop_first() =~= a.drop_first() + b);
        }
    }
}

/// The entries of the subtree a prefix leads to are exactly the entries of
/// the whole tree whose keys start with that prefix.
pub proof fn lemma_subtree_entries<V>(n: Node<V>, p: Seq<u8>)
    requires
        wf_node(n, Seq::<u8>::empty()),
    ensures
        match find_node(n, p) {
            Some(m) => node_entries(m) == node_entries(n).filter(entry_key_has_prefix(p)),
            None => node_entries(n).filter(entry_key_has_prefix::<V>(p)) == Seq::<
                (Seq<u8>, V),
            >::empty(),
        },
{
    let pred = entry_key_has_prefix::<V>(p);
    let es = node_entries(n);
    let fes = es.filter(pred);
    lemma_entries_char(n, Seq::<u8>::empty());
    broadcast use vstd::seq_lib::group_filter_ensures;
    assert forall|idx: int| 0 <= idx < es.len() implies Seq::<u8>::empty().is_prefix_of(
        #[trigger] es[idx].0,
    ) && es[idx].0.skip(0) == es[idx].0 by {
        assert(es[idx].0.skip(0) =~= es[idx].0);
    }
    match find_node(n, p) {
        Some(m) => {
            lemma_wf_find(n, Seq::<u8>::empty(), p);
            assert(Seq::<u8>::empty() + p =~= p);
            assert(wf_node(m, p));
            lemma_entries_char(m, p);
            // both sides are sorted with the same members
            assert(entries_sorted(fes)) by {
                assert forall|i: int, j: int| 0 <= i < j < fes.len() implies lex_lt(
                    fes[i].0,
                    fes[j].0,
                ) by {
                    lemma_filter_sorted_pair(es, pred, i, j);
                }
            }
            assert forall|e: (Seq<u8>, V)| node_entries(m).contains(e) <==> fes.contains(e) by {
                if node_entries(m).contains(e) {
                    let idx = choose|idx: int|
                        0 <= idx < node_entries(m).len() && node_entries(m)[idx] == e;
                    assert(p.is_prefix_of(e.0));
                    assert(has_key(m, e.0.skip(p.len() as int)));
                    assert(value_at(m, e.0.skip(p.len() as int)) == e.1);
                    // the same key, seen from the root
                    crate::order::lemma_prefix_recompose(p, e.0);
                    lemma_find_compose(n, p, e.0.skip(p.len() as int));
                    assert(has_key(n, e.0));
                    assert(value_at(n, e.0) == e.1);
                    assert(es.contains((Seq::<u8>::empty() + e.0, value_at(n, e.0))));
                    assert(Seq::<u8>::empty() + e.0 =~= e.0);
                    let w = choose|w: int| 0 <= w < es.len() && es[w] == e;
                    assert(fes.contains(e));
                }
                if fes.contains(e) {
                    let idx = choose|idx: int| 0 <= idx < fes.len() && fes[idx] == e;
                    assert(pred(e));
                    assert(es.contains(e)) by {
                        lemma_filter_member(es, pred, e);
                    }
                    let w = choose|w: int| 0 <= w < es.len() && es[w] == e;
                    assert(has_key(n, e.0) && value_at(n, e.0) == e.1);
                    crate::order::lemma_prefix_recompose(p, e.0);
                    lemma_find_compose(n, p, e.0.skip(p.len() as int));
                    assert(has_key(m, e.0.skip(p.len() as int)));
                    assert(value_at(m, e.0.skip(p.len() as int)) == e.1);
                    assert(node_entries(m).contains(
                        (p + e.0.skip(p.len() as int), value_at(m, e.0.skip(p.len() as int))),
                    ));
                }
            }
            lemma_sorted_entries_unique(node_entries(m), fes);
        },
        None => {
            if fes.len() > 0 {
                assert(fes.contains(fes[0]));
                let e = fes[0];
                assert(pred(e));
                lemma_filter_member(es, pred, e);
                let w = choose|w: int| 0 <= w < es.len() && es[w] == e;
                assert(has_key(n, e.0));
                crate::order::lemma_prefix_recompose(p, e.0);
                lemma_find_compose(n, p, e.0.skip(p.len() as int));
            }
            assert(fes =~= Seq::<(Seq<u8>, V)>::empty());
        },
    }
}

/// A member of a filtered sequence is a member of the original.
pub proof fn lemma_filter_member<V>(
    es: Seq<(Seq<u8>, V)>,
    pred: spec_fn((Seq<u8>, V)) -> bool,
    e: (Seq<u8>, V),
)
    requires
        es.filter(pred).contains(e),
    ensures
        es.contains(e),
    decreases es.len(),
{
    reveal(Seq::filter);
    if es.len() > 0 {
        if es.drop_last().filter(pred).contains(e) {
            lemma_filter_member(es.drop_last(), pred, e);
            let w = choose|w: int| 0 <= w < es.drop_last().len() && es.drop_last()[w] == e;
            assert(es[w] == e);
        } else {
            assert(e == es.last());
        }
    }
}

/// Filtering preserves strict sortedness: two filtered entries in order
/// come from two original entries in order.
proof fn lemma_filter_sorted_pair<V>(
    es: Seq<(Seq<u8>, V)>,
    pred: spec_fn((Seq<u8>, V)) -> bool,
    i: int,
    j: int,
)
    requires
        entries_sorted(es),
        0 <= i < j < es.filter(pred).len(),
    ensures
        lex_lt(es.filter(pred)[i].0, es.filter(pred)[j].0),
    decreases es.len(),
{
    reveal(Seq::filter);
    if es.len() > 0 {
        let fes = es.filter(pred);
        let prev = es.drop_last().filter(pred);
        assert(entries_sorted(es.drop_last()));
        if pred(es.last()) {
            assert(fes == prev.push(es.last()));
            if j < fes.len() - 1 {
                lemma_filter_sorted_pair(es.drop_last(), pred, i, j);
            } else {
                // es.filter[j] is es.last(); the other comes from the front
                assert(fes[i] == prev[i]);
                lemma_filter_member_lt(es.drop_last(), pred, i, es.last());
            }
        } else {
            assert(fes == prev);
            lemma_filter_sorted_pair(es.drop_last(), pred, i, j);
        }
    }
}

/// Every filtered entry of a sorted sequence precedes an entry that comes
/// after the whole sequence.
proof fn lemma_filter_member_lt<V>(
    es: Seq<(Seq<u8>, V)>,
    pred: spec_fn((Seq<u8>, V)) -> bool,
    i: int,
    last: (Seq<u8>, V),
)
    requires
        entries_sorted(es.push(last)),
        0 <= i < es.filter(pred).len(),
    ensures
        lex_lt(es.filter(pred)[i].0, last.0),
    decreases es.len(),
{
    reveal(Seq::filter);
    broadcast use vstd::seq_lib::group_filter_ensures;
    assert(es.filter(pred).contains(es.filter(pred)[i]));
    let e = es.filter(pred)[i];
    lemma_filter_member(es, pred, e);
    let w = choose|w: int| 0 <= w < es.len() && es[w] == e;
    assert(es.push(last)[w] == e);
    assert(es.push(last)[es.len() as int] == last);
    assert(lex_lt(e.0, last.0));
}

/// At the root the relative and the absolute keys coincide: the key
/// population of a well-formed root is finite, with exactly one entry per
/// key.
pub proof fn lemma_root_dom<V>(n: Node<V>)
    requires
        wf_node(n, Seq::<u8>::empty()),
    ensures
        Set::new(|k: Seq<u8>| has_key(n, k)).finite(),
        Set::new(|k: Seq<u8>| has_key(n, k)).len() == node_entries(n).len(),
{
    broadcast use vstd::seq_lib::seq_to_set_is_finite;

    lemma_entries_char(n, Seq::<u8>::empty());
    let es = node_entries(n);
    let ks = es.map_values(|e: (Seq<u8>, V)| e.0);
    assert(ks.no_duplicates()) by {
        assert forall|i: int, j: int| 0 <= i < j < ks.len() implies ks[i] != ks[j] by {
            assert(lex_lt(es[i].0, es[j].0));
            crate::order::lemma_lex_asym(es[i].0, es[j].0);
        }
    }
    assert(Set::new(|k: Seq<u8>| has_key(n, k)) =~= ks.to_set()) by {
        assert forall|k: Seq<u8>| has_key(n, k) implies ks.to_set().contains(k) by {
            assert(es.contains((Seq::<u8>::empty() + k, value_at(n, k))));
            let w = choose|w: int|
                0 <= w < es.len() && es[w] == (Seq::<u8>::empty() + k, value_at(n, k));
            assert(Seq::<u8>::empty() + k =~= k);
            assert(ks[w] == k);
            assert(ks.contains(k));
        }
        assert forall|k: Seq<u8>| ks.to_set().contains(k) implies has_key(n, k) by {
            let w = choose|w: int| 0 <= w < ks.len() && ks[w] == k;
            assert(es[w].0 == k);
            assert(has_key(n, es[w].0.skip(0)));
            assert(es[w].0.skip(0) =~= es[w].0);
        }
    }
    ks.unique_seq_to_set();
}

} // verus!
