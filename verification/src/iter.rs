//! Lazy in-order iterators over the prefix tree, owning and borrowing.
//!
//! An iterator holds an explicit stack of pending subtrees: the top of the
//! stack is the next subtree to visit, and visiting a node yields its own
//! entry before pushing its children, smallest edge byte on top. The stack
//! is O(tree depth + fan-out) and each `next` call does amortized constant
//! work per node. The abstract state of an iterator is `remaining()`, the
//! sequence of entries it has yet to yield, in lexicographic key order.

use vstd::prelude::*;

use crate::node::Node;
use crate::node::children_entries;
use crate::node::node_entries;
use crate::node::own_entry;

verus! {

/// The number of nodes of the subtree rooted at `n`.
pub open spec fn count_nodes<V>(n: Node<V>) -> nat
    decreases n, 0int,
{
    1 + count_children(n.children@, 0)
}

/// The number of nodes of the subtrees `cs[from]`, `cs[from+1]`, ...
pub open spec fn count_children<V>(cs: Seq<Node<V>>, from: int) -> nat
    decreases cs, cs.len() - from,
{
    if from < 0 || from >= cs.len() {
        0
    } else {
        count_nodes(cs[from]) + count_children(cs, from + 1)
    }
}

/// The entries still to be yielded by a stack of pending subtrees, top
/// (= last) first.
pub open spec fn stack_entries<V>(s: Seq<Node<V>>) -> Seq<(Seq<u8>, V)>
    decreases s.len(),
{
    if s.len() == 0 {
        Seq::empty()
    } else {
        node_entries(s.last()) + stack_entries(s.drop_last())
    }
}

/// The number of nodes a stack of pending subtrees still holds.
pub open spec fn stack_count<V>(s: Seq<Node<V>>) -> nat
    decreases s.len(),
{
    if s.len() == 0 {
        0
    } else {
        count_nodes(s.last()) + stack_count(s.drop_last())
    }
}

/// `stack_entries` and `stack_count` over a stack of borrowed subtrees.
pub open spec fn stack_entries_ref<V>(s: Seq<&Node<V>>) -> Seq<(Seq<u8>, V)>
    decreases s.len(),
{
    if s.len() == 0 {
        Seq::empty()
    } else {
        node_entries(*s.last()) + stack_entries_ref(s.drop_last())
    }
}

pub open spec fn stack_count_ref<V>(s: Seq<&Node<V>>) -> nat
    decreases s.len(),
{
    if s.len() == 0 {
        0
    } else {
        count_nodes(*s.last()) + stack_count_ref(s.drop_last())
    }
}

/// Iterator over an owned subtree, yielding owned key-value pairs in
/// lexicographic key order.
pub struct NodeIntoIter<V> {
    stack: Vec<Node<V>>,
}

impl<V> NodeIntoIter<V> {
    /// The entries this iterator has yet to yield, in order.
    pub closed spec fn remaining(self) -> Seq<(Seq<u8>, V)> {
        stack_entries(self.stack@)
    }

    /// An iterator over the whole subtree `n`.
    pub(crate) fn over(n: Node<V>) -> (r: Self)
        ensures
            r.remaining() == node_entries(n),
    {
        let ghost n0 = n;
        let mut stack: Vec<Node<V>> = Vec::new();
        stack.push(n);
        proof {
            assert(stack@.last() == n0);
            assert(stack@.drop_last() =~= Seq::<Node<V>>::empty());
            assert(stack_entries(stack@) == node_entries(stack@.last()) + stack_entries(
                stack@.drop_last(),
            ));
            assert(stack_entries(Seq::<Node<V>>::empty()) == Seq::<(Seq<u8>, V)>::empty());
            assert(stack_entries(stack@) =~= node_entries(n0));
        }
        NodeIntoIter { stack }
    }

    /// An iterator that yields nothing.
    pub(crate) fn empty() -> (r: Self)
        ensures
            r.remaining() == Seq::<(Seq<u8>, V)>::empty(),
    {
        NodeIntoIter { stack: Vec::new() }
    }

    /// The next entry in lexicographic key order, if one is left.
    pub fn next(&mut self) -> (r: Option<(Vec<u8>, V)>)
        ensures
            match r {
                Some(kv) => {
                    &&& old(self).remaining().len() > 0
                    &&& (kv.0@, kv.1) == old(self).remaining()[0]
                    &&& final (self).remaining() == old(self).remaining().drop_first()
                },
                None => old(self).remaining().len() == 0 && final (self).remaining() == old(
                    self,
                ).remaining(),
            },
    {
        loop
            invariant
                stack_entries(self.stack@) == old(self).remaining(),
            decreases stack_count(self.stack@),
        {
            let ghost stack0 = self.stack@;
            match self.stack.pop() {
                None => {
                    proof {
                        assert(stack0.len() == 0);
                    }
                    return None;
                },
                Some(n) => {
                    let ghost rest = self.stack@;
                    proof {
                        assert(stack0 =~= rest.push(n));
                        assert(stack0.last() == n);
                        assert(stack0.drop_last() =~= rest);
                        assert(stack_entries(stack0) == node_entries(n) + stack_entries(rest));
                        assert(stack_count(stack0) == count_nodes(n) + stack_count(rest));
                    }
                    let ghost cs0 = n.children@;
                    let Node { item, key_fragment: _, children } = n;
                    let mut cs = children;
                    proof {
                        assert(cs0.take(cs0.len() as int) =~= cs0);
                    }
                    while cs.len() > 0
                        invariant
                            cs@.len() <= cs0.len(),
                            cs@ =~= cs0.take(cs@.len() as int),
                            stack_entries(self.stack@) == children_entries(
                                cs0,
                                cs@.len() as int,
                            ) + stack_entries(rest),
                            stack_count(self.stack@) == count_children(cs0, cs@.len() as int)
                                + stack_count(rest),
                        decreases cs@.len(),
                    {
                        let ghost j = cs@.len() as int;
                        let ghost stack_before = self.stack@;
                        match cs.pop() {
                            Some(c) => {
                                proof {
                                    assert(cs0.take(j)[j - 1] == cs0[j - 1]);
                                    assert(c == cs0[j - 1]);
                                    assert(cs@ =~= cs0.take(j - 1));
                                }
                                self.stack.push(c);
                                proof {
                                    assert(self.stack@.last() == c);
                                    assert(self.stack@.drop_last() =~= stack_before);
                                    assert(stack_entries(self.stack@) == node_entries(cs0[j - 1])
                                        + (children_entries(cs0, j) + stack_entries(rest)));
                                    assert(node_entries(cs0[j - 1]) + (children_entries(cs0, j)
                                        + stack_entries(rest)) =~= (node_entries(cs0[j - 1])
                                        + children_entries(cs0, j)) + stack_entries(rest));
                                    assert(children_entries(cs0, j - 1) == node_entries(
                                        cs0[j - 1],
                                    ) + children_entries(cs0, j));
                                    assert(stack_count(self.stack@) == count_nodes(cs0[j - 1]) + (
                                    count_children(cs0, j) + stack_count(rest)));
                                }
                            },
                            None => {
                                proof {
                                    assert(false);
                                }
                            },
                        }
                    }
                    proof {
                        assert(cs0.take(0) =~= Seq::<Node<V>>::empty());
                        assert(cs@.len() == 0);
                        assert(stack_entries(self.stack@) == children_entries(cs0, 0)
                            + stack_entries(rest));
                        assert(node_entries(stack0.last()) == own_entry(stack0.last())
                            + children_entries(cs0, 0));
                    }
                    match item {
                        Some(kv) => {
                            proof {
                                let ghost entry = (kv.0@, kv.1);
                                assert(own_entry(stack0.last()) =~= seq![entry]);
                                assert(old(self).remaining()[0] == entry);
                                assert(stack_entries(self.stack@) =~= old(
                                    self,
                                ).remaining().drop_first());
                            }
                            return Some(kv);
                        },
                        None => {
                            proof {
                                assert(own_entry(stack0.last()) =~= Seq::<(Seq<u8>, V)>::empty());
                                assert(stack_entries(self.stack@) =~= old(self).remaining());
                            }
                        },
                    }
                },
            }
        }
    }
}

/// Iterator over a borrowed subtree, yielding borrowed key-value pairs in
/// lexicographic key order.
pub struct NodeIter<'a, V> {
    stack: Vec<&'a Node<V>>,
}

impl<'a, V> NodeIter<'a, V> {
    /// The entries this iterator has yet to yield, in order.
    pub closed spec fn remaining(self) -> Seq<(Seq<u8>, V)> {
        stack_entries_ref(self.stack@)
    }

    /// An iterator over the whole subtree `n`.
    pub(crate) fn over(n: &'a Node<V>) -> (r: Self)
        ensures
            r.remaining() == node_entries(*n),
    {
        let mut stack: Vec<&'a Node<V>> = Vec::new();
        stack.push(n);
        proof {
            assert(stack@.last() == n);
            assert(stack@.drop_last() =~= Seq::<&Node<V>>::empty());
            assert(stack_entries_ref(stack@) == node_entries(*stack@.last()) + stack_entries_ref(
                stack@.drop_last(),
            ));
            assert(stack_entries_ref(Seq::<&Node<V>>::empty()) == Seq::<(Seq<u8>, V)>::empty());
            assert(stack_entries_ref(stack@) =~= node_entries(*n));
        }
        NodeIter { stack }
    }

    /// An iterator that yields nothing.
    pub(crate) fn empty() -> (r: Self)
        ensures
            r.remaining() == Seq::<(Seq<u8>, V)>::empty(),
    {
        NodeIter { stack: Vec::new() }
    }

    /// The next entry in lexicographic key order, if one is left.
    pub fn next(&mut self) -> (r: Option<(&'a Vec<u8>, &'a V)>)
        ensures
            match r {
                Some(kv) => {
                    &&& old(self).remaining().len() > 0
                    &&& (kv.0@, *kv.1) == old(self).remaining()[0]
                    &&& final (self).remaining() == old(self).remaining().drop_first()
                },
                None => old(self).remaining().len() == 0 && final (self).remaining() == old(
                    self,
                ).remaining(),
            },
    {
        loop
            invariant
                stack_entries_ref(self.stack@) == old(self).remaining(),
            decreases stack_count_ref(self.stack@),
        {
            let ghost stack0 = self.stack@;
            match self.stack.pop() {
                None => {
                    proof {
                        assert(stack0.len() == 0);
                    }
                    return None;
                },
                Some(n) => {
                    let ghost rest = self.stack@;
                    proof {
                        assert(stack0 =~= rest.push(n));
                        assert(stack0.last() == n);
                        assert(stack0.drop_last() =~= rest);
                        assert(stack_entries_ref(stack0) == node_entries(*n) + stack_entries_ref(
                            rest,
                        ));
                        assert(stack_count_ref(stack0) == count_nodes(*n) + stack_count_ref(rest));
                    }
                    let ghost cs0 = n.children@;
                    let mut idx = n.children.len();
                    while idx > 0
                        invariant
                            idx <= cs0.len(),
                            cs0 == n.children@,
                            stack_entries_ref(self.stack@) == children_entries(cs0, idx as int)
                                + stack_entries_ref(rest),
                            stack_count_ref(self.stack@) == count_children(cs0, idx as int)
                                + stack_count_ref(rest),
                        decreases idx,
                    {
                        let ghost stack_before = self.stack@;
                        idx = idx - 1;
                        self.stack.push(&n.children[idx]);
                        proof {
                            let j = idx as int;
                            assert(self.stack@.last() == &n.children@[j]);
                            assert(self.stack@.drop_last() =~= stack_before);
                            assert(stack_entries_ref(self.stack@) == node_entries(cs0[j]) + (
                            children_entries(cs0, j + 1) + stack_entries_ref(rest)));
                            assert(node_entries(cs0[j]) + (children_entries(cs0, j + 1)
                                + stack_entries_ref(rest)) =~= (node_entries(cs0[j])
                                + children_entries(cs0, j + 1)) + stack_entries_ref(rest));
                            assert(children_entries(cs0, j) == node_entries(cs0[j])
                                + children_entries(cs0, j + 1));
                        }
                    }
                    proof {
                        assert(stack_entries_ref(self.stack@) == children_entries(cs0, 0)
                            + stack_entries_ref(rest));
                        assert(node_entries(*n) == own_entry(*n) + children_entries(cs0, 0));
                    }
                    match &n.item {
                        Some(kv) => {
                            proof {
                                let ghost entry = (kv.0@, kv.1);
                                assert(own_entry(*n) =~= seq![entry]);
                                assert(old(self).remaining()[0] == entry);
                                assert(stack_entries_ref(self.stack@) =~= old(
                                    self,
                                ).remaining().drop_first());
                            }
                            return Some((&kv.0, &kv.1));
                        },
                        None => {
                            proof {
                                assert(own_entry(*n) =~= Seq::<(Seq<u8>, V)>::empty());
                                assert(stack_entries_ref(self.stack@) =~= old(self).remaining());
                            }
                        },
                    }
                },
            }
        }
    }
}

} // verus!
