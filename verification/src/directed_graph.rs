//! An owned, append-only rooted tree with value-listing traversals.
//!
//! Each [`Node`] holds a value and the exclusively owned subtrees under
//! it, in the order they were attached. A tree is grown by
//! [`Node::join`], which moves a finished subtree in as the last child,
//! and read back by [`Node::depth_first_vec`], [`Node::breadth_first_vec`]
//! and [`Node::contains`]. The mathematical shape of a tree is the ghost
//! datatype [`Tree`], reached through the node's view.

use vstd::prelude::*;
use vstd::pervasive::cloned;
use std::collections::VecDeque;
use crate::conform::{reliable_eq, reliable_clone};

verus! {

/// The mathematical shape of a tree: a value and the shapes of the
/// subtrees under it, in attachment order.
pub struct Tree<T> {
    pub value: T,
    pub children: Seq<Tree<T>>,
}

/// The values of `t`, in the order `depth_first_vec` lists them: the
/// root first, then each subtree's listing, last-attached subtree
/// first.
pub open spec fn dfs_of<T>(t: Tree<T>) -> Seq<T>
    decreases t,
{
    seq![t.value] + dfs_of_all(t.children)
}

/// The depth-first listings of the trees of `ts`, last tree first,
/// concatenated. It is also the listing still owed by a traversal
/// whose stack holds `ts`, top of stack last.
pub open spec fn dfs_of_all<T>(ts: Seq<Tree<T>>) -> Seq<T>
    decreases ts,
{
    if ts.len() == 0 {
        Seq::empty()
    } else {
        dfs_of(ts.last()) + dfs_of_all(ts.drop_last())
    }
}

/// How many nodes `t` has.
pub open spec fn size_of<T>(t: Tree<T>) -> nat
    decreases t,
{
    1 + size_of_all(t.children)
}

/// How many nodes the trees of `ts` have together.
pub open spec fn size_of_all<T>(ts: Seq<Tree<T>>) -> nat
    decreases ts,
{
    if ts.len() == 0 {
        0
    } else {
        size_of(ts.last()) + size_of_all(ts.drop_last())
    }
}

/// The values a breadth-first traversal still owes when its working
/// queue holds `ts`, next tree to leave the queue last: that tree's
/// value, then the rest with the tree's children entering at the far
/// end, reversed (so they leave in attachment order).
pub open spec fn bfs_rounds<T>(ts: Seq<Tree<T>>) -> Seq<T>
    decreases size_of_all(ts),
    via bfs_rounds_decreases::<T>
{
    if ts.len() == 0 {
        Seq::empty()
    } else {
        seq![ts.last().value] + bfs_rounds(ts.last().children.reverse() + ts.drop_last())
    }
}

/// The values of `t` in the order `breadth_first_vec` lists them.
pub open spec fn bfs_of<T>(t: Tree<T>) -> Seq<T> {
    bfs_rounds(seq![t])
}

proof fn lemma_size_of_all_single<T>(t: Tree<T>)
    ensures
        size_of_all(seq![t]) == size_of(t),
{
    assert(seq![t].last() == t);
    assert(seq![t].drop_last() =~= Seq::<Tree<T>>::empty());
    assert(size_of_all(seq![t].drop_last()) == 0);
}

proof fn lemma_dfs_of_all_single<T>(t: Tree<T>)
    ensures
        dfs_of_all(seq![t]) == dfs_of(t),
{
    assert(seq![t].last() == t);
    assert(seq![t].drop_last() =~= Seq::<Tree<T>>::empty());
    assert(dfs_of_all(seq![t].drop_last()) =~= Seq::<T>::empty());
    assert(dfs_of(t) + Seq::<T>::empty() =~= dfs_of(t));
}

proof fn lemma_size_of_all_append<T>(a: Seq<Tree<T>>, b: Seq<Tree<T>>)
    ensures
        size_of_all(a + b) == size_of_all(a) + size_of_all(b),
    decreases b.len(),
{
    if b.len() == 0 {
        assert(a + b =~= a);
    } else {
        assert((a + b).drop_last() =~= a + b.drop_last());
        assert((a + b).last() == b.last());
        lemma_size_of_all_append(a, b.drop_last());
    }
}

proof fn lemma_size_of_all_reverse<T>(s: Seq<Tree<T>>)
    ensures
        size_of_all(s.reverse()) == size_of_all(s),
    decreases s.len(),
{
    if s.len() > 0 {
        let tail = s.subrange(1, s.len() as int);
        let r = s.reverse();
        assert(r.last() == s[0]);
        assert(r.drop_last() =~= tail.reverse());
        lemma_size_of_all_reverse(tail);
        lemma_size_of_all_append(seq![s[0]], tail);
        assert(seq![s[0]] + tail =~= s);
        lemma_size_of_all_single(s[0]);
    }
}

#[via_fn]
proof fn bfs_rounds_decreases<T>(ts: Seq<Tree<T>>) {
    if ts.len() > 0 {
        let t = ts.last();
        lemma_size_of_all_append(t.children.reverse(), ts.drop_last());
        lemma_size_of_all_reverse(t.children);
        assert(size_of_all(ts) == size_of(t) + size_of_all(ts.drop_last()));
        assert(size_of(t) == 1 + size_of_all(t.children));
        assert(size_of_all(t.children.reverse() + ts.drop_last()) < size_of_all(ts));
    }
}

proof fn lemma_dfs_of_all_append<T>(a: Seq<Tree<T>>, b: Seq<Tree<T>>)
    ensures
        dfs_of_all(a + b) == dfs_of_all(b) + dfs_of_all(a),
    decreases b.len(),
{
    if b.len() == 0 {
        assert(a + b =~= a);
        assert(dfs_of_all(b) + dfs_of_all(a) =~= dfs_of_all(a));
    } else {
        assert((a + b).drop_last() =~= a + b.drop_last());
        assert((a + b).last() == b.last());
        lemma_dfs_of_all_append(a, b.drop_last());
        assert(dfs_of(b.last()) + (dfs_of_all(b.drop_last()) + dfs_of_all(a)) =~= (dfs_of(
            b.last(),
        ) + dfs_of_all(b.drop_last())) + dfs_of_all(a));
    }
}

/// A tree node: a value and its exclusively owned children, in the
/// order they were attached.
pub struct Node<T> {
    pub value: T,
    pub children: Vec<Box<Node<T>>>,
}

impl<T> Node<T> {
    /// The mathematical tree this node roots.
    pub open spec fn tree(self) -> Tree<T>
        decreases self,
        via Self::tree_decreases
    {
        Tree {
            value: self.value,
            children: Seq::new(
                self.children@.len(),
                |i: int|
                    if 0 <= i < self.children@.len() {
                        self.children@[i].tree()
                    } else {
                        vstd::pervasive::arbitrary()
                    },
            ),
        }
    }

    #[via_fn]
    proof fn tree_decreases(self) {
        assert forall|i: int| 0 <= i < self.children@.len() implies decreases_to!(
            self => self.children@[i]
        ) by {
            assert(decreases_to!(self => self.children));
            assert(decreases_to!(self.children => self.children@));
            assert(decreases_to!(self.children@ => self.children@[i]));
        }
    }
}

impl<T> View for Node<T> {
    type V = Tree<T>;

    open spec fn view(&self) -> Tree<T> {
        self.tree()
    }
}

/// The trees the nodes of `st` root, in the same order.
pub open spec fn trees_of<T>(st: Seq<&Node<T>>) -> Seq<Tree<T>> {
    st.map_values(|n: &Node<T>| n.tree())
}

proof fn lemma_trees_of_push<T>(prev: Seq<&Node<T>>, cur: Seq<&Node<T>>, t: Tree<T>)
    requires
        cur.len() == prev.len() + 1,
        forall|j: int| 0 <= j < prev.len() ==> cur[j] == prev[j],
        cur.last().tree() == t,
    ensures
        trees_of(cur) =~= trees_of(prev).push(t),
{
}

proof fn lemma_trees_of_unshift<T>(prev: Seq<&Node<T>>, cur: Seq<&Node<T>>, t: Tree<T>)
    requires
        cur.len() == prev.len() + 1,
        forall|j: int| 0 <= j < prev.len() ==> cur[j + 1] == prev[j],
        cur[0].tree() == t,
    ensures
        trees_of(cur) =~= seq![t] + trees_of(prev),
{
}

impl<T: Clone> Clone for Node<T> {
    /// A copy of the whole tree, equal to it as long as `T::clone`
    /// returns its input's value.
    fn clone(&self) -> (res: Self)
        ensures
            reliable_clone::<T>() ==> res@ == self@,
        decreases self,
    {
        let mut copies: Vec<Box<Node<T>>> = Vec::new();
        let n = self.children.len();
        let mut i: usize = 0;
        while i < n
            invariant
                i <= n,
                n == self.children.len(),
                copies@.len() == i,
                reliable_clone::<T>() ==> forall|j: int|
                    0 <= j < i ==> copies@[j].tree() == self.children@[j].tree(),
            decreases n - i,
        {
            let child: &Node<T> = &*self.children[i];
            proof {
                assert(decreases_to!(self.children@ => self.children@[i as int]));
            }
            let copy = child.clone();
            copies.push(Box::new(copy));
            i += 1;
        }
        let v = self.value.clone();
        proof {
            assert(cloned::<T>(self.value, v));
        }
        let res = Node { value: v, children: copies };
        proof {
            if reliable_clone::<T>() {
                assert(res.tree().children =~= self.tree().children);
            }
        }
        res
    }
}

impl<T> Node<T> where T: Clone + PartialEq {
    /// Builds a childless node holding `value`.
    pub fn new(value: T) -> (r: Self)
        ensures
            r@ == (Tree { value, children: Seq::<Tree<T>>::empty() }),
    {
        let r = Node { value, children: Vec::new() };
        proof {
            assert(r.tree().children =~= Seq::<Tree<T>>::empty());
        }
        r
    }

    /// Moves `node` in as the last child and hands back a copy of the
    /// grown node, so that calls can be chained.
    pub fn join(&mut self, node: Self) -> (r: Self)
        ensures
            final(self)@ == (Tree {
                value: old(self)@.value,
                children: old(self)@.children.push(node@),
            }),
            reliable_clone::<T>() ==> r@ == final(self)@,
    {
        let ghost before = self.tree();
        let ghost child = node.tree();
        self.children.push(Box::new(node));
        proof {
            assert(self.tree().children =~= before.children.push(child));
        }
        self.clone()
    }

    /// Lists every value of the tree in depth-first order: a node's
    /// value first, then its subtrees, last-attached first. Values are
    /// copied out with `clone`; the tree is left as it was.
    pub fn depth_first_vec(&self) -> (r: Vec<T>)
        ensures
            reliable_clone::<T>() ==> r@ == dfs_of(self@),
    {
        let mut stack: Vec<&Node<T>> = Vec::new();
        stack.push(self);
        let mut list: Vec<T> = Vec::new();
        proof {
            assert(trees_of(stack@) =~= seq![self.tree()]);
            lemma_dfs_of_all_single(self.tree());
            assert(list@ + dfs_of_all(trees_of(stack@)) =~= dfs_of(self.tree()));
        }
        while stack.len() > 0
            invariant
                reliable_clone::<T>() ==> list@ + dfs_of_all(trees_of(stack@)) == dfs_of(
                    self.tree(),
                ),
            decreases size_of_all(trees_of(stack@)),
        {
            let ghost ts = trees_of(stack@);
            let ghost before_list = list@;
            let current = stack.pop().unwrap();
            proof {
                assert(ts.last() == current.tree());
                assert(trees_of(stack@) =~= ts.drop_last());
            }
            let cv = current.value.clone();
            proof {
                assert(cloned::<T>(current.value, cv));
            }
            list.push(cv);
            let ghost rest = trees_of(stack@);
            let ghost kids = current.tree().children;
            proof {
                assert(rest + kids.take(0) =~= rest);
            }
            let n = current.children.len();
            let mut i: usize = 0;
            while i < n
                invariant
                    i <= n,
                    n == current.children.len(),
                    kids == current.tree().children,
                    kids.len() == n,
                    list@ == before_list.push(cv),
                    trees_of(stack@) == rest + kids.take(i as int),
                decreases n - i,
            {
                let ghost prev = stack@;
                let child: &Node<T> = &*current.children[i];
                proof {
                    assert(child.tree() == kids[i as int]);
                }
                stack.push(child);
                proof {
                    lemma_trees_of_push(prev, stack@, kids[i as int]);
                    assert((rest + kids.take(i as int)).push(kids[i as int]) =~= rest + kids.take(
                        i as int + 1,
                    ));
                }
                i += 1;
            }
            proof {
                assert(kids.take(n as int) =~= kids);
                assert(trees_of(stack@) == rest + kids);
                lemma_dfs_of_all_append(rest, kids);
                lemma_size_of_all_append(rest, kids);
                assert(size_of_all(ts) == size_of(current.tree()) + size_of_all(rest));
                assert(size_of(current.tree()) == 1 + size_of_all(kids));
                if reliable_clone::<T>() {
                    assert(cv == current.tree().value);
                    assert(list@ + dfs_of_all(trees_of(stack@)) =~= before_list + (seq![
                        current.tree().value,
                    ] + dfs_of_all(kids)) + dfs_of_all(rest));
                    assert(seq![current.tree().value] + dfs_of_all(kids) == dfs_of(
                        current.tree(),
                    ));
                    assert(before_list + dfs_of(current.tree()) + dfs_of_all(rest) =~= before_list
                        + (dfs_of(current.tree()) + dfs_of_all(ts.drop_last())));
                    assert(dfs_of(current.tree()) + dfs_of_all(ts.drop_last()) == dfs_of_all(ts));
                }
            }
        }
        proof {
            assert(trees_of(stack@) =~= Seq::<Tree<T>>::empty());
            if reliable_clone::<T>() {
                assert(list@ + dfs_of_all(trees_of(stack@)) =~= list@);
            }
        }
        list
    }

    /// Lists every value of the tree level by level: the root, its
    /// children in attachment order, their children in the same order,
    /// and so on. Values are copied out with `clone`.
    #[verifier::rlimit(60)]
    pub fn breadth_first_vec(&self) -> (r: Vec<T>)
        ensures
            reliable_clone::<T>() ==> r@ == bfs_of(self@),
    {
        let mut queue: VecDeque<&Node<T>> = VecDeque::new();
        queue.push_back(self);
        let mut list: Vec<T> = Vec::new();
        proof {
            assert(trees_of(queue@) =~= seq![self.tree()]);
            assert(list@ + bfs_rounds(trees_of(queue@)) =~= bfs_of(self.tree()));
        }
        while queue.len() > 0
            invariant
                reliable_clone::<T>() ==> list@ + bfs_rounds(trees_of(queue@)) == bfs_of(
                    self.tree(),
                ),
            decreases size_of_all(trees_of(queue@)),
        {
            let ghost ts = trees_of(queue@);
            let ghost before_list = list@;
            let current = queue.pop_back().unwrap();
            proof {
                assert(ts.last() == current.tree());
                assert(trees_of(queue@) =~= ts.drop_last());
            }
            let cv = current.value.clone();
            proof {
                assert(cloned::<T>(current.value, cv));
            }
            list.push(cv);
            let ghost rest = trees_of(queue@);
            let ghost kids = current.tree().children;
            proof {
                assert(kids.take(0).reverse() + rest =~= rest);
            }
            let n = current.children.len();
            let mut i: usize = 0;
            while i < n
                invariant
                    i <= n,
                    n == current.children.len(),
                    kids == current.tree().children,
                    kids.len() == n,
                    list@ == before_list.push(cv),
                    trees_of(queue@) == kids.take(i as int).reverse() + rest,
                decreases n - i,
            {
                let ghost prev = queue@;
                let child: &Node<T> = &*current.children[i];
                proof {
                    assert(child.tree() == kids[i as int]);
                }
                queue.push_front(child);
                proof {
                    lemma_trees_of_unshift(prev, queue@, kids[i as int]);
                    assert(kids.take(i as int + 1).reverse() =~= seq![kids[i as int]] + kids.take(
                        i as int,
                    ).reverse());
                    assert(seq![kids[i as int]] + (kids.take(i as int).reverse() + rest) =~= (seq![
                        kids[i as int],
                    ] + kids.take(i as int).reverse()) + rest);
                }
                i += 1;
            }
            proof {
                assert(kids.take(n as int) =~= kids);
                assert(trees_of(queue@) == kids.reverse() + rest);
                lemma_size_of_all_append(kids.reverse(), rest);
                lemma_size_of_all_reverse(kids);
                assert(size_of_all(ts) == size_of(current.tree()) + size_of_all(rest));
                assert(size_of(current.tree()) == 1 + size_of_all(kids));
                if reliable_clone::<T>() {
                    assert(cv == current.tree().value);
                    assert(bfs_rounds(ts) == seq![current.tree().value] + bfs_rounds(
                        kids.reverse() + ts.drop_last(),
                    ));
                    assert(list@ + bfs_rounds(trees_of(queue@)) =~= before_list + (seq![
                        current.tree().value,
                    ] + bfs_rounds(kids.reverse() + rest)));
                }
            }
        }
        proof {
            assert(trees_of(queue@) =~= Seq::<Tree<T>>::empty());
            if reliable_clone::<T>() {
                assert(list@ + bfs_rounds(trees_of(queue@)) =~= list@);
            }
        }
        list
    }

    /// Whether some node of the tree holds `value`. The search order
    /// does not matter for the answer: the value is found exactly when
    /// it appears in the depth-first listing.
    pub fn contains(&self, value: T) -> (r: bool)
        ensures
            reliable_eq::<T>() ==> (r <==> dfs_of(self@).contains(value)),
    {
        let mut stack: Vec<&Node<T>> = Vec::new();
        stack.push(self);
        let ghost mut seen: Seq<T> = Seq::empty();
        proof {
            assert(trees_of(stack@) =~= seq![self.tree()]);
            lemma_dfs_of_all_single(self.tree());
            assert(seen + dfs_of_all(trees_of(stack@)) =~= dfs_of(self.tree()));
        }
        while stack.len() > 0
            invariant
                seen + dfs_of_all(trees_of(stack@)) == dfs_of(self.tree()),
                reliable_eq::<T>() ==> !seen.contains(value),
            decreases size_of_all(trees_of(stack@)),
        {
            let ghost ts = trees_of(stack@);
            let current = stack.pop().unwrap();
            proof {
                assert(ts.last() == current.tree());
                assert(trees_of(stack@) =~= ts.drop_last());
            }
            if current.value == value {
                proof {
                    if reliable_eq::<T>() {
                        assert(dfs_of_all(ts) == dfs_of(current.tree()) + dfs_of_all(
                            ts.drop_last(),
                        ));
                        assert(dfs_of(current.tree())[0] == current.tree().value);
                        assert((seen + dfs_of_all(ts))[seen.len() as int] == value);
                        assert(dfs_of(self.tree()).contains(value));
                    }
                }
                return true;
            }
            let ghost before_seen = seen;
            proof {
                seen = seen.push(current.tree().value);
            }
            let ghost rest = trees_of(stack@);
            let ghost kids = current.tree().children;
            proof {
                assert(rest + kids.take(0) =~= rest);
            }
            let n = current.children.len();
            let mut i: usize = 0;
            while i < n
                invariant
                    i <= n,
                    n == current.children.len(),
                    kids == current.tree().children,
                    kids.len() == n,
                    seen == before_seen.push(current.tree().value),
                    trees_of(stack@) == rest + kids.take(i as int),
                decreases n - i,
            {
                let ghost prev = stack@;
                let child: &Node<T> = &*current.children[i];
                proof {
                    assert(child.tree() == kids[i as int]);
                }
                stack.push(child);
                proof {
                    lemma_trees_of_push(prev, stack@, kids[i as int]);
                    assert((rest + kids.take(i as int)).push(kids[i as int]) =~= rest + kids.take(
                        i as int + 1,
                    ));
                }
                i += 1;
            }
            proof {
                assert(kids.take(n as int) =~= kids);
                assert(trees_of(stack@) == rest + kids);
                lemma_dfs_of_all_append(rest, kids);
                lemma_size_of_all_append(rest, kids);
                assert(size_of_all(ts) == size_of(current.tree()) + size_of_all(rest));
                assert(size_of(current.tree()) == 1 + size_of_all(kids));
                assert(seen + dfs_of_all(trees_of(stack@)) =~= before_seen + (seq![
                    current.tree().value,
                ] + dfs_of_all(kids)) + dfs_of_all(rest));
                assert(seq![current.tree().value] + dfs_of_all(kids) == dfs_of(current.tree()));
                assert(before_seen + dfs_of(current.tree()) + dfs_of_all(rest) =~= before_seen + (
                dfs_of(current.tree()) + dfs_of_all(ts.drop_last())));
                assert(dfs_of(current.tree()) + dfs_of_all(ts.drop_last()) == dfs_of_all(ts));
                if reliable_eq::<T>() {
                    assert(current.tree().value != value);
                    assert forall|j: int| 0 <= j < seen.len() implies seen[j] != value by {
                        if j < before_seen.len() {
                            assert(seen[j] == before_seen[j]);
                        }
                    }
                    assert(!seen.contains(value));
                }
            }
        }
        proof {
            assert(trees_of(stack@) =~= Seq::<Tree<T>>::empty());
            assert(seen + dfs_of_all(trees_of(stack@)) =~= seen);
        }
        false
    }
}

/// Law: the two listings are functions of the tree alone. Two runs of
/// `depth_first_vec` on one tree return identical sequences, and so do
/// two runs of `breadth_first_vec`, however the tree was built.
pub proof fn lemma_traversals_deterministic<T: Clone + PartialEq>(
    n: Node<T>,
    dfs1: Vec<T>,
    dfs2: Vec<T>,
    bfs1: Vec<T>,
    bfs2: Vec<T>,
)
    requires
        reliable_clone::<T>(),
        call_ensures(Node::<T>::depth_first_vec, (&n,), dfs1),
        call_ensures(Node::<T>::depth_first_vec, (&n,), dfs2),
        call_ensures(Node::<T>::breadth_first_vec, (&n,), bfs1),
        call_ensures(Node::<T>::breadth_first_vec, (&n,), bfs2),
    ensures
        dfs1@ == dfs2@,
        bfs1@ == bfs2@,
{
}

/// Law: `contains` answers exactly whether the value appears in the
/// output of `depth_first_vec` on the same tree.
pub proof fn lemma_contains_matches_listing<T: Clone + PartialEq>(
    n: Node<T>,
    listing: Vec<T>,
    v: T,
    found: bool,
)
    requires
        reliable_eq::<T>(),
        reliable_clone::<T>(),
        call_ensures(Node::<T>::depth_first_vec, (&n,), listing),
        call_ensures(Node::<T>::contains, (&n, v), found),
    ensures
        found <==> listing@.contains(v),
{
}

} // verus!
