//! A directed, labeled multigraph keyed by a caller-chosen identifier.
//!
//! A [`Graph`] stores a payload per node identifier and, independently,
//! an ordered adjacency sequence of `(destination, edge payload)` pairs
//! per source identifier. Parallel edges and self-loops are allowed,
//! and an adjacency entry may name identifiers that have no node
//! payload: the two mappings are deliberately not tied to each other.
//! The mathematical content of a graph is the pair of maps
//! [`Graph::nodes_view`] and [`Graph::adj_view`].

use vstd::prelude::*;
use vstd::pervasive::cloned;
use crate::conform::{reliable_eq, reliable_clone};

verus! {

/// Whether the keys of the association sequence `s` are pairwise
/// distinct.
pub open spec fn distinct_keys<K, V>(s: Seq<(K, V)>) -> bool {
    forall|i: int, j: int| 0 <= i < j < s.len() ==> s[i].0 != s[j].0
}

/// Whether some entry of `s` has key `k`.
pub open spec fn assoc_has<K, V>(s: Seq<(K, V)>, k: K) -> bool {
    exists|i: int| 0 <= i < s.len() && s[i].0 == k
}

/// An index of `s` whose entry has key `k`, if there is one.
pub open spec fn assoc_index<K, V>(s: Seq<(K, V)>, k: K) -> int {
    choose|i: int| 0 <= i < s.len() && s[i].0 == k
}

/// The finite map an association sequence stands for.
pub open spec fn assoc_map<K, V>(s: Seq<(K, V)>) -> Map<K, V> {
    Map::new(|k: K| assoc_has(s, k), |k: K| s[assoc_index(s, k)].1)
}

proof fn lemma_assoc_index<K, V>(s: Seq<(K, V)>, k: K)
    requires
        distinct_keys(s),
        assoc_has(s, k),
    ensures
        0 <= assoc_index(s, k) < s.len(),
        s[assoc_index(s, k)].0 == k,
        forall|j: int| 0 <= j < s.len() && s[j].0 == k ==> j == assoc_index(s, k),
{
    let w = choose|i: int| 0 <= i < s.len() && s[i].0 == k;
    assert(s[w].0 == k);
}

proof fn lemma_assoc_push_new<K, V>(s: Seq<(K, V)>, k: K, v: V)
    requires
        distinct_keys(s),
        !assoc_has(s, k),
    ensures
        distinct_keys(s.push((k, v))),
        assoc_map(s.push((k, v))) =~= assoc_map(s).insert(k, v),
{
    let s2 = s.push((k, v));
    assert forall|q: K| assoc_has(s2, q) implies assoc_map(s2)[q] == assoc_map(s).insert(k, v)[q]
        && (q == k || assoc_has(s, q)) by {
        let i = assoc_index(s2, q);
        assert(0 <= i < s2.len() && s2[i].0 == q);
        if q == k {
            if i < s.len() {
                assert(assoc_has(s, k));
                assert(false);
            }
            assert(s2[i].1 == v);
        } else {
            assert(i < s.len());
            assert(assoc_has(s, q));
            lemma_assoc_index(s, q);
            assert(assoc_index(s, q) == i);
        }
    }
    assert forall|q: K| assoc_has(s, q) || q == k implies assoc_has(s2, q) by {
        if q == k {
            assert(s2[s.len() as int].0 == k);
        } else {
            let i = assoc_index(s, q);
            assert(0 <= i < s.len() && s[i].0 == q);
            assert(s2[i].0 == q);
        }
    }
}

proof fn lemma_assoc_remove_at<K, V>(s: Seq<(K, V)>, i: int)
    requires
        distinct_keys(s),
        0 <= i < s.len(),
    ensures
        distinct_keys(s.remove(i)),
        assoc_map(s.remove(i)) =~= assoc_map(s).remove(s[i].0),
        assoc_has(s, s[i].0),
        assoc_map(s)[s[i].0] == s[i].1,
        !assoc_has(s.remove(i), s[i].0),
{
    let k = s[i].0;
    let s2 = s.remove(i);
    lemma_assoc_index(s, k);
    assert(assoc_index(s, k) == i);
    assert forall|q: K| assoc_has(s2, q) implies assoc_has(s, q) && q != k && assoc_map(s2)[q]
        == assoc_map(s)[q] by {
        let j = assoc_index(s2, q);
        assert(0 <= j < s2.len() && s2[j].0 == q);
        let j0 = if j < i {
            j
        } else {
            j + 1
        };
        assert(s[j0] == s2[j]);
        assert(assoc_has(s, q));
        lemma_assoc_index(s, q);
        assert(assoc_index(s, q) == j0);
        if q == k {
            assert(j0 == i);
            assert(false);
        }
    }
    assert forall|q: K| assoc_has(s, q) && q != k implies assoc_has(s2, q) by {
        let j = assoc_index(s, q);
        assert(0 <= j < s.len() && s[j].0 == q);
        assert(j != i);
        if j < i {
            assert(s2[j].0 == q);
        } else {
            assert(s2[j - 1].0 == q);
        }
    }
}

/// The adjacency sequence `m` holds for `k`, or the empty sequence if
/// it holds none.
pub open spec fn edges_or_empty<Nid, E>(m: Map<Nid, Seq<(Nid, E)>>, k: Nid) -> Seq<(Nid, E)> {
    if m.contains_key(k) {
        m[k]
    } else {
        Seq::empty()
    }
}

/// The entries of `s` whose destination is not `to`, in order.
pub open spec fn edges_not_to<Nid, E>(s: Seq<(Nid, E)>, to: Nid) -> Seq<(Nid, E)>
    decreases s,
{
    if s.len() == 0 {
        Seq::empty()
    } else if s.last().0 == to {
        edges_not_to(s.drop_last(), to)
    } else {
        edges_not_to(s.drop_last(), to).push(s.last())
    }
}

/// The entries of `s` whose payload is not `e`, in order.
pub open spec fn edges_not_with<Nid, E>(s: Seq<(Nid, E)>, e: E) -> Seq<(Nid, E)>
    decreases s,
{
    if s.len() == 0 {
        Seq::empty()
    } else if s.last().1 == e {
        edges_not_with(s.drop_last(), e)
    } else {
        edges_not_with(s.drop_last(), e).push(s.last())
    }
}

/// The payloads of the entries of `s` whose destination is `to`, in
/// order.
pub open spec fn edges_to<Nid, E>(s: Seq<(Nid, E)>, to: Nid) -> Seq<E>
    decreases s,
{
    if s.len() == 0 {
        Seq::empty()
    } else if s.last().0 == to {
        edges_to(s.drop_last(), to).push(s.last().1)
    } else {
        edges_to(s.drop_last(), to)
    }
}

/// The payload of the first entry of `s` whose destination is `to`, if
/// any.
pub open spec fn first_edge_to<Nid, E>(s: Seq<(Nid, E)>, to: Nid) -> Option<E>
    decreases s,
{
    if s.len() == 0 {
        None
    } else if s[0].0 == to {
        Some(s[0].1)
    } else {
        first_edge_to(s.drop_first(), to)
    }
}

/// The report of edge removal or edge flipping asked of a source
/// identifier that has no adjacency entry at all.
pub const NO_EDGE_LIST: &'static str = "Node does not have any edges!";

/// The report of payload-keyed edge removal asked of a source
/// identifier that has no adjacency entry at all.
pub const NO_SUCH_EDGE: &'static str = "Node does not have specified edge!";

/// The report of a flip whose removal step found no adjacency entry.
pub const COULD_NOT_FLIP: &'static str = "Could not flip the edge, invalid edge or node provided.";

/// A directed, labeled multigraph: node payloads of type `N` keyed by
/// identifiers of type `Nid`, and an ordered adjacency sequence of
/// `(destination, edge payload)` pairs per source identifier.
pub struct Graph<Nid, N = (), E = ()> {
    nodes: Vec<(Nid, N)>,
    adjacent: Vec<(Nid, Vec<(Nid, E)>)>,
}

impl<Nid, N, E> Graph<Nid, N, E> {
    /// The node payloads, as a map from identifier to payload.
    pub closed spec fn nodes_view(self) -> Map<Nid, N> {
        assoc_map(self.nodes@)
    }

    /// The adjacency sequences, as a map from source identifier to its
    /// ordered sequence of `(destination, edge payload)` pairs.
    pub closed spec fn adj_view(self) -> Map<Nid, Seq<(Nid, E)>> {
        Map::new(
            |k: Nid| assoc_has(self.adjacent@, k),
            |k: Nid| self.adjacent@[assoc_index(self.adjacent@, k)].1@,
        )
    }

    /// The node entries in storage order, as `iter_nodes` lists them.
    pub closed spec fn node_entries(self) -> Seq<(Nid, N)> {
        self.nodes@
    }

    /// The adjacency entries in storage order, as `iter_edges` lists
    /// them.
    pub closed spec fn adj_entries(self) -> Seq<(Nid, Seq<(Nid, E)>)> {
        self.adjacent@.map_values(|p: (Nid, Vec<(Nid, E)>)| (p.0, p.1@))
    }

    /// Both mappings key each identifier at most once.
    pub closed spec fn wf(self) -> bool {
        distinct_keys(self.nodes@) && distinct_keys(self.adjacent@)
    }

    /// Every listed node entry is what `nodes_view` maps its key to,
    /// and every key of `nodes_view` is listed.
    pub proof fn lemma_node_entries_agree(self)
        requires
            self.wf(),
        ensures
            forall|j: int|
                0 <= j < self.node_entries().len() ==> #[trigger] self.nodes_view().contains_key(
                    self.node_entries()[j].0,
                ) && self.nodes_view()[self.node_entries()[j].0] == self.node_entries()[j].1,
            forall|k: Nid|
                self.nodes_view().contains_key(k) ==> exists|j: int|
                    0 <= j < self.node_entries().len() && (#[trigger] self.node_entries()[j]).0
                        == k,
    {
        assert forall|j: int| 0 <= j < self.node_entries().len() implies #[trigger] self.nodes_view().contains_key(
            self.node_entries()[j].0,
        ) && self.nodes_view()[self.node_entries()[j].0] == self.node_entries()[j].1 by {
            lemma_assoc_remove_at(self.nodes@, j);
        }
        assert forall|k: Nid| self.nodes_view().contains_key(k) implies exists|j: int|
            0 <= j < self.node_entries().len() && (#[trigger] self.node_entries()[j]).0 == k by {
            lemma_assoc_index(self.nodes@, k);
            let w = assoc_index(self.nodes@, k);
            assert(0 <= w < self.node_entries().len() && self.node_entries()[w].0 == k);
        }
    }

    /// Every listed adjacency entry is what `adj_view` maps its key
    /// to, and every key of `adj_view` is listed.
    pub proof fn lemma_adj_entries_agree(self)
        requires
            self.wf(),
        ensures
            forall|j: int|
                0 <= j < self.adj_entries().len() ==> #[trigger] self.adj_view().contains_key(
                    self.adj_entries()[j].0,
                ) && self.adj_view()[self.adj_entries()[j].0] == self.adj_entries()[j].1,
            forall|k: Nid|
                self.adj_view().contains_key(k) ==> exists|j: int|
                    0 <= j < self.adj_entries().len() && (#[trigger] self.adj_entries()[j]).0 == k,
    {
        assert forall|j: int| 0 <= j < self.adj_entries().len() implies #[trigger] self.adj_view().contains_key(
            self.adj_entries()[j].0,
        ) && self.adj_view()[self.adj_entries()[j].0] == self.adj_entries()[j].1 by {
            assert(self.adjacent@[j].0 == self.adj_entries()[j].0);
            lemma_assoc_index(self.adjacent@, self.adjacent@[j].0);
        }
        assert forall|k: Nid| self.adj_view().contains_key(k) implies exists|j: int|
            0 <= j < self.adj_entries().len() && (#[trigger] self.adj_entries()[j]).0 == k by {
            lemma_assoc_index(self.adjacent@, k);
            let w = assoc_index(self.adjacent@, k);
            assert(0 <= w < self.adj_entries().len() && self.adj_entries()[w].0 == k);
        }
    }
}

fn find_key<K: PartialEq, V>(s: &Vec<(K, V)>, k: &K) -> (r: Option<usize>)
    requires
        reliable_eq::<K>(),
    ensures
        match r {
            Some(i) => i < s@.len() && s@[i as int].0 == *k,
            None => !assoc_has(s@, *k),
        },
{
    let mut i: usize = 0;
    while i < s.len()
        invariant
            reliable_eq::<K>(),
            i <= s@.len(),
            forall|j: int| 0 <= j < i ==> s@[j].0 != *k,
        decreases s@.len() - i,
    {
        if s[i].0 == *k {
            return Some(i);
        }
        i += 1;
    }
    proof {
        if assoc_has(s@, *k) {
            let w = assoc_index(s@, *k);
            assert(0 <= w < s@.len() && s@[w].0 == *k);
            assert(false);
        }
    }
    None
}

impl<Nid, N, E> Graph<Nid, N, E> where Nid: std::hash::Hash + Eq {
    /// Builds a graph with no nodes and no adjacency entries.
    pub fn new() -> (g: Graph<Nid, N, E>)
        ensures
            g.wf(),
            g.nodes_view() == Map::<Nid, N>::empty(),
            g.adj_view() == Map::<Nid, Seq<(Nid, E)>>::empty(),
    {
        let g = Graph { nodes: Vec::new(), adjacent: Vec::new() };
        proof {
            assert(g.nodes_view() =~= Map::<Nid, N>::empty());
            assert(g.adj_view() =~= Map::<Nid, Seq<(Nid, E)>>::empty());
        }
        g
    }

    /// Stores `node` under `node_id`, overwriting and returning the
    /// payload stored before, if there was one.
    pub fn insert_node(&mut self, node_id: Nid, node: N) -> (r: Option<N>)
        requires
            old(self).wf(),
            reliable_eq::<Nid>(),
        ensures
            final(self).wf(),
            final(self).nodes_view() == old(self).nodes_view().insert(node_id, node),
            final(self).adj_view() == old(self).adj_view(),
            r == (if old(self).nodes_view().contains_key(node_id) {
                Some(old(self).nodes_view()[node_id])
            } else {
                None::<N>
            }),
    {
        let ghost before = self.nodes@;
        match find_key(&self.nodes, &node_id) {
            Some(i) => {
                proof {
                    lemma_assoc_remove_at(before, i as int);
                }
                let pair = self.nodes.remove(i);
                proof {
                    lemma_assoc_push_new(self.nodes@, node_id, node);
                }
                self.nodes.push((node_id, node));
                proof {
                    assert(self.nodes_view() =~= old(self).nodes_view().insert(node_id, node));
                    assert(self.adj_view() =~= old(self).adj_view());
                }
                Some(pair.1)
            },
            None => {
                proof {
                    lemma_assoc_push_new(before, node_id, node);
                }
                self.nodes.push((node_id, node));
                proof {
                    assert(self.nodes_view() =~= old(self).nodes_view().insert(node_id, node));
                    assert(self.adj_view() =~= old(self).adj_view());
                }
                None
            },
        }
    }

    /// Takes the payload stored under `node_id` out of the graph and
    /// returns it, if there is one. Adjacency entries are left alone:
    /// edges from or to the identifier remain.
    pub fn remove_node(&mut self, node_id: &Nid) -> (r: Option<N>)
        requires
            old(self).wf(),
            reliable_eq::<Nid>(),
        ensures
            final(self).wf(),
            final(self).nodes_view() == old(self).nodes_view().remove(*node_id),
            final(self).adj_view() == old(self).adj_view(),
            r == (if old(self).nodes_view().contains_key(*node_id) {
                Some(old(self).nodes_view()[*node_id])
            } else {
                None::<N>
            }),
    {
        let ghost before = self.nodes@;
        match find_key(&self.nodes, node_id) {
            Some(i) => {
                proof {
                    lemma_assoc_remove_at(before, i as int);
                }
                let pair = self.nodes.remove(i);
                proof {
                    assert(self.nodes_view() =~= old(self).nodes_view().remove(*node_id));
                    assert(self.adj_view() =~= old(self).adj_view());
                }
                Some(pair.1)
            },
            None => {
                proof {
                    assert(self.nodes_view() =~= old(self).nodes_view().remove(*node_id));
                }
                None
            },
        }
    }

    /// The payload stored under `node_id`, if there is one.
    pub fn get_node(&self, node_id: &Nid) -> (r: Option<&N>)
        requires
            self.wf(),
            reliable_eq::<Nid>(),
        ensures
            match r {
                Some(v) => self.nodes_view().contains_key(*node_id) && *v
                    == self.nodes_view().index(*node_id),
                None => !self.nodes_view().contains_key(*node_id),
            },
    {
        match find_key(&self.nodes, node_id) {
            Some(i) => {
                proof {
                    lemma_assoc_index(self.nodes@, *node_id);
                }
                Some(&self.nodes[i].1)
            },
            None => None,
        }
    }

    /// Whether a node payload is stored under `node_id`. Identifiers
    /// that only appear in adjacency data do not count.
    pub fn contains(&self, node_id: &Nid) -> (r: bool)
        requires
            self.wf(),
            reliable_eq::<Nid>(),
        ensures
            r == self.nodes_view().contains_key(*node_id),
    {
        match find_key(&self.nodes, node_id) {
            Some(_) => true,
            None => false,
        }
    }

    /// Appends the edge `(to, edge)` to `from`'s adjacency sequence,
    /// creating the sequence when `from` had none. `to` need not be a
    /// stored node; self-loops and parallel edges are allowed.
    pub fn add_edge(&mut self, from: Nid, to: Nid, edge: E)
        requires
            old(self).wf(),
            reliable_eq::<Nid>(),
        ensures
            final(self).wf(),
            final(self).nodes_view() == old(self).nodes_view(),
            final(self).adj_view() == old(self).adj_view().insert(
                from,
                edges_or_empty(old(self).adj_view(), from).push((to, edge)),
            ),
    {
        let ghost before = self.adjacent@;
        match find_key(&self.adjacent, &from) {
            Some(i) => {
                proof {
                    lemma_assoc_remove_at(before, i as int);
                    lemma_assoc_index(before, from);
                }
                let (k, mut list) = self.adjacent.remove(i);
                let ghost oldlist = list@;
                list.push((to, edge));
                proof {
                    lemma_assoc_push_new(self.adjacent@, k, list);
                }
                self.adjacent.push((k, list));
                proof {
                    assert(self.adj_view() =~= old(self).adj_view().insert(
                        from,
                        edges_or_empty(old(self).adj_view(), from).push((to, edge)),
                    ));
                    assert(self.nodes_view() =~= old(self).nodes_view());
                }
            },
            None => {
                let mut list: Vec<(Nid, E)> = Vec::new();
                list.push((to, edge));
                proof {
                    lemma_assoc_push_new(before, from, list);
                    assert(edges_or_empty(old(self).adj_view(), from) =~= Seq::<(Nid, E)>::empty());
                }
                self.adjacent.push((from, list));
                proof {
                    assert(edges_or_empty(old(self).adj_view(), from).push((to, edge)) =~= list@);
                    assert(self.adj_view() =~= old(self).adj_view().insert(
                        from,
                        edges_or_empty(old(self).adj_view(), from).push((to, edge)),
                    ));
                    assert(self.nodes_view() =~= old(self).nodes_view());
                }
            },
        }
    }

    /// Deletes every edge from `from` whose destination is `to`. The
    /// call reports `NO_EDGE_LIST` when `from` has no adjacency entry
    /// at all; an entry with no matching edge is a successful no-op.
    pub fn remove_edges(&mut self, from: Nid, to: &Nid) -> (r: Result<(), &'static str>)
        requires
            old(self).wf(),
            reliable_eq::<Nid>(),
        ensures
            final(self).wf(),
            final(self).nodes_view() == old(self).nodes_view(),
            old(self).adj_view().contains_key(from) ==> r == Ok::<(), &'static str>(())
                && final(self).adj_view() == old(self).adj_view().insert(
                from,
                edges_not_to(old(self).adj_view().index(from), *to),
            ),
            !old(self).adj_view().contains_key(from) ==> r == Err::<(), &'static str>(NO_EDGE_LIST)
                && final(self).adj_view() == old(self).adj_view(),
    {
        let ghost before = self.adjacent@;
        match find_key(&self.adjacent, &from) {
            Some(i) => {
                proof {
                    lemma_assoc_remove_at(before, i as int);
                    lemma_assoc_index(before, from);
                }
                let (k, mut list) = self.adjacent.remove(i);
                let ghost orig = list@;
                let mut kept: Vec<(Nid, E)> = Vec::new();
                let ghost mut done: Seq<(Nid, E)> = Seq::empty();
                proof {
                    assert(done + list@ =~= orig);
                }
                while list.len() > 0
                    invariant
                        reliable_eq::<Nid>(),
                        done + list@ == orig,
                        kept@ == edges_not_to(done, *to),
                    decreases list@.len(),
                {
                    let ghost left = list@;
                    let pair = list.remove(0);
                    proof {
                        assert(left[0] == pair);
                        assert(done.push(pair).drop_last() =~= done);
                        assert(done.push(pair) + list@ =~= orig);
                    }
                    if pair.0 == *to {
                        proof {
                            done = done.push(pair);
                        }
                    } else {
                        kept.push(pair);
                        proof {
                            done = done.push(pair);
                        }
                    }
                }
                proof {
                    assert(done =~= orig);
                    lemma_assoc_push_new(self.adjacent@, k, kept);
                }
                self.adjacent.push((k, kept));
                proof {
                    assert(self.adj_view() =~= old(self).adj_view().insert(
                        from,
                        edges_not_to(old(self).adj_view().index(from), *to),
                    ));
                    assert(self.nodes_view() =~= old(self).nodes_view());
                }
                Ok(())
            },
            None => Err(NO_EDGE_LIST),
        }
    }

    /// The payload of the first edge from `from` whose destination is
    /// `to`, if `from` has an adjacency entry with such an edge.
    pub fn get_edge(&self, from: &Nid, to: &Nid) -> (r: Option<&E>)
        requires
            self.wf(),
            reliable_eq::<Nid>(),
        ensures
            match r {
                Some(e) => first_edge_to(edges_or_empty(self.adj_view(), *from), *to) == Some(*e),
                None => first_edge_to(edges_or_empty(self.adj_view(), *from), *to) is None,
            },
    {
        match find_key(&self.adjacent, from) {
            Some(i) => {
                proof {
                    lemma_assoc_index(self.adjacent@, *from);
                }
                let list = &self.adjacent[i].1;
                let n = list.len();
                proof {
                    assert(list@.skip(0) =~= list@);
                    assert(edges_or_empty(self.adj_view(), *from) == list@);
                }
                let mut j: usize = 0;
                while j < n
                    invariant
                        reliable_eq::<Nid>(),
                        j <= n,
                        n == list@.len(),
                        list@ == edges_or_empty(self.adj_view(), *from),
                        first_edge_to(list@, *to) == first_edge_to(
                            list@.skip(j as int),
                            *to,
                        ),
                    decreases n - j,
                {
                    if list[j].0 == *to {
                        proof {
                            assert(list@.skip(j as int)[0] == list@[j as int]);
                            assert(first_edge_to(list@.skip(j as int), *to) == Some(
                                list@[j as int].1,
                            ));
                        }
                        return Some(&list[j].1);
                    }
                    proof {
                        assert(list@.skip(j as int)[0] == list@[j as int]);
                        assert(list@.skip(j as int).drop_first() =~= list@.skip(j as int + 1));
                    }
                    j += 1;
                }
                proof {
                    assert(list@.skip(n as int) =~= Seq::<(Nid, E)>::empty());
                }
                None
            },
            None => None,
        }
    }

    /// The destinations of every edge out of `node_id`, in adjacency
    /// order. The identifier must have an adjacency entry, possibly an
    /// empty one.
    pub fn get_adjacent(&self, node_id: &Nid) -> (r: Vec<&Nid>)
        requires
            self.wf(),
            reliable_eq::<Nid>(),
            self.adj_view().contains_key(*node_id),
        ensures
            r@.len() == self.adj_view().index(*node_id).len(),
            forall|j: int|
                0 <= j < r@.len() ==> *r@[j] == self.adj_view().index(*node_id)[j].0,
    {
        match find_key(&self.adjacent, node_id) {
            Some(i) => {
                proof {
                    lemma_assoc_index(self.adjacent@, *node_id);
                }
                let list = &self.adjacent[i].1;
                let n = list.len();
                let mut out: Vec<&Nid> = Vec::new();
                let mut j: usize = 0;
                while j < n
                    invariant
                        j <= n,
                        n == list@.len(),
                        list@ == self.adj_view().index(*node_id),
                        out@.len() == j,
                        forall|m: int| 0 <= m < j ==> *out@[m] == list@[m].0,
                    decreases n - j,
                {
                    out.push(&list[j].0);
                    j += 1;
                }
                out
            },
            None => {
                proof {
                    assert(false);
                }
                Vec::new()
            },
        }
    }

    /// The whole adjacency sequence of `node_id`, if it has one.
    pub fn edges_from(&self, node_id: &Nid) -> (r: Option<&Vec<(Nid, E)>>)
        requires
            self.wf(),
            reliable_eq::<Nid>(),
        ensures
            match r {
                Some(v) => self.adj_view().contains_key(*node_id) && v@ == self.adj_view().index(
                    *node_id,
                ),
                None => !self.adj_view().contains_key(*node_id),
            },
    {
        match find_key(&self.adjacent, node_id) {
            Some(i) => {
                proof {
                    lemma_assoc_index(self.adjacent@, *node_id);
                }
                Some(&self.adjacent[i].1)
            },
            None => None,
        }
    }

    /// The payloads of every edge from `from` to `to`, in adjacency
    /// order: the empty sequence when the entry has no matching edge,
    /// absence when `from` has no adjacency entry at all.
    pub fn edges_from_to(&self, from: &Nid, to: &Nid) -> (r: Option<Vec<&E>>)
        requires
            self.wf(),
            reliable_eq::<Nid>(),
        ensures
            match r {
                Some(v) => self.adj_view().contains_key(*from) && v@.len() == edges_to(
                    self.adj_view().index(*from),
                    *to,
                ).len() && (forall|j: int|
                    0 <= j < v@.len() ==> *v@[j] == edges_to(self.adj_view().index(*from), *to)[j]),
                None => !self.adj_view().contains_key(*from),
            },
    {
        match find_key(&self.adjacent, from) {
            Some(i) => {
                proof {
                    lemma_assoc_index(self.adjacent@, *from);
                }
                let list = &self.adjacent[i].1;
                let n = list.len();
                let mut out: Vec<&E> = Vec::new();
                let mut j: usize = 0;
                while j < n
                    invariant
                        reliable_eq::<Nid>(),
                        j <= n,
                        n == list@.len(),
                        list@ == self.adj_view().index(*from),
                        out@.len() == edges_to(list@.take(j as int), *to).len(),
                        forall|m: int|
                            0 <= m < out@.len() ==> *out@[m] == edges_to(
                                list@.take(j as int),
                                *to,
                            )[m],
                    decreases n - j,
                {
                    proof {
                        assert(list@.take(j as int + 1).drop_last() =~= list@.take(j as int));
                        assert(list@.take(j as int + 1).last() == list@[j as int]);
                    }
                    if list[j].0 == *to {
                        out.push(&list[j].1);
                    }
                    j += 1;
                }
                proof {
                    assert(list@.take(n as int) =~= list@);
                }
                Some(out)
            },
            None => None,
        }
    }

    /// How many edges run from `from` to `to`; zero when `from` has no
    /// adjacency entry.
    pub fn edge_count(&self, from: &Nid, to: &Nid) -> (r: usize)
        requires
            self.wf(),
            reliable_eq::<Nid>(),
        ensures
            self.adj_view().contains_key(*from) ==> r as nat == edges_to(
                self.adj_view().index(*from),
                *to,
            ).len(),
            !self.adj_view().contains_key(*from) ==> r == 0usize,
    {
        match find_key(&self.adjacent, from) {
            Some(i) => {
                proof {
                    lemma_assoc_index(self.adjacent@, *from);
                }
                let list = &self.adjacent[i].1;
                let n = list.len();
                let mut count: usize = 0;
                let mut j: usize = 0;
                while j < n
                    invariant
                        reliable_eq::<Nid>(),
                        j <= n,
                        n == list@.len(),
                        list@ == self.adj_view().index(*from),
                        count <= j,
                        count as nat == edges_to(list@.take(j as int), *to).len(),
                    decreases n - j,
                {
                    proof {
                        assert(list@.take(j as int + 1).drop_last() =~= list@.take(j as int));
                        assert(list@.take(j as int + 1).last() == list@[j as int]);
                    }
                    if list[j].0 == *to {
                        count += 1;
                    }
                    j += 1;
                }
                proof {
                    assert(list@.take(n as int) =~= list@);
                }
                count
            },
            None => 0,
        }
    }

    /// Every `(identifier, payload)` node entry, in storage order. The
    /// order carries no meaning; see `lemma_node_entries_agree` for how
    /// the listing matches `nodes_view`.
    pub fn iter_nodes(&self) -> (r: Vec<(&Nid, &N)>)
        ensures
            r@.len() == self.node_entries().len(),
            forall|j: int|
                0 <= j < r@.len() ==> *(#[trigger] r@[j]).0 == self.node_entries()[j].0 && *r@[j].1
                    == self.node_entries()[j].1,
    {
        let mut out: Vec<(&Nid, &N)> = Vec::new();
        let n = self.nodes.len();
        let mut j: usize = 0;
        while j < n
            invariant
                j <= n,
                n == self.nodes@.len(),
                out@.len() == j,
                forall|m: int|
                    0 <= m < j ==> *(#[trigger] out@[m]).0 == self.nodes@[m].0 && *out@[m].1
                        == self.nodes@[m].1,
            decreases n - j,
        {
            out.push((&self.nodes[j].0, &self.nodes[j].1));
            j += 1;
        }
        out
    }

    /// Every `(identifier, adjacency sequence)` entry, in storage
    /// order. The order carries no meaning; see
    /// `lemma_adj_entries_agree` for how the listing matches
    /// `adj_view`.
    pub fn iter_edges(&self) -> (r: Vec<(&Nid, &Vec<(Nid, E)>)>)
        ensures
            r@.len() == self.adj_entries().len(),
            forall|j: int|
                0 <= j < r@.len() ==> *(#[trigger] r@[j]).0 == self.adj_entries()[j].0 && r@[j].1@
                    == self.adj_entries()[j].1,
    {
        let mut out: Vec<(&Nid, &Vec<(Nid, E)>)> = Vec::new();
        let n = self.adjacent.len();
        let mut j: usize = 0;
        while j < n
            invariant
                j <= n,
                n == self.adjacent@.len(),
                out@.len() == j,
                forall|m: int|
                    0 <= m < j ==> *(#[trigger] out@[m]).0 == self.adjacent@[m].0 && out@[m].1@
                        == self.adjacent@[m].1@,
            decreases n - j,
        {
            out.push((&self.adjacent[j].0, &self.adjacent[j].1));
            j += 1;
        }
        out
    }
}

impl<Nid, N, E> Graph<Nid, N, E> where Nid: std::hash::Hash + Eq, E: PartialEq + Clone {
    /// Deletes every edge from `from` whose payload equals `edge`,
    /// whatever its destination. The call reports `NO_SUCH_EDGE` when
    /// `from` has no adjacency entry at all; an entry with no matching
    /// edge is a successful no-op.
    pub fn remove_edge(&mut self, from: Nid, edge: &E) -> (r: Result<(), &'static str>)
        requires
            old(self).wf(),
            reliable_eq::<Nid>(),
            reliable_eq::<E>(),
        ensures
            final(self).wf(),
            final(self).nodes_view() == old(self).nodes_view(),
            old(self).adj_view().contains_key(from) ==> r == Ok::<(), &'static str>(())
                && final(self).adj_view() == old(self).adj_view().insert(
                from,
                edges_not_with(old(self).adj_view().index(from), *edge),
            ),
            !old(self).adj_view().contains_key(from) ==> r == Err::<(), &'static str>(NO_SUCH_EDGE)
                && final(self).adj_view() == old(self).adj_view(),
    {
        let ghost before = self.adjacent@;
        match find_key(&self.adjacent, &from) {
            Some(i) => {
                proof {
                    lemma_assoc_remove_at(before, i as int);
                    lemma_assoc_index(before, from);
                }
                let (k, mut list) = self.adjacent.remove(i);
                let ghost orig = list@;
                let mut kept: Vec<(Nid, E)> = Vec::new();
                let ghost mut done: Seq<(Nid, E)> = Seq::empty();
                proof {
                    assert(done + list@ =~= orig);
                }
                while list.len() > 0
                    invariant
                        reliable_eq::<E>(),
                        done + list@ == orig,
                        kept@ == edges_not_with(done, *edge),
                    decreases list@.len(),
                {
                    let ghost left = list@;
                    let pair = list.remove(0);
                    proof {
                        assert(left[0] == pair);
                        assert(done.push(pair).drop_last() =~= done);
                        assert(done.push(pair) + list@ =~= orig);
                    }
                    if pair.1 == *edge {
                        proof {
                            done = done.push(pair);
                        }
                    } else {
                        kept.push(pair);
                        proof {
                            done = done.push(pair);
                        }
                    }
                }
                proof {
                    assert(done =~= orig);
                    lemma_assoc_push_new(self.adjacent@, k, kept);
                }
                self.adjacent.push((k, kept));
                proof {
                    assert(self.adj_view() =~= old(self).adj_view().insert(
                        from,
                        edges_not_with(old(self).adj_view().index(from), *edge),
                    ));
                    assert(self.nodes_view() =~= old(self).nodes_view());
                }
                Ok(())
            },
            None => Err(NO_SUCH_EDGE),
        }
    }
}

impl<Nid, N, E> Graph<Nid, N, E> where
    Nid: std::hash::Hash + Eq + Clone,
    E: PartialEq + Clone,
 {
    /// Emulates one undirected edge as the two independent directed
    /// edges `(from, to, edge)` and `(to, from, edge)`. The two stay
    /// independent: removing one later does not remove the other.
    pub fn push_undirected_edge(&mut self, from: Nid, to: Nid, edge: E)
        requires
            old(self).wf(),
            reliable_eq::<Nid>(),
            reliable_clone::<Nid>(),
            reliable_clone::<E>(),
        ensures
            final(self).wf(),
            final(self).nodes_view() == old(self).nodes_view(),
            final(self).adj_view() == ({
                let first = old(self).adj_view().insert(
                    from,
                    edges_or_empty(old(self).adj_view(), from).push((to, edge)),
                );
                first.insert(to, edges_or_empty(first, to).push((from, edge)))
            }),
    {
        let from2 = from.clone();
        let to2 = to.clone();
        let edge2 = edge.clone();
        proof {
            assert(cloned::<Nid>(from, from2));
            assert(cloned::<Nid>(to, to2));
            assert(cloned::<E>(edge, edge2));
        }
        self.add_edge(from2, to2, edge2);
        self.add_edge(to, from, edge);
    }

    /// Deletes every edge from `from` whose payload equals `edge`, then
    /// adds the single edge `(to, from, edge)`. The call reports
    /// `COULD_NOT_FLIP`, and changes nothing, when `from` has no
    /// adjacency entry at all.
    pub fn flip_edge(&mut self, from: Nid, to: Nid, edge: E) -> (r: Result<(), &'static str>)
        requires
            old(self).wf(),
            reliable_eq::<Nid>(),
            reliable_eq::<E>(),
            reliable_clone::<Nid>(),
        ensures
            final(self).wf(),
            final(self).nodes_view() == old(self).nodes_view(),
            old(self).adj_view().contains_key(from) ==> r == Ok::<(), &'static str>(())
                && final(self).adj_view() == ({
                let removed = old(self).adj_view().insert(
                    from,
                    edges_not_with(old(self).adj_view().index(from), edge),
                );
                removed.insert(to, edges_or_empty(removed, to).push((from, edge)))
            }),
            !old(self).adj_view().contains_key(from) ==> r == Err::<(), &'static str>(
                COULD_NOT_FLIP,
            ) && final(self).adj_view() == old(self).adj_view(),
    {
        let from2 = from.clone();
        proof {
            assert(cloned::<Nid>(from, from2));
        }
        match self.remove_edge(from2, &edge) {
            Ok(_) => {
                self.add_edge(to, from, edge);
                Ok(())
            },
            Err(_) => Err(COULD_NOT_FLIP),
        }
    }
}

/// Law: storing a payload under an identifier that already has one
/// keeps the second payload and exposes the first as the overwritten
/// value, which the second `insert_node` call hands back.
pub proof fn lemma_insert_node_overwrites<Nid, N>(m: Map<Nid, N>, id: Nid, first: N, second: N)
    ensures
        m.insert(id, first).contains_key(id),
        m.insert(id, first)[id] == first,
        m.insert(id, first).insert(id, second) =~= m.insert(id, second),
        m.insert(id, first).insert(id, second)[id] == second,
{
}

/// Law: `add_edge` raises the edge count between its endpoints by
/// exactly one and leaves the count toward every other destination of
/// the same source unchanged, so adding edges with distinct payloads
/// counts each of them.
pub proof fn lemma_add_edge_count<Nid, E>(
    m: Map<Nid, Seq<(Nid, E)>>,
    from: Nid,
    to: Nid,
    e: E,
    q: Nid,
)
    ensures
        ({
            let grown = m.insert(from, edges_or_empty(m, from).push((to, e)));
            &&& to == q ==> edges_to(grown[from], q).len() == edges_to(
                edges_or_empty(m, from),
                q,
            ).len() + 1
            &&& to != q ==> edges_to(grown[from], q).len() == edges_to(
                edges_or_empty(m, from),
                q,
            ).len()
        }),
{
    let s = edges_or_empty(m, from);
    assert(s.push((to, e)).drop_last() =~= s);
    assert(s.push((to, e)).last() == (to, e));
}

/// Law: destination-keyed removal deletes exactly the edges to that
/// destination: afterwards none to it remains, while the edges to every
/// other destination are exactly what they were, in the same order.
pub proof fn lemma_remove_edges_exact<Nid, E>(s: Seq<(Nid, E)>, to: Nid, other: Nid)
    requires
        other != to,
    ensures
        edges_to(edges_not_to(s, to), to) == Seq::<E>::empty(),
        edges_to(edges_not_to(s, to), other) == edges_to(s, other),
    decreases s.len(),
{
    if s.len() > 0 {
        lemma_remove_edges_exact(s.drop_last(), to, other);
        if s.last().0 == to {
        } else {
            let kept = edges_not_to(s.drop_last(), to);
            assert(edges_not_to(s, to) == kept.push(s.last()));
            assert(kept.push(s.last()).drop_last() =~= kept);
            assert(kept.push(s.last()).last() == s.last());
        }
    }
}

/// Law: after one undirected edge between distinct `a` and `b` is
/// emulated, payload-keyed removal at `a` deletes only the `a`-side
/// directed edge: `b`'s adjacency sequence is untouched, and its edges
/// toward `a` still end with the payload `e` of the reverse edge.
pub proof fn lemma_reverse_edge_survives<Nid, E>(m: Map<Nid, Seq<(Nid, E)>>, a: Nid, b: Nid, e: E)
    requires
        a != b,
    ensures
        ({
            let first = m.insert(a, edges_or_empty(m, a).push((b, e)));
            let both = first.insert(b, edges_or_empty(first, b).push((a, e)));
            let pruned = both.insert(a, edges_not_with(both[a], e));
            &&& pruned[b] == both[b]
            &&& edges_to(pruned[b], a) == edges_to(edges_or_empty(m, b), a).push(e)
        }),
{
    let first = m.insert(a, edges_or_empty(m, a).push((b, e)));
    let both = first.insert(b, edges_or_empty(first, b).push((a, e)));
    assert(edges_or_empty(first, b) == edges_or_empty(m, b));
    let s = edges_or_empty(m, b).push((a, e));
    assert(s.drop_last() =~= edges_or_empty(m, b));
    assert(s.last() == (a, e));
}

/// Law: flipping the one edge of a graph that holds only `(a, b, e)`
/// reverses it, and flipping the reversed edge restores the original
/// counts: nothing else was there to be collaterally removed.
pub proof fn lemma_flip_edge_reverses<Nid, E>(a: Nid, b: Nid, e: E)
    requires
        a != b,
    ensures
        ({
            let m = Map::<Nid, Seq<(Nid, E)>>::empty().insert(a, seq![(b, e)]);
            let removed = m.insert(a, edges_not_with(m[a], e));
            let flipped = removed.insert(b, edges_or_empty(removed, b).push((a, e)));
            let removed2 = flipped.insert(b, edges_not_with(flipped[b], e));
            let back = removed2.insert(a, edges_or_empty(removed2, a).push((b, e)));
            &&& edges_to(edges_or_empty(flipped, a), b) == Seq::<E>::empty()
            &&& edges_to(edges_or_empty(flipped, b), a) == seq![e]
            &&& edges_to(edges_or_empty(back, a), b) == seq![e]
            &&& edges_to(edges_or_empty(back, b), a) == Seq::<E>::empty()
        }),
{
    let m = Map::<Nid, Seq<(Nid, E)>>::empty().insert(a, seq![(b, e)]);
    assert(edges_not_with(Seq::<(Nid, E)>::empty(), e) == Seq::<(Nid, E)>::empty());
    assert(edges_to(Seq::<(Nid, E)>::empty(), a) == Seq::<E>::empty());
    assert(edges_to(Seq::<(Nid, E)>::empty(), b) == Seq::<E>::empty());
    assert(seq![(b, e)].drop_last() =~= Seq::<(Nid, E)>::empty());
    assert(seq![(b, e)].last() == (b, e));
    assert(edges_not_with(m[a], e) =~= Seq::<(Nid, E)>::empty());
    let removed = m.insert(a, edges_not_with(m[a], e));
    assert(!removed.contains_key(b));
    assert(Seq::<(Nid, E)>::empty().push((a, e)) =~= seq![(a, e)]);
    let flipped = removed.insert(b, edges_or_empty(removed, b).push((a, e)));
    assert(flipped[b] =~= seq![(a, e)]);
    assert(seq![(a, e)].drop_last() =~= Seq::<(Nid, E)>::empty());
    assert(seq![(a, e)].last() == (a, e));
    assert(edges_to(flipped[a], b) =~= Seq::<E>::empty());
    assert(edges_to(flipped[b], a) =~= seq![e]);
    let removed2 = flipped.insert(b, edges_not_with(flipped[b], e));
    assert(removed2[b] =~= Seq::<(Nid, E)>::empty());
    assert(removed2.contains_key(a) && removed2[a] =~= Seq::<(Nid, E)>::empty());
    let back = removed2.insert(a, edges_or_empty(removed2, a).push((b, e)));
    assert(back[a] =~= seq![(b, e)]);
    assert(edges_to(back[a], b) =~= seq![e]);
    assert(edges_to(back[b], a) =~= Seq::<E>::empty());
}

} // verus!
