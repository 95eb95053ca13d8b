//! Graphs over node identifiers, given by the outgoing links of each node.

pub mod links;
pub mod scale_free;
pub mod small_world;

use crate::fbas::NodeId;
use crate::identifiers::{lemma_free_ids_len, range_to};
use crate::permutation::{
    is_permutation, lemma_rearranged_multiset, lemma_shuffled_identity, rearranged,
};
use crate::sampling::shuffle;
use crate::simulation::quorum_set_configurators::graph::links::{
    ascending, in_range, lemma_ascending_simple, lemma_links_into_counts, lemma_links_into_prefix,
    lemma_occurrences_prefix, lemma_renamed_links_into, lemma_renamed_sound,
    lemma_total_links_uniform, linked, links_into, occurrences, renamed_by, renamed_links,
    symmetric, total_links, without_loops, without_repeats,
};
use vstd::prelude::*;

verus! {

/// A graph: for each node the nodes that its outgoing links lead to.
#[derive(Clone, Debug, PartialEq)]
pub struct Graph {
    pub outlinks: Vec<Vec<NodeId>>,
}

/// The links of node `i` in the full mesh of `n` nodes: every other node, in
/// ascending order.
pub open spec fn mesh_links(n: nat, i: int) -> Seq<NodeId> {
    Seq::new(
        (n - 1) as nat,
        |k: int|
            if k < i {
                k as NodeId
            } else {
                (k + 1) as NodeId
            },
    )
}

impl Graph {
    /// Whether every link leads to a node of the graph.
    pub open spec fn wf(self) -> bool {
        in_range(self.outlinks@)
    }

    /// Whether a link leads from `i` to `j`.
    pub open spec fn has_link(self, i: int, j: int) -> bool {
        linked(self.outlinks@, i, j)
    }

    /// Whether each link leads to a node of the graph from which a link
    /// leads back.
    pub open spec fn undirected(self) -> bool {
        symmetric(self.outlinks@)
    }

    /// Whether no node has a link to itself.
    pub open spec fn loop_free(self) -> bool {
        without_loops(self.outlinks@)
    }

    /// Whether no node has two links to the same node.
    pub open spec fn simple(self) -> bool {
        without_repeats(self.outlinks@)
    }

    /// The number of outgoing links of each node.
    pub open spec fn out_degrees(self) -> Seq<usize> {
        Seq::new(self.outlinks@.len(), |i: int| self.outlinks@[i].len())
    }

    /// The number of links into each node.
    pub open spec fn in_degrees(self) -> Seq<nat> {
        Seq::new(self.outlinks@.len(), |i: int| self.in_degree(i as NodeId))
    }

    /// The number of links, each direction counted for itself.
    pub open spec fn link_count(self) -> nat {
        total_links(self.outlinks@)
    }

    /// The number of edges of an undirected graph: half the number of its
    /// links.
    pub open spec fn edge_count(self) -> nat {
        self.link_count() / 2
    }

    /// The number of links that lead to `node`.
    pub open spec fn in_degree(self, node: NodeId) -> nat {
        links_into(self.outlinks@, node)
    }

    /// Whether the number of links into each node is a `usize`.
    pub open spec fn in_degrees_fit(self) -> bool {
        forall|node: NodeId| node < self.outlinks@.len() ==> self.in_degree(node) <= usize::MAX
    }

    /// The graph with the given outgoing links.
    pub fn new(outlinks: Vec<Vec<NodeId>>) -> (r: Self)
        ensures
            r.outlinks == outlinks,
    {
        Graph { outlinks }
    }

    /// The graph of `n` nodes in which every node is linked to every other
    /// node.
    pub fn new_full_mesh(n: usize) -> (r: Self)
        ensures
            r.outlinks@.len() == n,
            forall|i: int| 0 <= i < n ==> (#[trigger] r.outlinks@[i])@ == mesh_links(n as nat, i),
            r.wf(),
            r.loop_free(),
            r.undirected(),
            r.simple(),
            r.link_count() == n * (n - 1),
            r.edge_count() == n * (n - 1) / 2,
    {
        let mut outlinks: Vec<Vec<NodeId>> = Vec::new();
        let mut i: usize = 0;
        while i < n
            invariant
                i <= n,
                outlinks@.len() == i,
                forall|a: int|
                    0 <= a < i ==> (#[trigger] outlinks@[a])@ == mesh_links(n as nat, a),
            decreases n - i,
        {
            let mut links: Vec<NodeId> = Vec::new();
            let mut j: usize = 0;
            while j < n
                invariant
                    i < n,
                    j <= n,
                    links@.len() == if j <= i {
                        j as int
                    } else {
                        j - 1
                    },
                    forall|k: int|
                        0 <= k < links@.len() ==> #[trigger] links@[k] == mesh_links(
                            n as nat,
                            i as int,
                        )[k],
                decreases n - j,
            {
                if j != i {
                    links.push(j);
                }
                j += 1;
            }
            assert(links@ =~= mesh_links(n as nat, i as int));
            outlinks.push(links);
            i += 1;
        }
        let r = Self::new(outlinks);
        proof {
            assert forall|a: int, k: int|
                0 <= a < r.outlinks@.len() && 0 <= k < r.outlinks@[a]@.len() implies r.has_link(
                (#[trigger] r.outlinks@[a]@[k]) as int,
                a,
            ) by {
                assert(r.outlinks@[a]@ == mesh_links(n as nat, a));
                let b = r.outlinks@[a]@[k] as int;
                assert(r.outlinks@[b]@ == mesh_links(n as nat, b));
                let back = if a < b {
                    a
                } else {
                    a - 1
                };
                assert(r.outlinks@[b]@[back] == a);
            }
            assert forall|a: int, k: int|
                0 <= a < r.outlinks@.len() && 0 <= k < r.outlinks@[a]@.len() implies (
            #[trigger] r.outlinks@[a]@[k]) < r.outlinks@.len() && r.outlinks@[a]@[k] != a by {
                assert(r.outlinks@[a]@ == mesh_links(n as nat, a));
            }
            assert forall|a: int| 0 <= a < r.outlinks@.len() implies (
            #[trigger] r.outlinks@[a])@.no_duplicates() by {
                assert(r.outlinks@[a]@ == mesh_links(n as nat, a));
                assert(ascending(r.outlinks@[a]@));
                lemma_ascending_simple(r.outlinks@[a]@);
            }
            if n > 0 {
                assert forall|a: int| 0 <= a < r.outlinks@.len() implies (
                #[trigger] r.outlinks@[a])@.len() == n - 1 by {
                    assert(r.outlinks@[a]@ == mesh_links(n as nat, a));
                }
                lemma_total_links_uniform(r.outlinks@, (n - 1) as nat);
            } else {
                assert(n * (n - 1) == 0) by (nonlinear_arith)
                    requires
                        n == 0,
                ;
            }
        }
        r
    }

    /// The same graph under other identifiers: a permutation of the
    /// identifiers is drawn at random, and the nodes are renamed by it. The
    /// graph keeps the numbers of links into and out of its nodes, and it is
    /// undirected, free of loops or free of repeated links if and only if it
    /// was.
    pub fn shuffled(self) -> (r: Self)
        requires
            self.wf(),
        ensures
            exists|p: Seq<NodeId>|
                is_permutation(p, self.outlinks@.len()) && #[trigger] renamed_by(
                    self.outlinks@,
                    p,
                    r.outlinks@,
                ),
            r.out_degrees().to_multiset() == self.out_degrees().to_multiset(),
            r.in_degrees().to_multiset() == self.in_degrees().to_multiset(),
            r.wf(),
            r.undirected() == self.undirected(),
            r.loop_free() == self.loop_free(),
            r.simple() == self.simple(),
    {
        let n = self.outlinks.len();
        let mut old_to_new: Vec<NodeId> = range_to(n);
        shuffle(&mut old_to_new);
        proof {
            lemma_shuffled_identity(old_to_new@, n as nat);
        }
        self.renamed(&old_to_new)
    }

    /// The same graph under other identifiers: every node moves to its image
    /// under the permutation `old_to_new`, as the owner of its links and as
    /// the end of the links that lead to it.
    pub fn renamed(self, old_to_new: &Vec<NodeId>) -> (r: Self)
        requires
            self.wf(),
            is_permutation(old_to_new@, self.outlinks@.len()),
        ensures
            renamed_by(self.outlinks@, old_to_new@, r.outlinks@),
            forall|node: NodeId|
                node < self.outlinks@.len() ==> r.in_degree(#[trigger] old_to_new@[node as int])
                    == self.in_degree(node),
            r.out_degrees().to_multiset() == self.out_degrees().to_multiset(),
            r.in_degrees().to_multiset() == self.in_degrees().to_multiset(),
            r.wf(),
            r.undirected() == self.undirected(),
            r.loop_free() == self.loop_free(),
            r.simple() == self.simple(),
    {
        let n = self.outlinks.len();
        let mut new_to_old: Vec<NodeId> = Vec::new();
        let mut v: usize = 0;
        while v < n
            invariant
                v <= n,
                new_to_old@.len() == v,
                forall|a: int| 0 <= a < v ==> #[trigger] new_to_old@[a] < n,
            decreases n - v,
        {
            new_to_old.push(0);
            v += 1;
        }
        let mut old: usize = 0;
        while old < n
            invariant
                old <= n,
                is_permutation(old_to_new@, n as nat),
                new_to_old@.len() == n,
                forall|a: int| 0 <= a < n ==> #[trigger] new_to_old@[a] < n,
                forall|o: int| 0 <= o < old ==> new_to_old@[#[trigger] old_to_new@[o] as int] == o,
            decreases n - old,
        {
            let new = old_to_new[old];
            proof {
                assert forall|o: int| 0 <= o < old implies #[trigger] old_to_new@[o] != new by {
                    assert(old_to_new@[o] != old_to_new@[old as int]);
                }
            }
            new_to_old.set(new, old);
            old += 1;
        }
        let mut new_outlinks: Vec<Vec<NodeId>> = Vec::new();
        let mut ni: usize = 0;
        while ni < n
            invariant
                n == self.outlinks@.len(),
                self.wf(),
                ni <= n,
                is_permutation(old_to_new@, n as nat),
                new_to_old@.len() == n,
                forall|a: int| 0 <= a < n ==> #[trigger] new_to_old@[a] < n,
                new_outlinks@.len() == ni,
                forall|a: int|
                    0 <= a < ni ==> (#[trigger] new_outlinks@[a])@ == renamed_links(
                        self.outlinks@[new_to_old@[a] as int]@,
                        old_to_new@,
                    ),
            decreases n - ni,
        {
            let oi = new_to_old[ni];
            let links = &self.outlinks[oi];
            let mut renamed: Vec<NodeId> = Vec::new();
            let mut k: usize = 0;
            while k < links.len()
                invariant
                    n == self.outlinks@.len(),
                    self.wf(),
                    oi < n,
                    links == self.outlinks@[oi as int],
                    is_permutation(old_to_new@, n as nat),
                    k <= links@.len(),
                    renamed@.len() == k,
                    forall|l: int|
                        0 <= l < k ==> #[trigger] renamed@[l] == old_to_new@[links@[l] as int],
                decreases links@.len() - k,
            {
                let oj = links[k];
                assert(oj == self.outlinks@[oi as int]@[k as int]);
                renamed.push(old_to_new[oj]);
                k += 1;
            }
            assert(renamed@ =~= renamed_links(links@, old_to_new@));
            new_outlinks.push(renamed);
            ni += 1;
        }
        let r = Self::new(new_outlinks);
        proof {
            let p = old_to_new@;
            assert(renamed_by(self.outlinks@, p, r.outlinks@));
            lemma_renamed_sound(self.outlinks@, p, r.outlinks@);
            assert(rearranged(self.out_degrees(), p, r.out_degrees())) by {
                assert forall|i: int| 0 <= i < n implies r.out_degrees()[#[trigger] p[i] as int]
                    == self.out_degrees()[i] by {
                    assert(r.outlinks@[p[i] as int]@ == renamed_links(self.outlinks@[i]@, p));
                }
            }
            lemma_rearranged_multiset(self.out_degrees(), p, r.out_degrees());
            assert(rearranged(self.in_degrees(), p, r.in_degrees())) by {
                assert forall|i: int| 0 <= i < n implies r.in_degrees()[#[trigger] p[i] as int]
                    == self.in_degrees()[i] by {
                    lemma_renamed_links_into(self.outlinks@, p, r.outlinks@, i as NodeId);
                }
            }
            lemma_rearranged_multiset(self.in_degrees(), p, r.in_degrees());
            assert forall|node: NodeId| node < self.outlinks@.len() implies r.in_degree(
                #[trigger] old_to_new@[node as int],
            ) == self.in_degree(node) by {
                lemma_renamed_links_into(self.outlinks@, p, r.outlinks@, node);
            }
        }
        r
    }

    /// Whether every link leads to a node of the graph.
    pub fn is_well_formed(&self) -> (r: bool)
        ensures
            r == self.wf(),
    {
        let n = self.outlinks.len();
        let mut i: usize = 0;
        while i < n
            invariant
                n == self.outlinks@.len(),
                i <= n,
                forall|a: int, k: int|
                    0 <= a < i && 0 <= k < self.outlinks@[a]@.len() ==> (
                    #[trigger] self.outlinks@[a]@[k]) < n,
            decreases n - i,
        {
            let links = &self.outlinks[i];
            let mut k: usize = 0;
            while k < links.len()
                invariant
                    n == self.outlinks@.len(),
                    i < n,
                    links == self.outlinks@[i as int],
                    k <= links@.len(),
                    forall|l: int| 0 <= l < k ==> #[trigger] links@[l] < n,
                decreases links@.len() - k,
            {
                if links[k] >= n {
                    assert(!(self.outlinks@[i as int]@[k as int] < n));
                    return false;
                }
                k += 1;
            }
            i += 1;
        }
        true
    }

    /// Whether each link has its counterpart in the other direction.
    pub fn is_undirected(&self) -> (r: bool)
        ensures
            r == self.undirected(),
    {
        let n = self.outlinks.len();
        let mut i: usize = 0;
        while i < n
            invariant
                n == self.outlinks@.len(),
                i <= n,
                forall|a: int, k: int|
                    0 <= a < i && 0 <= k < self.outlinks@[a]@.len() ==> self.has_link(
                        (#[trigger] self.outlinks@[a]@[k]) as int,
                        a,
                    ),
            decreases n - i,
        {
            let cons_i = &self.outlinks[i];
            let mut k: usize = 0;
            while k < cons_i.len()
                invariant
                    n == self.outlinks@.len(),
                    i < n,
                    cons_i == self.outlinks@[i as int],
                    k <= cons_i@.len(),
                    forall|a: int, k: int|
                        0 <= a < i && 0 <= k < self.outlinks@[a]@.len() ==> self.has_link(
                            (#[trigger] self.outlinks@[a]@[k]) as int,
                            a,
                        ),
                    forall|l: int|
                        0 <= l < k ==> self.has_link((#[trigger] cons_i@[l]) as int, i as int),
                decreases cons_i@.len() - k,
            {
                let j = cons_i[k];
                if j >= n || !self.links_to(j, i) {
                    assert(!self.has_link(self.outlinks@[i as int]@[k as int] as int, i as int));
                    return false;
                }
                k += 1;
            }
            i += 1;
        }
        true
    }

    /// Whether one of the links of `from` leads to `to`.
    fn links_to(&self, from: NodeId, to: NodeId) -> (r: bool)
        requires
            from < self.outlinks@.len(),
            to < self.outlinks@.len(),
        ensures
            r == self.has_link(from as int, to as int),
    {
        let cons = &self.outlinks[from];
        let mut k: usize = 0;
        while k < cons.len()
            invariant
                from < self.outlinks@.len(),
                to < self.outlinks@.len(),
                cons == self.outlinks@[from as int],
                k <= cons@.len(),
                forall|l: int| 0 <= l < k ==> #[trigger] cons@[l] != to,
            decreases cons@.len() - k,
        {
            if cons[k] == to {
                assert(self.outlinks@[from as int]@[k as int] == to);
                return true;
            }
            k += 1;
        }
        false
    }

    /// The number of outgoing links of each node.
    pub fn get_out_degrees(&self) -> (r: Vec<usize>)
        ensures
            r@ == self.out_degrees(),
    {
        let mut result: Vec<usize> = Vec::new();
        let mut i: usize = 0;
        while i < self.outlinks.len()
            invariant
                i <= self.outlinks@.len(),
                result@.len() == i,
                forall|j: int| 0 <= j < i ==> #[trigger] result@[j] == self.outlinks@[j]@.len(),
            decreases self.outlinks@.len() - i,
        {
            result.push(self.outlinks[i].len());
            i += 1;
        }
        assert(result@ =~= self.out_degrees());
        result
    }

    /// The number of links into each node, where every link leads to a node
    /// of the graph and each of these numbers is a `usize`; nothing
    /// otherwise.
    pub fn checked_in_degrees(&self) -> (r: Option<Vec<usize>>)
        ensures
            match r {
                Some(degrees) => {
                    &&& self.wf()
                    &&& self.in_degrees_fit()
                    &&& degrees@.len() == self.outlinks@.len()
                    &&& forall|node: NodeId|
                        node < degrees@.len() ==> degrees@[node as int] == self.in_degree(node)
                },
                None => !(self.wf() && self.in_degrees_fit()),
            },
    {
        let n = self.outlinks.len();
        let mut result: Vec<usize> = Vec::new();
        let mut v: usize = 0;
        while v < n
            invariant
                v <= n,
                result@.len() == v,
                forall|node: int| 0 <= node < v ==> #[trigger] result@[node] == 0,
            decreases n - v,
        {
            result.push(0);
            v += 1;
        }
        let mut i: usize = 0;
        assert(self.outlinks@.take(0) =~= Seq::<Vec<NodeId>>::empty());
        while i < n
            invariant
                n == self.outlinks@.len(),
                i <= n,
                result@.len() == n,
                forall|a: int, k: int|
                    0 <= a < i && 0 <= k < self.outlinks@[a]@.len() ==> (
                    #[trigger] self.outlinks@[a]@[k]) < n,
                forall|node: NodeId|
                    node < n ==> #[trigger] result@[node as int] == links_into(
                        self.outlinks@.take(i as int),
                        node,
                    ),
            decreases n - i,
        {
            let outlink = &self.outlinks[i];
            let mut k: usize = 0;
            assert(outlink@.take(0) =~= Seq::<NodeId>::empty());
            while k < outlink.len()
                invariant
                    n == self.outlinks@.len(),
                    i < n,
                    outlink == self.outlinks@[i as int],
                    k <= outlink@.len(),
                    result@.len() == n,
                    forall|l: int| 0 <= l < k ==> #[trigger] outlink@[l] < n,
                    forall|node: NodeId|
                        node < n ==> #[trigger] result@[node as int] == links_into(
                            self.outlinks@.take(i as int),
                            node,
                        ) + occurrences(outlink@.take(k as int), node),
                decreases outlink@.len() - k,
            {
                let in_node = outlink[k];
                if in_node >= n {
                    assert(!(self.outlinks@[i as int]@[k as int] < n));
                    return None;
                }
                proof {
                    assert(outlink@.take(k + 1).drop_last() == outlink@.take(k as int));
                    assert(self.outlinks@.take(i + 1).drop_last() == self.outlinks@.take(i as int));
                    lemma_occurrences_prefix(outlink@, in_node, k + 1);
                    lemma_links_into_prefix(self.outlinks@, in_node, i + 1);
                    assert(occurrences(outlink@.take(k + 1), in_node) == occurrences(
                        outlink@.take(k as int),
                        in_node,
                    ) + 1);
                    assert(links_into(self.outlinks@.take(i + 1), in_node) == links_into(
                        self.outlinks@.take(i as int),
                        in_node,
                    ) + occurrences(outlink@, in_node));
                }
                match result[in_node].checked_add(1) {
                    Some(count) => {
                        result.set(in_node, count);
                    },
                    None => {
                        assert(self.in_degree(in_node) > usize::MAX);
                        return None;
                    },
                }
                k += 1;
            }
            proof {
                assert(outlink@.take(k as int) == outlink@);
                assert(self.outlinks@.take(i + 1).drop_last() == self.outlinks@.take(i as int));
            }
            i += 1;
        }
        proof {
            assert(self.outlinks@.take(n as int) == self.outlinks@);
            assert(self.wf());
            assert forall|node: NodeId| node < self.outlinks@.len() implies self.in_degree(node)
                <= usize::MAX by {
                assert(result@[node as int] == self.in_degree(node));
            }
        }
        Some(result)
    }

    /// The number of links into each node.
    pub fn get_in_degrees(&self) -> (r: Vec<usize>)
        requires
            self.wf(),
            self.in_degrees_fit(),
        ensures
            r@.len() == self.outlinks@.len(),
            forall|node: NodeId| node < r@.len() ==> r@[node as int] == self.in_degree(node),
            self.undirected() && self.simple() ==> r@ == self.out_degrees(),
    {
        match self.checked_in_degrees() {
            Some(degrees) => {
                proof {
                    if self.undirected() && self.simple() {
                        assert(self.outlinks.len() == self.outlinks@.len());
                        assert forall|i: int| 0 <= i < degrees@.len() implies degrees@[i]
                            == self.out_degrees()[i] by {
                            let node = i as NodeId;
                            self.lemma_degrees_agree(node);
                            assert(degrees@[node as int] == self.in_degree(node));
                        }
                        assert(degrees@ =~= self.out_degrees());
                    }
                }
                degrees
            },
            None => Vec::new(),
        }
    }

    /// In an undirected graph in which no node has two links to the same
    /// node, as many links lead to a node as lead away from it.
    pub proof fn lemma_degrees_agree(self, node: NodeId)
        requires
            self.wf(),
            self.undirected(),
            self.simple(),
            node < self.outlinks@.len(),
        ensures
            self.in_degree(node) == self.outlinks@[node as int]@.len(),
    {
        let n = self.outlinks@.len();
        assert(self.outlinks.len() == n);
        let own = self.outlinks@[node as int]@;
        lemma_links_into_counts(self.outlinks@, node, n as int);
        assert(self.outlinks@.take(n as int) == self.outlinks@);
        assert forall|k: int| 0 <= k < own.len() implies #[trigger] own[k] < n by {
            assert(self.outlinks@[node as int]@[k] < n);
        }
        lemma_free_ids_len(own, n);
    }

    /// In an undirected graph in which no node has two links to the same
    /// node, the number of links into each node is a `usize`.
    pub proof fn lemma_in_degrees_fit(self)
        requires
            self.wf(),
            self.undirected(),
            self.simple(),
        ensures
            self.in_degrees_fit(),
    {
        assert forall|node: NodeId| node < self.outlinks@.len() implies self.in_degree(node)
            <= usize::MAX by {
            self.lemma_degrees_agree(node);
            assert(self.outlinks@[node as int].len() == self.outlinks@[node as int]@.len());
        }
    }
}

} // verus!
