//! Scale-free graphs after Barabási and Albert.

use crate::fbas::NodeId;
use crate::identifiers::range_to;
use crate::sampling::{choose_one, choose_weighted_by_degree, weight_sum};
use crate::simulation::quorum_set_configurators::graph::links::{
    ascending, connects, in_range, lemma_connect, lemma_connect_fresh, lemma_total_links_prefix,
    lemma_total_links_uniform, lemma_weight_sum_bounded, linked, symmetric, total_links,
    without_loops, without_repeats,
};
use crate::simulation::quorum_set_configurators::graph::{mesh_links, Graph};
use vstd::prelude::*;

verus! {

/// Links `a` and `b` in both directions.
fn connect(outlinks: &mut Vec<Vec<NodeId>>, a: NodeId, b: NodeId)
    requires
        a != b,
        a < old(outlinks)@.len(),
        b < old(outlinks)@.len(),
    ensures
        connects(old(outlinks)@, final(outlinks)@, a, b),
{
    outlinks[a].push(b);
    outlinks[b].push(a);
}

/// The entries of `items` other than `node`, in their order.
fn without(items: &Vec<NodeId>, node: NodeId) -> (r: Vec<NodeId>)
    requires
        ascending(items@),
    ensures
        ascending(r@),
        forall|x: NodeId| r@.contains(x) <==> items@.contains(x) && x != node,
        items@.contains(node) ==> r@.len() == items@.len() - 1,
        !items@.contains(node) ==> r@.len() == items@.len(),
{
    let mut result: Vec<NodeId> = Vec::new();
    let mut k: usize = 0;
    while k < items.len()
        invariant
            ascending(items@),
            k <= items@.len(),
            ascending(result@),
            forall|l: int|
                0 <= l < result@.len() ==> exists|o: int|
                    0 <= o < k && items@[o] == #[trigger] result@[l],
            forall|l: int| 0 <= l < result@.len() ==> #[trigger] result@[l] != node,
            forall|o: int|
                0 <= o < k && #[trigger] items@[o] != node ==> result@.contains(items@[o]),
            result@.len() == if exists|o: int| 0 <= o < k && items@[o] == node {
                k - 1
            } else {
                k as int
            },
        decreases items@.len() - k,
    {
        let x = items[k];
        let ghost before = result@;
        if x != node {
            result.push(x);
            proof {
                assert forall|a: int, b: int| 0 <= a < b < result@.len() implies result@[a]
                    < result@[b] by {
                    if b == before.len() {
                        let o = choose|o: int| 0 <= o < k && items@[o] == before[a];
                        assert(items@[o] < items@[k as int]);
                    } else {
                        assert(before[a] < before[b]);
                    }
                }
                assert forall|l: int| 0 <= l < result@.len() implies exists|o: int|
                    0 <= o < k + 1 && items@[o] == #[trigger] result@[l] by {
                    if l < before.len() {
                        let o = choose|o: int| 0 <= o < k && items@[o] == before[l];
                        assert(items@[o] == result@[l]);
                    } else {
                        assert(items@[k as int] == result@[l]);
                    }
                }
                assert forall|o: int| 0 <= o < k + 1 && #[trigger] items@[o] != node implies result@.contains(
                    items@[o],
                ) by {
                    if o < k {
                        assert(before.contains(items@[o]));
                        let l = choose|l: int| 0 <= l < before.len() && before[l] == items@[o];
                        assert(result@[l] == items@[o]);
                    } else {
                        assert(result@[before.len() as int] == items@[o]);
                    }
                }
                if exists|o: int| 0 <= o < k + 1 && items@[o] == node {
                    let o = choose|o: int| 0 <= o < k + 1 && items@[o] == node;
                    assert(o < k);
                }
            }
        } else {
            proof {
                assert(items@[k as int] == node);
                if exists|o: int| 0 <= o < k && items@[o] == node {
                    let o = choose|o: int| 0 <= o < k && items@[o] == node;
                    assert(items@[o] < items@[k as int]);
                }
            }
        }
        k += 1;
    }
    proof {
        assert forall|x: NodeId| result@.contains(x) <==> items@.contains(x) && x != node by {
            if result@.contains(x) {
                let l = choose|l: int| 0 <= l < result@.len() && result@[l] == x;
                let o = choose|o: int| 0 <= o < k && items@[o] == result@[l];
                assert(items@[o] == x);
            }
            if items@.contains(x) && x != node {
                let o = choose|o: int| 0 <= o < items@.len() && items@[o] == x;
                assert(result@.contains(items@[o]));
            }
        }
        if items@.contains(node) {
            let o = choose|o: int| 0 <= o < items@.len() && items@[o] == node;
            assert(0 <= o < k && items@[o] == node);
        }
    }
    result
}

/// The number of links that node `a` of a scale-free graph makes itself: to
/// the other first nodes if it is one of the first `m0`, else to `m` nodes
/// before it. The links that follow these in its list were made by later
/// nodes.
pub open spec fn own_links(a: int, m0: int, m: int) -> int {
    if a < m0 {
        m0 - 1
    } else {
        m
    }
}

/// Whether the links of `row` from position `base` on lead to nodes after
/// `a` that are none of the first `m0`, in ascending order.
pub open spec fn later_links_ascend(row: Seq<NodeId>, base: int, a: int, m0: int) -> bool {
    &&& forall|k: int| base <= k < row.len() ==> #[trigger] row[k] > a && row[k] >= m0
    &&& forall|k: int, l: int| base <= k < l < row.len() ==> row[k] < row[l]
}

/// The length of the list of the first node `a` while the first `m0` nodes
/// are linked each to each, when the links of the nodes below `i` are made
/// and node `i` is linked to the nodes after it below `j`.
pub open spec fn seed_len(m0: int, i: int, j: int, a: int) -> int {
    if a < i {
        m0 - 1
    } else if a == i {
        j - 1
    } else if a < j {
        i + 1
    } else {
        i
    }
}

/// Whether the lists of the first `m0` nodes hold what the links made so far
/// have put there, and the other lists nothing.
pub open spec fn seed_built(outlinks: Seq<Vec<NodeId>>, m0: int, i: int, j: int) -> bool {
    &&& forall|a: int|
        0 <= a < m0 && a < outlinks.len() ==> (#[trigger] outlinks[a])@.len() == seed_len(
            m0,
            i,
            j,
            a,
        )
    &&& forall|a: int, k: int|
        0 <= a < m0 && a < outlinks.len() && 0 <= k < outlinks[a]@.len() ==> (
        #[trigger] outlinks[a]@[k]) == mesh_links(m0 as nat, a)[k]
    &&& forall|a: int| m0 <= a < outlinks.len() ==> (#[trigger] outlinks[a])@.len() == 0
}

/// Whether the lists are those of a scale-free graph in the making, when the
/// nodes below `i` have made their links and node `i` has made `picks` of
/// its own.
pub open spec fn attached(
    outlinks: Seq<Vec<NodeId>>,
    m0: int,
    m: int,
    i: int,
    picks: int,
) -> bool {
    &&& forall|a: int| 0 <= a < m0 ==> (#[trigger] outlinks[a])@.len() >= m0 - 1
    &&& forall|a: int, k: int|
        0 <= a < m0 && 0 <= k < m0 - 1 ==> (#[trigger] outlinks[a]@[k]) == mesh_links(
            m0 as nat,
            a,
        )[k]
    &&& forall|t: int| m0 <= t < i ==> (#[trigger] outlinks[t])@.len() >= m
    &&& forall|t: int, k: int| m0 <= t < i && 0 <= k < m ==> (#[trigger] outlinks[t]@[k]) < t
    &&& forall|a: int|
        0 <= a < i ==> later_links_ascend(
            (#[trigger] outlinks[a])@,
            own_links(a, m0, m),
            a,
            m0,
        )
    &&& i < outlinks.len() ==> outlinks[i]@.len() == picks
    &&& forall|a: int| i < a < outlinks.len() ==> (#[trigger] outlinks[a])@.len() == 0
}

/// One of `targets`, chosen with a chance that is proportional to the number
/// of its links, or with the same chance for each where none of them has a
/// link.
fn choose_target(targets: &Vec<NodeId>, outlinks: &Vec<Vec<NodeId>>) -> (r: NodeId)
    requires
        targets@.len() > 0,
        forall|k: int| 0 <= k < targets@.len() ==> #[trigger] targets@[k] < outlinks@.len(),
        weight_sum(targets@, outlinks@) <= usize::MAX,
    ensures
        targets@.contains(r),
{
    match choose_weighted_by_degree(targets, outlinks) {
        Ok(node) => node,
        Err(_) => match choose_one(targets) {
            Some(node) => node,
            None => targets[0],
        },
    }
}

impl Graph {
    /// A scale-free graph of `n` nodes after Barabási and Albert: the first
    /// `m0` nodes are linked each to each, and every further node is linked to
    /// `m` of the nodes before it, chosen one after the other with a chance
    /// that is proportional to the number of links that a node has by then.
    /// Where none of the nodes to choose from has a link, which is so for the
    /// node that follows a single first node, each of them has the same
    /// chance.
    ///
    /// Each list holds first the links that its node has made itself and
    /// then, in ascending order, those that later nodes have made to it. The
    /// number of links must be a `usize`.
    pub fn new_random_scale_free(n: usize, m0: usize, m: usize) -> (r: Self)
        requires
            0 < m <= m0 <= n,
            m0 * (m0 - 1) + 2 * ((n - m0) * m) <= usize::MAX,
        ensures
            r.outlinks@.len() == n,
            r.wf(),
            r.loop_free(),
            r.undirected(),
            r.simple(),
            r.link_count() == m0 * (m0 - 1) + 2 * ((n - m0) * m),
            r.edge_count() == m0 * (m0 - 1) / 2 + (n - m0) * m,
            forall|a: int, b: int| 0 <= a < m0 && 0 <= b < m0 && a != b ==> r.has_link(a, b),
            forall|i: int| 0 <= i < m0 ==> (#[trigger] r.outlinks@[i])@.len() >= m0 - 1,
            forall|i: int|
                0 <= i < m0 ==> (#[trigger] r.outlinks@[i])@.take(m0 - 1) == mesh_links(
                    m0 as nat,
                    i,
                ),
            forall|i: int| m0 <= i < n ==> (#[trigger] r.outlinks@[i])@.len() >= m,
            forall|i: int, k: int|
                m0 <= i < n && 0 <= k < m ==> (#[trigger] r.outlinks@[i]@[k]) < i,
            forall|i: int|
                0 <= i < n ==> later_links_ascend(
                    (#[trigger] r.outlinks@[i])@,
                    own_links(i, m0 as int, m as int),
                    i,
                    m0 as int,
                ),
    {
        let mut outlinks: Vec<Vec<NodeId>> = Vec::new();
        let mut v: usize = 0;
        while v < n
            invariant
                v <= n,
                outlinks@.len() == v,
                forall|c: int| 0 <= c < v ==> (#[trigger] outlinks@[c])@.len() == 0,
            decreases n - v,
        {
            outlinks.push(Vec::new());
            v += 1;
        }
        proof {
            lemma_total_links_uniform(outlinks@, 0);
        }
        // The first nodes, each linked to each.
        let mut i: usize = 0;
        while i < m0
            invariant
                m0 <= n,
                i <= m0,
                outlinks@.len() == n,
                in_range(outlinks@),
                without_loops(outlinks@),
                symmetric(outlinks@),
                without_repeats(outlinks@),
                total_links(outlinks@) == i * (2 * m0 - i - 1),
                forall|a: int, b: int|
                    0 <= a < i && a < b < m0 ==> linked(outlinks@, a, b) && linked(
                        outlinks@,
                        b,
                        a,
                    ),
                forall|x: int, y: int|
                    linked(outlinks@, x, y) ==> x < m0 && y < m0 && (x < i || y < i),
                seed_built(outlinks@, m0 as int, i as int, i + 1),
            decreases m0 - i,
        {
            let mut j: usize = i + 1;
            while j < m0
                invariant
                    m0 <= n,
                    i < m0,
                    i < j <= m0,
                    outlinks@.len() == n,
                    in_range(outlinks@),
                    without_loops(outlinks@),
                    symmetric(outlinks@),
                    without_repeats(outlinks@),
                    forall|x: int, y: int|
                        linked(outlinks@, x, y) ==> x < m0 && y < m0 && (x < i || y < i || (x == i
                            && y < j) || (y == i && x < j)),
                    total_links(outlinks@) == i * (2 * m0 - i - 1) + 2 * (j - i - 1),
                    forall|a: int, b: int|
                        0 <= a < i && a < b < m0 ==> linked(outlinks@, a, b) && linked(
                            outlinks@,
                            b,
                            a,
                        ),
                    forall|b: int|
                        i < b < j ==> linked(outlinks@, i as int, b) && linked(
                            outlinks@,
                            b,
                            i as int,
                        ),
                    seed_built(outlinks@, m0 as int, i as int, j as int),
                decreases m0 - j,
            {
                let ghost before = outlinks@;
                connect(&mut outlinks, i, j);
                proof {
                    lemma_connect(before, outlinks@, i, j);
                    lemma_connect_fresh(before, outlinks@, i, j);
                    assert(before[i as int]@.len() == j - 1);
                    assert(before[j as int]@.len() == i);
                    assert forall|a: int| 0 <= a < m0 implies (#[trigger] outlinks@[a])@.len()
                        == seed_len(m0 as int, i as int, j + 1, a) by {
                        assert(before[a]@.len() == seed_len(m0 as int, i as int, j as int, a));
                    }
                    assert forall|a: int, k: int|
                        0 <= a < m0 && 0 <= k < outlinks@[a]@.len() implies (
                    #[trigger] outlinks@[a]@[k]) == mesh_links(m0 as nat, a)[k] by {
                        assert(before[a]@.len() == seed_len(m0 as int, i as int, j as int, a));
                        if k < before[a]@.len() {
                            assert(before[a]@[k] == mesh_links(m0 as nat, a)[k]);
                        }
                    }
                    assert forall|a: int| m0 <= a < n implies (#[trigger] outlinks@[a])@.len()
                        == 0 by {
                        assert(before[a]@.len() == 0);
                    }
                }
                j += 1;
            }
            proof {
                assert(i * (2 * m0 - i - 1) + 2 * (m0 - i - 1) == (i + 1) * (2 * m0 - (i + 1) - 1))
                    by (nonlinear_arith);
                assert forall|a: int| 0 <= a < m0 implies (#[trigger] outlinks@[a])@.len()
                    == seed_len(m0 as int, i + 1, i + 2, a) by {
                    assert(outlinks@[a]@.len() == seed_len(m0 as int, i as int, m0 as int, a));
                }
            }
            i += 1;
        }
        proof {
            assert(m0 * (2 * m0 - m0 - 1) == m0 * (m0 - 1)) by (nonlinear_arith);
            assert(2 * ((m0 - m0) * m) == 0) by (nonlinear_arith);
            assert forall|a: int| 0 <= a < m0 implies (#[trigger] outlinks@[a])@.len() >= m0
                - 1 by {
                assert(outlinks@[a]@.len() == seed_len(m0 as int, m0 as int, m0 + 1, a));
            }
            assert forall|a: int|
                0 <= a < m0 implies later_links_ascend(
                (#[trigger] outlinks@[a])@,
                own_links(a, m0 as int, m as int),
                a,
                m0 as int,
            ) by {
                assert(outlinks@[a]@.len() == seed_len(m0 as int, m0 as int, m0 + 1, a));
            }
            assert(attached(outlinks@, m0 as int, m as int, m0 as int, 0));
        }
        // The other nodes, each linked to earlier ones.
        let mut i: usize = m0;
        while i < n
            invariant
                0 < m <= m0 <= n,
                m0 * (m0 - 1) + 2 * ((n - m0) * m) <= usize::MAX,
                m0 <= i <= n,
                outlinks@.len() == n,
                in_range(outlinks@),
                without_loops(outlinks@),
                symmetric(outlinks@),
                without_repeats(outlinks@),
                forall|x: int, y: int| linked(outlinks@, x, y) ==> x < i && y < i,
                total_links(outlinks@) == m0 * (m0 - 1) + 2 * ((i - m0) * m),
                forall|a: int, b: int|
                    0 <= a < m0 && 0 <= b < m0 && a != b ==> linked(outlinks@, a, b),
                attached(outlinks@, m0 as int, m as int, i as int, 0),
            decreases n - i,
        {
            let mut possible_targets: Vec<NodeId> = range_to(i);
            let mut picks: usize = 0;
            while picks < m
                invariant
                    0 < m <= m0 <= n,
                    m0 * (m0 - 1) + 2 * ((n - m0) * m) <= usize::MAX,
                    m0 <= i < n,
                    picks <= m,
                    outlinks@.len() == n,
                    in_range(outlinks@),
                    without_loops(outlinks@),
                    symmetric(outlinks@),
                    without_repeats(outlinks@),
                    forall|x: int, y: int| linked(outlinks@, x, y) ==> x <= i && y <= i,
                    forall|x: NodeId|
                        linked(outlinks@, i as int, x as int) ==> !possible_targets@.contains(x),
                    total_links(outlinks@) == m0 * (m0 - 1) + 2 * ((i - m0) * m) + 2 * picks,
                    forall|a: int, b: int|
                        0 <= a < m0 && 0 <= b < m0 && a != b ==> linked(outlinks@, a, b),
                    attached(outlinks@, m0 as int, m as int, i as int, picks as int),
                    ascending(possible_targets@),
                    forall|k: int|
                        0 <= k < possible_targets@.len() ==> #[trigger] possible_targets@[k] < i,
                    possible_targets@.len() == i - picks,
                decreases m - picks,
            {
                proof {
                    lemma_weight_sum_bounded(possible_targets@, outlinks@, i as int);
                    lemma_total_links_prefix(outlinks@, i as int);
                    assert((i - m0) * m + picks < (n - m0) * m) by (nonlinear_arith)
                        requires
                            m0 <= i < n,
                            picks < m,
                    ;
                }
                let j = choose_target(&possible_targets, &outlinks);
                let ghost before = outlinks@;
                let ghost targets_before = possible_targets@;
                proof {
                    let k = choose|k: int|
                        0 <= k < possible_targets@.len() && possible_targets@[k] == j;
                    assert(possible_targets@[k] < i);
                    if linked(before, j as int, i as int) {
                        let back = choose|back: int|
                            0 <= back < before[j as int]@.len() && #[trigger] before[j as int]@[back]
                                == i;
                        assert(linked(before, before[j as int]@[back] as int, j as int));
                    }
                }
                connect(&mut outlinks, i, j);
                proof {
                    lemma_connect(before, outlinks@, i, j);
                    lemma_connect_fresh(before, outlinks@, i, j);
                    lemma_attach(before, outlinks@, m0 as int, m as int, i, j, picks as int);
                }
                possible_targets = without(&possible_targets, j);
                proof {
                    assert forall|k: int|
                        0 <= k < possible_targets@.len() implies #[trigger] possible_targets@[k]
                        < i by {
                        assert(possible_targets@.contains(possible_targets@[k]));
                    }
                    assert forall|x: NodeId|
                        linked(outlinks@, i as int, x as int) implies !possible_targets@.contains(
                        x,
                    ) by {
                        if x != j {
                            assert(linked(before, i as int, x as int));
                            assert(!targets_before.contains(x));
                        }
                    }
                }
                picks += 1;
            }
            proof {
                assert((i - m0) * m + m == (i + 1 - m0) * m) by (nonlinear_arith);
                lemma_attached_next(outlinks@, m0 as int, m as int, i as int);
            }
            i += 1;
        }
        let r = Self::new(outlinks);
        proof {
            assert forall|a: int| 0 <= a < m0 implies (#[trigger] r.outlinks@[a])@.take(m0 - 1)
                == mesh_links(m0 as nat, a) by {
                assert(r.outlinks@[a]@.len() >= m0 - 1);
                assert forall|k: int| 0 <= k < m0 - 1 implies r.outlinks@[a]@.take(m0 - 1)[k]
                    == mesh_links(m0 as nat, a)[k] by {
                    assert(r.outlinks@[a]@[k] == mesh_links(m0 as nat, a)[k]);
                }
                assert(r.outlinks@[a]@.take(m0 - 1) =~= mesh_links(m0 as nat, a));
            }
        }
        r
    }
}

/// Linking node `i`, which is making its own links, to an earlier node
/// that it is not linked to keeps the lists those of a scale-free graph in
/// the making.
pub proof fn lemma_attach(
    before: Seq<Vec<NodeId>>,
    after: Seq<Vec<NodeId>>,
    m0: int,
    m: int,
    i: NodeId,
    j: NodeId,
    picks: int,
)
    requires
        connects(before, after, i, j),
        in_range(before),
        0 < m <= m0 <= i,
        j < i,
        0 <= picks < m,
        attached(before, m0, m, i as int, picks),
        !linked(before, j as int, i as int),
        forall|x: int, y: int| linked(before, x, y) ==> x <= i && y <= i,
    ensures
        attached(after, m0, m, i as int, picks + 1),
{
    assert forall|a: int, k: int| 0 <= a < before.len() && 0 <= k < before[a]@.len() implies (
    #[trigger] after[a]@[k]) == before[a]@[k] by {}
    assert forall|a: int| 0 <= a < m0 implies (#[trigger] after[a])@.len() >= m0 - 1 by {
        assert(before[a]@.len() >= m0 - 1);
    }
    assert forall|a: int, k: int| 0 <= a < m0 && 0 <= k < m0 - 1 implies (
    #[trigger] after[a]@[k]) == mesh_links(m0 as nat, a)[k] by {
        assert(before[a]@.len() >= m0 - 1);
        assert(before[a]@[k] == mesh_links(m0 as nat, a)[k]);
    }
    assert forall|t: int| m0 <= t < i implies (#[trigger] after[t])@.len() >= m by {
        assert(before[t]@.len() >= m);
    }
    assert forall|t: int, k: int| m0 <= t < i && 0 <= k < m implies (#[trigger] after[t]@[k])
        < t by {
        assert(before[t]@.len() >= m);
        assert(before[t]@[k] < t);
    }
    assert forall|a: int| 0 <= a < i implies later_links_ascend(
        (#[trigger] after[a])@,
        own_links(a, m0, m),
        a,
        m0,
    ) by {
        assert(later_links_ascend(before[a]@, own_links(a, m0, m), a, m0));
        if a == j {
            let row = before[a]@;
            if a < m0 {
                assert(row.len() >= m0 - 1);
            } else {
                assert(row.len() >= m);
            }
            assert forall|k: int| own_links(a, m0, m) <= k < row.len() implies row[k] < i by {
                assert(linked(before, a, row[k] as int));
            }
        }
    }
    assert forall|a: int| i < a < after.len() implies (#[trigger] after[a])@.len() == 0 by {
        assert(before[a]@.len() == 0);
    }
}

/// Once node `i` has made its `m` links, the lists are those from which
/// the next node sets out.
pub proof fn lemma_attached_next(outlinks: Seq<Vec<NodeId>>, m0: int, m: int, i: int)
    requires
        0 < m <= m0 <= i < outlinks.len(),
        in_range(outlinks),
        without_loops(outlinks),
        attached(outlinks, m0, m, i, m),
        forall|x: int, y: int| linked(outlinks, x, y) ==> x <= i && y <= i,
    ensures
        attached(outlinks, m0, m, i + 1, 0),
{
    assert forall|t: int, k: int| m0 <= t < i + 1 && 0 <= k < m implies (
    #[trigger] outlinks[t]@[k]) < t by {
        if t == i {
            assert(linked(outlinks, t, outlinks[t]@[k] as int));
        }
    }
    assert forall|a: int| 0 <= a < i + 1 implies later_links_ascend(
        (#[trigger] outlinks[a])@,
        own_links(a, m0, m),
        a,
        m0,
    ) by {}
}

} // verus!
