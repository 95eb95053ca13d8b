//! Lists of outgoing links, one list for each node: what it means for them
//! to form an undirected graph, and how their counts behave.

use crate::fbas::NodeId;
use crate::identifiers::free_ids;
use crate::permutation::{is_permutation, lemma_rearranged_sum, rearranged, sum};
use crate::sampling::weight_sum;
use vstd::prelude::*;

verus! {

/// The number of links in the lists `outlinks`, all together.
pub open spec fn total_links(outlinks: Seq<Vec<NodeId>>) -> nat
    decreases outlinks.len(),
{
    if outlinks.len() == 0 {
        0
    } else {
        total_links(outlinks.drop_last()) + outlinks.last()@.len()
    }
}

/// How often `node` occurs in `links`.
pub open spec fn occurrences(links: Seq<NodeId>, node: NodeId) -> nat
    decreases links.len(),
{
    if links.len() == 0 {
        0
    } else {
        occurrences(links.drop_last(), node) + if links.last() == node {
            1nat
        } else {
            0nat
        }
    }
}

/// How many links in the lists `outlinks` lead to `node`.
pub open spec fn links_into(outlinks: Seq<Vec<NodeId>>, node: NodeId) -> nat
    decreases outlinks.len(),
{
    if outlinks.len() == 0 {
        0
    } else {
        links_into(outlinks.drop_last(), node) + occurrences(outlinks.last()@, node)
    }
}

/// Whether every link in the lists `outlinks` leads to a node that has a list.
pub open spec fn in_range(outlinks: Seq<Vec<NodeId>>) -> bool {
    forall|i: int, k: int|
        0 <= i < outlinks.len() && 0 <= k < outlinks[i]@.len() ==> (#[trigger] outlinks[i]@[k])
            < outlinks.len()
}

/// Whether the list of node `i` holds a link to node `j`.
pub open spec fn linked(outlinks: Seq<Vec<NodeId>>, i: int, j: int) -> bool {
    &&& 0 <= i < outlinks.len()
    &&& 0 <= j < outlinks.len()
    &&& exists|k: int| 0 <= k < outlinks[i]@.len() && #[trigger] outlinks[i]@[k] == j
}

/// Whether each link in the lists `outlinks` leads to a node whose list holds
/// a link back.
pub open spec fn symmetric(outlinks: Seq<Vec<NodeId>>) -> bool {
    forall|i: int, k: int|
        0 <= i < outlinks.len() && 0 <= k < outlinks[i]@.len() ==> linked(
            outlinks,
            (#[trigger] outlinks[i]@[k]) as int,
            i,
        )
}

/// Whether no list holds a link to its own node.
pub open spec fn without_loops(outlinks: Seq<Vec<NodeId>>) -> bool {
    forall|i: int, k: int|
        0 <= i < outlinks.len() && 0 <= k < outlinks[i]@.len() ==> (#[trigger] outlinks[i]@[k])
            != i
}

/// Whether no list holds a link to the same node twice.
pub open spec fn without_repeats(outlinks: Seq<Vec<NodeId>>) -> bool {
    forall|i: int| 0 <= i < outlinks.len() ==> (#[trigger] outlinks[i])@.no_duplicates()
}

/// Lists of `d` links each hold `d` links for each list.
pub proof fn lemma_total_links_uniform(outlinks: Seq<Vec<NodeId>>, d: nat)
    requires
        forall|i: int| 0 <= i < outlinks.len() ==> (#[trigger] outlinks[i])@.len() == d,
    ensures
        total_links(outlinks) == outlinks.len() * d,
    decreases outlinks.len(),
{
    if outlinks.len() > 0 {
        lemma_total_links_uniform(outlinks.drop_last(), d);
        assert((outlinks.len() - 1) * d + d == outlinks.len() * d) by (nonlinear_arith);
    }
}

/// The first lists hold no more links into a node than all of them.
pub proof fn lemma_links_into_prefix(outlinks: Seq<Vec<NodeId>>, node: NodeId, i: int)
    requires
        0 <= i <= outlinks.len(),
    ensures
        links_into(outlinks.take(i), node) <= links_into(outlinks, node),
    decreases outlinks.len(),
{
    if i < outlinks.len() {
        assert(outlinks.drop_last().take(i) == outlinks.take(i));
        lemma_links_into_prefix(outlinks.drop_last(), node, i);
    } else {
        assert(outlinks.take(i) == outlinks);
    }
}

/// The first links of a list hold no more occurrences of a node than all of
/// them.
pub proof fn lemma_occurrences_prefix(links: Seq<NodeId>, node: NodeId, k: int)
    requires
        0 <= k <= links.len(),
    ensures
        occurrences(links.take(k), node) <= occurrences(links, node),
    decreases links.len(),
{
    if k < links.len() {
        assert(links.drop_last().take(k) == links.take(k));
        lemma_occurrences_prefix(links.drop_last(), node, k);
    } else {
        assert(links.take(k) == links);
    }
}

/// The links `links` with each node replaced by its image under `p`.
pub open spec fn renamed_links(links: Seq<NodeId>, p: Seq<NodeId>) -> Seq<NodeId> {
    Seq::new(links.len(), |k: int| p[links[k] as int])
}

/// Whether `after` is `before` with each node replaced by its image under
/// `p`, as the owner of a list and as the end of a link.
pub open spec fn renamed_by(
    before: Seq<Vec<NodeId>>,
    p: Seq<NodeId>,
    after: Seq<Vec<NodeId>>,
) -> bool {
    &&& after.len() == before.len()
    &&& forall|i: int|
        0 <= i < before.len() ==> after[#[trigger] p[i] as int]@ == renamed_links(before[i]@, p)
}

/// Renaming the nodes by a permutation keeps the links in range; the lists
/// are symmetric, without loops and without repeats after it if and only if
/// they were before.
pub proof fn lemma_renamed_sound(
    before: Seq<Vec<NodeId>>,
    p: Seq<NodeId>,
    after: Seq<Vec<NodeId>>,
)
    requires
        in_range(before),
        is_permutation(p, before.len()),
        renamed_by(before, p, after),
    ensures
        in_range(after),
        symmetric(before) == symmetric(after),
        without_loops(before) == without_loops(after),
        without_repeats(before) == without_repeats(after),
{
    assert forall|a: int, k: int| 0 <= a < after.len() && 0 <= k < after[a]@.len() implies {
        &&& (#[trigger] after[a]@[k]) < after.len()
        &&& symmetric(before) ==> linked(after, after[a]@[k] as int, a)
        &&& without_loops(before) ==> after[a]@[k] != a
    } by {
        assert(p.contains(a as NodeId));
        let i = choose|i: int| 0 <= i < p.len() && p[i] == a as NodeId;
        assert(after[p[i] as int]@ == renamed_links(before[i]@, p));
        let j = before[i]@[k] as int;
        assert(after[a]@[k] == p[j]);
        if symmetric(before) {
            assert(linked(before, j, i));
            let back = choose|back: int|
                0 <= back < before[j]@.len() && #[trigger] before[j]@[back] == i;
            assert(after[p[j] as int]@ == renamed_links(before[j]@, p));
            assert(after[p[j] as int]@[back] == a);
        }
        if without_loops(before) {
            assert(j != i);
            lemma_injective(p, i, j);
        }
    }
    assert forall|i: int, k: int| 0 <= i < before.len() && 0 <= k < before[i]@.len() implies {
        &&& symmetric(after) ==> linked(before, (#[trigger] before[i]@[k]) as int, i)
        &&& without_loops(after) ==> before[i]@[k] != i
    } by {
        let j = before[i]@[k] as int;
        assert(after[p[i] as int]@ == renamed_links(before[i]@, p));
        assert(after[p[i] as int]@[k] == p[j]);
        if symmetric(after) {
            assert(linked(after, after[p[i] as int]@[k] as int, p[i] as int));
            let back = choose|back: int|
                0 <= back < after[p[j] as int]@.len() && #[trigger] after[p[j] as int]@[back]
                    == p[i];
            assert(after[p[j] as int]@ == renamed_links(before[j]@, p));
            let origin = before[j]@[back] as int;
            assert(p[origin] == p[i]);
            if origin != i {
                lemma_injective(p, origin, i);
            }
            assert(before[j]@[back] == i);
        }
    }
    assert forall|i: int| 0 <= i < before.len() implies (#[trigger] before[i])@.no_duplicates()
        == after[p[i] as int]@.no_duplicates() by {
        let row = before[i]@;
        let renamed = after[p[i] as int]@;
        assert(renamed == renamed_links(row, p));
        if row.no_duplicates() {
            assert forall|k: int, l: int|
                0 <= k < renamed.len() && 0 <= l < renamed.len() && k != l implies renamed[k]
                != renamed[l] by {
                assert(before[i]@[k] != before[i]@[l]);
                lemma_injective(p, before[i]@[k] as int, before[i]@[l] as int);
            }
        }
        if renamed.no_duplicates() {
            assert forall|k: int, l: int|
                0 <= k < row.len() && 0 <= l < row.len() && k != l implies row[k] != row[l] by {
                assert(renamed[k] != renamed[l]);
            }
        }
    }
    if without_repeats(before) {
        assert forall|a: int| 0 <= a < after.len() implies (#[trigger] after[a])@.no_duplicates() by {
            assert(p.contains(a as NodeId));
            let i = choose|i: int| 0 <= i < p.len() && p[i] == a as NodeId;
            assert(before[i]@.no_duplicates());
        }
    }
    if without_repeats(after) {
        assert forall|i: int| 0 <= i < before.len() implies (#[trigger] before[i])@.no_duplicates() by {
            assert(after[p[i] as int]@.no_duplicates());
        }
    }
}

/// A permutation takes different identifiers to different images.
pub proof fn lemma_injective(p: Seq<NodeId>, i: int, j: int)
    requires
        is_permutation(p, p.len()),
        0 <= i < p.len(),
        0 <= j < p.len(),
        i != j,
    ensures
        p[i] != p[j],
{
    if i < j {
        assert(p[i] != p[j]);
    } else {
        assert(p[j] != p[i]);
    }
}

/// The number of links to `node` in each of the lists `outlinks`.
pub open spec fn links_to_node(outlinks: Seq<Vec<NodeId>>, node: NodeId) -> Seq<nat> {
    Seq::new(outlinks.len(), |a: int| occurrences(outlinks[a]@, node))
}

/// The number of links into a node is the sum of what the lists hold of
/// them.
pub proof fn lemma_links_into_sum(outlinks: Seq<Vec<NodeId>>, node: NodeId)
    ensures
        links_into(outlinks, node) == sum(links_to_node(outlinks, node)),
    decreases outlinks.len(),
{
    if outlinks.len() > 0 {
        lemma_links_into_sum(outlinks.drop_last(), node);
        assert(links_to_node(outlinks, node).drop_last() =~= links_to_node(
            outlinks.drop_last(),
            node,
        ));
    }
}

/// A renamed list holds the image of a node as often as the list holds the
/// node.
pub proof fn lemma_renamed_occurrences(links: Seq<NodeId>, p: Seq<NodeId>, node: NodeId)
    requires
        is_permutation(p, p.len()),
        node < p.len(),
        forall|k: int| 0 <= k < links.len() ==> #[trigger] links[k] < p.len(),
    ensures
        occurrences(renamed_links(links, p), p[node as int]) == occurrences(links, node),
    decreases links.len(),
{
    if links.len() > 0 {
        assert(renamed_links(links, p).drop_last() =~= renamed_links(links.drop_last(), p));
        assert forall|k: int| 0 <= k < links.drop_last().len() implies #[trigger] links.drop_last()[k]
            < p.len() by {
            assert(links[k] < p.len());
        }
        lemma_renamed_occurrences(links.drop_last(), p, node);
        let last = links.len() - 1;
        assert(links[last] < p.len());
        assert(renamed_links(links, p).last() == p[links[last] as int]);
        if links[last] != node {
            lemma_injective(p, links[last] as int, node as int);
        }
    }
}

/// After the nodes are renamed, as many links lead to the image of a node
/// as led to the node.
pub proof fn lemma_renamed_links_into(
    before: Seq<Vec<NodeId>>,
    p: Seq<NodeId>,
    after: Seq<Vec<NodeId>>,
    node: NodeId,
)
    requires
        in_range(before),
        is_permutation(p, before.len()),
        renamed_by(before, p, after),
        node < before.len(),
    ensures
        links_into(after, p[node as int]) == links_into(before, node),
{
    let image = p[node as int];
    let counts = links_to_node(before, node);
    let renamed_counts = links_to_node(after, image);
    assert forall|i: int| 0 <= i < counts.len() implies renamed_counts[#[trigger] p[i] as int]
        == counts[i] by {
        assert(after[p[i] as int]@ == renamed_links(before[i]@, p));
        assert forall|k: int| 0 <= k < before[i]@.len() implies #[trigger] before[i]@[k]
            < p.len() by {}
        lemma_renamed_occurrences(before[i]@, p, node);
    }
    assert(rearranged(counts, p, renamed_counts));
    lemma_rearranged_sum(counts, p, renamed_counts);
    lemma_links_into_sum(before, node);
    lemma_links_into_sum(after, image);
}

/// Whether the entries of `s` grow from each to the next.
pub open spec fn ascending(s: Seq<NodeId>) -> bool {
    forall|a: int, b: int| 0 <= a < b < s.len() ==> s[a] < s[b]
}

/// Whether `after` is `before` with the lists of `a` and `b` longer by a link
/// to the other.
pub open spec fn connects(
    before: Seq<Vec<NodeId>>,
    after: Seq<Vec<NodeId>>,
    a: NodeId,
    b: NodeId,
) -> bool {
    &&& a != b
    &&& a < before.len()
    &&& b < before.len()
    &&& after.len() == before.len()
    &&& after[a as int]@ == before[a as int]@.push(b)
    &&& after[b as int]@ == before[b as int]@.push(a)
    &&& forall|c: int| 0 <= c < before.len() && c != a && c != b ==> after[c] == before[c]
}

/// Lists that differ in length at one position only differ in their total
/// by as much.
pub proof fn lemma_total_links_delta(
    before: Seq<Vec<NodeId>>,
    after: Seq<Vec<NodeId>>,
    a: int,
    d: int,
)
    requires
        after.len() == before.len(),
        forall|c: int|
            0 <= c < before.len() && c != a ==> (#[trigger] after[c])@.len() == before[c]@.len(),
        0 <= a < before.len() ==> after[a]@.len() == before[a]@.len() + d,
    ensures
        total_links(after) == total_links(before) + if 0 <= a < before.len() {
            d
        } else {
            0
        },
    decreases before.len(),
{
    if before.len() > 0 {
        let last = before.len() - 1;
        assert forall|c: int| 0 <= c < last && c != a implies (#[trigger] after.drop_last()[c])@.len()
            == before.drop_last()[c]@.len() by {
            assert(after[c]@.len() == before[c]@.len());
        }
        lemma_total_links_delta(before.drop_last(), after.drop_last(), a, d);
        if a != last {
            assert(after[last]@.len() == before[last]@.len());
        }
    }
}

/// The first lists hold no more links than all of them.
pub proof fn lemma_total_links_prefix(outlinks: Seq<Vec<NodeId>>, i: int)
    requires
        0 <= i <= outlinks.len(),
    ensures
        total_links(outlinks.take(i)) <= total_links(outlinks),
    decreases outlinks.len(),
{
    if i < outlinks.len() {
        assert(outlinks.drop_last().take(i) == outlinks.take(i));
        lemma_total_links_prefix(outlinks.drop_last(), i);
    } else {
        assert(outlinks.take(i) == outlinks);
    }
}

/// Different nodes below `limit` have no more links together than the first
/// `limit` lists hold.
pub proof fn lemma_weight_sum_bounded(
    targets: Seq<NodeId>,
    outlinks: Seq<Vec<NodeId>>,
    limit: int,
)
    requires
        ascending(targets),
        0 <= limit <= outlinks.len(),
        forall|k: int| 0 <= k < targets.len() ==> #[trigger] targets[k] < limit,
    ensures
        weight_sum(targets, outlinks) <= total_links(outlinks.take(limit)),
    decreases targets.len(),
{
    if targets.len() > 0 {
        let t = targets.last() as int;
        assert(targets[targets.len() - 1] < limit);
        assert forall|k: int| 0 <= k < targets.drop_last().len() implies #[trigger] targets.drop_last()[k]
            < t by {
            assert(targets[k] < targets[targets.len() - 1]);
        }
        lemma_weight_sum_bounded(targets.drop_last(), outlinks, t);
        assert(outlinks.take(t + 1).drop_last() == outlinks.take(t));
        assert(outlinks.take(t + 1).last() == outlinks[t]);
        assert(outlinks.take(limit).take(t + 1) == outlinks.take(t + 1));
        lemma_total_links_prefix(outlinks.take(limit), t + 1);
    }
}

/// Linking two different nodes adds two links, keeps every link that was
/// there, and keeps the lists in range, free of loops and symmetric.
pub proof fn lemma_connect(
    before: Seq<Vec<NodeId>>,
    after: Seq<Vec<NodeId>>,
    a: NodeId,
    b: NodeId,
)
    requires
        connects(before, after, a, b),
        in_range(before),
        without_loops(before),
        symmetric(before),
    ensures
        in_range(after),
        without_loops(after),
        symmetric(after),
        total_links(after) == total_links(before) + 2,
        linked(after, a as int, b as int),
        linked(after, b as int, a as int),
        forall|i: int, j: int| linked(before, i, j) ==> linked(after, i, j),
        forall|c: int| 0 <= c < before.len() ==> (#[trigger] after[c])@.len() >= before[c]@.len(),
{
    let middle = before.update(a as int, after[a as int]);
    lemma_total_links_delta(before, middle, a as int, 1);
    lemma_total_links_delta(middle, after, b as int, 1);
    assert forall|c: int, k: int| 0 <= c < before.len() && 0 <= k < before[c]@.len() implies (
    #[trigger] after[c]@[k]) == before[c]@[k] && k < after[c]@.len() by {}
    assert forall|i: int, j: int| linked(before, i, j) implies linked(after, i, j) by {
        let k = choose|k: int| 0 <= k < before[i]@.len() && #[trigger] before[i]@[k] == j;
        assert(after[i]@[k] == j);
    }
    assert(after[a as int]@[before[a as int]@.len() as int] == b);
    assert(after[b as int]@[before[b as int]@.len() as int] == a);
    assert forall|c: int, k: int| 0 <= c < after.len() && 0 <= k < after[c]@.len() implies {
        &&& (#[trigger] after[c]@[k]) < after.len()
        &&& after[c]@[k] != c
        &&& linked(after, after[c]@[k] as int, c)
    } by {
        if k < before[c]@.len() {
            assert(after[c]@[k] == before[c]@[k]);
            assert(linked(before, before[c]@[k] as int, c));
        }
    }
}

/// A list without repeats holds a node once or not at all.
pub proof fn lemma_occurrences_simple(links: Seq<NodeId>, node: NodeId)
    requires
        links.no_duplicates(),
    ensures
        occurrences(links, node) == if links.contains(node) {
            1nat
        } else {
            0nat
        },
    decreases links.len(),
{
    if links.len() > 0 {
        let fewer = links.drop_last();
        lemma_occurrences_simple(fewer, node);
        if fewer.contains(node) {
            let k = choose|k: int| 0 <= k < fewer.len() && fewer[k] == node;
            assert(links[k] == node);
            assert(links.last() != node);
        }
        if links.contains(node) && links.last() != node {
            let k = choose|k: int| 0 <= k < links.len() && links[k] == node;
            assert(fewer[k] == node);
        }
        if links.last() == node {
            assert(links[links.len() - 1] == node);
        }
    }
}

/// In symmetric lists without repeats, the first `upto` nodes either have a
/// link to `node` or are free of its links.
pub proof fn lemma_links_into_counts(outlinks: Seq<Vec<NodeId>>, node: NodeId, upto: int)
    requires
        outlinks.len() <= usize::MAX,
        in_range(outlinks),
        symmetric(outlinks),
        without_repeats(outlinks),
        node < outlinks.len(),
        0 <= upto <= outlinks.len(),
    ensures
        links_into(outlinks.take(upto), node) + free_ids(outlinks[node as int]@, upto as nat).len()
            == upto,
    decreases upto,
{
    let own = outlinks[node as int]@;
    if upto == 0 {
        assert(outlinks.take(0) =~= Seq::<Vec<NodeId>>::empty());
    } else {
        let a = upto - 1;
        lemma_links_into_counts(outlinks, node, a);
        assert(outlinks.take(upto).drop_last() == outlinks.take(a));
        assert(outlinks.take(upto).last() == outlinks[a]);
        lemma_occurrences_simple(outlinks[a]@, node);
        if outlinks[a]@.contains(node) {
            let k = choose|k: int| 0 <= k < outlinks[a]@.len() && outlinks[a]@[k] == node;
            assert(linked(outlinks, outlinks[a]@[k] as int, a));
            let back = choose|back: int| 0 <= back < own.len() && #[trigger] own[back] == a;
            assert(own.contains(a as NodeId));
        }
        if own.contains(a as NodeId) {
            let k = choose|k: int| 0 <= k < own.len() && own[k] == a as NodeId;
            assert(linked(outlinks, outlinks[node as int]@[k] as int, node as int));
            let back = choose|back: int|
                0 <= back < outlinks[a]@.len() && #[trigger] outlinks[a]@[back] == node;
            assert(outlinks[a]@.contains(node));
        }
    }
}

/// A list whose entries grow from each to the next holds none twice.
pub proof fn lemma_ascending_simple(links: Seq<NodeId>)
    requires
        ascending(links),
    ensures
        links.no_duplicates(),
{
    assert forall|i: int, j: int| 0 <= i < links.len() && 0 <= j < links.len() && i != j implies links[i]
        != links[j] by {
        if i < j {
            assert(links[i] < links[j]);
        } else {
            assert(links[j] < links[i]);
        }
    }
}

/// Linking two nodes that were not linked adds no other link and repeats
/// none.
pub proof fn lemma_connect_fresh(
    before: Seq<Vec<NodeId>>,
    after: Seq<Vec<NodeId>>,
    a: NodeId,
    b: NodeId,
)
    requires
        connects(before, after, a, b),
        without_repeats(before),
        !linked(before, a as int, b as int),
        !linked(before, b as int, a as int),
    ensures
        without_repeats(after),
        forall|x: int, y: int|
            linked(after, x, y) ==> linked(before, x, y) || (x == a && y == b) || (x == b && y == a),
{
    assert forall|x: int, y: int| linked(after, x, y) implies linked(before, x, y) || (x == a && y
        == b) || (x == b && y == a) by {
        let k = choose|k: int| 0 <= k < after[x]@.len() && #[trigger] after[x]@[k] == y;
        if k < before[x]@.len() {
            assert(before[x]@[k] == y);
        }
    }
    assert forall|c: int| 0 <= c < after.len() implies (#[trigger] after[c])@.no_duplicates() by {
        assert(before[c]@.no_duplicates());
        if c == a || c == b {
            let other = if c == a {
                b
            } else {
                a
            };
            assert forall|k: int, l: int|
                0 <= k < after[c]@.len() && 0 <= l < after[c]@.len() && k != l implies after[c]@[k]
                != after[c]@[l] by {
                let len = before[c]@.len() as int;
                if k < len && l < len {
                    assert(before[c]@[k] != before[c]@[l]);
                } else if k < len {
                    assert(before[c]@[k] == after[c]@[k]);
                    assert(before[c]@[k] != other);
                } else {
                    assert(before[c]@[l] == after[c]@[l]);
                    assert(before[c]@[l] != other);
                }
            }
        }
    }
}

} // verus!
