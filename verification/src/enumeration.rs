//! The mathematics behind the enumeration of minimal quorums: the order in
//! which node sets are listed, the depth-first search as a function, and what
//! the search is known to find.

use crate::fbas::{Fbas, NodeId};
use crate::node_set::members;
use crate::permutation::{is_permutation, rearranged};
use bit_set::BitSet;
use vstd::prelude::*;
use vstd::set_lib::{full_set_properties, lemma_set_subset_finite};

verus! {

/// The member sets of a list of node sets, one for one.
pub open spec fn set_views(v: Seq<BitSet>) -> Seq<Set<NodeId>> {
    Seq::new(v.len(), |i: int| members(v[i]))
}

/// `a` holds the least identifier that lies in exactly one of `a` and `b`.
/// For sets of equal size this is the lexicographic order of their members
/// listed in ascending order.
pub open spec fn lex_before(a: Set<NodeId>, b: Set<NodeId>) -> bool {
    exists|c: NodeId|
        #![trigger a.contains(c)]
        a.contains(c) && !b.contains(c) && forall|d: NodeId|
            d < c ==> (a.contains(d) <==> b.contains(d))
}

/// The order of a list of minimal quorums: smaller sets first, and sets of
/// equal size in lexicographic order.
pub open spec fn precedes(a: Set<NodeId>, b: Set<NodeId>) -> bool {
    a.len() < b.len() || (a.len() == b.len() && lex_before(a, b))
}

/// Whether the set at position `a` comes before the set at position `b` when
/// the list is sorted by size and sets of equal size keep their order.
pub open spec fn ranked_before(sets: Seq<Set<NodeId>>, a: int, b: int) -> bool {
    sets[a].len() < sets[b].len() || (sets[a].len() == sets[b].len() && a < b)
}

/// Whether no set that ranks before the one at position `k` is a subset of
/// it.
pub open spec fn is_kept(sets: Seq<Set<NodeId>>, k: int) -> bool {
    forall|j: int|
        0 <= j < sets.len() && #[trigger] ranked_before(sets, j, k) ==> !sets[j].subset_of(sets[k])
}

/// Whether `kept` lists, in the order of their rank, exactly those sets of
/// `sets` of which no subset ranks before them; `src` gives their positions
/// in `sets`.
pub open spec fn selects_minimal(
    sets: Seq<Set<NodeId>>,
    src: Seq<int>,
    kept: Seq<Set<NodeId>>,
) -> bool {
    &&& src.len() == kept.len()
    &&& forall|i: int|
        0 <= i < src.len() ==> 0 <= #[trigger] src[i] < sets.len() && kept[i] == sets[src[i]]
    &&& forall|i: int, j: int|
        0 <= i < j < src.len() ==> ranked_before(sets, #[trigger] src[i], #[trigger] src[j])
    &&& forall|k: int| 0 <= k < sets.len() ==> (src.contains(k) <==> #[trigger] is_kept(sets, k))
}

/// Whether `list` holds the minimal quorums of `fbas`: each of them, nothing
/// else, smaller sets first and sets of equal size in lexicographic order, so
/// that none stands in it twice.
pub open spec fn lists_minimal_quorums(fbas: Fbas, list: Seq<Set<NodeId>>) -> bool {
    &&& forall|i: int| 0 <= i < list.len() ==> fbas.is_minimal_quorum(#[trigger] list[i])
    &&& forall|s: Set<NodeId>| #[trigger] fbas.is_minimal_quorum(s) ==> list.contains(s)
    &&& forall|i: int, j: int|
        0 <= i < j < list.len() ==> precedes(#[trigger] list[i], #[trigger] list[j])
}

/// Whether any two sets at different positions of `sets` have a member in
/// common.
pub open spec fn all_intersect(sets: Seq<Set<NodeId>>) -> bool {
    forall|i: int, j: int|
        0 <= i < j < sets.len() ==> !(#[trigger] sets[i]).disjoint(#[trigger] sets[j])
}

/// What the depth-first search emits from the state in which the nodes below
/// `k` have been decided and `sel` holds those that were taken: `sel` itself
/// if it is a quorum, else what follows from taking node `k` and then what
/// follows from leaving it out.
pub open spec fn search(fbas: Fbas, k: nat, sel: Set<NodeId>) -> Seq<Set<NodeId>>
    decreases fbas.nodes@.len() - k,
{
    if fbas.forms_quorum(sel) {
        seq![sel]
    } else if k < fbas.nodes@.len() {
        search(fbas, k + 1, sel.insert(k as NodeId)) + search(fbas, k + 1, sel)
    } else {
        Seq::empty()
    }
}

/// A system has no more nodes than identifiers exist.
pub proof fn lemma_node_count_bounded(fbas: Fbas)
    ensures
        fbas.nodes@.len() <= usize::MAX,
{
    assert(fbas.nodes.len() == fbas.nodes@.len());
}

/// Every set of node identifiers is finite.
pub proof fn lemma_node_set_finite(s: Set<NodeId>)
    ensures
        s.finite(),
{
    broadcast use full_set_properties;

    assert(Set::<NodeId>::full().finite());
    assert(s.subset_of(Set::<NodeId>::full()));
    lemma_set_subset_finite(Set::<NodeId>::full(), s);
}

/// Each set that the search emits is a quorum that extends the selection by
/// nodes that were still undecided.
pub proof fn lemma_search_elements(fbas: Fbas, k: nat, sel: Set<NodeId>)
    requires
        k <= fbas.nodes@.len(),
    ensures
        forall|i: int|
            0 <= i < search(fbas, k, sel).len() ==> {
                let e = #[trigger] search(fbas, k, sel)[i];
                &&& fbas.forms_quorum(e)
                &&& sel.subset_of(e)
                &&& forall|x: NodeId| e.contains(x) ==> sel.contains(x) || x >= k
            },
    decreases fbas.nodes@.len() - k,
{
    if fbas.forms_quorum(sel) {
    } else if k < fbas.nodes@.len() {
        lemma_node_count_bounded(fbas);
        let with = search(fbas, k + 1, sel.insert(k as NodeId));
        let without = search(fbas, k + 1, sel);
        lemma_search_elements(fbas, k + 1, sel.insert(k as NodeId));
        lemma_search_elements(fbas, k + 1, sel);
        assert forall|i: int| 0 <= i < search(fbas, k, sel).len() implies {
            let e = #[trigger] search(fbas, k, sel)[i];
            &&& fbas.forms_quorum(e)
            &&& sel.subset_of(e)
            &&& forall|x: NodeId| e.contains(x) ==> sel.contains(x) || x >= k
        } by {
            if i < with.len() {
                assert(search(fbas, k, sel)[i] == with[i]);
            } else {
                assert(search(fbas, k, sel)[i] == without[i - with.len()]);
            }
        }
    }
}

/// The search emits its sets in lexicographic order, so none of them twice.
pub proof fn lemma_search_ordered(fbas: Fbas, k: nat, sel: Set<NodeId>)
    requires
        k <= fbas.nodes@.len(),
        forall|x: NodeId| sel.contains(x) ==> x < k,
    ensures
        forall|a: int, b: int|
            0 <= a < b < search(fbas, k, sel).len() ==> lex_before(
                #[trigger] search(fbas, k, sel)[a],
                #[trigger] search(fbas, k, sel)[b],
            ),
    decreases fbas.nodes@.len() - k,
{
    if fbas.forms_quorum(sel) {
    } else if k < fbas.nodes@.len() {
        lemma_node_count_bounded(fbas);
        let node = k as NodeId;
        let with = search(fbas, k + 1, sel.insert(node));
        let without = search(fbas, k + 1, sel);
        lemma_search_ordered(fbas, k + 1, sel.insert(node));
        lemma_search_ordered(fbas, k + 1, sel);
        lemma_search_elements(fbas, k + 1, sel.insert(node));
        lemma_search_elements(fbas, k + 1, sel);
        assert forall|a: int, b: int| 0 <= a < b < search(fbas, k, sel).len() implies lex_before(
            #[trigger] search(fbas, k, sel)[a],
            #[trigger] search(fbas, k, sel)[b],
        ) by {
            let x = search(fbas, k, sel)[a];
            let y = search(fbas, k, sel)[b];
            if b < with.len() {
                assert(x == with[a] && y == with[b]);
            } else if a >= with.len() {
                assert(x == without[a - with.len()] && y == without[b - with.len()]);
            } else {
                assert(x == with[a] && y == without[b - with.len()]);
                assert(sel.insert(node).contains(node));
                assert(x.contains(node));
                assert(!y.contains(node));
                assert forall|d: NodeId| d < node implies (x.contains(d) <==> y.contains(d)) by {
                    if x.contains(d) {
                        assert(sel.insert(node).contains(d));
                        assert(sel.contains(d));
                    }
                    if y.contains(d) {
                        assert(sel.contains(d));
                        assert(sel.insert(node).contains(d));
                    }
                }
            }
        }
    }
}

/// The search emits every minimal quorum that agrees with the selection on
/// the nodes already decided. The result is a position at which it stands.
pub proof fn lemma_search_finds_minimal(
    fbas: Fbas,
    k: nat,
    sel: Set<NodeId>,
    m: Set<NodeId>,
) -> (i: int)
    requires
        k <= fbas.nodes@.len(),
        fbas.is_minimal_quorum(m),
        forall|x: NodeId| sel.contains(x) <==> (m.contains(x) && x < k),
    ensures
        0 <= i < search(fbas, k, sel).len(),
        search(fbas, k, sel)[i] == m,
    decreases fbas.nodes@.len() - k,
{
    if fbas.forms_quorum(sel) {
        assert(sel.subset_of(m));
        assert(sel =~= m);
        0
    } else if k < fbas.nodes@.len() {
        lemma_node_count_bounded(fbas);
        let node = k as NodeId;
        let with = search(fbas, k + 1, sel.insert(node));
        if m.contains(node) {
            lemma_search_finds_minimal(fbas, k + 1, sel.insert(node), m)
        } else {
            let i = lemma_search_finds_minimal(fbas, k + 1, sel, m);
            with.len() + i
        }
    } else {
        assert forall|x: NodeId| m.contains(x) implies sel.contains(x) by {
            assert(fbas.is_witness(x, m));
        }
        assert(sel =~= m);
        0
    }
}

/// Every quorum has a subset that is a minimal quorum.
pub proof fn lemma_quorum_has_minimal_subset(fbas: Fbas, q: Set<NodeId>) -> (m: Set<NodeId>)
    requires
        fbas.forms_quorum(q),
    ensures
        fbas.is_minimal_quorum(m),
        m.subset_of(q),
    decreases q.len(),
{
    if fbas.is_minimal_quorum(q) {
        q
    } else {
        let t = choose|t: Set<NodeId>| t.subset_of(q) && #[trigger] fbas.forms_quorum(t) && !(t =~= q);
        lemma_proper_subset_smaller(t, q);
        lemma_quorum_has_minimal_subset(fbas, t)
    }
}

/// A proper subset of a node set has fewer members.
pub proof fn lemma_proper_subset_smaller(t: Set<NodeId>, q: Set<NodeId>)
    requires
        t.subset_of(q),
        !(t =~= q),
    ensures
        t.len() < q.len(),
{
    lemma_node_set_finite(q);
    let x = choose|x: NodeId| q.contains(x) && !t.contains(x);
    t.lemma_subset_not_in_lt(q, x);
}

/// Whether the walk over the sets in order of rank, now at the sets of size
/// `c` and there at position `k`, has passed position `j`.
pub open spec fn walked(sizes: Seq<usize>, c: int, k: int, j: int) -> bool {
    sizes[j] < c || (sizes[j] == c && j < k)
}

/// Whether `sizes` holds the size of each of `sets`.
pub open spec fn sizes_of(sets: Seq<Set<NodeId>>, sizes: Seq<usize>) -> bool {
    &&& sizes.len() == sets.len()
    &&& forall|j: int| 0 <= j < sets.len() ==> #[trigger] sizes[j] == sets[j].len()
}

/// What holds of the sets kept so far while the walk stands at size `c` and
/// position `k`.
pub open spec fn walk_inv(
    sets: Seq<Set<NodeId>>,
    sizes: Seq<usize>,
    src: Seq<int>,
    kept: Seq<Set<NodeId>>,
    c: int,
    k: int,
) -> bool {
    &&& sizes_of(sets, sizes)
    &&& src.len() == kept.len()
    &&& forall|i: int|
        0 <= i < src.len() ==> {
            &&& 0 <= #[trigger] src[i] < sets.len()
            &&& kept[i] == sets[src[i]]
            &&& walked(sizes, c, k, src[i])
        }
    &&& forall|i: int, j: int|
        0 <= i < j < src.len() ==> ranked_before(sets, #[trigger] src[i], #[trigger] src[j])
    &&& forall|j: int|
        0 <= j < sets.len() && #[trigger] walked(sizes, c, k, j) ==> (src.contains(j) <==> is_kept(
            sets,
            j,
        ))
    &&& forall|j: int|
        0 <= j < sets.len() && #[trigger] walked(sizes, c, k, j) ==> exists|i: int|
            0 <= i < src.len() && (#[trigger] kept[i]).subset_of(sets[j])
}

/// The walk passes a set of another size.
pub proof fn lemma_walk_skip(
    sets: Seq<Set<NodeId>>,
    sizes: Seq<usize>,
    src: Seq<int>,
    kept: Seq<Set<NodeId>>,
    c: int,
    k: int,
)
    requires
        walk_inv(sets, sizes, src, kept, c, k),
        0 <= k < sets.len(),
        sizes[k] != c,
    ensures
        walk_inv(sets, sizes, src, kept, c, k + 1),
{
    assert forall|j: int| 0 <= j < sets.len() implies (walked(sizes, c, k + 1, j) <==> walked(
        sizes,
        c,
        k,
        j,
    )) by {}
    assert forall|i: int| 0 <= i < src.len() implies walked(sizes, c, k + 1, #[trigger] src[i]) by {
        assert(walked(sizes, c, k, src[i]));
    }
    assert forall|j: int| 0 <= j < sets.len() && #[trigger] walked(sizes, c, k + 1, j) implies (
    src.contains(j) <==> is_kept(sets, j)) && exists|i: int|
        0 <= i < src.len() && (#[trigger] kept[i]).subset_of(sets[j]) by {
        assert(walked(sizes, c, k, j));
    }
}

/// The walk moves on to the sets of the next size.
pub proof fn lemma_walk_next_size(
    sets: Seq<Set<NodeId>>,
    sizes: Seq<usize>,
    src: Seq<int>,
    kept: Seq<Set<NodeId>>,
    c: int,
)
    requires
        walk_inv(sets, sizes, src, kept, c, sets.len() as int),
    ensures
        walk_inv(sets, sizes, src, kept, c + 1, 0),
{
    let n = sets.len() as int;
    assert forall|i: int| 0 <= i < src.len() implies walked(sizes, c + 1, 0, #[trigger] src[i]) by {
        assert(walked(sizes, c, n, src[i]));
    }
    assert forall|j: int| 0 <= j < sets.len() && #[trigger] walked(sizes, c + 1, 0, j) implies (
    src.contains(j) <==> is_kept(sets, j)) && exists|i: int|
        0 <= i < src.len() && (#[trigger] kept[i]).subset_of(sets[j]) by {
        assert(walked(sizes, c, n, j));
    }
}

/// The walk drops a set of which a kept set is a subset.
pub proof fn lemma_walk_drop(
    sets: Seq<Set<NodeId>>,
    sizes: Seq<usize>,
    src: Seq<int>,
    kept: Seq<Set<NodeId>>,
    c: int,
    k: int,
)
    requires
        walk_inv(sets, sizes, src, kept, c, k),
        0 <= k < sets.len(),
        sizes[k] == c,
        exists|i: int| 0 <= i < kept.len() && (#[trigger] kept[i]).subset_of(sets[k]),
    ensures
        walk_inv(sets, sizes, src, kept, c, k + 1),
{
    let w = choose|i: int| 0 <= i < kept.len() && (#[trigger] kept[i]).subset_of(sets[k]);
    assert(walked(sizes, c, k, src[w]));
    assert(ranked_before(sets, src[w], k));
    assert(!is_kept(sets, k));
    assert forall|i: int| 0 <= i < src.len() implies walked(sizes, c, k + 1, #[trigger] src[i])
        && src[i] != k by {
        assert(walked(sizes, c, k, src[i]));
    }
    assert(!src.contains(k));
    assert forall|j: int| 0 <= j < sets.len() && #[trigger] walked(sizes, c, k + 1, j) implies (
    src.contains(j) <==> is_kept(sets, j)) && exists|i: int|
        0 <= i < src.len() && (#[trigger] kept[i]).subset_of(sets[j]) by {
        if j != k {
            assert(walked(sizes, c, k, j));
        } else {
            assert(kept[w].subset_of(sets[j]));
        }
    }
}

/// The walk keeps a set of which no kept set is a subset.
pub proof fn lemma_walk_keep(
    sets: Seq<Set<NodeId>>,
    sizes: Seq<usize>,
    src: Seq<int>,
    kept: Seq<Set<NodeId>>,
    c: int,
    k: int,
)
    requires
        walk_inv(sets, sizes, src, kept, c, k),
        0 <= k < sets.len(),
        sizes[k] == c,
        forall|i: int| 0 <= i < kept.len() ==> !(#[trigger] kept[i]).subset_of(sets[k]),
    ensures
        walk_inv(sets, sizes, src.push(k), kept.push(sets[k]), c, k + 1),
{
    let src2 = src.push(k);
    let kept2 = kept.push(sets[k]);
    assert forall|j: int| 0 <= j < sets.len() && #[trigger] ranked_before(sets, j, k) implies !sets[j].subset_of(
        sets[k],
    ) by {
        assert(walked(sizes, c, k, j));
        let i = choose|i: int| 0 <= i < src.len() && (#[trigger] kept[i]).subset_of(sets[j]);
        assert(!kept[i].subset_of(sets[k]));
    }
    assert(is_kept(sets, k));
    assert forall|i: int| 0 <= i < src2.len() implies {
        &&& 0 <= #[trigger] src2[i] < sets.len()
        &&& kept2[i] == sets[src2[i]]
        &&& walked(sizes, c, k + 1, src2[i])
    } by {
        if i < src.len() {
            assert(src2[i] == src[i]);
            assert(walked(sizes, c, k, src[i]));
        }
    }
    assert forall|i: int, j: int| 0 <= i < j < src2.len() implies ranked_before(
        sets,
        #[trigger] src2[i],
        #[trigger] src2[j],
    ) by {
        assert(src2[i] == src[i]);
        if j < src.len() {
            assert(src2[j] == src[j]);
        } else {
            assert(walked(sizes, c, k, src[i]));
        }
    }
    assert forall|j: int| 0 <= j < sets.len() && #[trigger] walked(sizes, c, k + 1, j) implies (
    src2.contains(j) <==> is_kept(sets, j)) && exists|i: int|
        0 <= i < src2.len() && (#[trigger] kept2[i]).subset_of(sets[j]) by {
        if j != k {
            assert(walked(sizes, c, k, j));
            if src.contains(j) {
                let i = choose|i: int| 0 <= i < src.len() && src[i] == j;
                assert(src2[i] == j);
            }
            if src2.contains(j) {
                let i = choose|i: int| 0 <= i < src2.len() && src2[i] == j;
                assert(src[i] == j);
            }
            let i = choose|i: int| 0 <= i < src.len() && (#[trigger] kept[i]).subset_of(sets[j]);
            assert(kept2[i].subset_of(sets[j]));
        } else {
            assert(src2[src.len() as int] == k);
            assert(kept2[src.len() as int].subset_of(sets[j]));
        }
    }
}

/// Once the walk has passed every size, it has selected the minimal sets.
pub proof fn lemma_walk_done(
    sets: Seq<Set<NodeId>>,
    sizes: Seq<usize>,
    src: Seq<int>,
    kept: Seq<Set<NodeId>>,
    c: int,
)
    requires
        walk_inv(sets, sizes, src, kept, c, 0),
        forall|j: int| 0 <= j < sizes.len() ==> #[trigger] sizes[j] < c,
    ensures
        selects_minimal(sets, src, kept),
{
    assert forall|k: int| 0 <= k < sets.len() implies (src.contains(k) <==> #[trigger] is_kept(
        sets,
        k,
    )) by {
        assert(sizes[k] < c);
        assert(walked(sizes, c, 0, k));
    }
}

/// Two sets of which one comes before the other are different.
pub proof fn lemma_precedes_distinct(a: Set<NodeId>, b: Set<NodeId>)
    requires
        precedes(a, b),
    ensures
        !(a =~= b),
{
    if a.len() == b.len() {
        let c = choose|c: NodeId|
            #![trigger a.contains(c)]
            a.contains(c) && !b.contains(c) && forall|d: NodeId|
                d < c ==> (a.contains(d) <==> b.contains(d));
        assert(a.contains(c) && !b.contains(c));
    }
}

/// Filtering what the search emits from its first state for minimal sets
/// gives the list of the minimal quorums.
pub proof fn lemma_selection_of_search(fbas: Fbas, src: Seq<int>, kept: Seq<Set<NodeId>>)
    requires
        selects_minimal(search(fbas, 0, Set::empty()), src, kept),
    ensures
        lists_minimal_quorums(fbas, kept),
{
    let none = Set::<NodeId>::empty();
    let emitted = search(fbas, 0, none);
    lemma_search_elements(fbas, 0, none);
    lemma_search_ordered(fbas, 0, none);
    assert forall|i: int| 0 <= i < kept.len() implies fbas.is_minimal_quorum(
        #[trigger] kept[i],
    ) by {
        let e = emitted[src[i]];
        assert(src.contains(src[i]));
        assert(is_kept(emitted, src[i]));
        assert forall|t: Set<NodeId>| t.subset_of(e) && #[trigger] fbas.forms_quorum(t) implies t
            =~= e by {
            let m = lemma_quorum_has_minimal_subset(fbas, t);
            let at = lemma_search_finds_minimal(fbas, 0, none, m);
            assert(emitted[at].subset_of(e));
            if !(m =~= e) {
                lemma_proper_subset_smaller(m, e);
                assert(ranked_before(emitted, at, src[i]));
            }
        }
    }
    assert forall|s: Set<NodeId>| #[trigger] fbas.is_minimal_quorum(s) implies kept.contains(s) by {
        let at = lemma_search_finds_minimal(fbas, 0, none, s);
        assert forall|j: int|
            0 <= j < emitted.len() && #[trigger] ranked_before(emitted, j, at) implies !emitted[j].subset_of(
            emitted[at],
        ) by {
            if emitted[j].subset_of(emitted[at]) {
                assert(fbas.forms_quorum(emitted[j]));
                assert(emitted[j] =~= s);
                assert(lex_before(emitted[j], emitted[at]));
                lemma_precedes_distinct(emitted[j], emitted[at]);
            }
        }
        assert(is_kept(emitted, at));
        assert(src.contains(at));
        let i = choose|i: int| 0 <= i < src.len() && src[i] == at;
        assert(kept[i] == s);
    }
    assert forall|i: int, j: int| 0 <= i < j < kept.len() implies precedes(
        #[trigger] kept[i],
        #[trigger] kept[j],
    ) by {
        assert(ranked_before(emitted, src[i], src[j]));
        if emitted[src[i]].len() == emitted[src[j]].len() {
            assert(lex_before(emitted[src[i]], emitted[src[j]]));
        }
    }
}

/// In the list of the minimal quorums no set is a subset of another.
pub proof fn lemma_minimal_quorums_incomparable(fbas: Fbas, list: Seq<Set<NodeId>>)
    requires
        lists_minimal_quorums(fbas, list),
    ensures
        forall|i: int, j: int|
            0 <= i < list.len() && 0 <= j < list.len() && i != j ==> !(#[trigger] list[i]).subset_of(
                #[trigger] list[j],
            ),
{
    assert forall|i: int, j: int|
        0 <= i < list.len() && 0 <= j < list.len() && i != j implies !(#[trigger] list[i]).subset_of(
        #[trigger] list[j],
    ) by {
        if list[i].subset_of(list[j]) {
            assert(fbas.is_minimal_quorum(list[j]));
            assert(fbas.forms_quorum(list[i]));
            assert(list[i] =~= list[j]);
            if i < j {
                lemma_precedes_distinct(list[i], list[j]);
            } else {
                lemma_precedes_distinct(list[j], list[i]);
            }
        }
    }
}

/// Every quorum has a subset in the list of the minimal quorums.
pub proof fn lemma_minimal_quorums_complete(fbas: Fbas, list: Seq<Set<NodeId>>)
    requires
        lists_minimal_quorums(fbas, list),
    ensures
        forall|q: Set<NodeId>| #[trigger]
            fbas.forms_quorum(q) ==> exists|i: int|
                0 <= i < list.len() && (#[trigger] list[i]).subset_of(q),
{
    assert forall|q: Set<NodeId>| #[trigger] fbas.forms_quorum(q) implies exists|i: int|
        0 <= i < list.len() && (#[trigger] list[i]).subset_of(q) by {
        let m = lemma_quorum_has_minimal_subset(fbas, q);
        assert(list.contains(m));
        let i = choose|i: int| 0 <= i < list.len() && list[i] == m;
        assert(list[i].subset_of(q));
    }
}

/// Any two quorums of a system have a node in common if and only if any two
/// of its minimal quorums have.
pub proof fn lemma_intersection_on_minimal_quorums(fbas: Fbas)
    ensures
        fbas.quorums_intersect() == fbas.minimal_quorums_intersect(),
{
    if fbas.minimal_quorums_intersect() {
        assert forall|a: Set<NodeId>, b: Set<NodeId>|
            #![trigger fbas.forms_quorum(a), fbas.forms_quorum(b)]
            fbas.forms_quorum(a) && fbas.forms_quorum(b) implies !a.disjoint(b) by {
            let ma = lemma_quorum_has_minimal_subset(fbas, a);
            let mb = lemma_quorum_has_minimal_subset(fbas, b);
            assert(fbas.is_minimal_quorum(ma) && fbas.is_minimal_quorum(mb));
            assert(!ma.disjoint(mb));
            let x = choose|x: NodeId| ma.contains(x) && mb.contains(x);
            assert(a.contains(x) && b.contains(x));
        }
    }
    if fbas.quorums_intersect() {
        assert forall|a: Set<NodeId>, b: Set<NodeId>|
            #![trigger fbas.is_minimal_quorum(a), fbas.is_minimal_quorum(b)]
            fbas.is_minimal_quorum(a) && fbas.is_minimal_quorum(b) implies !a.disjoint(b) by {
            assert(fbas.forms_quorum(a) && fbas.forms_quorum(b));
        }
    }
}

/// Whether the sets of a list intersect each other does not depend on the
/// order in which they are listed.
pub proof fn lemma_all_intersect_rearranged(
    a: Seq<Set<NodeId>>,
    p: Seq<NodeId>,
    b: Seq<Set<NodeId>>,
)
    requires
        is_permutation(p, a.len()),
        rearranged(a, p, b),
    ensures
        all_intersect(a) == all_intersect(b),
{
    if all_intersect(b) {
        assert forall|i: int, j: int| 0 <= i < j < a.len() implies !(#[trigger] a[i]).disjoint(
            #[trigger] a[j],
        ) by {
            let x = p[i] as int;
            let y = p[j] as int;
            assert(b[x] == a[i] && b[y] == a[j]);
            if x < y {
                assert(!b[x].disjoint(b[y]));
            } else {
                assert(!b[y].disjoint(b[x]));
                let w = choose|w: NodeId| b[y].contains(w) && b[x].contains(w);
                assert(a[i].contains(w) && a[j].contains(w));
            }
        }
    }
    if all_intersect(a) {
        assert forall|x: int, y: int| 0 <= x < y < b.len() implies !(#[trigger] b[x]).disjoint(
            #[trigger] b[y],
        ) by {
            assert(p.contains(x as NodeId));
            assert(p.contains(y as NodeId));
            let i = choose|i: int| 0 <= i < p.len() && p[i] == x as NodeId;
            let j = choose|j: int| 0 <= j < p.len() && p[j] == y as NodeId;
            assert(b[p[i] as int] == a[i] && b[p[j] as int] == a[j]);
            if i < j {
                assert(!a[i].disjoint(a[j]));
            } else {
                assert(!a[j].disjoint(a[i]));
                let w = choose|w: NodeId| a[j].contains(w) && a[i].contains(w);
                assert(b[x].contains(w) && b[y].contains(w));
            }
        }
    }
}

} // verus!
