//! Permutations of node identifiers and of positions in a list.

use crate::fbas::NodeId;
use crate::identifiers::identity;
use vstd::prelude::*;
use vstd::seq_lib::{to_multiset_build, to_multiset_contains, to_multiset_len, to_multiset_remove};

verus! {

/// Whether `p` maps the identifiers below `n` one to one onto themselves:
/// `p[i]` is the image of `i`.
pub open spec fn is_permutation(p: Seq<NodeId>, n: nat) -> bool {
    &&& n <= usize::MAX
    &&& p.len() == n
    &&& forall|i: int| 0 <= i < n ==> #[trigger] p[i] < n
    &&& forall|i: int, j: int| 0 <= i < j < n ==> p[i] != p[j]
    &&& forall|j: NodeId| j < n ==> #[trigger] p.contains(j)
}

/// Whether `b` holds the entries of `a`, that of position `i` at position
/// `p[i]`.
pub open spec fn rearranged<T>(a: Seq<T>, p: Seq<NodeId>, b: Seq<T>) -> bool {
    &&& a.len() == p.len()
    &&& b.len() == p.len()
    &&& forall|i: int| 0 <= i < a.len() ==> b[#[trigger] p[i] as int] == a[i]
}

/// A list with the entries of the identifiers below `n`, in whatever order,
/// is a permutation of them.
pub proof fn lemma_shuffled_identity(p: Seq<NodeId>, n: nat)
    requires
        n <= usize::MAX,
        p.to_multiset() == identity(n).to_multiset(),
    ensures
        is_permutation(p, n),
{
    let id = identity(n);
    to_multiset_len(p);
    to_multiset_len(id);
    assert(id.no_duplicates());
    id.lemma_multiset_has_no_duplicates();
    p.lemma_multiset_has_no_duplicates_conv();
    assert forall|i: int| 0 <= i < n implies #[trigger] p[i] < n by {
        assert(p.contains(p[i]));
        to_multiset_contains(p, p[i]);
        to_multiset_contains(id, p[i]);
        let k = choose|k: int| 0 <= k < id.len() && id[k] == p[i];
    }
    assert forall|j: NodeId| j < n implies #[trigger] p.contains(j) by {
        assert(id[j as int] == j);
        assert(id.contains(j));
        to_multiset_contains(id, j);
        to_multiset_contains(p, j);
    }
}

/// Without its last entry, a rearranged list is a rearrangement of the
/// other list without the entry at the image of the last position. The
/// result is the permutation that rearranges the shorter lists.
pub proof fn lemma_rearranged_shorter<T>(a: Seq<T>, p: Seq<NodeId>, b: Seq<T>) -> (shorter: Seq<
    NodeId,
>)
    requires
        a.len() > 0,
        is_permutation(p, p.len()),
        rearranged(a, p, b),
    ensures
        is_permutation(shorter, (a.len() - 1) as nat),
        rearranged(a.drop_last(), shorter, b.remove(p[a.len() - 1] as int)),
        b[p[a.len() - 1] as int] == a[a.len() - 1],
{
    let last = a.len() - 1;
    let q = p[last] as int;
    let shorter = Seq::new(
        last as nat,
        |i: int|
            if p[i] < q {
                p[i]
            } else {
                (p[i] - 1) as NodeId
            },
    );
    assert forall|i: int| 0 <= i < last implies p[i] != q by {}
    assert forall|j: NodeId| j < last implies #[trigger] shorter.contains(j) by {
        let origin: NodeId = if j < q {
            j
        } else {
            (j + 1) as NodeId
        };
        assert(p.contains(origin));
        let i = choose|i: int| 0 <= i < p.len() && p[i] == origin;
        assert(i != last);
        assert(shorter[i] == j);
    }
    assert(is_permutation(shorter, last as nat));
    assert(rearranged(a.drop_last(), shorter, b.remove(q)));
    shorter
}

/// A rearranged list has the same entries, each as often as before.
pub proof fn lemma_rearranged_multiset<T>(a: Seq<T>, p: Seq<NodeId>, b: Seq<T>)
    requires
        is_permutation(p, p.len()),
        rearranged(a, p, b),
    ensures
        a.to_multiset() == b.to_multiset(),
    decreases a.len(),
{
    if a.len() == 0 {
        assert(a =~= b);
    } else {
        let last = a.len() - 1;
        let q = p[last] as int;
        let shorter = lemma_rearranged_shorter(a, p, b);
        lemma_rearranged_multiset(a.drop_last(), shorter, b.remove(q));
        assert(a.drop_last().push(a[last]) == a);
        to_multiset_build(a.drop_last(), a[last]);
        to_multiset_remove(b, q);
        assert(b.contains(b[q]));
        to_multiset_contains(b, b[q]);
        assert(b.to_multiset() =~= b.to_multiset().remove(b[q]).insert(b[q]));
    }
}

/// The sum of the numbers in `s`.
pub open spec fn sum(s: Seq<nat>) -> nat
    decreases s.len(),
{
    if s.len() == 0 {
        0
    } else {
        sum(s.drop_last()) + s.last()
    }
}

/// Taking a number out of a list takes it from the sum.
pub proof fn lemma_sum_remove(s: Seq<nat>, q: int)
    requires
        0 <= q < s.len(),
    ensures
        sum(s.remove(q)) + s[q] == sum(s),
    decreases s.len(),
{
    if q == s.len() - 1 {
        assert(s.remove(q) == s.drop_last());
    } else {
        assert(s.remove(q).drop_last() == s.drop_last().remove(q));
        assert(s.remove(q).last() == s.last());
        lemma_sum_remove(s.drop_last(), q);
    }
}

/// A rearranged list of numbers has the same sum.
pub proof fn lemma_rearranged_sum(a: Seq<nat>, p: Seq<NodeId>, b: Seq<nat>)
    requires
        is_permutation(p, p.len()),
        rearranged(a, p, b),
    ensures
        sum(a) == sum(b),
    decreases a.len(),
{
    if a.len() == 0 {
        assert(a =~= b);
    } else {
        let q = p[a.len() - 1] as int;
        let shorter = lemma_rearranged_shorter(a, p, b);
        lemma_rearranged_sum(a.drop_last(), shorter, b.remove(q));
        lemma_sum_remove(b, q);
    }
}

} // verus!
