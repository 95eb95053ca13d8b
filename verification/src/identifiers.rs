//! Lists of node identifiers: all identifiers of a system, and those that a
//! given list leaves free.

use crate::fbas::NodeId;
use vstd::prelude::*;

verus! {

/// The identifiers below `n` in ascending order.
pub open spec fn identity(n: nat) -> Seq<NodeId> {
    Seq::new(n, |i: int| i as NodeId)
}

/// The identifiers below `n` in ascending order.
pub fn range_to(n: usize) -> (r: Vec<NodeId>)
    ensures
        r@ == identity(n as nat),
{
    let mut result: Vec<NodeId> = Vec::new();
    let mut k: usize = 0;
    while k < n
        invariant
            k <= n,
            result@.len() == k,
            forall|l: int| 0 <= l < k ==> #[trigger] result@[l] == l,
        decreases n - k,
    {
        result.push(k);
        k += 1;
    }
    assert(result@ =~= identity(n as nat));
    result
}

/// The identifiers below `n` that are not among `taken`, in ascending
/// order.
pub open spec fn free_ids(taken: Seq<NodeId>, n: nat) -> Seq<NodeId>
    decreases n,
{
    if n == 0 {
        Seq::empty()
    } else {
        let rest = free_ids(taken, (n - 1) as nat);
        if taken.contains((n - 1) as NodeId) {
            rest
        } else {
            rest.push((n - 1) as NodeId)
        }
    }
}

/// The free identifiers are below `n`, none of them is taken, and they grow
/// from each to the next.
pub proof fn lemma_free_ids(taken: Seq<NodeId>, n: nat)
    requires
        n <= usize::MAX,
    ensures
        forall|i: int|
            0 <= i < free_ids(taken, n).len() ==> {
                &&& (#[trigger] free_ids(taken, n)[i]) < n
                &&& !taken.contains(free_ids(taken, n)[i])
            },
        forall|i: int, j: int|
            0 <= i < j < free_ids(taken, n).len() ==> free_ids(taken, n)[i] < free_ids(
                taken,
                n,
            )[j],
    decreases n,
{
    if n > 0 {
        lemma_free_ids(taken, (n - 1) as nat);
        let rest = free_ids(taken, (n - 1) as nat);
        let all = free_ids(taken, n);
        assert forall|i: int| 0 <= i < all.len() implies {
            &&& (#[trigger] all[i]) < n
            &&& !taken.contains(all[i])
        } by {
            if i < rest.len() {
                assert(all[i] == rest[i]);
            }
        }
        assert forall|i: int, j: int| 0 <= i < j < all.len() implies all[i] < all[j] by {
            assert(all[i] == rest[i]);
            if j < rest.len() {
                assert(all[j] == rest[j]);
            }
        }
    }
}

/// Taking an identifier that is not below `n` leaves the free identifiers
/// below `n` as they are.
pub proof fn lemma_free_ids_ignore(taken: Seq<NodeId>, w: NodeId, n: nat)
    requires
        n <= w,
    ensures
        free_ids(taken.push(w), n) == free_ids(taken, n),
    decreases n,
{
    if n > 0 {
        lemma_free_ids_ignore(taken, w, (n - 1) as nat);
        let x = (n - 1) as NodeId;
        if taken.contains(x) {
            let i = choose|i: int| 0 <= i < taken.len() && taken[i] == x;
            assert(taken.push(w)[i] == x);
        }
        if taken.push(w).contains(x) {
            let i = choose|i: int| 0 <= i < taken.push(w).len() && taken.push(w)[i] == x;
            assert(taken[i] == x);
        }
    }
}

/// Taking one more identifier below `n` leaves one fewer free.
pub proof fn lemma_free_ids_shrink(taken: Seq<NodeId>, w: NodeId, n: nat)
    requires
        w < n <= usize::MAX,
        !taken.contains(w),
    ensures
        free_ids(taken.push(w), n).len() + 1 == free_ids(taken, n).len(),
    decreases n,
{
    let more = taken.push(w);
    let x = (n - 1) as NodeId;
    assert(more[taken.len() as int] == w);
    if x == w {
        lemma_free_ids_ignore(taken, w, (n - 1) as nat);
    } else {
        lemma_free_ids_shrink(taken, w, (n - 1) as nat);
        if taken.contains(x) {
            let i = choose|i: int| 0 <= i < taken.len() && taken[i] == x;
            assert(more[i] == x);
        }
        if more.contains(x) {
            let i = choose|i: int| 0 <= i < more.len() && more[i] == x;
            assert(taken[i] == x);
        }
    }
}

/// Identifiers below `n`, none of them taken twice, leave as many free as
/// they are fewer than `n`.
pub proof fn lemma_free_ids_len(taken: Seq<NodeId>, n: nat)
    requires
        n <= usize::MAX,
        taken.no_duplicates(),
        forall|i: int| 0 <= i < taken.len() ==> #[trigger] taken[i] < n,
    ensures
        free_ids(taken, n).len() + taken.len() == n,
    decreases taken.len(),
{
    if taken.len() == 0 {
        assert(taken =~= Seq::empty());
        lemma_free_ids_none(n);
    } else {
        let fewer = taken.drop_last();
        let w = taken.last();
        assert(fewer.push(w) == taken);
        assert(!fewer.contains(w));
        lemma_free_ids_len(fewer, n);
        lemma_free_ids_shrink(fewer, w, n);
    }
}

/// Where none is taken, every identifier is free.
pub proof fn lemma_free_ids_none(n: nat)
    ensures
        free_ids(Seq::empty(), n).len() == n,
    decreases n,
{
    if n > 0 {
        lemma_free_ids_none((n - 1) as nat);
    }
}

} // verus!
