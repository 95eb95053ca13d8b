//! Small-world graphs after Watts and Strogatz, built on an adjacency matrix.

use crate::fbas::NodeId;
use crate::sampling::{choose_one, flip};
use crate::simulation::quorum_set_configurators::graph::links::{
    ascending, in_range, lemma_ascending_simple, linked, symmetric, total_links, without_loops,
};
use crate::simulation::quorum_set_configurators::graph::Graph;
use vstd::prelude::*;

verus! {

/// The number of entries of `row` that are set.
pub open spec fn trues(row: Seq<bool>) -> nat
    decreases row.len(),
{
    if row.len() == 0 {
        0
    } else {
        trues(row.drop_last()) + if row.last() {
            1nat
        } else {
            0nat
        }
    }
}

/// The number of cells of `matrix` that are set.
pub open spec fn matrix_trues(matrix: Seq<Vec<bool>>) -> nat
    decreases matrix.len(),
{
    if matrix.len() == 0 {
        0
    } else {
        matrix_trues(matrix.drop_last()) + trues(matrix.last()@)
    }
}

/// Whether `matrix` has `n` rows of `n` cells.
pub open spec fn square(matrix: Seq<Vec<bool>>, n: nat) -> bool {
    &&& matrix.len() == n
    &&& forall|a: int| 0 <= a < n ==> (#[trigger] matrix[a])@.len() == n
}

/// Whether `matrix` is the adjacency matrix of an undirected graph without
/// loops on `n` nodes: square, equal to its transpose, and with no cell set
/// on the diagonal.
pub open spec fn adjacency(matrix: Seq<Vec<bool>>, n: nat) -> bool {
    &&& square(matrix, n)
    &&& forall|a: int, b: int| 0 <= a < n && 0 <= b < n ==> matrix[a]@[b] == matrix[b]@[a]
    &&& forall|a: int| 0 <= a < n ==> !(#[trigger] matrix[a])@[a]
}

/// The number of steps forward on the ring of `n` nodes that lead from `a`
/// to `b`.
pub open spec fn ahead(n: int, a: int, b: int) -> int {
    if b >= a {
        b - a
    } else {
        b + n - a
    }
}

/// Whether `a` and `b` are neighbours on the ring of `n` nodes in which each
/// node is linked to the `h` nearest nodes on either side.
pub open spec fn ring_linked(n: int, h: int, a: int, b: int) -> bool {
    a != b && (ahead(n, a, b) <= h || ahead(n, b, a) <= h)
}

/// Whether the construction of the ring, standing at node `i` and step `d`,
/// has linked `a` and `b`.
pub open spec fn ring_built(n: int, h: int, i: int, d: int, a: int, b: int) -> bool {
    a != b && ((ahead(n, a, b) <= h && (a < i || (a == i && ahead(n, a, b) < d))) || (ahead(n, b, a)
        <= h && (b < i || (b == i && ahead(n, b, a) < d))))
}

/// Setting one entry of a row changes the number of set entries by the
/// difference between the new and the old entry.
pub proof fn lemma_trues_update(row: Seq<bool>, b: int, v: bool)
    requires
        0 <= b < row.len(),
    ensures
        trues(row.update(b, v)) + (if row[b] {
            1int
        } else {
            0int
        }) == trues(row) + (if v {
            1int
        } else {
            0int
        }),
    decreases row.len(),
{
    if b == row.len() - 1 {
        assert(row.update(b, v).drop_last() == row.drop_last());
    } else {
        assert(row.update(b, v).drop_last() == row.drop_last().update(b, v));
        lemma_trues_update(row.drop_last(), b, v);
    }
}

/// Replacing one row of a matrix changes the number of set cells by the
/// difference between the new and the old row.
pub proof fn lemma_matrix_trues_update(before: Seq<Vec<bool>>, after: Seq<Vec<bool>>, a: int)
    requires
        after.len() == before.len(),
        0 <= a < before.len(),
        forall|c: int| 0 <= c < before.len() && c != a ==> after[c]@ == before[c]@,
    ensures
        matrix_trues(after) + trues(before[a]@) == matrix_trues(before) + trues(after[a]@),
    decreases before.len(),
{
    let last = before.len() - 1;
    if a == last {
        lemma_matrix_trues_same(before.drop_last(), after.drop_last());
    } else {
        lemma_matrix_trues_update(before.drop_last(), after.drop_last(), a);
        assert(after[last]@ == before[last]@);
    }
}

/// Matrices with the same rows have the same number of set cells.
pub proof fn lemma_matrix_trues_same(before: Seq<Vec<bool>>, after: Seq<Vec<bool>>)
    requires
        after.len() == before.len(),
        forall|c: int| 0 <= c < before.len() ==> after[c]@ == before[c]@,
    ensures
        matrix_trues(after) == matrix_trues(before),
    decreases before.len(),
{
    if before.len() > 0 {
        lemma_matrix_trues_same(before.drop_last(), after.drop_last());
        assert(after[before.len() - 1]@ == before[before.len() - 1]@);
    }
}

/// A matrix without a set cell.
pub proof fn lemma_matrix_trues_none(matrix: Seq<Vec<bool>>)
    requires
        forall|a: int, b: int|
            0 <= a < matrix.len() && 0 <= b < matrix[a]@.len() ==> !(#[trigger] matrix[a]@[b]),
    ensures
        matrix_trues(matrix) == 0,
    decreases matrix.len(),
{
    if matrix.len() > 0 {
        lemma_matrix_trues_none(matrix.drop_last());
        lemma_trues_none(matrix.last()@);
    }
}

/// A row without a set entry.
pub proof fn lemma_trues_none(row: Seq<bool>)
    requires
        forall|b: int| 0 <= b < row.len() ==> !row[b],
    ensures
        trues(row) == 0,
    decreases row.len(),
{
    if row.len() > 0 {
        lemma_trues_none(row.drop_last());
    }
}

/// The node `d` steps ahead of `i` on the ring of `n` nodes.
fn step_ahead(n: usize, i: usize, d: usize) -> (r: usize)
    requires
        i < n,
        d < n,
    ensures
        r < n,
        r == (i + d) % (n as int),
        ahead(n as int, i as int, r as int) == d,
{
    if d < n - i {
        assert((i + d) % (n as int) == i + d) by (nonlinear_arith)
            requires
                0 <= i + d < n,
        ;
        i + d
    } else {
        assert((i + d) % (n as int) == i + d - n) by (nonlinear_arith)
            requires
                n <= i + d < 2 * n,
        ;
        d - (n - i)
    }
}

/// Sets the cells that stand for the link between `a` and `b` to `v`.
fn set_link(matrix: &mut Vec<Vec<bool>>, a: usize, b: usize, v: bool, Ghost(n): Ghost<nat>)
    requires
        adjacency(old(matrix)@, n),
        a < n,
        b < n,
        a != b,
    ensures
        adjacency(final(matrix)@, n),
        final(matrix)@[a as int]@[b as int] == v,
        final(matrix)@[b as int]@[a as int] == v,
        forall|x: int, y: int|
            0 <= x < n && 0 <= y < n && !(x == a && y == b) && !(x == b && y == a) ==> final(
                matrix
            )@[x]@[y] == old(matrix)@[x]@[y],
        matrix_trues(final(matrix)@) + (if old(matrix)@[a as int]@[b as int] {
            2int
        } else {
            0int
        }) == matrix_trues(old(matrix)@) + (if v {
            2int
        } else {
            0int
        }),
{
    let ghost before = matrix@;
    matrix[a][b] = v;
    let ghost middle = matrix@;
    matrix[b][a] = v;
    proof {
        lemma_trues_update(before[a as int]@, b as int, v);
        lemma_matrix_trues_update(before, middle, a as int);
        lemma_trues_update(middle[b as int]@, a as int, v);
        lemma_matrix_trues_update(middle, matrix@, b as int);
    }
}

/// Whether each list of `targets` holds only nodes to which its own node is
/// not linked and which are not that node itself.
pub open spec fn targets_sound(targets: Seq<Vec<NodeId>>, matrix: Seq<Vec<bool>>, n: nat) -> bool {
    &&& targets.len() == n
    &&& forall|a: int, t: int|
        0 <= a < n && 0 <= t < targets[a]@.len() ==> {
            &&& (#[trigger] targets[a]@[t]) < n
            &&& targets[a]@[t] != a
            &&& !matrix[a]@[targets[a]@[t] as int]
        }
}

/// The matrix of `n` rows of `n` cells of which none is set.
fn blank_matrix(n: usize) -> (matrix: Vec<Vec<bool>>)
    ensures
        adjacency(matrix@, n as nat),
        forall|a: int, b: int| 0 <= a < n && 0 <= b < n ==> !(#[trigger] matrix@[a]@[b]),
        matrix_trues(matrix@) == 0,
{
    let mut matrix: Vec<Vec<bool>> = Vec::new();
    let mut a: usize = 0;
    while a < n
        invariant
            a <= n,
            matrix@.len() == a,
            forall|x: int| 0 <= x < a ==> (#[trigger] matrix@[x])@.len() == n,
            forall|x: int, y: int| 0 <= x < a && 0 <= y < n ==> !(#[trigger] matrix@[x]@[y]),
        decreases n - a,
    {
        let mut row: Vec<bool> = Vec::new();
        let mut b: usize = 0;
        while b < n
            invariant
                b <= n,
                row@.len() == b,
                forall|y: int| 0 <= y < b ==> !row@[y],
            decreases n - b,
        {
            row.push(false);
            b += 1;
        }
        matrix.push(row);
        a += 1;
    }
    proof {
        lemma_matrix_trues_none(matrix@);
    }
    matrix
}

/// The adjacency matrix of the ring of `n` nodes in which each node is linked
/// to the `h` nearest nodes on either side.
fn ring_lattice(n: usize, h: usize) -> (matrix: Vec<Vec<bool>>)
    requires
        2 * h < n,
    ensures
        adjacency(matrix@, n as nat),
        forall|a: int, b: int|
            0 <= a < n && 0 <= b < n ==> (#[trigger] matrix@[a]@[b]) == ring_linked(
                n as int,
                h as int,
                a,
                b,
            ),
        matrix_trues(matrix@) == 2 * (n * h),
{
    let mut matrix = blank_matrix(n);
    let mut i: usize = 0;
    assert(2 * (0 * h) == 0) by (nonlinear_arith);
    while i < n
        invariant
            2 * h < n,
            i <= n,
            adjacency(matrix@, n as nat),
            forall|a: int, b: int|
                0 <= a < n && 0 <= b < n ==> (#[trigger] matrix@[a]@[b]) == ring_built(
                    n as int,
                    h as int,
                    i as int,
                    1,
                    a,
                    b,
                ),
            matrix_trues(matrix@) == 2 * (i * h),
        decreases n - i,
    {
        let mut d: usize = 1;
        while d <= h
            invariant
                2 * h < n,
                i < n,
                1 <= d <= h + 1,
                adjacency(matrix@, n as nat),
                forall|a: int, b: int|
                    0 <= a < n && 0 <= b < n ==> (#[trigger] matrix@[a]@[b]) == ring_built(
                        n as int,
                        h as int,
                        i as int,
                        d as int,
                        a,
                        b,
                    ),
                matrix_trues(matrix@) == 2 * (i * h) + 2 * (d - 1),
            decreases h + 1 - d,
        {
            let j = step_ahead(n, i, d);
            let ghost before = matrix@;
            set_link(&mut matrix, i, j, true, Ghost(n as nat));
            proof {
                assert(!before[i as int]@[j as int]);
                assert forall|a: int, b: int| 0 <= a < n && 0 <= b < n implies (
                #[trigger] matrix@[a]@[b]) == ring_built(
                    n as int,
                    h as int,
                    i as int,
                    d + 1,
                    a,
                    b,
                ) by {
                    if !(a == i && b == j) && !(a == j && b == i) {
                        assert(matrix@[a]@[b] == before[a]@[b]);
                    }
                }
            }
            d += 1;
        }
        proof {
            assert(2 * (i * h) + 2 * h == 2 * ((i + 1) * h)) by (nonlinear_arith);
            assert forall|a: int, b: int| 0 <= a < n && 0 <= b < n implies (
            #[trigger] matrix@[a]@[b]) == ring_built(n as int, h as int, i + 1, 1, a, b) by {
                assert(matrix@[a]@[b] == ring_built(n as int, h as int, i as int, h + 1, a, b));
            }
        }
        i += 1;
    }
    matrix
}

/// For each node the nodes to which it is not linked, itself left out.
fn free_targets(matrix: &Vec<Vec<bool>>, n: usize) -> (targets: Vec<Vec<NodeId>>)
    requires
        adjacency(matrix@, n as nat),
    ensures
        targets_sound(targets@, matrix@, n as nat),
{
    let mut targets: Vec<Vec<NodeId>> = Vec::new();
    let mut i: usize = 0;
    while i < n
        invariant
            adjacency(matrix@, n as nat),
            i <= n,
            targets@.len() == i,
            forall|a: int, t: int|
                0 <= a < i && 0 <= t < targets@[a]@.len() ==> {
                    &&& (#[trigger] targets@[a]@[t]) < n
                    &&& targets@[a]@[t] != a
                    &&& !matrix@[a]@[targets@[a]@[t] as int]
                },
        decreases n - i,
    {
        let mut list: Vec<NodeId> = Vec::new();
        let mut j: usize = 0;
        while j < n
            invariant
                adjacency(matrix@, n as nat),
                i < n,
                j <= n,
                forall|t: int|
                    0 <= t < list@.len() ==> {
                        &&& (#[trigger] list@[t]) < n
                        &&& list@[t] != i
                        &&& !matrix@[i as int]@[list@[t] as int]
                    },
            decreases n - j,
        {
            if i != j && !matrix[i][j] && !matrix[j][i] {
                list.push(j);
            }
            j += 1;
        }
        targets.push(list);
        i += 1;
    }
    targets
}

/// The entries of `items` other than `node`, in their order.
fn drop_node(items: &Vec<NodeId>, node: NodeId) -> (r: Vec<NodeId>)
    ensures
        forall|t: int| 0 <= t < r@.len() ==> (#[trigger] r@[t]) != node && items@.contains(r@[t]),
        forall|x: NodeId| items@.contains(x) && x != node ==> r@.contains(x),
{
    let mut result: Vec<NodeId> = Vec::new();
    let mut k: usize = 0;
    while k < items.len()
        invariant
            k <= items@.len(),
            forall|t: int|
                0 <= t < result@.len() ==> (#[trigger] result@[t]) != node && items@.contains(
                    result@[t],
                ),
            forall|o: int|
                0 <= o < k && (#[trigger] items@[o]) != node ==> result@.contains(items@[o]),
        decreases items@.len() - k,
    {
        let x = items[k];
        let ghost before = result@;
        if x != node {
            result.push(x);
            proof {
                assert(items@.contains(items@[k as int]));
                assert(result@[before.len() as int] == x);
                assert forall|o: int| 0 <= o < k + 1 && (#[trigger] items@[o]) != node implies result@.contains(
                    items@[o],
                ) by {
                    if o < k {
                        let l = choose|l: int| 0 <= l < before.len() && before[l] == items@[o];
                        assert(result@[l] == items@[o]);
                    }
                }
            }
        }
        k += 1;
    }
    proof {
        assert forall|x: NodeId| items@.contains(x) && x != node implies result@.contains(x) by {
            let o = choose|o: int| 0 <= o < items@.len() && items@[o] == x;
            assert(result@.contains(items@[o]));
        }
    }
    result
}

/// Replaces the link between `i` and `j` by one between `i` and `newj`, and
/// brings the lists of free targets up to date.
fn rewire(
    matrix: &mut Vec<Vec<bool>>,
    possible_targets: &mut Vec<Vec<NodeId>>,
    i: usize,
    j: usize,
    newj: usize,
    Ghost(n): Ghost<nat>,
)
    requires
        adjacency(old(matrix)@, n),
        targets_sound(old(possible_targets)@, old(matrix)@, n),
        i < n,
        j < n,
        old(matrix)@[i as int]@[j as int],
        old(possible_targets)@[i as int]@.contains(newj),
    ensures
        adjacency(final(matrix)@, n),
        targets_sound(final(possible_targets)@, final(matrix)@, n),
        matrix_trues(final(matrix)@) == matrix_trues(old(matrix)@),
        newj < n,
        newj != i,
        newj != j,
        !final(matrix)@[i as int]@[j as int],
        final(matrix)@[i as int]@[newj as int],
        forall|x: int, y: int|
            0 <= x < n && 0 <= y < n && !(x == i && y == j) && !(x == j && y == i) && !(x == i && y
                == newj) && !(x == newj && y == i) ==> final(matrix)@[x]@[y] == old(matrix)@[x]@[y],
{
    let ghost old_matrix = matrix@;
    let ghost old_targets = possible_targets@;
    proof {
        let t = choose|t: int|
            0 <= t < old_targets[i as int]@.len() && old_targets[i as int]@[t] == newj;
        assert(old_targets[i as int]@[t] < n);
    }
    set_link(matrix, i, j, false, Ghost(n));
    set_link(matrix, i, newj, true, Ghost(n));
    possible_targets[i].push(j);
    possible_targets[j].push(i);
    let ghost pushed = possible_targets@;
    let of_i = drop_node(&possible_targets[i], newj);
    possible_targets[i] = of_i;
    let ghost halfway = possible_targets@;
    let of_newj = drop_node(&possible_targets[newj], i);
    possible_targets[newj] = of_newj;
    proof {
        assert forall|a: int, t: int| 0 <= a < n && 0 <= t < pushed[a]@.len() implies {
            &&& (#[trigger] pushed[a]@[t]) < n
            &&& pushed[a]@[t] != a
            &&& (!old_matrix[a]@[pushed[a]@[t] as int] || (a == i && pushed[a]@[t] == j) || (a == j
                && pushed[a]@[t] == i))
        } by {
            if a == i && a == j {
            } else if a == i {
                if t < old_targets[a]@.len() {
                    assert(pushed[a]@[t] == old_targets[a]@[t]);
                }
            } else if a == j {
                if t < old_targets[a]@.len() {
                    assert(pushed[a]@[t] == old_targets[a]@[t]);
                }
            } else {
                assert(pushed[a]@[t] == old_targets[a]@[t]);
            }
        }
        assert forall|a: int, t: int|
            0 <= a < n && 0 <= t < possible_targets@[a]@.len() implies {
            &&& (#[trigger] possible_targets@[a]@[t]) < n
            &&& possible_targets@[a]@[t] != a
            &&& !matrix@[a]@[possible_targets@[a]@[t] as int]
        } by {
            let x = possible_targets@[a]@[t];
            if a == newj {
                assert(halfway[a]@.contains(x));
                let u = choose|u: int| 0 <= u < halfway[a]@.len() && halfway[a]@[u] == x;
                assert(halfway[a]@[u] == pushed[a]@[u]);
                assert(pushed[a]@[u] < n);
            } else if a == i {
                assert(pushed[a]@.contains(x));
                let u = choose|u: int| 0 <= u < pushed[a]@.len() && pushed[a]@[u] == x;
                assert(pushed[a]@[u] < n);
            } else {
                assert(possible_targets@[a]@[t] == pushed[a]@[t]);
                assert(pushed[a]@[t] < n);
            }
        }
    }
}

/// For each node the nodes to which `matrix` links it, in ascending order.
fn links_of(matrix: &Vec<Vec<bool>>, n: usize) -> (outlinks: Vec<Vec<NodeId>>)
    requires
        adjacency(matrix@, n as nat),
    ensures
        outlinks@.len() == n,
        forall|a: int| 0 <= a < n ==> ascending((#[trigger] outlinks@[a])@),
        forall|a: int, b: int|
            0 <= a < n && 0 <= b < n ==> (#[trigger] matrix@[a]@[b]) == outlinks@[a]@.contains(
                b as NodeId,
            ),
        in_range(outlinks@),
        without_loops(outlinks@),
        symmetric(outlinks@),
        total_links(outlinks@) == matrix_trues(matrix@),
{
    let mut outlinks: Vec<Vec<NodeId>> = Vec::new();
    let mut i: usize = 0;
    assert(matrix@.take(0) =~= Seq::<Vec<bool>>::empty());
    while i < n
        invariant
            adjacency(matrix@, n as nat),
            i <= n,
            outlinks@.len() == i,
            forall|a: int| 0 <= a < i ==> ascending((#[trigger] outlinks@[a])@),
            forall|a: int, t: int|
                0 <= a < i && 0 <= t < outlinks@[a]@.len() ==> (#[trigger] outlinks@[a]@[t]) < n
                    && matrix@[a]@[outlinks@[a]@[t] as int],
            forall|a: int, b: int|
                0 <= a < i && 0 <= b < n && (#[trigger] matrix@[a]@[b]) ==> outlinks@[a]@.contains(
                    b as NodeId,
                ),
            total_links(outlinks@) == matrix_trues(matrix@.take(i as int)),
        decreases n - i,
    {
        let row = &matrix[i];
        let mut links: Vec<NodeId> = Vec::new();
        let mut j: usize = 0;
        assert(row@.take(0) =~= Seq::<bool>::empty());
        while j < n
            invariant
                i < n,
                j <= n,
                row@.len() == n,
                ascending(links@),
                forall|t: int| 0 <= t < links@.len() ==> (#[trigger] links@[t]) < j && row@[links@[t] as int],
                forall|b: int| 0 <= b < j && row@[b] ==> links@.contains(b as NodeId),
                links@.len() == trues(row@.take(j as int)),
            decreases n - j,
        {
            let ghost before = links@;
            proof {
                assert(row@.take(j + 1).drop_last() == row@.take(j as int));
            }
            if row[j] {
                links.push(j);
                proof {
                    assert(links@[before.len() as int] == j);
                    assert forall|b: int| 0 <= b < j + 1 && row@[b] implies links@.contains(
                        b as NodeId,
                    ) by {
                        if b < j {
                            let l = choose|l: int| 0 <= l < before.len() && before[l] == b as NodeId;
                            assert(links@[l] == b as NodeId);
                        }
                    }
                }
            }
            j += 1;
        }
        proof {
            assert(row@.take(n as int) == row@);
            assert(matrix@.take(i + 1).drop_last() == matrix@.take(i as int));
            assert(outlinks@.push(links).drop_last() == outlinks@);
        }
        outlinks.push(links);
        i += 1;
    }
    proof {
        assert(matrix@.take(n as int) == matrix@);
        assert forall|a: int, b: int| 0 <= a < n && 0 <= b < n implies (#[trigger] matrix@[a]@[b])
            == outlinks@[a]@.contains(b as NodeId) by {
            if outlinks@[a]@.contains(b as NodeId) {
                let t = choose|t: int| 0 <= t < outlinks@[a]@.len() && outlinks@[a]@[t] == b as NodeId;
                assert(matrix@[a]@[outlinks@[a]@[t] as int]);
            }
        }
        assert forall|a: int, t: int| 0 <= a < n && 0 <= t < outlinks@[a]@.len() implies {
            &&& (#[trigger] outlinks@[a]@[t]) < n
            &&& outlinks@[a]@[t] != a
            &&& linked(outlinks@, outlinks@[a]@[t] as int, a)
        } by {
            let b = outlinks@[a]@[t] as int;
            assert(matrix@[a]@[b]);
            assert(matrix@[b]@[a]);
            assert(outlinks@[b]@.contains(a as NodeId));
        }
    }
    outlinks
}

impl Graph {
    /// A small-world graph of `n` nodes after Watts and Strogatz. The nodes
    /// first form a ring in which each is linked to the `k / 2` nearest nodes
    /// on either side. Then every link of a node to one of the `k / 2` nodes
    /// after it is, with a chance of `beta_numerator` in `beta_denominator`,
    /// replaced by a link to a node chosen at random among those to which the
    /// node is not linked. The number of links stays what it was.
    pub fn new_random_small_world(
        n: usize,
        k: usize,
        beta_numerator: u32,
        beta_denominator: u32,
    ) -> (r: Self)
        requires
            k % 2 == 0,
            k < n,
            0 < beta_denominator,
            beta_numerator <= beta_denominator,
        ensures
            r.outlinks@.len() == n,
            r.wf(),
            r.loop_free(),
            r.undirected(),
            r.simple(),
            r.link_count() == n * k,
            r.edge_count() == n * k / 2,
            forall|a: int| 0 <= a < n ==> ascending((#[trigger] r.outlinks@[a])@),
            beta_numerator == 0 ==> forall|a: int, b: int|
                0 <= a < n && 0 <= b < n ==> ring_linked(n as int, k as int / 2, a, b)
                    == #[trigger] r.has_link(a, b),
    {
        let h = k / 2;
        let mut matrix = ring_lattice(n, h);
        let ghost ring = matrix@;
        let mut possible_targets = free_targets(&matrix, n);
        proof {
            assert(2 * (n * h) == n * k) by (nonlinear_arith)
                requires
                    k == 2 * h,
            ;
        }
        let mut i: usize = 0;
        while i < n
            invariant
                2 * h < n,
                0 < beta_denominator,
                beta_numerator <= beta_denominator,
                i <= n,
                adjacency(matrix@, n as nat),
                targets_sound(possible_targets@, matrix@, n as nat),
                matrix_trues(matrix@) == n * k,
                beta_numerator == 0 ==> matrix@ == ring,
            decreases n - i,
        {
            let mut to_be_rewired: Vec<usize> = Vec::new();
            let mut d: usize = 1;
            while d <= h
                invariant
                    2 * h < n,
                    0 < beta_denominator,
                    beta_numerator <= beta_denominator,
                    i < n,
                    1 <= d <= h + 1,
                    adjacency(matrix@, n as nat),
                    beta_numerator == 0 ==> to_be_rewired@.len() == 0,
                    forall|t: int|
                        0 <= t < to_be_rewired@.len() ==> {
                            &&& (#[trigger] to_be_rewired@[t]) < n
                            &&& matrix@[i as int]@[to_be_rewired@[t] as int]
                            &&& ahead(n as int, i as int, to_be_rewired@[t] as int) < d
                        },
                    forall|t: int, u: int|
                        0 <= t < u < to_be_rewired@.len() ==> ahead(
                            n as int,
                            i as int,
                            to_be_rewired@[t] as int,
                        ) < ahead(n as int, i as int, to_be_rewired@[u] as int),
                decreases h + 1 - d,
            {
                let j = step_ahead(n, i, d);
                if matrix[i][j] && flip(beta_numerator, beta_denominator) {
                    to_be_rewired.push(j);
                }
                d += 1;
            }
            let mut t: usize = 0;
            while t < to_be_rewired.len()
                invariant
                    i < n,
                    t <= to_be_rewired@.len(),
                    adjacency(matrix@, n as nat),
                    targets_sound(possible_targets@, matrix@, n as nat),
                    matrix_trues(matrix@) == n * k,
                    beta_numerator == 0 ==> to_be_rewired@.len() == 0,
                    beta_numerator == 0 ==> matrix@ == ring,
                    forall|u: int|
                        t <= u < to_be_rewired@.len() ==> {
                            &&& (#[trigger] to_be_rewired@[u]) < n
                            &&& matrix@[i as int]@[to_be_rewired@[u] as int]
                        },
                    forall|u: int, w: int|
                        0 <= u < w < to_be_rewired@.len() ==> to_be_rewired@[u] != to_be_rewired@[w],
                decreases to_be_rewired@.len() - t,
            {
                let j = to_be_rewired[t];
                match choose_one(&possible_targets[i]) {
                    Some(newj) => {
                        rewire(&mut matrix, &mut possible_targets, i, j, newj, Ghost(n as nat));
                    },
                    None => {},
                }
                t += 1;
            }
            i += 1;
        }
        let outlinks = links_of(&matrix, n);
        let r = Graph::new(outlinks);
        proof {
            assert forall|a: int| 0 <= a < r.outlinks@.len() implies (
            #[trigger] r.outlinks@[a])@.no_duplicates() by {
                lemma_ascending_simple(r.outlinks@[a]@);
            }
            if beta_numerator == 0 {
                assert forall|a: int, b: int| 0 <= a < n && 0 <= b < n implies ring_linked(
                    n as int,
                    k as int / 2,
                    a,
                    b,
                ) == #[trigger] r.has_link(a, b) by {
                    assert(matrix@[a]@[b] == ring_linked(n as int, h as int, a, b));
                    assert(matrix@[a]@[b] == r.outlinks@[a]@.contains(b as NodeId));
                    if r.outlinks@[a]@.contains(b as NodeId) {
                        let t = choose|t: int|
                            0 <= t < r.outlinks@[a]@.len() && r.outlinks@[a]@[t] == b as NodeId;
                        assert(r.outlinks@[a]@[t] == b);
                    }
                    if r.has_link(a, b) {
                        let t = choose|t: int|
                            0 <= t < r.outlinks@[a]@.len() && #[trigger] r.outlinks@[a]@[t] == b;
                        assert(r.outlinks@[a]@[t] == b as NodeId);
                    }
                }
            }
        }
        r
    }
}

} // verus!
