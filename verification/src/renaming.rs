//! Systems under other node identifiers: what a permutation of the
//! identifiers does to a system and to its minimal quorums.

use crate::enumeration::{lemma_precedes_distinct, lists_minimal_quorums};
use crate::fbas::{count_present, count_satisfied, Fbas, NodeId, QuorumSet};
use crate::permutation::is_permutation;
use vstd::prelude::*;
use vstd::seq_lib::to_multiset_contains;

verus! {

/// The images under `p` of the members of `s`.
pub open spec fn image(s: Set<NodeId>, p: Seq<NodeId>) -> Set<NodeId> {
    Set::new(|y: NodeId| exists|x: NodeId| s.contains(x) && x < p.len() && #[trigger] p[x as int] == y)
}

/// The nodes whose images under `p` are members of `t`.
pub open spec fn preimage(t: Set<NodeId>, p: Seq<NodeId>) -> Set<NodeId> {
    Set::new(|x: NodeId| x < p.len() && t.contains(p[x as int]))
}

/// Whether `b` holds the images under `p` of the entries of `a`, one for one.
pub open spec fn renamed_validators(a: Seq<NodeId>, p: Seq<NodeId>, b: Seq<NodeId>) -> bool {
    &&& b.len() == a.len()
    &&& forall|i: int| 0 <= i < a.len() ==> #[trigger] b[i] == p[a[i] as int]
}

/// Whether the quorum sets `b` are those of `a` under the renaming `p`, one
/// for one.
pub open spec fn renamed_quorum_sets(a: Seq<QuorumSet>, p: Seq<NodeId>, b: Seq<QuorumSet>) -> bool
    decreases a, 0nat,
{
    &&& b.len() == a.len()
    &&& forall|i: int| 0 <= i < a.len() ==> (#[trigger] a[i]).renamed_to(p, b[i])
}

impl QuorumSet {
    /// Whether `other` is this quorum set with every validator replaced by
    /// its image under `p`.
    pub open spec fn renamed_to(self, p: Seq<NodeId>, other: QuorumSet) -> bool
        decreases self, 1nat,
    {
        &&& other.threshold == self.threshold
        &&& renamed_validators(self.validators@, p, other.validators@)
        &&& renamed_quorum_sets(self.inner_quorum_sets@, p, other.inner_quorum_sets@)
    }
}

impl Fbas {
    /// Whether `other` is this system with every node moved to its image
    /// under `p`, as the owner of a quorum set and as a validator.
    pub open spec fn renamed_to(self, p: Seq<NodeId>, other: Fbas) -> bool {
        &&& other.nodes@.len() == self.nodes@.len()
        &&& forall|i: int|
            0 <= i < self.nodes@.len() ==> self.nodes@[i].quorum_set.renamed_to(
                p,
                other.nodes@[#[trigger] p[i] as int].quorum_set,
            )
    }
}

/// Renamed validators lie in the image of a node set as often as the
/// validators lie in the set.
pub proof fn lemma_renamed_count_present(
    a: Seq<NodeId>,
    p: Seq<NodeId>,
    b: Seq<NodeId>,
    s: Set<NodeId>,
)
    requires
        is_permutation(p, p.len()),
        renamed_validators(a, p, b),
        forall|i: int| 0 <= i < a.len() ==> #[trigger] a[i] < p.len(),
    ensures
        count_present(b, image(s, p)) == count_present(a, s),
    decreases a.len(),
{
    if a.len() > 0 {
        assert(renamed_validators(a.drop_last(), p, b.drop_last())) by {
            assert forall|i: int| 0 <= i < a.drop_last().len() implies #[trigger] b.drop_last()[i]
                == p[a.drop_last()[i] as int] by {
                assert(b[i] == p[a[i] as int]);
            }
        }
        assert forall|i: int| 0 <= i < a.drop_last().len() implies #[trigger] a.drop_last()[i]
            < p.len() by {
            assert(a[i] < p.len());
        }
        lemma_renamed_count_present(a.drop_last(), p, b.drop_last(), s);
        let v = a.last();
        assert(a[a.len() - 1] < p.len());
        assert(b[a.len() - 1] == p[a[a.len() - 1] as int]);
        lemma_image_member(s, p, v);
    }
}

/// The image of a node lies in the image of a node set if and only if the
/// node lies in the set.
pub proof fn lemma_image_member(s: Set<NodeId>, p: Seq<NodeId>, v: NodeId)
    requires
        is_permutation(p, p.len()),
        v < p.len(),
    ensures
        image(s, p).contains(p[v as int]) == s.contains(v),
{
    if image(s, p).contains(p[v as int]) {
        let x = choose|x: NodeId| s.contains(x) && x < p.len() && #[trigger] p[x as int] == p[v as int];
        if x < v {
            assert(p[x as int] != p[v as int]);
        }
        if v < x {
            assert(p[v as int] != p[x as int]);
        }
    }
}

/// The image of a set of nodes of the system is empty if and only if the set
/// is.
pub proof fn lemma_image_empty(s: Set<NodeId>, p: Seq<NodeId>)
    requires
        forall|x: NodeId| s.contains(x) ==> x < p.len(),
    ensures
        image(s, p).is_empty() == s.is_empty(),
{
    if !s.is_empty() {
        let x = choose|x: NodeId| s.contains(x);
        assert(image(s, p).contains(p[x as int]));
    }
    if !image(s, p).is_empty() {
        let y = choose|y: NodeId| image(s, p).contains(y);
        let x = choose|x: NodeId| s.contains(x) && x < p.len() && #[trigger] p[x as int] == y;
        assert(s.contains(x));
    }
}

/// Renamed quorum sets are satisfied by the image of a set of nodes of the
/// system as often as the quorum sets are by the set.
pub proof fn lemma_renamed_count_satisfied(
    a: Seq<QuorumSet>,
    p: Seq<NodeId>,
    b: Seq<QuorumSet>,
    s: Set<NodeId>,
)
    requires
        is_permutation(p, p.len()),
        renamed_quorum_sets(a, p, b),
        forall|i: int| 0 <= i < a.len() ==> (#[trigger] a[i]).wf(p.len()),
        forall|x: NodeId| s.contains(x) ==> x < p.len(),
    ensures
        count_satisfied(b, image(s, p)) == count_satisfied(a, s),
    decreases a, 0nat,
{
    if a.len() > 0 {
        assert(renamed_quorum_sets(a.drop_last(), p, b.drop_last())) by {
            assert forall|i: int| 0 <= i < a.drop_last().len() implies (
            #[trigger] a.drop_last()[i]).renamed_to(p, b.drop_last()[i]) by {
                assert(a[i].renamed_to(p, b[i]));
            }
        }
        assert forall|i: int| 0 <= i < a.drop_last().len() implies (#[trigger] a.drop_last()[i]).wf(
            p.len(),
        ) by {
            assert(a[i].wf(p.len()));
        }
        lemma_renamed_count_satisfied(a.drop_last(), p, b.drop_last(), s);
        let last = a.len() - 1;
        assert(a[last].wf(p.len()));
        assert(a[last].renamed_to(p, b[last]));
        a[last].lemma_renamed_satisfaction(p, b[last], s);
    }
}

impl QuorumSet {
    /// A renamed quorum set is satisfied by the image of a set of nodes of
    /// the system if and only if the quorum set is satisfied by the set.
    pub proof fn lemma_renamed_satisfaction(self, p: Seq<NodeId>, other: QuorumSet, s: Set<NodeId>)
        requires
            is_permutation(p, p.len()),
            self.wf(p.len()),
            self.renamed_to(p, other),
            forall|x: NodeId| s.contains(x) ==> x < p.len(),
        ensures
            other.satisfied_by(image(s, p)) == self.satisfied_by(s),
        decreases self, 1nat,
    {
        lemma_image_empty(s, p);
        lemma_renamed_count_present(self.validators@, p, other.validators@, s);
        lemma_renamed_count_satisfied(self.inner_quorum_sets@, p, other.inner_quorum_sets@, s);
    }
}

/// A renamed system has the image of a set of its nodes as a quorum if and
/// only if the system has the set as a quorum.
pub proof fn lemma_renamed_quorum(f: Fbas, p: Seq<NodeId>, g: Fbas, s: Set<NodeId>)
    requires
        f.wf(),
        is_permutation(p, f.nodes@.len()),
        f.renamed_to(p, g),
        forall|x: NodeId| s.contains(x) ==> x < f.nodes@.len(),
    ensures
        g.forms_quorum(image(s, p)) == f.forms_quorum(s),
{
    let t = image(s, p);
    if f.forms_quorum(s) {
        let some = choose|x: NodeId| s.contains(x);
        assert(t.contains(p[some as int]));
        assert forall|y: NodeId| t.contains(y) implies g.is_witness(y, t) by {
            let x = choose|x: NodeId| s.contains(x) && x < p.len() && #[trigger] p[x as int] == y;
            assert(f.is_witness(x, s));
            f.nodes@[x as int].quorum_set.lemma_renamed_satisfaction(
                p,
                g.nodes@[p[x as int] as int].quorum_set,
                s,
            );
        }
    }
    if g.forms_quorum(t) {
        let some = choose|y: NodeId| t.contains(y);
        assert forall|x: NodeId| s.contains(x) implies f.is_witness(x, s) by {
            assert(t.contains(p[x as int]));
            assert(g.is_witness(p[x as int], t));
            f.nodes@[x as int].quorum_set.lemma_renamed_satisfaction(
                p,
                g.nodes@[p[x as int] as int].quorum_set,
                s,
            );
        }
    }
}

/// Among sets of nodes of a system, a set is determined by its image.
pub proof fn lemma_image_injective(s: Set<NodeId>, t: Set<NodeId>, p: Seq<NodeId>)
    requires
        is_permutation(p, p.len()),
        forall|x: NodeId| s.contains(x) ==> x < p.len(),
        forall|x: NodeId| t.contains(x) ==> x < p.len(),
        image(s, p) =~= image(t, p),
    ensures
        s =~= t,
{
    assert forall|x: NodeId| s.contains(x) == t.contains(x) by {
        if x < p.len() {
            lemma_image_member(s, p, x);
            lemma_image_member(t, p, x);
        }
    }
}

/// A set of nodes of a system is the image of its preimage.
pub proof fn lemma_image_of_preimage(t: Set<NodeId>, p: Seq<NodeId>)
    requires
        is_permutation(p, p.len()),
        forall|y: NodeId| t.contains(y) ==> y < p.len(),
    ensures
        image(preimage(t, p), p) =~= t,
{
    assert forall|y: NodeId| t.contains(y) implies image(preimage(t, p), p).contains(y) by {
        assert(p.contains(y));
        let i = choose|i: int| 0 <= i < p.len() && p[i] == y;
        assert(preimage(t, p).contains(i as NodeId));
        assert(p[(i as NodeId) as int] == y);
    }
}

/// A renamed system has the image of a set of its nodes as a minimal quorum
/// if and only if the system has the set as a minimal quorum.
pub proof fn lemma_renamed_minimal_quorum(f: Fbas, p: Seq<NodeId>, g: Fbas, s: Set<NodeId>)
    requires
        f.wf(),
        is_permutation(p, f.nodes@.len()),
        f.renamed_to(p, g),
        forall|x: NodeId| s.contains(x) ==> x < f.nodes@.len(),
    ensures
        g.is_minimal_quorum(image(s, p)) == f.is_minimal_quorum(s),
{
    lemma_renamed_quorum(f, p, g, s);
    if f.is_minimal_quorum(s) {
        assert forall|u: Set<NodeId>|
            u.subset_of(image(s, p)) && #[trigger] g.forms_quorum(u) implies u =~= image(s, p) by {
            assert forall|y: NodeId| u.contains(y) implies y < p.len() by {
                assert(g.is_witness(y, u));
            }
            let t = preimage(u, p);
            lemma_image_of_preimage(u, p);
            assert(t.subset_of(s)) by {
                assert forall|x: NodeId| t.contains(x) implies s.contains(x) by {
                    assert(image(s, p).contains(p[x as int]));
                    lemma_image_member(s, p, x);
                }
            }
            lemma_renamed_quorum(f, p, g, t);
            assert(t =~= s);
        }
    }
    if g.is_minimal_quorum(image(s, p)) {
        assert forall|t: Set<NodeId>| t.subset_of(s) && #[trigger] f.forms_quorum(t) implies t
            =~= s by {
            lemma_renamed_quorum(f, p, g, t);
            assert(image(t, p).subset_of(image(s, p))) by {
                assert forall|y: NodeId| image(t, p).contains(y) implies image(s, p).contains(
                    y,
                ) by {
                    let x = choose|x: NodeId|
                        t.contains(x) && x < p.len() && #[trigger] p[x as int] == y;
                    assert(s.contains(x));
                }
            }
            assert(image(t, p) =~= image(s, p));
            lemma_image_injective(t, s, p);
        }
    }
}

/// Renaming the nodes of a system by a permutation and then listing the
/// minimal quorums gives, but for the order, the images of the minimal
/// quorums of the system itself.
pub proof fn lemma_renaming_equivariant(
    f: Fbas,
    p: Seq<NodeId>,
    g: Fbas,
    of_f: Seq<Set<NodeId>>,
    of_g: Seq<Set<NodeId>>,
)
    requires
        f.wf(),
        is_permutation(p, f.nodes@.len()),
        f.renamed_to(p, g),
        lists_minimal_quorums(f, of_f),
        lists_minimal_quorums(g, of_g),
    ensures
        of_g.to_multiset() == of_f.map_values(|s: Set<NodeId>| image(s, p)).to_multiset(),
{
    let images = of_f.map_values(|s: Set<NodeId>| image(s, p));
    assert forall|i: int| 0 <= i < of_f.len() implies forall|x: NodeId|
        (#[trigger] of_f[i]).contains(x) ==> x < p.len() by {
        assert(f.is_minimal_quorum(of_f[i]));
        assert forall|x: NodeId| of_f[i].contains(x) implies x < p.len() by {
            assert(f.is_witness(x, of_f[i]));
        }
    }
    assert(of_g.no_duplicates()) by {
        assert forall|i: int, j: int| 0 <= i < of_g.len() && 0 <= j < of_g.len() && i != j implies of_g[i]
            != of_g[j] by {
            if i < j {
                lemma_precedes_distinct(of_g[i], of_g[j]);
            } else {
                lemma_precedes_distinct(of_g[j], of_g[i]);
            }
        }
    }
    assert(images.no_duplicates()) by {
        assert forall|i: int, j: int|
            0 <= i < images.len() && 0 <= j < images.len() && i != j implies images[i]
            != images[j] by {
            if images[i] == images[j] {
                lemma_image_injective(of_f[i], of_f[j], p);
                if i < j {
                    lemma_precedes_distinct(of_f[i], of_f[j]);
                } else {
                    lemma_precedes_distinct(of_f[j], of_f[i]);
                }
            }
        }
    }
    assert forall|u: Set<NodeId>| of_g.contains(u) == images.contains(u) by {
        if of_g.contains(u) {
            let j = choose|j: int| 0 <= j < of_g.len() && of_g[j] == u;
            assert(g.is_minimal_quorum(of_g[j]));
            assert forall|y: NodeId| u.contains(y) implies y < p.len() by {
                assert(g.is_witness(y, u));
            }
            let s = preimage(u, p);
            lemma_image_of_preimage(u, p);
            lemma_renamed_minimal_quorum(f, p, g, s);
            assert(of_f.contains(s));
            let i = choose|i: int| 0 <= i < of_f.len() && of_f[i] == s;
            assert(images[i] == u);
        }
        if images.contains(u) {
            let i = choose|i: int| 0 <= i < images.len() && images[i] == u;
            assert(f.is_minimal_quorum(of_f[i]));
            lemma_renamed_minimal_quorum(f, p, g, of_f[i]);
            assert(of_g.contains(u));
        }
    }
    of_g.lemma_multiset_has_no_duplicates();
    images.lemma_multiset_has_no_duplicates();
    assert forall|u: Set<NodeId>| of_g.to_multiset().count(u) == images.to_multiset().count(u) by {
        to_multiset_contains(of_g, u);
        to_multiset_contains(images, u);
    }
    assert(of_g.to_multiset() =~= images.to_multiset());
}

} // verus!
