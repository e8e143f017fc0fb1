//! Canonical state keys.  A state's key encodes each container as one
//! color sequence (capacity, then a constraint tag, then the content) and
//! sorts the encodings into a fixed lexicographic order, so that two
//! states holding the same multiset of containers in different list
//! positions share one key, while any change to a container changes it.

use vstd::prelude::*;
use crate::state::State;
use vstd::multiset::Multiset;
use vstd::relations::{sorted_by, total_ordering};
use vstd::seq_lib::lemma_sorted_unique;

use crate::container::{Container, ContainerConstraint, ContainerModel};


verus! {

/// Numeric lexicographic order on color sequences.
pub open spec fn lex_leq(a: Seq<usize>, b: Seq<usize>) -> bool
    decreases a.len(),
{
    if a.len() == 0 {
        true
    } else if b.len() == 0 {
        false
    } else if a[0] < b[0] {
        true
    } else if a[0] > b[0] {
        false
    } else {
        lex_leq(a.drop_first(), b.drop_first())
    }
}

/// The lexicographic order as a relation value, for the ordering lemmas.
pub open spec fn lex_leq_fn() -> spec_fn(Seq<usize>, Seq<usize>) -> bool {
    |a: Seq<usize>, b: Seq<usize>| lex_leq(a, b)
}

/// A tag distinguishing the three constraints inside an encoding.
pub open spec fn constraint_code(k: ContainerConstraint) -> usize {
    match k {
        ContainerConstraint::MustFill => 0,
        ContainerConstraint::MustEmpty => 1,
        ContainerConstraint::Unconstrained => 2,
    }
}

/// A container encoded as one sequence: its capacity, its constraint tag,
/// then its content.  Injective for machine-sized capacities.
pub open spec fn encode_container(c: ContainerModel) -> Seq<usize> {
    seq![c.capacity as usize, constraint_code(c.constraint)] + c.content
}

/// The encoding as a function value, applied pointwise to container lists.
pub open spec fn encode_fn() -> spec_fn(ContainerModel) -> Seq<usize> {
    |c: ContainerModel| encode_container(c)
}

/// The encodings of all containers, in list order.
pub open spec fn encoded_of(cs: Seq<ContainerModel>) -> Seq<Seq<usize>> {
    cs.map_values(encode_fn())
}

/// The canonical key of a container list: its container encodings in
/// ascending lexicographic order.
pub open spec fn canonical_key_of(cs: Seq<ContainerModel>) -> Seq<Seq<usize>> {
    encoded_of(cs).sort_by(lex_leq_fn())
}

/// Lengths and capacities small enough for the encoding to be faithful;
/// every container list held in a `Vec` of containers satisfies this.
pub open spec fn bounded_models(cs: Seq<ContainerModel>) -> bool {
    &&& cs.len() <= usize::MAX
    &&& forall|i: int| 0 <= i < cs.len() ==> (#[trigger] cs[i]).capacity <= usize::MAX
}

/// The encoding loses nothing: machine-sized containers with one encoding
/// are one container.
proof fn lemma_encode_injective(a: ContainerModel, b: ContainerModel)
    requires
        a.capacity <= usize::MAX,
        b.capacity <= usize::MAX,
        encode_container(a) == encode_container(b),
    ensures
        a == b,
{
    assert(encode_container(a)[0] == a.capacity as usize);
    assert(encode_container(b)[0] == b.capacity as usize);
    assert(encode_container(a)[1] == constraint_code(a.constraint));
    assert(encode_container(b)[1] == constraint_code(b.constraint));
    assert(a.constraint == b.constraint);
    assert(a.content =~= encode_container(a).skip(2));
    assert(b.content =~= encode_container(b).skip(2));
}

proof fn lemma_lex_refl(a: Seq<usize>)
    ensures
        lex_leq(a, a),
    decreases a.len(),
{
    if a.len() > 0 {
        lemma_lex_refl(a.drop_first());
    }
}

proof fn lemma_lex_antisym(a: Seq<usize>, b: Seq<usize>)
    requires
        lex_leq(a, b),
        lex_leq(b, a),
    ensures
        a == b,
    decreases a.len(),
{
    if a.len() == 0 {
        assert(b.len() == 0);
        assert(a =~= b);
    } else {
        assert(b.len() > 0);
        assert(a[0] == b[0]);
        lemma_lex_antisym(a.drop_first(), b.drop_first());
        assert forall|i: int| 0 <= i < a.len() implies a[i] == b[i] by {
            if i > 0 {
                assert(a.drop_first()[i - 1] == b.drop_first()[i - 1]);
                assert(a.drop_first()[i - 1] == a[i]);
                assert(b.drop_first()[i - 1] == b[i]);
            }
        }
        assert(a.len() == a.drop_first().len() + 1);
        assert(b.len() == b.drop_first().len() + 1);
        assert(a =~= b);
    }
}

proof fn lemma_lex_trans(a: Seq<usize>, b: Seq<usize>, c: Seq<usize>)
    requires
        lex_leq(a, b),
        lex_leq(b, c),
    ensures
        lex_leq(a, c),
    decreases a.len(),
{
    if a.len() > 0 {
        assert(b.len() > 0);
        assert(c.len() > 0);
        if a[0] == b[0] && b[0] == c[0] {
            lemma_lex_trans(a.drop_first(), b.drop_first(), c.drop_first());
        }
    }
}

proof fn lemma_lex_total(a: Seq<usize>, b: Seq<usize>)
    ensures
        lex_leq(a, b) || lex_leq(b, a),
    decreases a.len(),
{
    if a.len() > 0 && b.len() > 0 && a[0] == b[0] {
        lemma_lex_total(a.drop_first(), b.drop_first());
    }
}

/// The lexicographic order on color sequences is a total ordering.
pub proof fn lemma_lex_total_ordering()
    ensures
        total_ordering(lex_leq_fn()),
{
    let r = lex_leq_fn();
    assert forall|x: Seq<usize>| #[trigger] r(x, x) by {
        lemma_lex_refl(x);
    }
    assert forall|x: Seq<usize>, y: Seq<usize>| #[trigger] r(x, y) && #[trigger] r(y, x) implies x
        == y by {
        lemma_lex_antisym(x, y);
    }
    assert forall|x: Seq<usize>, y: Seq<usize>, z: Seq<usize>|
        #[trigger] r(x, y) && #[trigger] r(y, z) implies r(x, z) by {
        lemma_lex_trans(x, y, z);
    }
    assert forall|x: Seq<usize>, y: Seq<usize>| #[trigger] r(x, y) || #[trigger] r(y, x) by {
        lemma_lex_total(x, y);
    }
}

/// When two sequences agree on a prefix, comparing them lexicographically
/// comes down to comparing the suffixes.
proof fn lemma_lex_skip(a: Seq<usize>, b: Seq<usize>, i: int)
    requires
        0 <= i <= a.len(),
        i <= b.len(),
        forall|j: int| 0 <= j < i ==> a[j] == b[j],
    ensures
        lex_leq(a, b) == lex_leq(a.skip(i), b.skip(i)),
    decreases i,
{
    if i > 0 {
        assert(a[0] == b[0]);
        lemma_lex_skip(a.drop_first(), b.drop_first(), i - 1);
        assert(a.drop_first().skip(i - 1) =~= a.skip(i));
        assert(b.drop_first().skip(i - 1) =~= b.skip(i));
        assert(a.skip(0) =~= a);
        assert(b.skip(0) =~= b);
    } else {
        assert(a.skip(0) =~= a);
        assert(b.skip(0) =~= b);
    }
}

/// Decides the lexicographic order on color sequences.
#[verifier::loop_isolation(false)]
pub fn content_le(a: &Vec<usize>, b: &Vec<usize>) -> (r: bool)
    ensures
        r == lex_leq(a@, b@),
{
    let mut i: usize = 0;
    while i < a.len() && i < b.len()
        invariant
            i <= a@.len(),
            i <= b@.len(),
            forall|j: int| 0 <= j < i ==> a@[j] == b@[j],
        decreases a@.len() - i,
    {
        proof {
            lemma_lex_skip(a@, b@, i as int);
        }
        if a[i] < b[i] {
            return true;
        }
        if a[i] > b[i] {
            return false;
        }
        i += 1;
    }
    proof {
        lemma_lex_skip(a@, b@, i as int);
    }
    a.len() <= b.len()
}

/// Every element's deep view is its view.
proof fn lemma_dv_elem(v: Seq<Vec<usize>>, i: int)
    requires
        0 <= i < v.len(),
    ensures
        Seq::new(v.len(), |k: int| v[k].deep_view())[i] == v[i]@,
{
    assert(v[i].deep_view() =~= v[i]@);
}

/// Sorts color sequences into ascending lexicographic order by repeatedly
/// extracting a least remaining element.
#[verifier::loop_isolation(false)]
fn sort_contents(input: Vec<Vec<usize>>) -> (r: Vec<Vec<usize>>)
    ensures
        sorted_by(r.deep_view(), lex_leq_fn()),
        r.deep_view().to_multiset() == input.deep_view().to_multiset(),
{
    broadcast use vstd::seq_lib::group_to_multiset_ensures;
    broadcast use vstd::multiset::group_multiset_axioms;

    let ghost total = input.deep_view().to_multiset();
    let mut items = input;
    let mut out: Vec<Vec<usize>> = Vec::new();
    while items.len() > 0
        invariant
            sorted_by(out.deep_view(), lex_leq_fn()),
            out.deep_view().to_multiset().add(items.deep_view().to_multiset()) == total,
            forall|p: int, q: int|
                0 <= p < out.deep_view().len() && 0 <= q < items.deep_view().len() ==> lex_leq(
                    #[trigger] out.deep_view()[p],
                    #[trigger] items.deep_view()[q],
                ),
        decreases items.len(),
    {
        let ghost out0 = out.deep_view();
        let ghost items0 = items.deep_view();
        let mut best: usize = 0;
        let mut j: usize = 1;
        proof {
            lemma_lex_refl(items0[0]);
        }
        while j < items.len()
            invariant
                1 <= j <= items@.len(),
                best < j,
                items.deep_view() == items0,
                forall|k: int|
                    0 <= k < j ==> lex_leq(items0[best as int], #[trigger] items0[k]),
            decreases items@.len() - j,
        {
            proof {
                lemma_dv_elem(items@, j as int);
                lemma_dv_elem(items@, best as int);
            }
            if content_le(&items[j], &items[best]) {
                let ghost prev = best as int;
                best = j;
                assert forall|k: int| 0 <= k < j + 1 implies lex_leq(
                    items0[best as int],
                    #[trigger] items0[k],
                ) by {
                    if k < j {
                        lemma_lex_trans(items0[j as int], items0[prev], items0[k]);
                    } else {
                        lemma_lex_refl(items0[k]);
                    }
                }
            } else {
                proof {
                    lemma_lex_total(items0[j as int], items0[best as int]);
                }
                assert forall|k: int| 0 <= k < j + 1 implies lex_leq(
                    items0[best as int],
                    #[trigger] items0[k],
                ) by {}
            }
            j += 1;
        }
        let x = items.remove(best);
        out.push(x);
        proof {
            let xdv = items0[best as int];
            assert(x.deep_view() == xdv);
            assert(out.deep_view() =~= out0.push(xdv));
            assert(items.deep_view() =~= items0.remove(best as int));
            assert(items0.to_multiset().count(xdv) > 0) by {
                assert(items0.contains(xdv));
            }
            assert(out.deep_view().to_multiset().add(items.deep_view().to_multiset())
                =~= total);
            assert forall|p: int, q: int|
                0 <= p < q < out.deep_view().len() implies #[trigger] lex_leq_fn()(
                out.deep_view()[p],
                out.deep_view()[q],
            ) by {
                if q < out0.len() {
                    assert(lex_leq_fn()(out0[p], out0[q]));
                } else {
                    assert(lex_leq(out0[p], items0[best as int]));
                    assert(lex_leq_fn()(out0[p], xdv));
                }
            }
            assert(sorted_by(out.deep_view(), lex_leq_fn()));
            assert forall|p: int, q: int|
                0 <= p < out.deep_view().len() && 0 <= q < items.deep_view().len() implies lex_leq(
                #[trigger] out.deep_view()[p],
                #[trigger] items.deep_view()[q],
            ) by {
                let orig_q = if q < best as int {
                    q
                } else {
                    q + 1
                };
                assert(items.deep_view()[q] == items0[orig_q]);
                if p < out0.len() {
                    assert(lex_leq(out0[p], items0[orig_q]));
                } else {
                    assert(lex_leq(items0[best as int], items0[orig_q]));
                }
            }
        }
    }
    proof {
        assert(items.deep_view() =~= Seq::<Seq<usize>>::empty());
        assert(items.deep_view().to_multiset() =~= Multiset::<Seq<usize>>::empty());
        assert(out.deep_view().to_multiset() =~= total);
    }
    out
}

impl State {
    /// The canonical key of this state: every container's encoding,
    /// sorted into a fixed lexicographic order.  States that hold the
    /// same multiset of containers share one key.
    #[verifier::loop_isolation(false)]
    pub fn canonical_key(&self) -> (r: Vec<Vec<usize>>)
        ensures
            r.deep_view() == canonical_key_of(self@.containers),
    {
        let ghost goal = encoded_of(self@.containers);
        let mut items: Vec<Vec<usize>> = Vec::new();
        let mut i: usize = 0;
        proof {
            assert(items.deep_view() =~= goal.take(0));
        }
        while i < self.containers.len()
            invariant
                i <= self.containers@.len(),
                items.deep_view() == goal.take(i as int),
            decreases self.containers@.len() - i,
        {
            let c = encoded_container(&self.containers[i]);
            proof {
                assert(c.deep_view() =~= c@);
                assert(goal[i as int] == encode_container(self@.containers[i as int]));
            }
            items.push(c);
            i += 1;
            proof {
                assert(items.deep_view() =~= goal.take(i as int));
            }
        }
        proof {
            assert(goal.take(i as int) =~= goal);
        }
        let r = sort_contents(items);
        proof {
            lemma_lex_total_ordering();
            goal.lemma_sort_by_ensures(lex_leq_fn());
            assert(r.deep_view().to_multiset() == canonical_key_of(self@.containers).to_multiset());
            lemma_sorted_unique(r.deep_view(), canonical_key_of(self@.containers), lex_leq_fn());
        }
        r
    }
}

/// The encoding of one container, as executable data.
fn encoded_container(c: &Container) -> (r: Vec<usize>)
    ensures
        r@ == encode_container(c@),
{
    let mut v: Vec<usize> = Vec::new();
    v.push(c.capacity);
    let code: usize = match c.constraint {
        ContainerConstraint::MustFill => 0,
        ContainerConstraint::MustEmpty => 1,
        ContainerConstraint::Unconstrained => 2,
    };
    v.push(code);
    let mut i: usize = 0;
    proof {
        assert(v@ =~= seq![c.capacity, constraint_code(c.constraint)] + c.content@.take(0));
    }
    while i < c.content.len()
        invariant
            i <= c.content@.len(),
            v@ == seq![c.capacity, constraint_code(c.constraint)] + c.content@.take(i as int),
        decreases c.content@.len() - i,
    {
        let u = c.content[i];
        v.push(u);
        i += 1;
        proof {
            assert(v@ =~= seq![c.capacity, constraint_code(c.constraint)] + c.content@.take(
                i as int,
            ));
        }
    }
    proof {
        assert(c.content@.take(c.content@.len() as int) =~= c.content@);
        assert(v@ =~= encode_container(c@));
    }
    v
}

/// Container lists with one multiset of containers have one multiset of
/// encodings.
proof fn lemma_encoded_multiset(s1: Seq<ContainerModel>, s2: Seq<ContainerModel>)
    requires
        s1.to_multiset() == s2.to_multiset(),
    ensures
        encoded_of(s1).to_multiset() == encoded_of(s2).to_multiset(),
    decreases s1.len(),
{
    broadcast use vstd::seq_lib::group_to_multiset_ensures;
    broadcast use vstd::multiset::group_multiset_axioms;

    if s1.len() == 0 {
        assert(s2.to_multiset().len() == 0);
        assert(s2.len() == 0);
        assert(encoded_of(s1) =~= encoded_of(s2));
    } else {
        let x = s1.last();
        let ex = encode_container(x);
        assert(s1.contains(x));
        assert(s2.to_multiset().count(x) > 0);
        assert(s2.contains(x));
        let j = choose|j: int| 0 <= j < s2.len() && s2[j] == x;
        let s1p = s1.drop_last();
        let s2p = s2.remove(j);
        assert(s1.remove(s1.len() - 1) =~= s1p);
        assert(s1p.to_multiset() =~= s1.to_multiset().remove(x));
        assert(s2p.to_multiset() =~= s2.to_multiset().remove(x));
        lemma_encoded_multiset(s1p, s2p);
        assert(encoded_of(s1) =~= encoded_of(s1p).push(ex));
        assert(encoded_of(s2p) =~= encoded_of(s2).remove(j));
        assert(encoded_of(s2)[j] == ex);
        assert(encoded_of(s1).to_multiset() =~= encoded_of(s1p).to_multiset().insert(ex));
        assert(encoded_of(s2).remove(j).to_multiset() =~= encoded_of(s2).to_multiset().remove(ex));
        assert(encoded_of(s2).to_multiset().count(ex) > 0) by {
            assert(encoded_of(s2).contains(ex));
        }
        assert(encoded_of(s1).to_multiset() =~= encoded_of(s2).to_multiset());
    }
}

/// Machine-sized container lists with one multiset of encodings have one
/// multiset of containers.
proof fn lemma_encoded_multiset_inv(s1: Seq<ContainerModel>, s2: Seq<ContainerModel>)
    requires
        forall|i: int| 0 <= i < s1.len() ==> (#[trigger] s1[i]).capacity <= usize::MAX,
        forall|i: int| 0 <= i < s2.len() ==> (#[trigger] s2[i]).capacity <= usize::MAX,
        encoded_of(s1).to_multiset() == encoded_of(s2).to_multiset(),
    ensures
        s1.to_multiset() == s2.to_multiset(),
    decreases s1.len(),
{
    broadcast use vstd::seq_lib::group_to_multiset_ensures;
    broadcast use vstd::multiset::group_multiset_axioms;

    if s1.len() == 0 {
        assert(encoded_of(s1).len() == 0);
        assert(encoded_of(s2).to_multiset().len() == 0);
        assert(encoded_of(s2).len() == 0);
        assert(s2.len() == 0);
        assert(s1 =~= s2);
    } else {
        let x = s1.last();
        let ex = encode_container(x);
        assert(encoded_of(s1).contains(ex)) by {
            assert(encoded_of(s1)[s1.len() - 1] == ex);
        }
        assert(encoded_of(s2).to_multiset().count(ex) > 0);
        assert(encoded_of(s2).contains(ex));
        let j = choose|j: int| 0 <= j < encoded_of(s2).len() && encoded_of(s2)[j] == ex;
        assert(encode_container(s2[j]) == ex);
        lemma_encode_injective(s2[j], x);
        let s1p = s1.drop_last();
        let s2p = s2.remove(j);
        assert(s1.remove(s1.len() - 1) =~= s1p);
        assert(encoded_of(s1p) =~= encoded_of(s1).remove(s1.len() - 1));
        assert(encoded_of(s2p) =~= encoded_of(s2).remove(j));
        assert(encoded_of(s1p).to_multiset() =~= encoded_of(s1).to_multiset().remove(ex)) by {
            assert(encoded_of(s1).remove(s1.len() - 1).to_multiset() =~= encoded_of(
                s1,
            ).to_multiset().remove(encoded_of(s1)[s1.len() - 1]));
        }
        assert(encoded_of(s2p).to_multiset() =~= encoded_of(s2).to_multiset().remove(ex));
        assert forall|i: int| 0 <= i < s2p.len() implies (#[trigger] s2p[i]).capacity
            <= usize::MAX by {
            if i < j {
                assert(s2p[i] == s2[i]);
            } else {
                assert(s2p[i] == s2[i + 1]);
            }
        }
        lemma_encoded_multiset_inv(s1p, s2p);
        assert(s1p.to_multiset() =~= s1.to_multiset().remove(x));
        assert(s2p.to_multiset() =~= s2.to_multiset().remove(x));
        assert(s2.to_multiset().count(x) > 0) by {
            assert(s2.contains(x)) by {
                assert(s2[j] == x);
            }
        }
        assert(s1.to_multiset().count(x) > 0) by {
            assert(s1.contains(x)) by {
                assert(s1[s1.len() - 1] == x);
            }
        }
        assert forall|y: ContainerModel| s1.to_multiset().count(y) == s2.to_multiset().count(
            y,
        ) by {
            assert(s1p.to_multiset().count(y) == s1.to_multiset().remove(x).count(y));
            assert(s2p.to_multiset().count(y) == s2.to_multiset().remove(x).count(y));
        }
        assert(s1.to_multiset() =~= s2.to_multiset());
    }
}

/// Two machine-sized container lists share one canonical key exactly when
/// they hold one multiset of containers.
pub proof fn lemma_key_eq_iff_multiset_eq(a: Seq<ContainerModel>, b: Seq<ContainerModel>)
    requires
        bounded_models(a),
        bounded_models(b),
    ensures
        (canonical_key_of(a) == canonical_key_of(b)) <==> (a.to_multiset() == b.to_multiset()),
{
    lemma_lex_total_ordering();
    encoded_of(a).lemma_sort_by_ensures(lex_leq_fn());
    encoded_of(b).lemma_sort_by_ensures(lex_leq_fn());
    if a.to_multiset() == b.to_multiset() {
        lemma_encoded_multiset(a, b);
        lemma_sorted_unique(canonical_key_of(a), canonical_key_of(b), lex_leq_fn());
    }
    if canonical_key_of(a) == canonical_key_of(b) {
        assert(encoded_of(a).to_multiset() == encoded_of(b).to_multiset());
        lemma_encoded_multiset_inv(a, b);
    }
}

/// The canonical key ignores container list order: two container lists
/// that hold the same multiset of containers share one canonical key.
pub proof fn lemma_canonical_key_permutation_invariant(
    a: Seq<ContainerModel>,
    b: Seq<ContainerModel>,
)
    requires
        a.to_multiset() == b.to_multiset(),
    ensures
        canonical_key_of(a) == canonical_key_of(b),
{
    lemma_lex_total_ordering();
    lemma_encoded_multiset(a, b);
    encoded_of(a).lemma_sort_by_ensures(lex_leq_fn());
    encoded_of(b).lemma_sort_by_ensures(lex_leq_fn());
    lemma_sorted_unique(canonical_key_of(a), canonical_key_of(b), lex_leq_fn());
}

/// The canonical key tracks content: two machine-sized container lists of
/// equal length that differ in exactly one position's content have
/// different keys.
pub proof fn lemma_canonical_key_content_change(
    a: Seq<ContainerModel>,
    b: Seq<ContainerModel>,
    i: int,
)
    requires
        bounded_models(a),
        bounded_models(b),
        a.len() == b.len(),
        0 <= i < a.len(),
        forall|j: int| 0 <= j < a.len() && j != i ==> (#[trigger] a[j]) == b[j],
        a[i].content != b[i].content,
    ensures
        canonical_key_of(a) != canonical_key_of(b),
{
    broadcast use vstd::multiset::group_multiset_axioms;

    assert(a =~= b.update(i, a[i]));
    vstd::seq_lib::to_multiset_update(b, i, a[i]);
    assert(a[i] != b[i]);
    assert(a.to_multiset().count(a[i]) == b.to_multiset().count(a[i]) + 1);
    lemma_key_eq_iff_multiset_eq(a, b);
}

} // verus!
