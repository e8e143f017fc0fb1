//! The best-first search loop: a priority frontier of scored states and a
//! visited set keyed by canonical state keys.
//!
//! Canonical keys identify states exactly up to a permutation of the
//! container list, and permuted states simulate each other's moves, so
//! deduplicating by key loses no solution: an exhausted frontier proves
//! that no reachable state is solved.

use vstd::prelude::*;

use crate::canonical::{bounded_models, canonical_key_of, lemma_key_eq_iff_multiset_eq};
use crate::container::ContainerModel;
use crate::state::{
    apply_move_to, move_ok, possible_moves, solved_containers, State, StateModel,
};
use crate::transition::Transition;
use crate::with_score::{score_less, score_lt, Score, WithScore};

verus! {

/// The outcome of a bounded best-first search.
pub enum SolveOutcome {
    /// A solved state was reached; its transition history is the answer.
    Solved(State),
    /// The frontier emptied without reaching a solved state: no state
    /// reachable from the start state is solved.
    Exhausted,
    /// The iteration ceiling was hit before the search finished.  This
    /// cannot happen with a ceiling of `u64::MAX`: the search expands
    /// each canonical key at most once, and the visited set's length is
    /// machine-bounded.
    LimitReached,
}

/// The containers obtained by replaying transitions from `cs`, or `None`
/// when some transition in the sequence is illegal where it is applied.
pub open spec fn replay(cs: Seq<ContainerModel>, ts: Seq<Transition>) -> Option<
    Seq<ContainerModel>,
>
    decreases ts.len(),
{
    if ts.len() == 0 {
        Some(cs)
    } else {
        match replay(cs, ts.drop_last()) {
            Some(mid) => {
                if move_ok(mid, ts.last()) {
                    Some(apply_move_to(mid, ts.last()))
                } else {
                    None
                }
            },
            None => None,
        }
    }
}

/// `s` was reached from `s0`: its history extends `s0`'s history, and
/// replaying the added moves from `s0`'s containers is legal at every step
/// and yields exactly `s`'s containers.
pub open spec fn extends_by_replay(s0: StateModel, s: StateModel) -> bool {
    &&& s.transitions.len() >= s0.transitions.len()
    &&& s.transitions.take(s0.transitions.len() as int) == s0.transitions
    &&& replay(s0.containers, s.transitions.skip(s0.transitions.len() as int)) == Some(
        s.containers,
    )
}

/// What holds of every entry in the frontier during a search from `s0`.
pub open spec fn frontier_inv(s0: StateModel, e: WithScore<State, Score>) -> bool {
    &&& e.value@.wf()
    &&& extends_by_replay(s0, e.value@)
    &&& bounded_models(e.value@.containers)
}

/// Some frontier entry carries the given canonical key.
pub open spec fn frontier_covers(
    entries: Seq<WithScore<State, Score>>,
    key: Seq<Seq<usize>>,
) -> bool {
    exists|fi: int|
        0 <= fi < entries.len() && canonical_key_of((#[trigger] entries[fi]).value@.containers)
            == key
}

/// The key has been fully expanded: no state with this key is solved, and
/// every successor of such a state has its key in `vkeys`.
pub open spec fn key_expanded(vkeys: Seq<Seq<Seq<usize>>>, key: Seq<Seq<usize>>) -> bool {
    forall|cs: Seq<ContainerModel>|
        bounded_models(cs) && #[trigger] canonical_key_of(cs) == key ==> {
            &&& !solved_containers(cs)
            &&& forall|t: Transition|
                #[trigger] move_ok(cs, t) ==> vkeys.contains(
                    canonical_key_of(apply_move_to(cs, t)),
                )
        }
}

/// Replaying one more transition applies it to the replay's result.
proof fn lemma_replay_snoc(cs: Seq<ContainerModel>, ts: Seq<Transition>, t: Transition)
    ensures
        replay(cs, ts.push(t)) == (match replay(cs, ts) {
            Some(mid) => if move_ok(mid, t) {
                Some(apply_move_to(mid, t))
            } else {
                None::<Seq<ContainerModel>>
            },
            None => None::<Seq<ContainerModel>>,
        }),
{
    assert(ts.push(t).drop_last() =~= ts);
    assert(ts.push(t).last() == t);
}

/// One pour keeps the container count and every capacity.
proof fn lemma_apply_bounded(cs: Seq<ContainerModel>, t: Transition)
    requires
        bounded_models(cs),
        move_ok(cs, t),
    ensures
        bounded_models(apply_move_to(cs, t)),
{
    let a = apply_move_to(cs, t);
    assert forall|i: int| 0 <= i < a.len() implies (#[trigger] a[i]).capacity <= usize::MAX by {
        if i != t.pour_from as int && i != t.pour_into as int {
            assert(a[i] == cs[i]);
        }
    }
}

/// Solvedness depends only on the multiset of containers.
proof fn lemma_solved_transfer_one(cs1: Seq<ContainerModel>, cs2: Seq<ContainerModel>)
    requires
        cs1.to_multiset() == cs2.to_multiset(),
        solved_containers(cs1),
    ensures
        solved_containers(cs2),
{
    broadcast use vstd::seq_lib::group_to_multiset_ensures;

    assert forall|i: int| 0 <= i < cs2.len() implies {
        &&& ((#[trigger] cs2[i]).is_empty() || cs2[i].is_sorted())
        &&& !(cs2[i].must_fill() && cs2[i].is_empty())
        &&& !(cs2[i].must_empty() && !cs2[i].is_empty())
    } by {
        let c = cs2[i];
        assert(cs2.contains(c));
        assert(cs2.to_multiset().count(c) > 0);
        assert(cs1.to_multiset().count(c) > 0);
        assert(cs1.contains(c));
        let k = choose|k: int| 0 <= k < cs1.len() && cs1[k] == c;
        assert(cs1[k].is_empty() || cs1[k].is_sorted());
        assert(!(cs1[k].must_fill() && cs1[k].is_empty()));
        assert(!(cs1[k].must_empty() && !cs1[k].is_empty()));
    }
}

proof fn lemma_solved_transfer(cs1: Seq<ContainerModel>, cs2: Seq<ContainerModel>)
    requires
        cs1.to_multiset() == cs2.to_multiset(),
    ensures
        solved_containers(cs1) == solved_containers(cs2),
{
    if solved_containers(cs1) {
        lemma_solved_transfer_one(cs1, cs2);
    }
    if solved_containers(cs2) {
        lemma_solved_transfer_one(cs2, cs1);
    }
}

/// Two distinct positions holding the values that the multiset facts
/// promise.
proof fn lemma_two_indices(s: Seq<ContainerModel>, x: ContainerModel, y: ContainerModel) -> (r: (
    int,
    int,
))
    requires
        s.to_multiset().count(x) >= 1,
        s.to_multiset().remove(x).count(y) >= 1,
    ensures
        0 <= r.0 < s.len(),
        0 <= r.1 < s.len(),
        r.0 != r.1,
        s[r.0] == x,
        s[r.1] == y,
{
    broadcast use vstd::seq_lib::group_to_multiset_ensures;
    broadcast use vstd::multiset::group_multiset_axioms;

    assert(s.contains(x));
    let i = choose|i: int| 0 <= i < s.len() && s[i] == x;
    let sp = s.remove(i);
    assert(sp.to_multiset() =~= s.to_multiset().remove(x));
    assert(sp.to_multiset().count(y) >= 1);
    assert(sp.contains(y));
    let jp = choose|j: int| 0 <= j < sp.len() && sp[j] == y;
    let j = if jp < i {
        jp
    } else {
        jp + 1
    };
    assert(s[j] == y);
    (i, j)
}

/// The multiset effect of one pour: the source and destination are
/// replaced by their post-pour values.
proof fn lemma_apply_ms(cs: Seq<ContainerModel>, t: Transition)
    requires
        move_ok(cs, t),
    ensures
        ({
            let src = cs[t.pour_from as int];
            let dst = cs[t.pour_into as int];
            apply_move_to(cs, t).to_multiset() == cs.to_multiset().insert(
                src.after_pour_source(dst),
            ).remove(src).insert(src.after_pour_dest(dst)).remove(dst)
        }),
{
    broadcast use vstd::multiset::group_multiset_axioms;

    let f = t.pour_from as int;
    let g = t.pour_into as int;
    let src = cs[f];
    let dst = cs[g];
    let mid = cs.update(f, src.after_pour_source(dst));
    vstd::seq_lib::to_multiset_update(cs, f, src.after_pour_source(dst));
    assert(mid[g] == dst);
    vstd::seq_lib::to_multiset_update(mid, g, src.after_pour_dest(dst));
    assert(apply_move_to(cs, t) == mid.update(g, src.after_pour_dest(dst)));
}

/// Any legal move of one container list can be matched on any other list
/// holding the same multiset of containers, with multiset-equal results:
/// permuted states simulate each other.
proof fn lemma_move_transfer(
    cs1: Seq<ContainerModel>,
    cs2: Seq<ContainerModel>,
    t1: Transition,
) -> (t2: Transition)
    requires
        cs1.to_multiset() == cs2.to_multiset(),
        move_ok(cs1, t1),
        cs2.len() <= usize::MAX,
    ensures
        move_ok(cs2, t2),
        apply_move_to(cs2, t2).to_multiset() == apply_move_to(cs1, t1).to_multiset(),
{
    broadcast use vstd::seq_lib::group_to_multiset_ensures;
    broadcast use vstd::multiset::group_multiset_axioms;

    let f = t1.pour_from as int;
    let g = t1.pour_into as int;
    let src = cs1[f];
    let dst = cs1[g];
    assert(cs1.to_multiset().count(src) >= 1) by {
        assert(cs1.contains(src));
    }
    let cs1p = cs1.remove(f);
    assert(cs1p.to_multiset() =~= cs1.to_multiset().remove(src));
    let gadj = if g < f {
        g
    } else {
        g - 1
    };
    assert(cs1p[gadj] == dst);
    assert(cs1p.contains(dst));
    assert(cs1p.to_multiset().count(dst) >= 1);
    let (i, j) = lemma_two_indices(cs2, src, dst);
    let t2 = Transition { pour_from: i as usize, pour_into: j as usize };
    assert(t2.pour_from == i && t2.pour_into == j);
    assert(move_ok(cs2, t2));
    lemma_apply_ms(cs1, t1);
    lemma_apply_ms(cs2, t2);
    t2
}

/// Containment in a key list survives appending further keys.
proof fn lemma_contains_monotone(
    v0: Seq<Seq<Seq<usize>>>,
    v1: Seq<Seq<Seq<usize>>>,
    x: Seq<Seq<usize>>,
)
    requires
        v0.is_prefix_of(v1),
        v0.contains(x),
    ensures
        v1.contains(x),
{
    let i = choose|i: int| 0 <= i < v0.len() && v0[i] == x;
    assert(v1[i] == x);
}

/// An expanded key stays expanded as the visited set grows.
proof fn lemma_expanded_monotone(
    v0: Seq<Seq<Seq<usize>>>,
    v1: Seq<Seq<Seq<usize>>>,
    key: Seq<Seq<usize>>,
)
    requires
        v0.is_prefix_of(v1),
        key_expanded(v0, key),
    ensures
        key_expanded(v1, key),
{
    assert forall|cs: Seq<ContainerModel>|
        bounded_models(cs) && #[trigger] canonical_key_of(cs) == key implies {
        &&& !solved_containers(cs)
        &&& forall|t: Transition|
            #[trigger] move_ok(cs, t) ==> v1.contains(canonical_key_of(apply_move_to(cs, t)))
    } by {
        assert(!solved_containers(cs));
        assert forall|t: Transition| #[trigger] move_ok(cs, t) implies v1.contains(
            canonical_key_of(apply_move_to(cs, t)),
        ) by {
            assert(v0.contains(canonical_key_of(apply_move_to(cs, t))));
            lemma_contains_monotone(v0, v1, canonical_key_of(apply_move_to(cs, t)));
        }
    }
}

/// A fully expanded visited set blocks every replay: whatever legal moves
/// are played from a state whose key it holds, the result's key stays
/// inside and the result is never solved.
proof fn lemma_expanded_set_blocks(
    vkeys: Seq<Seq<Seq<usize>>>,
    cs0: Seq<ContainerModel>,
    ts: Seq<Transition>,
    csr: Seq<ContainerModel>,
)
    requires
        bounded_models(cs0),
        vkeys.contains(canonical_key_of(cs0)),
        forall|ki: int| 0 <= ki < vkeys.len() ==> key_expanded(vkeys, #[trigger] vkeys[ki]),
        replay(cs0, ts) == Some(csr),
    ensures
        vkeys.contains(canonical_key_of(csr)),
        !solved_containers(csr),
        bounded_models(csr),
    decreases ts.len(),
{
    if ts.len() == 0 {
        assert(csr == cs0);
        let ki = choose|ki: int| 0 <= ki < vkeys.len() && vkeys[ki] == canonical_key_of(cs0);
        assert(key_expanded(vkeys, vkeys[ki]));
        assert(!solved_containers(cs0));
    } else {
        let midc = choose|c: Seq<ContainerModel>| replay(cs0, ts.drop_last()) == Some(c);
        assert(replay(cs0, ts.drop_last()) == Some(midc));
        lemma_expanded_set_blocks(vkeys, cs0, ts.drop_last(), midc);
        let t = ts.last();
        assert(move_ok(midc, t));
        assert(csr == apply_move_to(midc, t));
        lemma_apply_bounded(midc, t);
        let ki = choose|ki: int| 0 <= ki < vkeys.len() && vkeys[ki] == canonical_key_of(midc);
        assert(key_expanded(vkeys, vkeys[ki]));
        assert(vkeys.contains(canonical_key_of(csr)));
        let kj = choose|kj: int| 0 <= kj < vkeys.len() && vkeys[kj] == canonical_key_of(csr);
        assert(key_expanded(vkeys, vkeys[kj]));
        assert(!solved_containers(csr));
    }
}

/// Whether position `idx` holds the earliest entry with a maximal score:
/// no entry beats it, and it strictly beats every earlier entry.
pub open spec fn first_maximal(entries: Seq<WithScore<State, Score>>, idx: int) -> bool {
    &&& 0 <= idx < entries.len()
    &&& forall|i: int|
        0 <= i < entries.len() ==> !score_lt(entries[idx].score, (#[trigger] entries[i]).score)
    &&& forall|i: int| 0 <= i < idx ==> score_lt((#[trigger] entries[i]).score, entries[idx].score)
}

/// Removes and returns the earliest entry with a maximal score: ties are
/// broken by insertion order, and the rest of the frontier is untouched.
#[verifier::loop_isolation(false)]
fn pop_best(frontier: &mut Vec<WithScore<State, Score>>) -> (r: WithScore<State, Score>)
    requires
        old(frontier)@.len() > 0,
    ensures
        exists|idx: int|
            {
                &&& first_maximal(old(frontier)@, idx)
                &&& r == old(frontier)@[idx]
                &&& final(frontier)@ == old(frontier)@.remove(idx)
            },
{
    let mut best: usize = 0;
    let mut j: usize = 1;
    while j < frontier.len()
        invariant
            1 <= j <= frontier@.len(),
            best < j,
            frontier@ == old(frontier)@,
            forall|i: int|
                0 <= i < j ==> !score_lt(
                    frontier@[best as int].score,
                    (#[trigger] frontier@[i]).score,
                ),
            forall|i: int|
                0 <= i < best ==> score_lt(
                    (#[trigger] frontier@[i]).score,
                    frontier@[best as int].score,
                ),
        decreases frontier@.len() - j,
    {
        if score_less(&frontier[best].score, &frontier[j].score) {
            best = j;
        }
        j += 1;
    }
    let ghost idx = best as int;
    let r = frontier.remove(best);
    proof {
        assert(first_maximal(old(frontier)@, idx));
        assert(r == old(frontier)@[idx]);
        assert(final(frontier)@ == old(frontier)@.remove(idx));
    }
    r
}

/// Whether two color sequences are equal.
#[verifier::loop_isolation(false)]
fn vecs_equal(a: &Vec<usize>, b: &Vec<usize>) -> (r: bool)
    ensures
        r == (a@ == b@),
{
    if a.len() != b.len() {
        return false;
    }
    let mut i: usize = 0;
    while i < a.len()
        invariant
            i <= a@.len(),
            a@.len() == b@.len(),
            forall|j: int| 0 <= j < i ==> a@[j] == b@[j],
        decreases a@.len() - i,
    {
        if a[i] != b[i] {
            return false;
        }
        i += 1;
    }
    proof {
        assert(a@ =~= b@);
    }
    true
}

/// Whether two canonical keys are equal.
#[verifier::loop_isolation(false)]
fn keys_equal(a: &Vec<Vec<usize>>, b: &Vec<Vec<usize>>) -> (r: bool)
    ensures
        r == (a.deep_view() == b.deep_view()),
{
    if a.len() != b.len() {
        proof {
            assert(a.deep_view().len() != b.deep_view().len());
        }
        return false;
    }
    let mut i: usize = 0;
    while i < a.len()
        invariant
            i <= a@.len(),
            a@.len() == b@.len(),
            forall|j: int| 0 <= j < i ==> a.deep_view()[j] == b.deep_view()[j],
        decreases a@.len() - i,
    {
        proof {
            assert(a.deep_view()[i as int] =~= a@[i as int]@);
            assert(b.deep_view()[i as int] =~= b@[i as int]@);
        }
        if !vecs_equal(&a[i], &b[i]) {
            return false;
        }
        i += 1;
    }
    proof {
        assert(a.deep_view() =~= b.deep_view());
    }
    true
}

/// Whether a canonical key is already present in the visited set.
#[verifier::loop_isolation(false)]
fn contains_key(visited: &Vec<Vec<Vec<usize>>>, key: &Vec<Vec<usize>>) -> (r: bool)
    ensures
        r == visited.deep_view().contains(key.deep_view()),
{
    let mut i: usize = 0;
    while i < visited.len()
        invariant
            i <= visited@.len(),
            forall|j: int| 0 <= j < i ==> visited.deep_view()[j] != key.deep_view(),
        decreases visited@.len() - i,
    {
        proof {
            assert(visited.deep_view()[i as int] == visited@[i as int].deep_view());
        }
        if keys_equal(&visited[i], key) {
            proof {
                assert(visited.deep_view()[i as int] == key.deep_view());
            }
            return true;
        }
        i += 1;
    }
    false
}

impl State {
    /// Best-first search from this state, expanding at most `limit`
    /// states.  A solved result is reachable from this state by exactly
    /// the moves its history appends; an exhausted frontier proves that no
    /// reachable state is solved; a search from an already-solved state
    /// returns that state unchanged whenever at least one expansion is
    /// allowed.  The ceiling can only be hit when it is below `u64::MAX`.
    #[verifier::loop_isolation(false)]
    pub fn solve_bounded(&self, optimal: bool, limit: u64) -> (r: SolveOutcome)
        requires
            self@.wf(),
        ensures
            r matches SolveOutcome::Solved(s) ==> s@.wf() && s@.is_solved() && extends_by_replay(
                self@,
                s@,
            ),
            self@.is_solved() && limit >= 1 ==> (r matches SolveOutcome::Solved(s) && s@
                == self@),
            r matches SolveOutcome::Exhausted ==> (forall|m: StateModel|
                extends_by_replay(self@, m) ==> !m.is_solved()),
            r matches SolveOutcome::LimitReached ==> limit < u64::MAX,
    {
        let n0 = self.containers.len();
        proof {
            assert(bounded_models(self@.containers)) by {
                assert(self@.containers.len() == n0 as int);
                assert forall|i: int| 0 <= i < self@.containers.len() implies (
                #[trigger] self@.containers[i]).capacity <= usize::MAX by {
                    assert(self@.containers[i] == self.containers@[i]@);
                }
            }
        }
        let mut frontier: Vec<WithScore<State, Score>> = Vec::new();
        let mut visited: Vec<Vec<Vec<usize>>> = Vec::new();
        let score = self.get_score(optimal);
        frontier.push(WithScore::new(self.clone(), score));
        let key0 = self.canonical_key();
        visited.push(key0);
        proof {
            assert(self@.transitions.take(self@.transitions.len() as int) =~= self@.transitions);
            assert(self@.transitions.skip(self@.transitions.len() as int) =~= Seq::<
                Transition,
            >::empty());
            assert(extends_by_replay(self@, self@));
            assert(visited.deep_view()[0] == canonical_key_of(self@.containers));
            assert(visited.deep_view().contains(canonical_key_of(self@.containers)));
            assert(frontier_covers(frontier@, visited.deep_view()[0])) by {
                assert(canonical_key_of(frontier@[0].value@.containers) == visited.deep_view()[0]);
            }
        }
        let mut steps: u64 = 0;
        while frontier.len() > 0
            invariant
                steps <= limit,
                frontier@.len() + steps == visited@.len(),
                forall|i: int|
                    0 <= i < frontier@.len() ==> frontier_inv(self@, #[trigger] frontier@[i]),
                visited.deep_view().contains(canonical_key_of(self@.containers)),
                forall|ki: int|
                    0 <= ki < visited.deep_view().len() ==> frontier_covers(
                        frontier@,
                        #[trigger] visited.deep_view()[ki],
                    ) || key_expanded(visited.deep_view(), visited.deep_view()[ki]),
                self@.is_solved() ==> steps == 0 && frontier@.len() == 1 && frontier@[0].value@
                    == self@,
            decreases limit - steps,
        {
            if steps >= limit {
                let vn = visited.len();
                proof {
                    assert(vn == visited@.len());
                    assert(visited@.len() >= limit + 1);
                    assert(limit < u64::MAX);
                }
                return SolveOutcome::LimitReached;
            }
            steps += 1;
            let ghost frontier0 = frontier@;
            let ghost vkeys0 = visited.deep_view();
            let top = pop_best(&mut frontier);
            let ghost cur = top.value@;
            let ghost k_e = canonical_key_of(cur.containers);
            proof {
                let idx = choose|i: int|
                    first_maximal(frontier0, i) && top == frontier0[i] && frontier@
                        == frontier0.remove(i);
                assert(frontier_inv(self@, frontier0[idx]));
                assert(frontier_inv(self@, top));
                assert forall|i: int| 0 <= i < frontier@.len() implies frontier_inv(
                    self@,
                    #[trigger] frontier@[i],
                ) by {
                    if i < idx {
                        assert(frontier@[i] == frontier0[i]);
                    } else {
                        assert(frontier@[i] == frontier0[i + 1]);
                    }
                }
                assert forall|ki: int| 0 <= ki < vkeys0.len() implies frontier_covers(
                    frontier@,
                    #[trigger] vkeys0[ki],
                ) || key_expanded(vkeys0, vkeys0[ki]) || vkeys0[ki] == k_e by {
                    if frontier_covers(frontier0, vkeys0[ki]) {
                        let fi = choose|fi: int|
                            0 <= fi < frontier0.len() && canonical_key_of(
                                frontier0[fi].value@.containers,
                            ) == vkeys0[ki];
                        if fi == idx {
                            assert(vkeys0[ki] == k_e);
                        } else if fi < idx {
                            assert(frontier@[fi] == frontier0[fi]);
                            assert(frontier_covers(frontier@, vkeys0[ki]));
                        } else {
                            assert(frontier@[fi - 1] == frontier0[fi]);
                            assert(frontier_covers(frontier@, vkeys0[ki]));
                        }
                    }
                }
            }
            if top.value().is_solved() {
                let solved = top.value().clone();
                return SolveOutcome::Solved(solved);
            }
            let children = top.value().get_possible_states();
            let ghost moves = possible_moves(cur.containers);
            let mut k: usize = 0;
            while k < children.len()
                invariant
                    k <= children@.len(),
                    vkeys0.is_prefix_of(visited.deep_view()),
                    frontier@.len() + steps == visited@.len(),
                    forall|i: int|
                        0 <= i < frontier@.len() ==> frontier_inv(self@, #[trigger] frontier@[i]),
                    visited.deep_view().contains(canonical_key_of(self@.containers)),
                    forall|ki: int|
                        0 <= ki < visited.deep_view().len() ==> frontier_covers(
                            frontier@,
                            #[trigger] visited.deep_view()[ki],
                        ) || key_expanded(visited.deep_view(), visited.deep_view()[ki])
                            || visited.deep_view()[ki] == k_e,
                    forall|kp: int|
                        0 <= kp < k ==> visited.deep_view().contains(
                            canonical_key_of(apply_move_to(cur.containers, #[trigger] moves[kp])),
                        ),
                decreases children@.len() - k,
            {
                let ghost vkeys_in = visited.deep_view();
                let ghost frontier_in = frontier@;
                let child = &children[k];
                let key = child.canonical_key();
                proof {
                    assert(child@ == cur.apply_move(moves[k as int]));
                    assert(key.deep_view() == canonical_key_of(
                        apply_move_to(cur.containers, moves[k as int]),
                    ));
                }
                if !contains_key(&visited, &key) {
                    visited.push(key);
                    let sc = child.get_score(optimal);
                    let entry = WithScore::new(child.clone(), sc);
                    proof {
                        let t = moves[k as int];
                        let len0 = self@.transitions.len() as int;
                        assert(child@.transitions =~= cur.transitions.push(t));
                        assert(child@.transitions.take(len0) =~= cur.transitions.take(len0));
                        assert(child@.transitions.skip(len0) =~= cur.transitions.skip(len0).push(
                            t,
                        ));
                        lemma_replay_snoc(self@.containers, cur.transitions.skip(len0), t);
                        assert(extends_by_replay(self@, child@));
                        lemma_apply_bounded(cur.containers, t);
                        assert(frontier_inv(self@, entry));
                    }
                    frontier.push(entry);
                    proof {
                        let vkeys1 = visited.deep_view();
                        assert(frontier@ =~= frontier_in.push(entry));
                        assert(vkeys1 =~= vkeys_in.push(canonical_key_of(
                            apply_move_to(cur.containers, moves[k as int]),
                        )));
                        assert(vkeys_in.is_prefix_of(vkeys1)) by {
                            assert(vkeys_in =~= vkeys1.take(vkeys_in.len() as int));
                        }
                        assert(vkeys0.is_prefix_of(vkeys1)) by {
                            assert(vkeys0 =~= vkeys1.take(vkeys0.len() as int));
                        }
                        lemma_contains_monotone(
                            vkeys_in,
                            vkeys1,
                            canonical_key_of(self@.containers),
                        );
                        assert forall|ki: int| 0 <= ki < vkeys1.len() implies frontier_covers(
                            frontier@,
                            #[trigger] vkeys1[ki],
                        ) || key_expanded(vkeys1, vkeys1[ki]) || vkeys1[ki] == k_e by {
                            if ki < vkeys_in.len() {
                                assert(vkeys1[ki] == vkeys_in[ki]);
                                if frontier_covers(frontier_in, vkeys_in[ki]) {
                                    let fi = choose|fi: int|
                                        0 <= fi < frontier_in.len() && canonical_key_of(
                                            frontier_in[fi].value@.containers,
                                        ) == vkeys_in[ki];
                                    assert(frontier@[fi] == frontier_in[fi]);
                                    assert(frontier_covers(frontier@, vkeys1[ki]));
                                } else if key_expanded(vkeys_in, vkeys_in[ki]) {
                                    lemma_expanded_monotone(vkeys_in, vkeys1, vkeys_in[ki]);
                                }
                            } else {
                                assert(vkeys1[ki] == canonical_key_of(entry.value@.containers));
                                assert(frontier@[frontier@.len() - 1] == entry);
                                assert(frontier_covers(frontier@, vkeys1[ki]));
                            }
                        }
                        assert forall|kp: int| 0 <= kp < k + 1 implies visited.deep_view().contains(
                            canonical_key_of(apply_move_to(cur.containers, #[trigger] moves[kp])),
                        ) by {
                            if kp < k as int {
                                lemma_contains_monotone(
                                    vkeys_in,
                                    vkeys1,
                                    canonical_key_of(apply_move_to(cur.containers, moves[kp])),
                                );
                            } else {
                                assert(vkeys1[vkeys1.len() - 1] == canonical_key_of(
                                    apply_move_to(cur.containers, moves[kp]),
                                ));
                            }
                        }
                    }
                } else {
                    proof {
                        assert(visited.deep_view().contains(canonical_key_of(
                            apply_move_to(cur.containers, moves[k as int]),
                        )));
                    }
                }
                k += 1;
            }
            proof {
                let vk = visited.deep_view();
                assert forall|cs: Seq<ContainerModel>|
                    bounded_models(cs) && #[trigger] canonical_key_of(cs) == k_e implies {
                    &&& !solved_containers(cs)
                    &&& forall|t: Transition|
                        #[trigger] move_ok(cs, t) ==> vk.contains(
                            canonical_key_of(apply_move_to(cs, t)),
                        )
                } by {
                    lemma_key_eq_iff_multiset_eq(cs, cur.containers);
                    assert(cs.to_multiset() == cur.containers.to_multiset());
                    lemma_solved_transfer(cs, cur.containers);
                    assert(!solved_containers(cs));
                    assert forall|t: Transition| #[trigger] move_ok(cs, t) implies vk.contains(
                        canonical_key_of(apply_move_to(cs, t)),
                    ) by {
                        let t2 = lemma_move_transfer(cs, cur.containers, t);
                        crate::state::lemma_possible_moves_complete(cur.containers, t2);
                        let kidx = choose|ki: int|
                            0 <= ki < moves.len() && moves[ki] == t2;
                        assert(vk.contains(canonical_key_of(
                            apply_move_to(cur.containers, moves[kidx]),
                        )));
                        lemma_apply_bounded(cs, t);
                        lemma_apply_bounded(cur.containers, t2);
                        lemma_key_eq_iff_multiset_eq(
                            apply_move_to(cs, t),
                            apply_move_to(cur.containers, t2),
                        );
                        assert(canonical_key_of(apply_move_to(cs, t)) == canonical_key_of(
                            apply_move_to(cur.containers, t2),
                        ));
                    }
                }
                assert(key_expanded(vk, k_e));
                assert forall|ki: int| 0 <= ki < vk.len() implies frontier_covers(
                    frontier@,
                    #[trigger] vk[ki],
                ) || key_expanded(vk, vk[ki]) by {
                    if vk[ki] == k_e {
                        assert(key_expanded(vk, vk[ki]));
                    }
                }
            }
        }
        proof {
            let vk = visited.deep_view();
            assert forall|ki: int| 0 <= ki < vk.len() implies key_expanded(
                vk,
                #[trigger] vk[ki],
            ) by {
                assert(!frontier_covers(frontier@, vk[ki]));
            }
            assert forall|m: StateModel| extends_by_replay(self@, m) implies !m.is_solved() by {
                let ts = m.transitions.skip(self@.transitions.len() as int);
                lemma_expanded_set_blocks(vk, self@.containers, ts, m.containers);
            }
        }
        SolveOutcome::Exhausted
    }

    /// Finds a solved state reachable from this one, or `None` exactly
    /// when no reachable state is solved.  Pass `true` to search for a
    /// short solution with a distance heuristic, `false` for a greedy
    /// search that maximizes sorted containers first.
    pub fn solve(&self, optimal: bool) -> (r: Option<State>)
        requires
            self@.wf(),
        ensures
            r matches Some(s) ==> s@.wf() && s@.is_solved() && extends_by_replay(self@, s@),
            self@.is_solved() ==> (r matches Some(s) && s@ == self@),
            r is None ==> (forall|m: StateModel| extends_by_replay(self@, m) ==> !m.is_solved()),
    {
        match self.solve_bounded(optimal, u64::MAX) {
            SolveOutcome::Solved(s) => Some(s),
            SolveOutcome::Exhausted => None,
            SolveOutcome::LimitReached => {
                proof {
                    assert(false);
                }
                None
            },
        }
    }
}

} // verus!
