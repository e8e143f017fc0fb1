//! The immutable snapshot of all containers plus the move history that
//! produced it: move generation, solved-check and scoring.

use vstd::prelude::*;

use crate::container::{Container, ContainerConstraint, ContainerModel};
use crate::errors::PuzzleError;
use crate::transition::Transition;
use crate::with_score::Score;

verus! {

/// The mathematical model of a state: the container models in list order
/// and the transitions applied since the initial state.
pub struct StateModel {
    pub containers: Seq<ContainerModel>,
    pub transitions: Seq<Transition>,
}

/// How many containers of `s` satisfy `p`.
pub open spec fn count_matching(s: Seq<ContainerModel>, p: spec_fn(ContainerModel) -> bool) -> nat
    decreases s.len(),
{
    if s.len() == 0 {
        0
    } else {
        count_matching(s.drop_last(), p) + if p(s.last()) {
            1nat
        } else {
            0nat
        }
    }
}

pub open spec fn is_empty_pred() -> spec_fn(ContainerModel) -> bool {
    |c: ContainerModel| c.is_empty()
}

pub open spec fn is_sorted_pred() -> spec_fn(ContainerModel) -> bool {
    |c: ContainerModel| c.is_sorted()
}

pub open spec fn empty_or_sorted_pred() -> spec_fn(ContainerModel) -> bool {
    |c: ContainerModel| c.is_empty() || c.is_sorted()
}

pub open spec fn unsorted_pred() -> spec_fn(ContainerModel) -> bool {
    |c: ContainerModel| !c.is_empty() && !c.is_sorted()
}

pub open spec fn fill_satisfied_pred() -> spec_fn(ContainerModel) -> bool {
    |c: ContainerModel| c.must_fill() && c.is_sorted()
}

pub open spec fn empty_satisfied_pred() -> spec_fn(ContainerModel) -> bool {
    |c: ContainerModel| c.must_empty() && c.is_empty()
}

pub open spec fn must_empty_tagged_pred() -> spec_fn(ContainerModel) -> bool {
    |c: ContainerModel| c.must_empty()
}

pub open spec fn empty_count_of(s: Seq<ContainerModel>) -> nat {
    count_matching(s, is_empty_pred())
}

pub open spec fn sorted_count_of(s: Seq<ContainerModel>) -> nat {
    count_matching(s, is_sorted_pred())
}

/// Containers whose must-fill constraint is satisfied (sorted).
pub open spec fn fill_satisfied_count_of(s: Seq<ContainerModel>) -> nat {
    count_matching(s, fill_satisfied_pred())
}

/// Containers whose must-empty constraint is satisfied (empty).
pub open spec fn empty_satisfied_count_of(s: Seq<ContainerModel>) -> nat {
    count_matching(s, empty_satisfied_pred())
}

/// Containers tagged with the must-empty constraint, satisfied or not.
pub open spec fn must_empty_tagged_count_of(s: Seq<ContainerModel>) -> nat {
    count_matching(s, must_empty_tagged_pred())
}

/// Containers that are neither empty nor sorted: the remaining work the
/// scoring heuristic estimates.
pub open spec fn unsorted_count_of(s: Seq<ContainerModel>) -> nat {
    count_matching(s, unsorted_pred())
}

/// Counting a one-longer prefix adds the one container's contribution.
pub proof fn lemma_count_take_step(
    s: Seq<ContainerModel>,
    p: spec_fn(ContainerModel) -> bool,
    i: int,
)
    requires
        0 <= i < s.len(),
    ensures
        count_matching(s.take(i + 1), p) == count_matching(s.take(i), p) + if p(s[i]) {
            1int
        } else {
            0int
        },
{
    assert(s.take(i + 1).drop_last() =~= s.take(i));
    assert(s.take(i + 1).last() == s[i]);
}

/// A count of matching containers never exceeds the container count.
pub proof fn lemma_count_le_len(s: Seq<ContainerModel>, p: spec_fn(ContainerModel) -> bool)
    ensures
        count_matching(s, p) <= s.len(),
    decreases s.len(),
{
    if s.len() > 0 {
        lemma_count_le_len(s.drop_last(), p);
    }
}

/// All containers match exactly when the matching count is the length.
pub proof fn lemma_count_all(s: Seq<ContainerModel>, p: spec_fn(ContainerModel) -> bool)
    ensures
        count_matching(s, p) == s.len() <==> (forall|i: int|
            0 <= i < s.len() ==> p(#[trigger] s[i])),
    decreases s.len(),
{
    if s.len() > 0 {
        let d = s.drop_last();
        lemma_count_all(d, p);
        lemma_count_le_len(d, p);
        if count_matching(s, p) == s.len() {
            assert forall|i: int| 0 <= i < s.len() implies p(#[trigger] s[i]) by {
                if i < s.len() - 1 {
                    assert(p(d[i]));
                }
            }
        } else {
            if forall|i: int| 0 <= i < s.len() ==> p(#[trigger] s[i]) {
                assert forall|i: int| 0 <= i < d.len() implies p(#[trigger] d[i]) by {
                    assert(d[i] == s[i]);
                }
                assert(p(s.last()));
                assert(false);
            }
        }
    }
}

/// Counts of two mutually exclusive predicates add up to the count of
/// their disjunction.
pub proof fn lemma_count_disjoint_sum(
    s: Seq<ContainerModel>,
    p: spec_fn(ContainerModel) -> bool,
    q: spec_fn(ContainerModel) -> bool,
    pq: spec_fn(ContainerModel) -> bool,
)
    requires
        forall|c: ContainerModel| !(#[trigger] p(c) && #[trigger] q(c)),
        forall|c: ContainerModel| #[trigger] pq(c) == (p(c) || q(c)),
    ensures
        count_matching(s, p) + count_matching(s, q) == count_matching(s, pq),
    decreases s.len(),
{
    if s.len() > 0 {
        lemma_count_disjoint_sum(s.drop_last(), p, q, pq);
    }
}

/// The solved condition on a container list: every container is empty or
/// sorted, no must-fill container is empty, and no must-empty container
/// is non-empty.
pub open spec fn solved_containers(cs: Seq<ContainerModel>) -> bool {
    &&& forall|i: int|
        0 <= i < cs.len() ==> ((#[trigger] cs[i]).is_empty() || cs[i].is_sorted())
    &&& forall|i: int|
        0 <= i < cs.len() ==> !((#[trigger] cs[i]).must_fill() && cs[i].is_empty())
    &&& forall|i: int|
        0 <= i < cs.len() ==> !((#[trigger] cs[i]).must_empty() && !cs[i].is_empty())
}

impl StateModel {
    /// Structural validity: every container is within its capacity.
    pub open spec fn wf(self) -> bool {
        forall|i: int| 0 <= i < self.containers.len() ==> (#[trigger] self.containers[i]).wf()
    }

    /// Solved: every container is empty or sorted, no must-fill container
    /// is empty, and no must-empty container is non-empty.
    pub open spec fn is_solved(self) -> bool {
        solved_containers(self.containers)
    }

    /// Legality of one transition against this state's containers.
    pub open spec fn valid_move(self, t: Transition) -> bool {
        move_ok(self.containers, t)
    }

    /// The state after one pour, with the move appended to the history.
    pub open spec fn apply_move(self, t: Transition) -> StateModel {
        StateModel {
            containers: apply_move_to(self.containers, t),
            transitions: self.transitions.push(t),
        }
    }
}

/// Solved-state characterization by counting: a state is solved exactly
/// when its empty and sorted containers together account for every
/// container, no must-fill container is empty, and no must-empty container
/// is non-empty.
pub proof fn lemma_solved_counts(s: StateModel)
    ensures
        s.is_solved() <==> {
            &&& empty_count_of(s.containers) + sorted_count_of(s.containers)
                == s.containers.len()
            &&& forall|i: int|
                0 <= i < s.containers.len() ==> !((#[trigger] s.containers[i]).must_fill()
                    && s.containers[i].is_empty())
            &&& forall|i: int|
                0 <= i < s.containers.len() ==> !((#[trigger] s.containers[i]).must_empty()
                    && !s.containers[i].is_empty())
        },
{
    let p = is_empty_pred();
    let q = is_sorted_pred();
    let pq = empty_or_sorted_pred();
    assert forall|c: ContainerModel| !(#[trigger] p(c) && #[trigger] q(c)) by {
        if p(c) {
            assert(!c.is_sorted());
        }
    }
    lemma_count_disjoint_sum(s.containers, p, q, pq);
    lemma_count_all(s.containers, pq);
}

/// The model of an unconstrained empty scratch container.
pub open spec fn scratch_model(capacity: usize) -> ContainerModel {
    ContainerModel {
        content: Seq::empty(),
        capacity: capacity as nat,
        constraint: ContainerConstraint::Unconstrained,
    }
}

/// A snapshot of all containers plus the ordered history of transitions
/// that produced it from the initial configuration.  Entirely immutable:
/// every transformation returns a new state.
pub struct State {
    pub containers: Vec<Container>,
    pub transitions: Vec<Transition>,
}

impl View for State {
    type V = StateModel;

    open spec fn view(&self) -> StateModel {
        StateModel {
            containers: self.containers@.map_values(|c: Container| c@),
            transitions: self.transitions@,
        }
    }
}

impl Clone for State {
    fn clone(&self) -> (r: Self)
        ensures
            r@ == self@,
    {
        let r = State { containers: self.containers.clone(), transitions: self.transitions.clone() };
        proof {
            assert(r.containers@.map_values(|c: Container| c@) =~= self.containers@.map_values(
                |c: Container| c@,
            ));
            assert(r.transitions@ =~= self.transitions@);
        }
        r
    }
}

impl State {
    /// Builds the initial state from the parsed containers, appending two
    /// unconstrained empty scratch containers of the same capacity.  Fails
    /// when more than two containers carry the must-empty constraint.
    pub fn new(containers: Vec<Container>, capacity: usize) -> (r: Result<State, PuzzleError>)
        ensures
            must_empty_tagged_count_of(containers@.map_values(|c: Container| c@)) <= 2 ==> (r
                matches Ok(s) && s@ == (StateModel {
                containers: containers@.map_values(|c: Container| c@) + seq![
                    scratch_model(capacity),
                    scratch_model(capacity),
                ],
                transitions: Seq::<Transition>::empty(),
            })),
            must_empty_tagged_count_of(containers@.map_values(|c: Container| c@)) > 2 ==> r
                == Err::<State, PuzzleError>(PuzzleError::TooManyMustEmpty),
            r matches Ok(s) ==> ((forall|i: int|
                0 <= i < containers@.len() ==> (#[trigger] containers@[i])@.wf()) ==> s@.wf()),
    {
        let ghost models = containers@.map_values(|c: Container| c@);
        let mut tagged: usize = 0;
        let mut i: usize = 0;
        while i < containers.len()
            invariant
                i <= containers@.len(),
                tagged == must_empty_tagged_count_of(models.take(i as int)),
                tagged <= i,
                models == containers@.map_values(|c: Container| c@),
            decreases containers@.len() - i,
        {
            proof {
                lemma_count_take_step(models, must_empty_tagged_pred(), i as int);
            }
            if containers[i].must_empty() {
                tagged += 1;
            }
            i += 1;
        }
        proof {
            assert(models.take(models.len() as int) =~= models);
        }
        if tagged > 2 {
            return Err(PuzzleError::TooManyMustEmpty);
        }
        let mut containers = containers;
        containers.push(Container {
            content: Vec::new(),
            capacity,
            constraint: ContainerConstraint::Unconstrained,
        });
        containers.push(Container {
            content: Vec::new(),
            capacity,
            constraint: ContainerConstraint::Unconstrained,
        });
        let r = State { containers, transitions: Vec::new() };
        proof {
            assert(r@.containers =~= models + seq![scratch_model(capacity), scratch_model(capacity)]);
            assert(r@.transitions =~= Seq::<Transition>::empty());
        }
        Ok(r)
    }

    /// The transitions that lead to this state from the initial state.
    pub fn transitions(&self) -> (r: &Vec<Transition>)
        ensures
            r@ == self@.transitions,
    {
        &self.transitions
    }

    /// How many containers are empty.
    pub fn empty_count(&self) -> (r: usize)
        ensures
            r == empty_count_of(self@.containers),
    {
        let ghost models = self@.containers;
        let mut count: usize = 0;
        let mut i: usize = 0;
        while i < self.containers.len()
            invariant
                i <= self.containers@.len(),
                models == self@.containers,
                count == empty_count_of(models.take(i as int)),
                count <= i,
            decreases self.containers@.len() - i,
        {
            proof {
                lemma_count_take_step(models, is_empty_pred(), i as int);
            }
            if self.containers[i].is_empty() {
                count += 1;
            }
            i += 1;
        }
        proof {
            assert(models.take(models.len() as int) =~= models);
        }
        count
    }

    /// How many containers are sorted (full and of one color).
    pub fn sorted_count(&self) -> (r: usize)
        ensures
            r == sorted_count_of(self@.containers),
    {
        let ghost models = self@.containers;
        let mut count: usize = 0;
        let mut i: usize = 0;
        while i < self.containers.len()
            invariant
                i <= self.containers@.len(),
                models == self@.containers,
                count == sorted_count_of(models.take(i as int)),
                count <= i,
            decreases self.containers@.len() - i,
        {
            proof {
                lemma_count_take_step(models, is_sorted_pred(), i as int);
            }
            if self.containers[i].is_sorted() {
                count += 1;
            }
            i += 1;
        }
        proof {
            assert(models.take(models.len() as int) =~= models);
        }
        count
    }

    /// How many must-fill containers are already sorted.
    pub fn must_fill_count(&self) -> (r: usize)
        ensures
            r == fill_satisfied_count_of(self@.containers),
    {
        let ghost models = self@.containers;
        let mut count: usize = 0;
        let mut i: usize = 0;
        while i < self.containers.len()
            invariant
                i <= self.containers@.len(),
                models == self@.containers,
                count == fill_satisfied_count_of(models.take(i as int)),
                count <= i,
            decreases self.containers@.len() - i,
        {
            proof {
                lemma_count_take_step(models, fill_satisfied_pred(), i as int);
            }
            if self.containers[i].must_fill() && self.containers[i].is_sorted() {
                count += 1;
            }
            i += 1;
        }
        proof {
            assert(models.take(models.len() as int) =~= models);
        }
        count
    }

    /// How many must-empty containers are already empty.
    pub fn must_empty_count(&self) -> (r: usize)
        ensures
            r == empty_satisfied_count_of(self@.containers),
    {
        let ghost models = self@.containers;
        let mut count: usize = 0;
        let mut i: usize = 0;
        while i < self.containers.len()
            invariant
                i <= self.containers@.len(),
                models == self@.containers,
                count == empty_satisfied_count_of(models.take(i as int)),
                count <= i,
            decreases self.containers@.len() - i,
        {
            proof {
                lemma_count_take_step(models, empty_satisfied_pred(), i as int);
            }
            if self.containers[i].must_empty() && self.containers[i].is_empty() {
                count += 1;
            }
            i += 1;
        }
        proof {
            assert(models.take(models.len() as int) =~= models);
        }
        count
    }

    /// Whether this state is a goal state.
    pub fn is_solved(&self) -> (r: bool)
        ensures
            r == self@.is_solved(),
    {
        let mut i: usize = 0;
        while i < self.containers.len()
            invariant
                i <= self.containers@.len(),
                forall|j: int|
                    0 <= j < i ==> ((#[trigger] self@.containers[j]).is_empty()
                        || self@.containers[j].is_sorted()),
                forall|j: int|
                    0 <= j < i ==> !((#[trigger] self@.containers[j]).must_fill()
                        && self@.containers[j].is_empty()),
                forall|j: int|
                    0 <= j < i ==> !((#[trigger] self@.containers[j]).must_empty()
                        && !self@.containers[j].is_empty()),
            decreases self.containers@.len() - i,
        {
            let c = &self.containers[i];
            let empty = c.is_empty();
            let sorted = c.is_sorted();
            proof {
                assert(c@ == self@.containers[i as int]);
            }
            if !(empty || sorted) {
                return false;
            }
            if c.must_fill() && empty {
                return false;
            }
            if c.must_empty() && !empty {
                return false;
            }
            i += 1;
        }
        true
    }
}


/// The score of a state, the higher the better.  In optimal mode the
/// primary key is the negated sum of moves taken and of containers that
/// are neither empty nor sorted (an estimate of remaining work); in fast
/// mode the count of sorted containers dominates instead.  Satisfied
/// must-empty and must-fill constraints break remaining ties.
pub open spec fn spec_score(s: StateModel, optimal: bool) -> Score {
    let sorted = sorted_count_of(s.containers) as int;
    let heuristic = s.transitions.len() + unsorted_count_of(s.containers);
    if optimal {
        Score {
            primary: (-heuristic) as i128,
            secondary: empty_satisfied_count_of(s.containers) as i128,
            tertiary: fill_satisfied_count_of(s.containers) as i128,
            quaternary: 0,
        }
    } else {
        Score {
            primary: sorted as i128,
            secondary: (-heuristic) as i128,
            tertiary: empty_satisfied_count_of(s.containers) as i128,
            quaternary: fill_satisfied_count_of(s.containers) as i128,
        }
    }
}

/// The container list after one pour: the source and destination at the
/// transition's two positions are replaced by their post-pour values.
pub open spec fn apply_move_to(cs: Seq<ContainerModel>, t: Transition) -> Seq<ContainerModel> {
    let src = cs[t.pour_from as int];
    let dst = cs[t.pour_into as int];
    cs.update(t.pour_from as int, src.after_pour_source(dst)).update(
        t.pour_into as int,
        src.after_pour_dest(dst),
    )
}

/// Legality of one transition against a container list.
pub open spec fn move_ok(cs: Seq<ContainerModel>, t: Transition) -> bool {
    &&& t.pour_from < cs.len()
    &&& t.pour_into < cs.len()
    &&& t.pour_from != t.pour_into
    &&& cs[t.pour_from as int].can_pour_into(cs[t.pour_into as int])
}

/// The legal moves out of source position `i` whose destination is below
/// `j`, in increasing destination order.
pub open spec fn moves_in_row(cs: Seq<ContainerModel>, i: int, j: int) -> Seq<Transition>
    decreases j,
{
    if j <= 0 {
        Seq::empty()
    } else {
        let prev = moves_in_row(cs, i, j - 1);
        if i != j - 1 && cs[i].can_pour_into(cs[j - 1]) {
            prev.push(Transition { pour_from: i as usize, pour_into: (j - 1) as usize })
        } else {
            prev
        }
    }
}

/// The legal moves out of all source positions below `i`, in increasing
/// source-then-destination order.
pub open spec fn moves_up_to_row(cs: Seq<ContainerModel>, i: int) -> Seq<Transition>
    decreases i,
{
    if i <= 0 {
        Seq::empty()
    } else {
        moves_up_to_row(cs, i - 1) + moves_in_row(cs, i - 1, cs.len() as int)
    }
}

/// All legal moves of a state, ordered by source then destination position.
pub open spec fn possible_moves(cs: Seq<ContainerModel>) -> Seq<Transition> {
    moves_up_to_row(cs, cs.len() as int)
}

proof fn lemma_moves_in_row_ok(cs: Seq<ContainerModel>, i: int, j: int)
    requires
        0 <= i < cs.len(),
        0 <= j <= cs.len(),
        cs.len() <= usize::MAX,
    ensures
        forall|k: int|
            0 <= k < moves_in_row(cs, i, j).len() ==> move_ok(
                cs,
                #[trigger] moves_in_row(cs, i, j)[k],
            ) && moves_in_row(cs, i, j)[k].pour_from == i,
    decreases j,
{
    if j > 0 {
        lemma_moves_in_row_ok(cs, i, j - 1);
        let row = moves_in_row(cs, i, j);
        let prev = moves_in_row(cs, i, j - 1);
        assert forall|k: int| 0 <= k < row.len() implies move_ok(cs, #[trigger] row[k])
            && row[k].pour_from == i by {
            if k < prev.len() {
                assert(row[k] == prev[k]);
            }
        }
    }
}

/// Every move the generator produces is legal.
pub proof fn lemma_possible_moves_ok(cs: Seq<ContainerModel>)
    requires
        cs.len() <= usize::MAX,
    ensures
        forall|k: int|
            0 <= k < possible_moves(cs).len() ==> move_ok(cs, #[trigger] possible_moves(cs)[k]),
{
    lemma_moves_up_to_ok(cs, cs.len() as int);
}

proof fn lemma_moves_up_to_ok(cs: Seq<ContainerModel>, i: int)
    requires
        0 <= i <= cs.len(),
        cs.len() <= usize::MAX,
    ensures
        forall|k: int|
            0 <= k < moves_up_to_row(cs, i).len() ==> move_ok(
                cs,
                #[trigger] moves_up_to_row(cs, i)[k],
            ),
    decreases i,
{
    if i > 0 {
        lemma_moves_up_to_ok(cs, i - 1);
        lemma_moves_in_row_ok(cs, i - 1, cs.len() as int);
        let all = moves_up_to_row(cs, i);
        let head = moves_up_to_row(cs, i - 1);
        let row = moves_in_row(cs, i - 1, cs.len() as int);
        assert forall|k: int| 0 <= k < all.len() implies move_ok(cs, #[trigger] all[k]) by {
            if k < head.len() {
                assert(all[k] == head[k]);
            } else {
                assert(all[k] == row[k - head.len()]);
            }
        }
    }
}

proof fn lemma_moves_in_row_complete(cs: Seq<ContainerModel>, i: int, j: int, t: Transition)
    requires
        0 <= i < cs.len(),
        0 <= j <= cs.len(),
        cs.len() <= usize::MAX,
        move_ok(cs, t),
        t.pour_from == i,
        t.pour_into < j,
    ensures
        moves_in_row(cs, i, j).contains(t),
    decreases j,
{
    let row = moves_in_row(cs, i, j);
    let prev = moves_in_row(cs, i, j - 1);
    if t.pour_into == j - 1 {
        assert(row[prev.len() as int] == t);
    } else {
        lemma_moves_in_row_complete(cs, i, j - 1, t);
        let k = choose|k: int| 0 <= k < prev.len() && prev[k] == t;
        assert(row[k] == t);
    }
}

proof fn lemma_moves_up_to_complete(cs: Seq<ContainerModel>, i: int, t: Transition)
    requires
        0 <= i <= cs.len(),
        cs.len() <= usize::MAX,
        move_ok(cs, t),
        t.pour_from < i,
    ensures
        moves_up_to_row(cs, i).contains(t),
    decreases i,
{
    let all = moves_up_to_row(cs, i);
    let head = moves_up_to_row(cs, i - 1);
    let row = moves_in_row(cs, i - 1, cs.len() as int);
    if t.pour_from == i - 1 {
        lemma_moves_in_row_complete(cs, i - 1, cs.len() as int, t);
        let k = choose|k: int| 0 <= k < row.len() && row[k] == t;
        assert(all[head.len() + k] == t);
    } else {
        lemma_moves_up_to_complete(cs, i - 1, t);
        let k = choose|k: int| 0 <= k < head.len() && head[k] == t;
        assert(all[k] == t);
    }
}

/// Every legal move is produced by the generator.
pub proof fn lemma_possible_moves_complete(cs: Seq<ContainerModel>, t: Transition)
    requires
        cs.len() <= usize::MAX,
        move_ok(cs, t),
    ensures
        possible_moves(cs).contains(t),
{
    lemma_moves_up_to_complete(cs, cs.len() as int, t);
}

impl State {
    /// How many containers are neither empty nor sorted.
    fn unsorted_count(&self) -> (r: usize)
        ensures
            r == unsorted_count_of(self@.containers),
    {
        let ghost models = self@.containers;
        let mut count: usize = 0;
        let mut i: usize = 0;
        while i < self.containers.len()
            invariant
                i <= self.containers@.len(),
                models == self@.containers,
                count == unsorted_count_of(models.take(i as int)),
                count <= i,
            decreases self.containers@.len() - i,
        {
            proof {
                lemma_count_take_step(models, unsorted_pred(), i as int);
            }
            if !self.containers[i].is_empty() && !self.containers[i].is_sorted() {
                count += 1;
            }
            i += 1;
        }
        proof {
            assert(models.take(models.len() as int) =~= models);
        }
        count
    }

    /// The score of this state under the selected mode; see `spec_score`.
    pub fn get_score(&self, optimal: bool) -> (r: Score)
        ensures
            r == spec_score(self@, optimal),
    {
        let sorted = self.sorted_count();
        let unsorted = self.unsorted_count();
        let dist = self.transitions.len();
        let heuristic: i128 = dist as i128 + unsorted as i128;
        let empty_sat = self.must_empty_count();
        let fill_sat = self.must_fill_count();
        if optimal {
            Score {
                primary: -heuristic,
                secondary: empty_sat as i128,
                tertiary: fill_sat as i128,
                quaternary: 0,
            }
        } else {
            Score {
                primary: sorted as i128,
                secondary: -heuristic,
                tertiary: empty_sat as i128,
                quaternary: fill_sat as i128,
            }
        }
    }

    /// Every legal pour `(source, destination)` of this state, ordered by
    /// source then destination position.
    #[verifier::loop_isolation(false)]
    pub fn get_possible_transitions(&self) -> (r: Vec<Transition>)
        ensures
            r@ == possible_moves(self@.containers),
    {
        let ghost cs = self@.containers;
        let n = self.containers.len();
        let mut result: Vec<Transition> = Vec::new();
        let mut i: usize = 0;
        proof {
            assert(result@ =~= moves_up_to_row(cs, 0));
        }
        while i < n
            invariant
                i <= n,
                result@ == moves_up_to_row(cs, i as int),
            decreases n - i,
        {
            let mut j: usize = 0;
            proof {
                assert(moves_in_row(cs, i as int, 0) =~= Seq::<Transition>::empty());
                assert(result@ =~= moves_up_to_row(cs, i as int) + moves_in_row(cs, i as int, 0));
            }
            while j < n
                invariant
                    j <= n,
                    result@ == moves_up_to_row(cs, i as int) + moves_in_row(cs, i as int, j as int),
                decreases n - j,
            {
                proof {
                    assert(self.containers@[i as int]@ == cs[i as int]);
                    assert(self.containers@[j as int]@ == cs[j as int]);
                }
                if i != j && self.containers[i].can_pour_into(&self.containers[j]) {
                    result.push(Transition::new(i, j));
                }
                j += 1;
                proof {
                    assert(result@ =~= moves_up_to_row(cs, i as int) + moves_in_row(
                        cs,
                        i as int,
                        j as int,
                    ));
                }
            }
            i += 1;
            proof {
                assert(result@ =~= moves_up_to_row(cs, i as int));
            }
        }
        result
    }

    /// Clones the container list, pours between the two referenced
    /// positions, and returns the new state with the move appended.
    pub fn apply_transition(&self, transition: Transition) -> (r: State)
        requires
            self@.wf(),
            self@.valid_move(transition),
        ensures
            r@ == self@.apply_move(transition),
            r@.wf(),
    {
        let from = transition.pour_from;
        let to = transition.pour_into;
        let mut new_containers = self.containers.clone();
        proof {
            assert forall|m: int| 0 <= m < new_containers@.len() implies (
            #[trigger] new_containers@[m])@ == self@.containers[m] by {
                assert(cloned::<Container>(self.containers@[m], new_containers@[m]));
            }
        }
        let mut src = new_containers[from].clone();
        let mut dst = new_containers[to].clone();
        proof {
            assert(src@ == self@.containers[from as int]);
            assert(dst@ == self@.containers[to as int]);
        }
        src.pour_into(&mut dst);
        new_containers[from] = src;
        new_containers[to] = dst;
        let mut new_transitions = self.transitions.clone();
        new_transitions.push(transition);
        let r = State { containers: new_containers, transitions: new_transitions };
        proof {
            let expected = self@.apply_move(transition);
            assert forall|m: int| 0 <= m < r@.containers.len() implies #[trigger] r@.containers[m]
                == expected.containers[m] by {}
            assert(r@.containers =~= expected.containers);
            assert(r@.transitions =~= expected.transitions);
            assert forall|m: int| 0 <= m < r@.containers.len() implies (
            #[trigger] r@.containers[m]).wf() by {}
        }
        r
    }

    /// All successor states of this state, one per legal move, in the
    /// move generator's order.
    #[verifier::loop_isolation(false)]
    pub fn get_possible_states(&self) -> (r: Vec<State>)
        requires
            self@.wf(),
        ensures
            r@.len() == possible_moves(self@.containers).len(),
            forall|i: int|
                0 <= i < r@.len() ==> (#[trigger] r@[i])@ == self@.apply_move(
                    possible_moves(self@.containers)[i],
                ) && r@[i]@.wf() && move_ok(self@.containers, possible_moves(self@.containers)[i]),
    {
        let n = self.containers.len();
        let moves = self.get_possible_transitions();
        proof {
            assert(self@.containers.len() == n as int);
            lemma_possible_moves_ok(self@.containers);
        }
        let mut out: Vec<State> = Vec::new();
        let mut k: usize = 0;
        while k < moves.len()
            invariant
                k <= moves@.len(),
                out@.len() == k,
                forall|i: int|
                    0 <= i < k ==> (#[trigger] out@[i])@ == self@.apply_move(moves@[i])
                        && out@[i]@.wf(),
            decreases moves@.len() - k,
        {
            let s2 = self.apply_transition(moves[k]);
            out.push(s2);
            k += 1;
        }
        out
    }
}


} // verus!
