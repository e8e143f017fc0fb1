//! One container: a bounded stack of colored units with an optional
//! end-state constraint, and the legality and effect of pouring.

use vstd::prelude::*;

use crate::errors::PuzzleError;

verus! {

/// Optional requirement on a container in the solved state.
#[derive(Clone, Copy, Debug, PartialEq, Eq, Structural)]
pub enum ContainerConstraint {
    /// The container must end non-empty and sorted.
    MustFill,
    /// The container must end empty.
    MustEmpty,
    /// No requirement.
    Unconstrained,
}

/// The mathematical model of a container: its stack of color identifiers
/// (top of stack last), its capacity, and its constraint.
pub struct ContainerModel {
    pub content: Seq<usize>,
    pub capacity: nat,
    pub constraint: ContainerConstraint,
}

/// Length of the maximal run of one color at the top (end) of a stack.
pub open spec fn top_run_len(s: Seq<usize>) -> nat
    decreases s.len(),
{
    if s.len() == 0 {
        0
    } else if s.len() == 1 {
        1
    } else if s[s.len() - 1] == s[s.len() - 2] {
        1 + top_run_len(s.drop_last())
    } else {
        1
    }
}

impl ContainerModel {
    /// Structural validity: the stack never exceeds the capacity.
    pub open spec fn wf(self) -> bool {
        self.content.len() <= self.capacity
    }

    pub open spec fn is_empty(self) -> bool {
        self.content.len() == 0
    }

    pub open spec fn is_full(self) -> bool {
        self.content.len() == self.capacity
    }

    /// All units have one color.  Trivially true of an empty stack;
    /// only meaningful when the container is non-empty.
    pub open spec fn monochrome(self) -> bool {
        forall|i: int| 0 <= i < self.content.len() ==> #[trigger] self.content[i] == self.content[0]
    }

    /// Full and of a single color.
    pub open spec fn is_sorted(self) -> bool {
        self.is_full() && self.content.len() > 0 && self.monochrome()
    }

    /// The color on top of the stack (meaningful only when non-empty).
    pub open spec fn top(self) -> usize {
        self.content.last()
    }

    pub open spec fn must_fill(self) -> bool {
        self.constraint == ContainerConstraint::MustFill
    }

    pub open spec fn must_empty(self) -> bool {
        self.constraint == ContainerConstraint::MustEmpty
    }

    /// Legality of pouring from `self` into `other`: the source must be
    /// non-empty and not already sorted, the destination must have room,
    /// and the top colors must match unless the destination is empty.
    pub open spec fn can_pour_into(self, other: ContainerModel) -> bool {
        &&& !self.is_empty()
        &&& !self.is_sorted()
        &&& !other.is_full()
        &&& (other.is_empty() || self.top() == other.top())
    }

    /// How many units one pour from `self` into `other` moves: the whole
    /// top run of the source, bounded by the destination's remaining room.
    pub open spec fn pour_amount(self, other: ContainerModel) -> nat {
        let run = top_run_len(self.content);
        let space = self.space_of(other);
        if run <= space {
            run
        } else {
            space
        }
    }

    /// Remaining room of the destination, clipped at zero.
    pub open spec fn space_of(self, other: ContainerModel) -> nat {
        if other.content.len() <= other.capacity {
            (other.capacity - other.content.len()) as nat
        } else {
            0
        }
    }

    /// The source container after pouring into `other`.
    pub open spec fn after_pour_source(self, other: ContainerModel) -> ContainerModel {
        ContainerModel {
            content: self.content.take(self.content.len() - self.pour_amount(other)),
            capacity: self.capacity,
            constraint: self.constraint,
        }
    }

    /// The destination container after being poured into from `self`.
    pub open spec fn after_pour_dest(self, other: ContainerModel) -> ContainerModel {
        ContainerModel {
            content: other.content + Seq::new(self.pour_amount(other), |i: int| self.top()),
            capacity: other.capacity,
            constraint: other.constraint,
        }
    }
}

/// Facts about the top run of a non-trivial stack: it is non-empty, it is
/// no longer than the stack, it consists of the top color, and it stops at
/// the first unit of another color.
pub proof fn lemma_top_run_props(s: Seq<usize>)
    requires
        s.len() > 0,
    ensures
        1 <= top_run_len(s) <= s.len(),
        forall|j: int| s.len() - top_run_len(s) <= j < s.len() ==> s[j] == s.last(),
        top_run_len(s) < s.len() ==> s[s.len() - top_run_len(s) - 1] != s.last(),
    decreases s.len(),
{
    if s.len() == 1 {
    } else if s[s.len() - 1] == s[s.len() - 2] {
        let d = s.drop_last();
        lemma_top_run_props(d);
        assert(d.last() == s[s.len() - 2]);
        assert forall|j: int| s.len() - top_run_len(s) <= j < s.len() implies s[j] == s.last() by {
            if j < s.len() - 1 {
                assert(d[j] == d.last());
            }
        }
    }
}

/// One stack of colored units with a bounded capacity and an optional
/// end-state constraint.
pub struct Container {
    pub content: Vec<usize>,
    pub capacity: usize,
    pub constraint: ContainerConstraint,
}

impl View for Container {
    type V = ContainerModel;

    open spec fn view(&self) -> ContainerModel {
        ContainerModel {
            content: self.content@,
            capacity: self.capacity as nat,
            constraint: self.constraint,
        }
    }
}

impl Clone for Container {
    fn clone(&self) -> (r: Self)
        ensures
            r@ == self@,
    {
        Container {
            content: self.content.clone(),
            capacity: self.capacity,
            constraint: self.constraint,
        }
    }
}

impl Container {
    /// Builds a container, rejecting content that exceeds the capacity.
    pub fn new(content: Vec<usize>, constraint: ContainerConstraint, capacity: usize) -> (r: Result<
        Container,
        PuzzleError,
    >)
        ensures
            content@.len() <= capacity ==> (r matches Ok(c) && c@ == (ContainerModel {
                content: content@,
                capacity: capacity as nat,
                constraint,
            })),
            content@.len() > capacity ==> r == Err::<Container, PuzzleError>(
                PuzzleError::ContentExceedsCapacity,
            ),
    {
        if content.len() > capacity {
            Err(PuzzleError::ContentExceedsCapacity)
        } else {
            Ok(Container { content, capacity, constraint })
        }
    }

    /// The color on top of the stack, if any.
    pub fn peek(&self) -> (r: Option<usize>)
        ensures
            self@.is_empty() ==> r is None,
            !self@.is_empty() ==> r == Some(self@.top()),
    {
        if self.content.len() == 0 {
            None
        } else {
            Some(self.content[self.content.len() - 1])
        }
    }

    pub fn is_empty(&self) -> (r: bool)
        ensures
            r == self@.is_empty(),
    {
        self.content.len() == 0
    }

    pub fn is_full(&self) -> (r: bool)
        ensures
            r == self@.is_full(),
    {
        self.content.len() == self.capacity
    }

    /// Whether all units have one color; meaningful only when non-empty.
    pub fn is_same_color(&self) -> (r: bool)
        requires
            !self@.is_empty(),
        ensures
            r == self@.monochrome(),
    {
        let first = self.content[0];
        let mut i: usize = 1;
        while i < self.content.len()
            invariant
                1 <= i <= self.content@.len(),
                first == self.content@[0],
                forall|j: int| 0 <= j < i ==> self.content@[j] == first,
            decreases self.content@.len() - i,
        {
            if self.content[i] != first {
                proof {
                    assert(self@.content[i as int] != self@.content[0]);
                    assert(!self@.monochrome());
                }
                return false;
            }
            i += 1;
        }
        true
    }

    /// Full and of a single color.
    pub fn is_sorted(&self) -> (r: bool)
        ensures
            r == self@.is_sorted(),
    {
        if self.content.len() == 0 || self.content.len() != self.capacity {
            false
        } else {
            self.is_same_color()
        }
    }

    pub fn must_fill(&self) -> (r: bool)
        ensures
            r == self@.must_fill(),
    {
        self.constraint == ContainerConstraint::MustFill
    }

    pub fn must_empty(&self) -> (r: bool)
        ensures
            r == self@.must_empty(),
    {
        self.constraint == ContainerConstraint::MustEmpty
    }

    /// Whether pouring from `self` into `other` is a legal move.
    pub fn can_pour_into(&self, other: &Container) -> (r: bool)
        ensures
            r == self@.can_pour_into(other@),
    {
        if self.is_empty() {
            return false;
        }
        if self.is_sorted() {
            return false;
        }
        if other.is_full() {
            return false;
        }
        if other.is_empty() {
            return true;
        }
        self.content[self.content.len() - 1] == other.content[other.content.len() - 1]
    }

    /// Length of the maximal top run of one color.
    fn top_run(&self) -> (r: usize)
        requires
            !self@.is_empty(),
        ensures
            r == top_run_len(self@.content),
    {
        let n = self.content.len();
        let last = self.content[n - 1];
        let mut r: usize = 1;
        while r < n && self.content[n - 1 - r] == last
            invariant
                !self@.is_empty(),
                n == self.content@.len(),
                last == self.content@.last(),
                1 <= r <= n,
                forall|j: int| n - r <= j < n ==> self.content@[j] == last,
            decreases n - r,
        {
            r += 1;
        }
        proof {
            lemma_top_run_char(self.content@, r as nat);
        }
        r
    }

    /// Transfers the entire maximal top run of the source's top color into
    /// `other`, as far as the destination's remaining room allows.  At
    /// least one unit always moves.
    #[verifier::loop_isolation(false)]
    pub fn pour_into(&mut self, other: &mut Container)
        requires
            old(self)@.wf(),
            old(other)@.wf(),
            old(self)@.can_pour_into(old(other)@),
        ensures
            final(self)@ == old(self)@.after_pour_source(old(other)@),
            final(other)@ == old(self)@.after_pour_dest(old(other)@),
            old(self)@.pour_amount(old(other)@) >= 1,
            final(self)@.wf(),
            final(other)@.wf(),
    {
        proof {
            lemma_top_run_props(old(self)@.content);
        }
        let run = self.top_run();
        let space = other.capacity - other.content.len();
        let k = if run <= space {
            run
        } else {
            space
        };
        let ghost src0 = old(self)@.content;
        let ghost dst0 = old(other)@.content;
        let ghost color = src0.last();
        let mut moved: usize = 0;
        proof {
            assert(k == old(self)@.pour_amount(old(other)@));
            assert(other.content@ =~= dst0 + Seq::new(0, |i: int| color));
        }
        while moved < k
            invariant
                moved <= k,
                self.content@ == src0.take(src0.len() - moved),
                other.content@ == dst0 + Seq::new(moved as nat, |i: int| color),
                self.capacity == old(self).capacity,
                self.constraint == old(self).constraint,
                other.capacity == old(other).capacity,
                other.constraint == old(other).constraint,
            decreases k - moved,
        {
            let n = self.content.len();
            let u = self.content[n - 1];
            proof {
                assert(self.content@.last() == src0[src0.len() - moved - 1]);
                assert(src0[src0.len() - moved - 1] == color);
            }
            self.content.truncate(n - 1);
            other.content.push(u);
            moved += 1;
            proof {
                assert(self.content@ =~= src0.take(src0.len() - moved));
                assert(other.content@ =~= dst0 + Seq::new(moved as nat, |i: int| color));
            }
        }
        proof {
            assert(final(self)@.content =~= old(self)@.after_pour_source(old(other)@).content);
            assert(final(other)@.content =~= old(self)@.after_pour_dest(old(other)@).content);
        }
    }
}

/// Any count with the run properties (top segment of one color, stopped by
/// a differing unit or the stack's bottom) is the top run length.
proof fn lemma_top_run_char(s: Seq<usize>, r: nat)
    requires
        s.len() > 0,
        1 <= r <= s.len(),
        forall|j: int| s.len() - r <= j < s.len() ==> s[j] == s.last(),
        r < s.len() ==> s[s.len() - r - 1] != s.last(),
    ensures
        top_run_len(s) == r,
    decreases s.len(),
{
    if s.len() == 1 {
    } else if s[s.len() - 1] == s[s.len() - 2] {
        let d = s.drop_last();
        if r == 1 {
            assert(false);
        } else {
            assert forall|j: int| d.len() - (r - 1) <= j < d.len() implies d[j] == d.last() by {
                assert(s[j] == s.last());
            }
            lemma_top_run_char(d, (r - 1) as nat);
        }
    } else {
        if r >= 2 {
            assert(s[s.len() - 2] == s.last());
            assert(false);
        }
    }
}

} // verus!
