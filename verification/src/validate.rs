//! Input validation rules, on plain values.  The adapter that parses a
//! textual puzzle description turns each line into color identifiers and
//! checks the rules here before the initial state is built: all containers
//! share one capacity, there are no more colors than containers, and every
//! color occurs exactly capacity times.

use vstd::prelude::*;

verus! {

/// How often `color` occurs in `s`.
pub open spec fn count_color(s: Seq<usize>, color: usize) -> nat
    decreases s.len(),
{
    if s.len() == 0 {
        0
    } else {
        count_color(s.drop_last(), color) + if s.last() == color {
            1nat
        } else {
            0nat
        }
    }
}

/// The colors whose total count is not `capacity`, each with its count,
/// in order of first occurrence: the miscounted colors among the first
/// `i` positions of `s`, counted over all of `s`.
pub open spec fn miscounted_upto(s: Seq<usize>, capacity: usize, i: int) -> Seq<(usize, usize)>
    decreases i,
{
    if i <= 0 {
        Seq::empty()
    } else {
        let prev = miscounted_upto(s, capacity, i - 1);
        let c = s[i - 1];
        if s.take(i - 1).contains(c) || count_color(s, c) == capacity {
            prev
        } else {
            prev.push((c, count_color(s, c) as usize))
        }
    }
}

/// The colors of `s` whose total count is not `capacity`, each with its
/// count, in order of first occurrence.
pub open spec fn miscounted_colors_of(s: Seq<usize>, capacity: usize) -> Seq<(usize, usize)> {
    miscounted_upto(s, capacity, s.len() as int)
}

/// Whether all declared container sizes agree with the first one.
pub fn capacities_uniform(sizes: &Vec<usize>) -> (r: bool)
    ensures
        r == forall|i: int| 0 <= i < sizes@.len() ==> #[trigger] sizes@[i] == sizes@[0],
{
    let mut i: usize = 0;
    while i < sizes.len()
        invariant
            i <= sizes@.len(),
            forall|j: int| 0 <= j < i ==> #[trigger] sizes@[j] == sizes@[0],
        decreases sizes@.len() - i,
    {
        if sizes[i] != sizes[0] {
            return false;
        }
        i += 1;
    }
    true
}

/// Whether `color` occurs among the first `upto` elements.
#[verifier::loop_isolation(false)]
fn occurs_before(colors: &Vec<usize>, upto: usize, color: usize) -> (r: bool)
    requires
        upto <= colors@.len(),
    ensures
        r == colors@.take(upto as int).contains(color),
{
    let mut j: usize = 0;
    while j < upto
        invariant
            j <= upto,
            forall|k: int| 0 <= k < j ==> colors@[k] != color,
        decreases upto - j,
    {
        if colors[j] == color {
            proof {
                assert(colors@.take(upto as int)[j as int] == color);
            }
            return true;
        }
        j += 1;
    }
    proof {
        assert forall|k: int| 0 <= k < upto implies colors@.take(upto as int)[k] != color by {}
    }
    false
}

/// How many distinct colors occur in `colors`.
#[verifier::loop_isolation(false)]
pub fn distinct_color_count(colors: &Vec<usize>) -> (r: usize)
    ensures
        r == colors@.to_set().len(),
{
    broadcast use vstd::set::group_set_axioms;
    broadcast use vstd::seq_lib::seq_to_set_is_finite;

    let mut count: usize = 0;
    let mut i: usize = 0;
    proof {
        assert(colors@.take(0).to_set() =~= Set::<usize>::empty());
    }
    while i < colors.len()
        invariant
            i <= colors@.len(),
            count == colors@.take(i as int).to_set().len(),
            count <= i,
        decreases colors@.len() - i,
    {
        proof {
            let long = colors@.take(i as int + 1);
            let short = colors@.take(i as int);
            let c = colors@[i as int];
            assert forall|a: usize| long.contains(a) == (short.contains(a) || a == c) by {
                if long.contains(a) {
                    let j = choose|j: int| 0 <= j < long.len() && long[j] == a;
                    if j < i as int {
                        assert(short[j] == a);
                    }
                }
                if short.contains(a) {
                    let j = choose|j: int| 0 <= j < short.len() && short[j] == a;
                    assert(long[j] == a);
                }
                if a == c {
                    assert(long[i as int] == a);
                }
            }
            assert(long.to_set() =~= short.to_set().insert(c));
        }
        if !occurs_before(colors, i, colors[i]) {
            count += 1;
        }
        i += 1;
    }
    proof {
        assert(colors@.take(colors@.len() as int) =~= colors@);
    }
    count
}

/// How often `color` occurs in `colors`.
#[verifier::loop_isolation(false)]
pub fn color_count(colors: &Vec<usize>, color: usize) -> (r: usize)
    ensures
        r == count_color(colors@, color),
{
    let mut count: usize = 0;
    let mut i: usize = 0;
    while i < colors.len()
        invariant
            i <= colors@.len(),
            count == count_color(colors@.take(i as int), color),
            count <= i,
        decreases colors@.len() - i,
    {
        proof {
            assert(colors@.take(i as int + 1).drop_last() =~= colors@.take(i as int));
        }
        if colors[i] == color {
            count += 1;
        }
        i += 1;
    }
    proof {
        assert(colors@.take(colors@.len() as int) =~= colors@);
    }
    count
}

/// The distinct colors whose total count differs from `capacity`, each
/// paired with its count, in order of first occurrence.
#[verifier::loop_isolation(false)]
pub fn miscounted_colors(colors: &Vec<usize>, capacity: usize) -> (r: Vec<(usize, usize)>)
    ensures
        r@ == miscounted_colors_of(colors@, capacity),
{
    let mut out: Vec<(usize, usize)> = Vec::new();
    let mut i: usize = 0;
    while i < colors.len()
        invariant
            i <= colors@.len(),
            out@ == miscounted_upto(colors@, capacity, i as int),
        decreases colors@.len() - i,
    {
        let c = colors[i];
        if !occurs_before(colors, i, c) {
            let n = color_count(colors, c);
            if n != capacity {
                out.push((c, n));
            }
        }
        i += 1;
    }
    out
}

} // verus!
