//! Counting the steps after which an orbit leaves a region.
//!
//! An orbit starts at a point and goes on by one step at a time. What a point
//! is, how a step is taken and when a point counts as escaped is the caller's
//! affair: the count is the same loop for all of them.

use vstd::prelude::*;

verus! {

/// `orbit` starts at `start`, and each further point of it is what `step`
/// may give for the point before.
pub open spec fn is_orbit<Z, S: Fn(Z) -> Z>(orbit: Seq<Z>, start: Z, step: S) -> bool {
    &&& orbit.len() >= 1
    &&& orbit[0] == start
    &&& forall|k: int|
        #![trigger orbit[k]]
        0 <= k < orbit.len() - 1 ==> step.ensures((orbit[k],), orbit[k + 1])
}

/// None of the first `n` points of `orbit` has escaped.
pub open spec fn stays<Z, E: Fn(&Z) -> bool>(orbit: Seq<Z>, n: int, escaped: E) -> bool {
    forall|k: int| #![trigger orbit[k]] 0 <= k < n ==> escaped.ensures((&orbit[k],), false)
}

/// `res` is the escape time of the orbit from `start`: the number of steps
/// after which it has escaped for the first time, if that is fewer than
/// `limit`; else `None`, and `limit` steps were taken without an escape.
pub open spec fn escape_outcome<Z, S: Fn(Z) -> Z, E: Fn(&Z) -> bool>(
    start: Z,
    limit: usize,
    escaped: E,
    step: S,
    res: Option<usize>,
) -> bool {
    exists|orbit: Seq<Z>|
        #![trigger is_orbit(orbit, start, step)]
        is_orbit(orbit, start, step) && match res {
            Some(count) => count < limit && orbit.len() == count + 1 && stays(
                orbit,
                count as int,
                escaped,
            ) && escaped.ensures((&orbit[count as int],), true),
            None => orbit.len() == limit + 1 && stays(orbit, limit as int, escaped),
        }
}

/// Follows the orbit from `start` for at most `limit` steps and counts the
/// steps until it has escaped. The start itself is looked at first, so an
/// orbit that starts outside has the count zero.
pub fn escape_time<Z, S: Fn(Z) -> Z, E: Fn(&Z) -> bool>(
    start: Z,
    limit: usize,
    escaped: E,
    step: S,
) -> (res: Option<usize>)
    requires
        forall|z: Z| #[trigger] escaped.requires((&z,)),
        forall|z: Z| #[trigger] step.requires((z,)),
    ensures
        escape_outcome(start, limit, escaped, step, res),
        res matches Some(count) ==> count < limit,
{
    let ghost mut orbit: Seq<Z> = seq![start];
    let mut z = start;
    let mut count: usize = 0;
    while count < limit
        invariant
            count <= limit,
            is_orbit(orbit, start, step),
            orbit.len() == count + 1,
            orbit[count as int] == z,
            stays(orbit, count as int, escaped),
            forall|z: Z| #[trigger] escaped.requires((&z,)),
            forall|z: Z| #[trigger] step.requires((z,)),
        decreases limit - count,
    {
        if escaped(&z) {
            return Some(count);
        }
        let ghost before = orbit;
        z = step(z);
        proof {
            orbit = before.push(z);
            assert forall|k: int| #![trigger orbit[k]] 0 <= k < orbit.len() - 1 implies step.ensures(
                (orbit[k],),
                orbit[k + 1],
            ) by {
                if k < before.len() - 1 {
                    assert(orbit[k] == before[k]);
                    assert(orbit[k + 1] == before[k + 1]);
                }
            }
            assert forall|k: int| #![trigger orbit[k]] 0 <= k < count + 1 implies escaped.ensures(
                (&orbit[k],),
                false,
            ) by {
                assert(orbit[k] == before[k]);
            }
        }
        count = count + 1;
    }
    None
}

/// An orbit that starts inside at a point which its step leaves where it is
/// never escapes, whatever the limit.
pub proof fn lemma_fixed_point_never_escapes<Z, S: Fn(Z) -> Z, E: Fn(&Z) -> bool>(
    start: Z,
    limit: usize,
    escaped: E,
    step: S,
    res: Option<usize>,
)
    requires
        escape_outcome(start, limit, escaped, step, res),
        forall|next: Z| #[trigger] step.ensures((start,), next) ==> next == start,
        !escaped.ensures((&start,), true),
    ensures
        res is None,
{
    let orbit = choose|orbit: Seq<Z>|
        #![trigger is_orbit(orbit, start, step)]
        is_orbit(orbit, start, step) && match res {
            Some(count) => count < limit && orbit.len() == count + 1 && stays(
                orbit,
                count as int,
                escaped,
            ) && escaped.ensures((&orbit[count as int],), true),
            None => orbit.len() == limit + 1 && stays(orbit, limit as int, escaped),
        };
    lemma_orbit_rests(orbit, start, step, orbit.len() - 1);
}

/// Where the step leaves `start` where it is, every point of the orbit is
/// `start`.
proof fn lemma_orbit_rests<Z, S: Fn(Z) -> Z>(orbit: Seq<Z>, start: Z, step: S, at: int)
    requires
        is_orbit(orbit, start, step),
        forall|next: Z| #[trigger] step.ensures((start,), next) ==> next == start,
        0 <= at < orbit.len(),
    ensures
        orbit[at] == start,
    decreases at,
{
    if at > 0 {
        lemma_orbit_rests(orbit, start, step, at - 1);
        assert(step.ensures((orbit[at - 1],), orbit[at - 1 + 1]));
    }
}

/// An orbit that starts outside has the escape time zero, for every limit
/// but zero.
pub proof fn lemma_escaped_start_counts_zero<Z, S: Fn(Z) -> Z, E: Fn(&Z) -> bool>(
    start: Z,
    limit: usize,
    escaped: E,
    step: S,
    res: Option<usize>,
)
    requires
        escape_outcome(start, limit, escaped, step, res),
        limit > 0,
        !escaped.ensures((&start,), false),
    ensures
        res == Some(0usize),
{
    let orbit = choose|orbit: Seq<Z>|
        #![trigger is_orbit(orbit, start, step)]
        is_orbit(orbit, start, step) && match res {
            Some(count) => count < limit && orbit.len() == count + 1 && stays(
                orbit,
                count as int,
                escaped,
            ) && escaped.ensures((&orbit[count as int],), true),
            None => orbit.len() == limit + 1 && stays(orbit, limit as int, escaped),
        };
    assert(orbit[0] == start);
}

} // verus!
