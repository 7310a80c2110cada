//! Rejection sampling of integers.
//!
//! [`sample_step`] proposes integers uniformly from an interval and asks a
//! decision procedure which to keep.  A sampler for the discrete Gaussian
//! supplies the interval and the decision; both rest on floating-point
//! arithmetic and are left to the caller.
use super::draw;
use crate::effect;
use crate::error::Error;
use crate::journal::{self, Draws};
use vstd::prelude::*;
use vstd::string::*;

verus! {

/// The number of proposals before a sampler gives up.
pub const RETRY_BUDGET: u32 = 128;

/// Eight bytes from the random source `rng` can read as `r`.
pub open spec fn reads<F: Fn(usize) -> Result<Vec<u8>, Error>>(
    rng: F,
    r: Result<u64, Error>,
) -> bool {
    exists|d: Result<Vec<u8>, Error>| #[trigger]
        rng.ensures((8usize,), d) && draw::read_from_draw(d, r)
}

/// The integer that a proposal picks from the interval.
pub open spec fn candidate(low: i64, range: u64, proposal: u64) -> int {
    low + proposal as int % range as int
}

/// `o` is what one proposal can give: the error of a draw, or the candidate if
/// the decision keeps it.
pub open spec fn proposes<
    F: Fn(usize) -> Result<Vec<u8>, Error>,
    D: Fn(i64, u64) -> bool,
>(rng: F, low: i64, range: u64, decide: D, o: Result<Option<i64>, Error>) -> bool {
    match o {
        Ok(kept) => exists|proposal: u64, toss: u64| #[trigger]
            reads(rng, Ok(proposal)) && #[trigger] reads(rng, Ok(toss)) && decide.ensures(
                (candidate(low, range, proposal) as i64, toss),
                kept is Some,
            ) && (kept matches Some(x) ==> x == candidate(low, range, proposal)),
        Err(e) => reads(rng, Err(e)),
    }
}

/// All of `outcomes` are outcomes of proposals, and all but the last keep
/// nothing.
pub open spec fn proposal_trace<
    F: Fn(usize) -> Result<Vec<u8>, Error>,
    D: Fn(i64, u64) -> bool,
>(
    rng: F,
    low: i64,
    range: u64,
    decide: D,
    outcomes: Seq<Result<Option<i64>, Error>>,
) -> bool {
    &&& forall|i: int|
        0 <= i < outcomes.len() ==> proposes(rng, low, range, decide, #[trigger] outcomes[i])
    &&& forall|i: int|
        0 <= i < outcomes.len() - 1 ==> (#[trigger] outcomes[i]) == Ok::<Option<i64>, Error>(None)
}

/// `r` is what up to `budget` proposals can give.
pub open spec fn samples<
    F: Fn(usize) -> Result<Vec<u8>, Error>,
    D: Fn(i64, u64) -> bool,
>(rng: F, low: i64, range: u64, decide: D, budget: nat, r: Result<i64, Error>) -> bool {
    exists|outcomes: Seq<Result<Option<i64>, Error>>| #[trigger]
        proposal_trace(rng, low, range, decide, outcomes) && outcomes.len() <= budget && match r {
            Ok(x) => outcomes.len() > 0 && outcomes.last() == Ok::<Option<i64>, Error>(Some(x)),
            Err(e) => {
                ||| outcomes.len() > 0 && outcomes.last() == Err::<Option<i64>, Error>(e)
                ||| outcomes.len() == budget && (outcomes.len() > 0 ==> outcomes.last() == Ok::<
                    Option<i64>,
                    Error,
                >(None)) && draw::is_failure(e, "discrete Gaussian rejection exhausted"@)
            },
        }
}

/// The interval holds integers of type `i64`.
pub open spec fn valid_interval(low: i64, range: u64) -> bool {
    0 < range && range <= i64::MAX && low + range - 1 <= i64::MAX
}

/// The answers `proposal` and `toss` are eight bytes each; the first picks the
/// candidate, and on the second the decision keeps it, or does not.
pub open spec fn decided<D: Fn(i64, u64) -> bool>(
    low: i64,
    range: u64,
    decide: D,
    proposal: Result<Vec<u8>, Error>,
    toss: Result<Vec<u8>, Error>,
    kept: Option<i64>,
) -> bool {
    exists|p: u64, t: u64| #[trigger]
        draw::read_from_draw(proposal, Ok(p)) && #[trigger] draw::read_from_draw(toss, Ok(t))
            && decide.ensures((candidate(low, range, p) as i64, t), kept is Some) && (
        kept matches Some(x) ==> x == candidate(low, range, p))
}

/// The answer is a number of eight bytes.
pub open spec fn is_number(answer: Result<Vec<u8>, Error>) -> bool {
    answer matches Ok(bytes) && bytes@.len() == 8
}

/// `o` is what one proposal gives when the random source is asked `asked`.
pub open spec fn proposed_with<D: Fn(i64, u64) -> bool>(
    low: i64,
    range: u64,
    decide: D,
    asked: Seq<(usize, Result<Vec<u8>, Error>)>,
    o: Result<Option<i64>, Error>,
) -> bool {
    &&& forall|i: int| 0 <= i < asked.len() ==> (#[trigger] asked[i]).0 == 8
    &&& match o {
        Ok(kept) => asked.len() == 2 && decided(
            low,
            range,
            decide,
            asked[0].1,
            asked[1].1,
            kept,
        ),
        Err(e) => {
            ||| asked.len() == 1 && draw::read_from_draw(asked[0].1, Err(e))
            ||| asked.len() == 2 && is_number(asked[0].1) && draw::read_from_draw(
                asked[1].1,
                Err(e),
            )
        },
    }
}

/// `asked` begins with a request for each proposal of `rounds` and one for its
/// toss, in turn.
pub open spec fn begins_with(
    asked: Seq<(usize, Result<Vec<u8>, Error>)>,
    rounds: Seq<(Result<Vec<u8>, Error>, Result<Vec<u8>, Error>)>,
) -> bool {
    &&& 2 * rounds.len() <= asked.len()
    &&& forall|i: int|
        0 <= i < rounds.len() ==> asked[2 * i] == (8usize, (#[trigger] rounds[i]).0) && asked[2 * i
            + 1] == (8usize, rounds[i].1)
}

/// The decision keeps no candidate of the `rounds`.
pub open spec fn none_kept<D: Fn(i64, u64) -> bool>(
    low: i64,
    range: u64,
    decide: D,
    rounds: Seq<(Result<Vec<u8>, Error>, Result<Vec<u8>, Error>)>,
) -> bool {
    forall|i: int|
        0 <= i < rounds.len() ==> decided(
            low,
            range,
            decide,
            (#[trigger] rounds[i]).0,
            rounds[i].1,
            None,
        )
}

/// `r` is what up to `budget` proposals give when the random source is asked
/// `asked`: proposals of which none is kept, and one that is or that fails.
pub open spec fn sampled_with<D: Fn(i64, u64) -> bool>(
    low: i64,
    range: u64,
    decide: D,
    budget: nat,
    asked: Seq<(usize, Result<Vec<u8>, Error>)>,
    r: Result<i64, Error>,
) -> bool {
    exists|rounds: Seq<(Result<Vec<u8>, Error>, Result<Vec<u8>, Error>)>| #[trigger]
        begins_with(asked, rounds) && none_kept(low, range, decide, rounds) && {
            let left = asked.skip(2 * rounds.len() as int);
            match r {
                Ok(x) => rounds.len() < budget && proposed_with(
                    low,
                    range,
                    decide,
                    left,
                    Ok(Some(x)),
                ),
                Err(e) => {
                    ||| rounds.len() < budget && proposed_with(low, range, decide, left, Err(e))
                    ||| rounds.len() == budget && left.len() == 0 && draw::is_failure(
                        e,
                        "discrete Gaussian rejection exhausted"@,
                    )
                },
            }
        }
}

/// `o` is what one proposal gives with a random source that was not asked before.
pub open spec fn proposes_asking<
    F: Fn(usize) -> Result<Vec<u8>, Error>,
    D: Fn(i64, u64) -> bool,
>(rng: F, low: i64, range: u64, decide: D, o: Result<Option<i64>, Error>) -> bool {
    exists|before: Draws<&F>, after: Draws<&F>|
        before.is_fresh(&rng) && #[trigger] call_ensures(
            draw_candidate_asking::<&F, D>,
            (before, low, range, &decide),
            (o, after),
        )
}

/// `r` is what sampling gives with a random source that was not asked before.
pub open spec fn samples_asking<
    F: Fn(usize) -> Result<Vec<u8>, Error>,
    D: Fn(i64, u64) -> bool,
>(rng: F, low: i64, range: u64, decide: D, budget: u32, r: Result<i64, Error>) -> bool {
    exists|before: Draws<&F>, after: Draws<&F>|
        before.is_fresh(&rng) && #[trigger] call_ensures(
            sample_step_asking::<&F, D>,
            (before, low, range, &decide, budget),
            (r, after),
        )
}

/// A proposal with answers of the random source is a proposal of it.
proof fn lemma_proposed_with<
    F: Fn(usize) -> Result<Vec<u8>, Error>,
    D: Fn(i64, u64) -> bool,
>(
    rng: &F,
    low: i64,
    range: u64,
    decide: &D,
    asked: Seq<(usize, Result<Vec<u8>, Error>)>,
    o: Result<Option<i64>, Error>,
)
    requires
        proposed_with(low, range, *decide, asked, o),
        journal::all_answered(*rng, asked),
    ensures
        proposes(*rng, low, range, *decide, o),
{
    match o {
        Ok(kept) => {
            assert(asked[0].0 == 8 && asked[1].0 == 8);
            let (p, t) = choose|p: u64, t: u64| #[trigger]
                draw::read_from_draw(asked[0].1, Ok(p)) && #[trigger] draw::read_from_draw(
                    asked[1].1,
                    Ok(t),
                ) && decide.ensures((candidate(low, range, p) as i64, t), kept is Some) && (
                kept matches Some(x) ==> x == candidate(low, range, p));
            assert(reads(*rng, Ok(p)));
            assert(reads(*rng, Ok(t)));
        },
        Err(e) => {
            assert(rng.ensures((8usize,), asked.last().1));
            assert(reads(*rng, Err(e)));
        },
    }
}

/// A sample with answers of the random source is a sample of it.
proof fn lemma_sampled_with<F: Fn(usize) -> Result<Vec<u8>, Error>, D: Fn(i64, u64) -> bool>(
    rng: &F,
    low: i64,
    range: u64,
    decide: &D,
    budget: nat,
    asked: Seq<(usize, Result<Vec<u8>, Error>)>,
    r: Result<i64, Error>,
)
    requires
        sampled_with(low, range, *decide, budget, asked, r),
        journal::all_answered(*rng, asked),
    ensures
        samples(*rng, low, range, *decide, budget, r),
{
    let rounds = choose|rounds: Seq<(Result<Vec<u8>, Error>, Result<Vec<u8>, Error>)>| #[trigger]
        begins_with(asked, rounds) && none_kept(low, range, *decide, rounds) && {
            let left = asked.skip(2 * rounds.len() as int);
            match r {
                Ok(x) => rounds.len() < budget && proposed_with(
                    low,
                    range,
                    *decide,
                    left,
                    Ok(Some(x)),
                ),
                Err(e) => {
                    ||| rounds.len() < budget && proposed_with(low, range, *decide, left, Err(e))
                    ||| rounds.len() == budget && left.len() == 0 && draw::is_failure(
                        e,
                        "discrete Gaussian rejection exhausted"@,
                    )
                },
            }
        };
    let n = rounds.len();
    let left = asked.skip(2 * n as int);
    let none: Result<Option<i64>, Error> = Ok(None);
    let refused = Seq::new(n, |i: int| none);
    assert forall|i: int| 0 <= i < n implies proposes(
        *rng,
        low,
        range,
        *decide,
        #[trigger] refused[i],
    ) by {
        let pair = seq![(8usize, rounds[i].0), (8usize, rounds[i].1)];
        assert(pair[0] == asked[2 * i]);
        assert(pair[1] == asked[2 * i + 1]);
        lemma_proposed_with(rng, low, range, decide, pair, none);
    }
    assert(proposal_trace(*rng, low, range, *decide, refused));
    assert(journal::joins(asked.take(2 * n as int), left, asked)) by {
        assert(asked.take(2 * n as int) + left =~= asked);
    }
    journal::lemma_answered_parts(rng, asked.take(2 * n as int), left, asked);
    let last: Result<Option<i64>, Error> = match r {
        Ok(x) => Ok(Some(x)),
        Err(e) => Err(e),
    };
    if n < budget {
        lemma_proposed_with(rng, low, range, decide, left, last);
        let outcomes = refused.push(last);
        assert(proposal_trace(*rng, low, range, *decide, outcomes));
    }
}

/// A sample costs two answers for each proposal: one that picks the candidate and
/// another one that the decision tosses for it with, so that no answer serves
/// twice.  The sample is the candidate of the last two answers, and every
/// candidate before it was turned down on a toss of its own.
pub proof fn lemma_sample_answers<
    F: Fn(usize) -> Result<Vec<u8>, Error>,
    D: Fn(i64, u64) -> bool,
>(rng: &F, low: i64, range: u64, decide: &D, budget: u32, x: i64)
    requires
        samples_asking(*rng, low, range, *decide, budget, Ok(x)),
    ensures
        exists|
            asked: Seq<(usize, Result<Vec<u8>, Error>)>,
            rounds: Seq<(Result<Vec<u8>, Error>, Result<Vec<u8>, Error>)>,
        |
            #![trigger begins_with(asked, rounds)]
            {
                &&& journal::all_answered(*rng, asked)
                &&& 0 < rounds.len() <= budget
                &&& asked.len() == 2 * rounds.len()
                &&& forall|i: int|
                    0 <= i < rounds.len() ==> asked[2 * i].1 == (#[trigger] rounds[i]).0 && asked[2
                        * i + 1].1 == rounds[i].1
                &&& forall|i: int|
                    0 <= i < rounds.len() - 1 ==> decided(
                        low,
                        range,
                        *decide,
                        (#[trigger] rounds[i]).0,
                        rounds[i].1,
                        None,
                    )
                &&& decided(low, range, *decide, rounds.last().0, rounds.last().1, Some(x))
            },
{
    let (before, after) = choose|before: Draws<&F>, after: Draws<&F>|
        before.is_fresh(rng) && #[trigger] call_ensures(
            sample_step_asking::<&F, D>,
            (before, low, range, decide, budget),
            (Ok::<i64, Error>(x), after),
        );
    let asked = choose|asked: Seq<(usize, Result<Vec<u8>, Error>)>| #[trigger]
        sampled_with(low, range, *decide, budget as nat, asked, Ok(x)) && after.follows(
            before,
            asked,
        );
    let first = choose|first: Seq<(Result<Vec<u8>, Error>, Result<Vec<u8>, Error>)>| #[trigger]
        begins_with(asked, first) && none_kept(low, range, *decide, first) && first.len() < budget
            && proposed_with(
            low,
            range,
            *decide,
            asked.skip(2 * first.len() as int),
            Ok(Some(x)),
        );
    let n = first.len() as int;
    let left = asked.skip(2 * n);
    assert(left[0] == asked[2 * n]);
    assert(left[1] == asked[2 * n + 1]);
    assert(left[0].0 == 8 && left[1].0 == 8);
    let rounds = first.push((left[0].1, left[1].1));
    assert(begins_with(asked, rounds));
}

/// Produce one candidate and either accept (`Some(x)`) or reject (`None`).
pub fn draw_candidate<F, D>(rng: &F, low: i64, range: u64, decide: &D) -> (r: Result<
    Option<i64>,
    Error,
>) where F: Fn(usize) -> Result<Vec<u8>, Error>, D: Fn(i64, u64) -> bool
    requires
        valid_interval(low, range),
        rng.requires((8usize,)),
        forall|x: i64, toss: u64| #[trigger] decide.requires((x, toss)),
    ensures
        proposes(*rng, low, range, *decide, r),
        proposes_asking(*rng, low, range, *decide, r),
        r matches Ok(Some(x)) ==> low <= x < low + range,
{
    let draws: Draws<&F> = Draws::new(rng);
    let ghost before = draws;
    let (r, left) = effect::call_four(draw_candidate_asking::<&F, D>, draws, low, range, decide);
    proof {
        assert(call_ensures(
            draw_candidate_asking::<&F, D>,
            (before, low, range, decide),
            (r, left),
        ));
        let asked = choose|asked: Seq<(usize, Result<Vec<u8>, Error>)>| #[trigger]
            proposed_with(low, range, *decide, asked, r) && left.follows(before, asked);
        lemma_proposed_with(rng, low, range, decide, asked, r);
    }
    r
}

/// Produce one candidate from the next two answers of the random source, and
/// either accept (`Some(x)`) or reject (`None`).
pub fn draw_candidate_asking<F, D>(
    draws: Draws<F>,
    low: i64,
    range: u64,
    decide: &D,
) -> (out: (Result<Option<i64>, Error>, Draws<F>)) where
    F: Fn(usize) -> Result<Vec<u8>, Error>,
    D: Fn(i64, u64) -> bool,

    requires
        valid_interval(low, range),
        draws.source().requires((8usize,)),
        forall|x: i64, toss: u64| #[trigger] decide.requires((x, toss)),
    ensures
        exists|asked: Seq<(usize, Result<Vec<u8>, Error>)>| #[trigger]
            proposed_with(low, range, *decide, asked, out.0) && out.1.follows(draws, asked),
        out.0 matches Ok(Some(x)) ==> low <= x < low + range,
{
    let (first, between) = draws.ask(8);
    let ghost opened = seq![(8usize, first)];
    let proposal: u64 = match draw::read_u64_draw(first) {
        Ok(v) => v,
        Err(e) => {
            let out = (Err(e), between);
            assert(proposed_with(low, range, *decide, opened, out.0));
            return out;
        },
    };
    let (second, left) = between.ask(8);
    let ghost asked = opened + seq![(8usize, second)];
    proof {
        journal::lemma_follows_on(draws, opened, between, seq![(8usize, second)], left);
    }
    let toss: u64 = match draw::read_u64_draw(second) {
        Ok(v) => v,
        Err(e) => {
            let out = (Err(e), left);
            assert(proposed_with(low, range, *decide, asked, out.0));
            return out;
        },
    };
    let offset: i64 = (proposal % range) as i64;
    let x: i64 = low + offset;
    let kept: Option<i64> = if decide(x, toss) {
        Some(x)
    } else {
        None
    };
    assert(draw::read_from_draw(asked[0].1, Ok(proposal)));
    assert(draw::read_from_draw(asked[1].1, Ok(toss)));
    let out = (Ok(kept), left);
    assert(proposed_with(low, range, *decide, asked, out.0));
    out
}

/// Propose up to `budget` times, until the decision keeps a candidate.
pub fn sample_step<F, D>(rng: &F, low: i64, range: u64, decide: &D, budget: u32) -> (r: Result<
    i64,
    Error,
>) where F: Fn(usize) -> Result<Vec<u8>, Error>, D: Fn(i64, u64) -> bool
    requires
        valid_interval(low, range),
        rng.requires((8usize,)),
        forall|x: i64, toss: u64| #[trigger] decide.requires((x, toss)),
    ensures
        samples(*rng, low, range, *decide, budget as nat, r),
        samples_asking(*rng, low, range, *decide, budget, r),
        r matches Ok(x) ==> low <= x < low + range,
{
    let draws: Draws<&F> = Draws::new(rng);
    let ghost before = draws;
    let (r, left) = effect::call_five(
        sample_step_asking::<&F, D>,
        draws,
        low,
        range,
        decide,
        budget,
    );
    proof {
        assert(call_ensures(
            sample_step_asking::<&F, D>,
            (before, low, range, decide, budget),
            (r, left),
        ));
        let asked = choose|asked: Seq<(usize, Result<Vec<u8>, Error>)>| #[trigger]
            sampled_with(low, range, *decide, budget as nat, asked, r) && left.follows(
                before,
                asked,
            );
        lemma_sampled_with(rng, low, range, decide, budget as nat, asked, r);
    }
    r
}

/// Propose up to `budget` times, with answers of the random source, until the
/// decision keeps a candidate.
pub fn sample_step_asking<F, D>(
    draws: Draws<F>,
    low: i64,
    range: u64,
    decide: &D,
    budget: u32,
) -> (out: (Result<i64, Error>, Draws<F>)) where
    F: Fn(usize) -> Result<Vec<u8>, Error>,
    D: Fn(i64, u64) -> bool,

    requires
        valid_interval(low, range),
        draws.source().requires((8usize,)),
        forall|x: i64, toss: u64| #[trigger] decide.requires((x, toss)),
    ensures
        exists|asked: Seq<(usize, Result<Vec<u8>, Error>)>| #[trigger]
            sampled_with(low, range, *decide, budget as nat, asked, out.0) && out.1.follows(
                draws,
                asked,
            ),
        out.0 matches Ok(x) ==> low <= x < low + range,
{
    let ghost mut rounds: Seq<(Result<Vec<u8>, Error>, Result<Vec<u8>, Error>)> = Seq::empty();
    let ghost mut asked: Seq<(usize, Result<Vec<u8>, Error>)> = Seq::empty();
    let mut left = draws;
    let mut remaining: u32 = budget;
    proof {
        journal::lemma_follows_itself(draws);
    }
    while remaining > 0
        invariant
            valid_interval(low, range),
            draws.source().requires((8usize,)),
            forall|x: i64, toss: u64| #[trigger] decide.requires((x, toss)),
            remaining <= budget,
            left.follows(draws, asked),
            begins_with(asked, rounds),
            none_kept(low, range, *decide, rounds),
            asked.len() == 2 * rounds.len(),
            rounds.len() == budget - remaining,
        decreases remaining,
    {
        let ghost prior = left;
        let (outcome, rest) = draw_candidate_asking(left, low, range, decide);
        let ghost first = asked;
        let ghost next = choose|next: Seq<(usize, Result<Vec<u8>, Error>)>| #[trigger]
            proposed_with(low, range, *decide, next, outcome) && rest.follows(prior, next);
        proof {
            journal::lemma_follows_on(draws, first, prior, next, rest);
            asked = first + next;
            assert(asked.skip(2 * rounds.len() as int) =~= next);
            assert(begins_with(asked, rounds));
        }
        left = rest;
        match outcome {
            Ok(Some(x)) => {
                let out = (Ok(x), left);
                assert(sampled_with(low, range, *decide, budget as nat, asked, out.0));
                return out;
            },
            Ok(None) => {
                proof {
                    assert(next[0].0 == 8 && next[1].0 == 8);
                    rounds = rounds.push((next[0].1, next[1].1));
                    assert(begins_with(asked, rounds));
                }
            },
            Err(e) => {
                let out = (Err(e), left);
                assert(sampled_with(low, range, *decide, budget as nat, asked, out.0));
                return out;
            },
        }
        remaining -= 1;
    }
    let out = (
        Err(
            Error::RandomGenerationFailed(
                String::from_str("discrete Gaussian rejection exhausted"),
            ),
        ),
        left,
    );
    assert(sampled_with(low, range, *decide, budget as nat, asked, out.0));
    out
}

} // verus!
