//! The effect types `Io` and `Stream`, and what running them can give.
//!
//! Both are opaque here: an `Io` is known by the results that running it can
//! give ([`runs_to`]), and a `Stream` by what collecting it, as a whole or up
//! to a number of items, can give ([`yields`]).
use crate::error::Error;
use comp_cat_rs::effect::io::Io;
use comp_cat_rs::effect::stream::Stream;
use std::sync::Arc;
use vstd::prelude::*;

verus! {

/// `comp_cat_rs::effect::io::Io`: a deferred computation.
#[verifier::external_type_specification]
#[verifier::external_body]
#[verifier::reject_recursive_types(E)]
#[verifier::reject_recursive_types(A)]
pub struct ExIo<E, A>(Io<E, A>);

/// `comp_cat_rs::effect::stream::Stream`: a pull-based stream of deferred items.
#[verifier::external_type_specification]
#[verifier::external_body]
#[verifier::reject_recursive_types(E)]
#[verifier::reject_recursive_types(A)]
pub struct ExStream<E, A>(Stream<E, A>);

/// `Io::run` executes a computation.  Nothing is claimed of what comes out:
/// [`runs_to`] speaks of its possible results.
pub assume_specification<E, A>[ Io::<E, A>::run ](io: Io<E, A>) -> (r: Result<A, E>)
;

/// `Stream::collect` gathers all items in a vector.  Nothing is claimed of what
/// comes out: [`yields`] speaks of its possible results.
pub assume_specification<E: Send + 'static, A: Send + 'static>[ Stream::<E, A>::collect ](
    stream: Stream<E, A>,
) -> (io: Io<E, Vec<A>>)
;

/// `Stream::take` ends a stream after a number of items.  Nothing is claimed of
/// what comes out: [`yields`] speaks of its possible results.
pub assume_specification<E: Send + 'static, A: Send + 'static>[ Stream::<E, A>::take ](
    stream: Stream<E, A>,
    n: usize,
) -> (taken: Stream<E, A>)
;

/// Running `io` can give `r`.
pub open spec fn runs_to<A>(io: Io<Error, A>, r: Result<A, Error>) -> bool {
    call_ensures(Io::<Error, A>::run, (io,), r)
}

/// `taken` is `stream`, ended after `limit` items if there is a limit.
pub open spec fn limited<A: Send + 'static>(
    stream: Stream<Error, A>,
    limit: Option<usize>,
    taken: Stream<Error, A>,
) -> bool {
    match limit {
        Some(n) => call_ensures(Stream::<Error, A>::take, (stream, n), taken),
        None => taken == stream,
    }
}

/// Collecting `stream`, ended after `limit` items if there is a limit, and
/// running that can give `r`.
pub open spec fn yields<A: Send + 'static>(
    stream: Stream<Error, A>,
    limit: Option<usize>,
    r: Result<Vec<A>, Error>,
) -> bool {
    exists|taken: Stream<Error, A>, io: Io<Error, Vec<A>>|
        limited(stream, limit, taken) && #[trigger] call_ensures(
            Stream::<Error, A>::collect,
            (taken,),
            io,
        ) && runs_to(io, r)
}

/// Calls `f`.
pub(crate) fn call_bare<Y, F: FnOnce() -> Y>(f: F) -> (y: Y)
    requires
        f.requires(()),
    ensures
        f.ensures((), y),
{
    f()
}

/// Calls `f` on `x` and `y`.
pub(crate) fn call_pair<X, Y, Z, F: FnOnce(X, Y) -> Z>(f: F, x: X, y: Y) -> (z: Z)
    requires
        f.requires((x, y)),
    ensures
        f.ensures((x, y), z),
{
    f(x, y)
}

/// Calls `f` on `x`.
pub(crate) fn call_once<X, Y, F: FnOnce(X) -> Y>(f: F, x: X) -> (y: Y)
    requires
        f.requires((x,)),
    ensures
        f.ensures((x,), y),
{
    f(x)
}

/// Calls `function` on three values.
pub(crate) fn call_three<A, B, C, Y, F: FnOnce(A, B, C) -> Y>(
    function: F,
    a: A,
    b: B,
    c: C,
) -> (y: Y)
    requires
        function.requires((a, b, c)),
    ensures
        function.ensures((a, b, c), y),
{
    function(a, b, c)
}

/// Calls `function` on four values.
pub(crate) fn call_four<A, B, C, D, Y, F: FnOnce(A, B, C, D) -> Y>(
    function: F,
    a: A,
    b: B,
    c: C,
    d: D,
) -> (y: Y)
    requires
        function.requires((a, b, c, d)),
    ensures
        function.ensures((a, b, c, d), y),
{
    function(a, b, c, d)
}

/// Calls `function` on five values.
pub(crate) fn call_five<A, B, C, D, E, Y, F: FnOnce(A, B, C, D, E) -> Y>(
    function: F,
    a: A,
    b: B,
    c: C,
    d: D,
    e: E,
) -> (y: Y)
    requires
        function.requires((a, b, c, d, e)),
    ensures
        function.ensures((a, b, c, d, e), y),
{
    function(a, b, c, d, e)
}

/// Calls `function` on six values.
pub(crate) fn call_six<A, B, C, D, E, G, Y, F: FnOnce(A, B, C, D, E, G) -> Y>(
    function: F,
    a: A,
    b: B,
    c: C,
    d: D,
    e: E,
    g: G,
) -> (y: Y)
    requires
        function.requires((a, b, c, d, e, g)),
    ensures
        function.ensures((a, b, c, d, e, g), y),
{
    function(a, b, c, d, e, g)
}

/// Calls `function` on seven values.
pub(crate) fn call_seven<A, B, C, D, E, G, H, Y, F: FnOnce(A, B, C, D, E, G, H) -> Y>(
    function: F,
    a: A,
    b: B,
    c: C,
    d: D,
    e: E,
    g: G,
    h: H,
) -> (y: Y)
    requires
        function.requires((a, b, c, d, e, g, h)),
    ensures
        function.ensures((a, b, c, d, e, g, h), y),
{
    function(a, b, c, d, e, g, h)
}

/// Runs a computation.
pub(crate) fn run<A>(io: Io<Error, A>) -> (r: Result<A, Error>)
    ensures
        runs_to(io, r),
{
    call_once(Io::<Error, A>::run, io)
}

/// Collects a stream.
pub(crate) fn collect<A: Send + 'static>(stream: Stream<Error, A>) -> (io: Io<Error, Vec<A>>)
    ensures
        forall|r: Result<Vec<A>, Error>| #[trigger]
            runs_to(io, r) ==> yields(stream, None, r),
{
    let io = call_once(Stream::<Error, A>::collect, stream);
    assert(limited(stream, None, stream));
    io
}

/// `Io::suspend` defers a call: running the result calls `f` and gives what it
/// returns.
#[verifier::external_body]
pub(crate) fn suspend<A: Send + 'static, F: FnOnce() -> Result<A, Error> + Send + 'static>(
    f: F,
) -> (io: Io<Error, A>)
    requires
        f.requires(()),
    ensures
        forall|r: Result<A, Error>| #[trigger] runs_to(io, r) ==> f.ensures((), r),
{
    Io::suspend(f)
}

/// `r` comes from running a result of `f` on a value that `io` gives, or is an
/// error that `io` gives.
pub open spec fn sequenced<A, B, F: FnOnce(A) -> Io<Error, B>>(
    io: Io<Error, A>,
    f: F,
    r: Result<B, Error>,
) -> bool {
    ||| exists|e: Error| #[trigger]
        runs_to(io, Err::<A, Error>(e)) && r == Err::<B, Error>(e)
    ||| exists|a: A, next: Io<Error, B>|
        runs_to(io, Ok::<A, Error>(a)) && #[trigger] f.ensures((a,), next) && runs_to(next, r)
}

/// `Io::flat_map` sequences computations: running the result runs `io`, hands
/// its value to `f` and runs what `f` returns; an error of `io` is the result.
#[verifier::external_body]
pub(crate) fn flat_map<
    A: Send + 'static,
    B: Send + 'static,
    F: FnOnce(A) -> Io<Error, B> + Send + 'static,
>(io: Io<Error, A>, f: F) -> (next: Io<Error, B>)
    requires
        forall|a: A| #[trigger] runs_to(io, Ok::<A, Error>(a)) ==> f.requires((a,)),
    ensures
        forall|r: Result<B, Error>| #[trigger] runs_to(next, r) ==> sequenced(io, f, r),
{
    io.flat_map(f)
}

/// Some computation that `step` returns for `state` can give `outcome`.
pub open spec fn step_gives<A, S, F: Fn(S) -> Io<Error, Option<(A, S)>>>(
    step: F,
    state: S,
    outcome: Result<Option<(A, S)>, Error>,
) -> bool {
    exists|io: Io<Error, Option<(A, S)>>| #[trigger]
        step.ensures((state,), io) && runs_to(io, outcome)
}

/// Each of `items` comes with the state that the next step starts from.
pub open spec fn unfold_trace<A, S, F: Fn(S) -> Io<Error, Option<(A, S)>>>(
    init: S,
    step: F,
    items: Seq<A>,
    states: Seq<S>,
) -> bool {
    &&& states.len() == items.len() + 1
    &&& states.first() == init
    &&& forall|i: int|
        0 <= i < items.len() ==> step_gives(
            step,
            states[i],
            Ok(Some((#[trigger] items[i], states[i + 1]))),
        )
}

/// `r` is what up to `limit` steps from `init` give: the items of the steps, which
/// stop at the limit or at a step without an item; or the error of the step behind
/// them.
pub open spec fn unfolds<A, S, F: Fn(S) -> Io<Error, Option<(A, S)>>>(
    init: S,
    step: F,
    limit: Option<usize>,
    r: Result<Vec<A>, Error>,
) -> bool {
    exists|items: Seq<A>, states: Seq<S>| #[trigger]
        unfold_trace(init, step, items, states) && match r {
            Ok(all) => {
                &&& all@ == items
                &&& limit matches Some(n) ==> items.len() <= n
                &&& (limit matches Some(n) && items.len() == n) || step_gives(
                    step,
                    states.last(),
                    Ok(None),
                )
            },
            Err(e) => {
                &&& limit matches Some(n) ==> items.len() < n
                &&& step_gives(step, states.last(), Err(e))
            },
        }
}

/// `Stream::unfold`: the stream's items are those of the computations that `step`
/// returns, the first for `init` and each next for the state that came with the
/// item before; it ends with the first that gives no item and fails with the first
/// that fails.
#[verifier::external_body]
pub(crate) fn unfold<
    A: Send + 'static,
    S: Send + 'static,
    F: Fn(S) -> Io<Error, Option<(A, S)>> + Send + Sync + 'static,
>(init: S, step: F) -> (stream: Stream<Error, A>)
    requires
        step.requires((init,)),
        forall|s: S, a: A, next: S|
            step.requires((s,)) && #[trigger] step_gives(step, s, Ok(Some((a, next))))
                ==> step.requires((next,)),
    ensures
        forall|limit: Option<usize>, r: Result<Vec<A>, Error>| #[trigger]
            yields(stream, limit, r) ==> unfolds(init, step, limit, r),
{
    Stream::unfold(init, Arc::new(step))
}

/// `r` is `before` with every item handed through `f`.
pub open spec fn mapped<A, B, F: Fn(A) -> B>(
    before: Result<Vec<A>, Error>,
    f: F,
    r: Result<Vec<B>, Error>,
) -> bool {
    match (before, r) {
        (Ok(items), Ok(images)) => items@.len() == images@.len() && forall|i: int|
            0 <= i < items@.len() ==> f.ensures((items@[i],), #[trigger] images@[i]),
        (Err(e), Err(f)) => e == f,
        _ => false,
    }
}

/// `Stream::map` applies a function to each item and keeps the end and the
/// errors of the stream.
#[verifier::external_body]
pub(crate) fn map<A: Send + 'static, B: Send + 'static, F: Fn(A) -> B + Send + Sync + 'static>(
    stream: Stream<Error, A>,
    f: F,
) -> (images: Stream<Error, B>)
    requires
        forall|limit: Option<usize>, items: Vec<A>, i: int|
            #[trigger] yields(stream, limit, Ok(items)) && 0 <= i < items@.len() ==> f.requires(
                (#[trigger] items@[i],),
            ),
    ensures
        forall|limit: Option<usize>, r: Result<Vec<B>, Error>| #[trigger]
            yields(images, limit, r) ==> exists|before: Result<Vec<A>, Error>| #[trigger]
                yields(stream, limit, before) && mapped(before, f, r),
{
    stream.map(Arc::new(f))
}

/// Each of `states` is what `f` returns for the one before and the item between.
pub open spec fn fold_trace<A, B, F: Fn(B, A) -> B>(f: F, items: Seq<A>, states: Seq<B>) -> bool {
    &&& states.len() == items.len() + 1
    &&& forall|i: int|
        0 <= i < items.len() ==> f.ensures((states[i], #[trigger] items[i]), states[i + 1])
}

/// `result` is what remains of `init` after `f` has taken each item in turn.
pub open spec fn folded<A, B, F: Fn(B, A) -> B>(
    init: B,
    f: F,
    items: Seq<A>,
    result: B,
) -> bool {
    exists|states: Seq<B>| #[trigger]
        fold_trace(f, items, states) && states.first() == init && states.last() == result
}

/// `Stream::fold` hands each item of the stream to `f` with what `f` returned
/// for the items before; an error of the stream is the result.
#[verifier::external_body]
pub(crate) fn fold<
    A: Send + 'static,
    B: Send + 'static,
    F: Fn(B, A) -> B + Send + Sync + 'static,
>(stream: Stream<Error, A>, init: B, f: F) -> (io: Io<Error, B>)
    requires
        forall|b: B, a: A| f.requires((b, a)),
    ensures
        forall|r: Result<B, Error>| #[trigger]
            runs_to(io, r) ==> exists|all: Result<Vec<A>, Error>| #[trigger]
                yields(stream, None, all) && match (all, r) {
                    (Ok(items), Ok(b)) => folded(init, f, items@, b),
                    (Err(e), Err(f)) => e == f,
                    _ => false,
                },
{
    stream.fold(init, Arc::new(f))
}

/// The first items up to a limit.
pub open spec fn up_to<A>(items: Seq<A>, limit: Option<usize>) -> Seq<A> {
    match limit {
        Some(n) if n < items.len() => items.take(n as int),
        _ => items,
    }
}

/// `Stream::from_vec` emits the items of a vector in order and does not fail.
#[verifier::external_body]
pub(crate) fn from_vec<A: Send + 'static>(items: Vec<A>) -> (stream: Stream<Error, A>)
    ensures
        forall|limit: Option<usize>, r: Result<Vec<A>, Error>| #[trigger]
            yields(stream, limit, r) ==> (r matches Ok(v) && v@ == up_to(items@, limit)),
{
    Stream::from_vec(items)
}

} // verus!
