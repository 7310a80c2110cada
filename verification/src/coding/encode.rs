//! Encoding: generate coded pieces from original data.
//!
//! The pure core is [`encode_with_vector`], which computes a single coded
//! piece given explicit coefficients.  [`Encoder`] wraps this with [`Io`] and
//! [`Stream`] for random coefficient generation.
use super::piece::{CodedPiece, CodingVector, OriginalData, OriginalView, PieceView};
use crate::effect;
use crate::error::Error;
use crate::journal::Draws;
use crate::vector::gf_vec;
use crate::vector::linear;
use crate::vector::GfVec;
use comp_cat_rs::effect::io::Io;
use comp_cat_rs::effect::stream::Stream;
use vstd::prelude::*;

verus! {

/// The coded piece with the given coefficients: the linear combination of the
/// original pieces.
pub open spec fn coded(original: OriginalView, coeffs: Seq<u8>) -> PieceView {
    PieceView {
        coeffs,
        data: linear::combination(coeffs, original.pieces, original.piece_byte_len),
    }
}

/// `r` is the coded piece with the given coefficients, or the error for a
/// number of coefficients other than the number of pieces.
pub open spec fn encoded(
    original: OriginalView,
    coeffs: Seq<u8>,
    r: Result<CodedPiece, Error>,
) -> bool {
    if coeffs.len() == original.pieces.len() {
        r matches Ok(piece) && piece@ == coded(original, coeffs)
    } else {
        r == Err::<CodedPiece, Error>(
            Error::CodingVectorLengthMismatch {
                expected: original.pieces.len() as usize,
                actual: coeffs.len() as usize,
            },
        )
    }
}

/// `r` is what encoding gives for an answer of the random source.
pub open spec fn encoded_from(
    original: OriginalView,
    draw: Result<Vec<u8>, Error>,
    r: Result<CodedPiece, Error>,
) -> bool {
    match draw {
        Ok(bytes) => encoded(original, bytes@, r),
        Err(e) => r == Err::<CodedPiece, Error>(e),
    }
}

/// Some answer of the random source `rng` makes encoding give `r`.
pub open spec fn encodes<F: FnOnce(usize) -> Result<Vec<u8>, Error>>(
    original: OriginalView,
    rng: F,
    r: Result<CodedPiece, Error>,
) -> bool {
    exists|draw: Result<Vec<u8>, Error>| #[trigger]
        rng.ensures((original.pieces.len() as usize,), draw) && encoded_from(original, draw, r)
}

/// Borrowed references to the vectors of a slice.
fn references(vecs: &[GfVec]) -> (r: Vec<&GfVec>)
    ensures
        gf_vec::views_of_refs(r@) == gf_vec::views_of(vecs@),
{
    let mut refs: Vec<&GfVec> = Vec::with_capacity(vecs.len());
    let mut i: usize = 0;
    while i < vecs.len()
        invariant
            i <= vecs@.len(),
            refs@.len() == i,
            forall|k: int| 0 <= k < i ==> (#[trigger] refs@[k])@ == vecs@[k]@,
        decreases vecs@.len() - i,
    {
        refs.push(&vecs[i]);
        i += 1;
    }
    assert(gf_vec::views_of_refs(refs@) =~= gf_vec::views_of(vecs@));
    refs
}

/// Compute a single coded piece from explicit coding coefficients.
///
/// The coded data is the linear combination
/// `sum(coding_vector[i] * original.piece(i))` over all pieces.  Fails with
/// [`Error::CodingVectorLengthMismatch`] if the coding vector length is not the
/// number of original pieces.
#[must_use]
pub fn encode_with_vector(original: &OriginalData, coding_vector: CodingVector) -> (r: Result<
    CodedPiece,
    Error,
>)
    ensures
        encoded(original@, coding_vector@, r),
{
    if coding_vector.len() == original.piece_count() {
        let piece_refs = references(original.pieces());
        match GfVec::linear_combine(coding_vector.as_vec().elements(), piece_refs.as_slice()) {
            Ok(data) => Ok(CodedPiece::new(coding_vector, data)),
            Err(e) => Err(e),
        }
    } else {
        Err(
            Error::CodingVectorLengthMismatch {
                expected: original.piece_count(),
                actual: coding_vector.len(),
            },
        )
    }
}

/// Compute a single coded piece from an answer of the random source: its bytes
/// are the coefficients, and its error is the result.
pub fn encode_from_draw(original: &OriginalData, draw: Result<Vec<u8>, Error>) -> (r: Result<
    CodedPiece,
    Error,
>)
    ensures
        encoded_from(original@, draw, r),
{
    match draw {
        Ok(bytes) => encode_with_vector(original, CodingVector::from_bytes(bytes.as_slice())),
        Err(e) => Err(e),
    }
}

/// Ask the random source once, and compute a coded piece from its answer.
pub fn encode_drawn<F: Fn(usize) -> Result<Vec<u8>, Error>>(
    original: &OriginalData,
    draws: Draws<F>,
) -> (out: (Result<CodedPiece, Error>, Draws<F>))
    requires
        draws.source().requires((original@.pieces.len() as usize,)),
    ensures
        exists|draw: Result<Vec<u8>, Error>| #[trigger]
            encoded_from(original@, draw, out.0) && out.1.follows(
                draws,
                seq![(original@.pieces.len() as usize, draw)],
            ),
{
    let count: usize = original.piece_count();
    let (draw, left) = draws.ask(count);
    let out = (encode_from_draw(original, draw), left);
    assert(encoded_from(original@, draw, out.0));
    out
}

/// An encoder that generates coded pieces from original data.
///
/// The encoder holds the original data and provides methods to generate coded
/// pieces using injected randomness.  The pure encoding logic lives in
/// [`encode_with_vector`]; the encoder wraps it with effect types.
#[must_use]
pub struct Encoder {
    pub(crate) original: OriginalData,
}

impl View for Encoder {
    type V = OriginalView;

    open(crate) spec fn view(&self) -> OriginalView {
        self.original@
    }
}

impl Encoder {
    /// Create an encoder from the original data.
    pub fn new(original: OriginalData) -> (r: Self)
        ensures
            r@ == original@,
    {
        Self { original }
    }

    /// The underlying original data.
    pub fn original(&self) -> (r: &OriginalData)
        ensures
            r@ == self@,
    {
        &self.original
    }

    /// Generate a single coded piece.
    ///
    /// The `rng` closure receives the number of random bytes needed (equal to
    /// `piece_count`) and must return that many random bytes.  It is called
    /// when the returned `Io` is run.
    #[must_use]
    pub fn encode_one<F: FnOnce(usize) -> Result<Vec<u8>, Error> + Send + 'static>(
        &self,
        rng: F,
    ) -> (io: Io<Error, CodedPiece>)
        requires
            rng.requires((self@.pieces.len() as usize,)),
        ensures
            forall|r: Result<CodedPiece, Error>| #[trigger]
                effect::runs_to(io, r) ==> encodes(self@, rng, r),
    {
        let original = self.original.clone();
        let count: usize = original.piece_count();
        let body = move || -> (r: Result<CodedPiece, Error>)
            ensures
                encodes(original@, rng, r),
            {
                let draw = rng(count);
                encode_from_draw(&original, draw)
            };
        effect::suspend(body)
    }

    /// Generate an unbounded stream of coded pieces.
    ///
    /// The `rng_factory` closure is called once per piece to produce the random
    /// bytes for that piece's coding vector.  The stream is infinite; use
    /// `.take(n)` to bound it.
    #[must_use]
    pub fn encode_stream<F>(&self, rng_factory: F) -> (stream: Stream<Error, CodedPiece>) where
        F: Fn(usize) -> Result<Vec<u8>, Error> + Send + Sync + 'static,

        requires
            rng_factory.requires((self@.pieces.len() as usize,)),
        ensures
            forall|limit: Option<usize>, r: Result<Vec<CodedPiece>, Error>| #[trigger]
                effect::yields(stream, limit, r) ==> streams(self@, rng_factory, limit, r)
                    && draws_stream(self@, rng_factory, limit, r),
    {
        let original = self.original.clone();
        let count: usize = original.piece_count();
        let draws = Draws::new(rng_factory);
        let step = move |draws: Draws<F>| -> (io: Io<Error, Option<(CodedPiece, Draws<F>)>>)
            requires
                draws.source().requires((count,)),
            ensures
                forall|o: Result<Option<(CodedPiece, Draws<F>)>, Error>| #[trigger]
                    effect::runs_to(io, o) ==> encodes_step(original@, draws.source(), o)
                        && encodes_next(original@, draws, o) && (o matches Ok(Some((_, left)))
                        ==> left.source().requires((count,))),
            {
                let original = original.clone();
                let body = move || -> (o: Result<Option<(CodedPiece, Draws<F>)>, Error>)
                    ensures
                        encodes_step(original@, draws.source(), o),
                        encodes_next(original@, draws, o),
                        o matches Ok(Some((_, left))) ==> left.source() == draws.source(),
                    { encode_step(&original, draws) };
                effect::suspend(body)
            };
        proof {
            assert forall|s: Draws<F>, a: CodedPiece, next: Draws<F>|
                step.requires((s,)) && #[trigger] effect::step_gives(
                    step,
                    s,
                    Ok(Some((a, next))),
                ) implies step.requires((next,)) by {}
        }
        let stream = effect::unfold(draws, step);
        proof {
            assert forall|limit: Option<usize>, r: Result<Vec<CodedPiece>, Error>| #[trigger]
                effect::yields(stream, limit, r) implies streams(self@, rng_factory, limit, r)
                && draws_stream(self@, rng_factory, limit, r) by {
                let (items, states) = choose|items: Seq<CodedPiece>, states: Seq<Draws<F>>|
                    #[trigger]
                    effect::unfold_trace(draws, step, items, states) && match r {
                        Ok(all) => {
                            &&& all@ == items
                            &&& limit matches Some(n) ==> items.len() <= n
                            &&& (limit matches Some(n) && items.len() == n) || effect::step_gives(
                                step,
                                states.last(),
                                Ok(None),
                            )
                        },
                        Err(e) => {
                            &&& limit matches Some(n) ==> items.len() < n
                            &&& effect::step_gives(step, states.last(), Err(e))
                        },
                    };
                assert forall|i: int| 0 <= i < items.len() implies drawn(
                    self@,
                    states[i],
                    Ok(#[trigger] items[i]),
                    states[i + 1],
                ) by {
                    assert(effect::step_gives(
                        step,
                        states[i],
                        Ok(Some((items[i], states[i + 1]))),
                    ));
                }
                assert(draw_trace(self@, rng_factory, items, states));
                assert forall|i: int| 0 <= i < items.len() implies encodes(
                    self@,
                    rng_factory,
                    Ok(#[trigger] items[i]),
                ) by {
                    lemma_trace_source(self@, rng_factory, items, states, i);
                    assert(effect::step_gives(
                        step,
                        states[i],
                        Ok(Some((items[i], states[i + 1]))),
                    ));
                }
                lemma_trace_source(self@, rng_factory, items, states, items.len() as int);
            }
        }
        stream
    }
}

/// One step of an encoding stream: ask the random source once, and encode with its
/// answer.
pub fn encode_step<F: Fn(usize) -> Result<Vec<u8>, Error>>(
    original: &OriginalData,
    draws: Draws<F>,
) -> (o: Result<Option<(CodedPiece, Draws<F>)>, Error>)
    requires
        draws.source().requires((original@.pieces.len() as usize,)),
    ensures
        encodes_step(original@, draws.source(), o),
        encodes_next(original@, draws, o),
        o matches Ok(Some((_, left))) ==> left.source() == draws.source(),
{
    let out = effect::call_pair(encode_drawn::<F>, original, draws);
    assert(drawn(original@, draws, out.0, out.1));
    proof {
        let draw = choose|draw: Result<Vec<u8>, Error>| #[trigger]
            encoded_from(original@, draw, out.0) && out.1.follows(
                draws,
                seq![(original@.pieces.len() as usize, draw)],
            );
        let entries = seq![(original@.pieces.len() as usize, draw)];
        assert(draws.source().ensures((entries[0].0,), entries[0].1));
        assert(encodes(original@, draws.source(), out.0));
    }
    match out.0 {
        Ok(piece) => Ok(Some((piece, out.1))),
        Err(e) => Err(e),
    }
}

/// `r` was encoded with the next answer of the random source, and `after` is what
/// is left of it.
pub open spec fn drawn<F: Fn(usize) -> Result<Vec<u8>, Error>>(
    original: OriginalView,
    before: Draws<F>,
    r: Result<CodedPiece, Error>,
    after: Draws<F>,
) -> bool {
    exists|o: OriginalData|
        o@ == original && #[trigger] call_ensures(encode_drawn::<F>, (&o, before), (r, after))
}

/// One step of an encoding stream, with what is left of the random source.
pub open spec fn encodes_next<F: Fn(usize) -> Result<Vec<u8>, Error>>(
    original: OriginalView,
    draws: Draws<F>,
    o: Result<Option<(CodedPiece, Draws<F>)>, Error>,
) -> bool {
    match o {
        Ok(Some((piece, left))) => drawn(original, draws, Ok(piece), left),
        Ok(None) => false,
        Err(e) => exists|left: Draws<F>| #[trigger] drawn(original, draws, Err(e), left),
    }
}

/// Each of `pieces` was encoded with the next answer of the random source, from the
/// first on.
pub open spec fn draw_trace<F: Fn(usize) -> Result<Vec<u8>, Error>>(
    original: OriginalView,
    rng: F,
    pieces: Seq<CodedPiece>,
    draws: Seq<Draws<F>>,
) -> bool {
    &&& draws.len() == pieces.len() + 1
    &&& draws.first().is_fresh(rng)
    &&& forall|i: int|
        0 <= i < pieces.len() ==> drawn(
            original,
            draws[i],
            Ok(#[trigger] pieces[i]),
            draws[i + 1],
        )
}

/// What an encoding stream gives up to a limit is encoded with the answers of the
/// random source one after the other, one for each piece; its error with the answer
/// behind them.
pub open spec fn draws_stream<F: Fn(usize) -> Result<Vec<u8>, Error>>(
    original: OriginalView,
    rng: F,
    limit: Option<usize>,
    r: Result<Vec<CodedPiece>, Error>,
) -> bool {
    exists|pieces: Seq<CodedPiece>, draws: Seq<Draws<F>>| #[trigger]
        draw_trace(original, rng, pieces, draws) && match r {
            Ok(all) => all@ == pieces && limit == Some(pieces.len() as usize),
            Err(e) => (limit matches Some(n) ==> pieces.len() < n) && exists|left: Draws<F>|
                #[trigger]
                drawn(original, draws.last(), Err(e), left),
        }
}

/// A trace keeps its random source.
proof fn lemma_trace_source<F: Fn(usize) -> Result<Vec<u8>, Error>>(
    original: OriginalView,
    rng: F,
    pieces: Seq<CodedPiece>,
    draws: Seq<Draws<F>>,
    i: int,
)
    requires
        draw_trace(original, rng, pieces, draws),
        0 <= i <= pieces.len(),
    ensures
        draws[i].source() == rng,
    decreases i,
{
    if i > 0 {
        lemma_trace_source(original, rng, pieces, draws, i - 1);
        assert(drawn(original, draws[i - 1], Ok(pieces[i - 1]), draws[i - 1 + 1]));
    }
}

/// The `i`-th answer of a trace is the coding vector of the `i`-th piece.
proof fn lemma_trace_record<F: Fn(usize) -> Result<Vec<u8>, Error>>(
    original: OriginalView,
    rng: F,
    pieces: Seq<CodedPiece>,
    draws: Seq<Draws<F>>,
    n: int,
)
    requires
        draw_trace(original, rng, pieces, draws),
        0 <= n <= pieces.len(),
    ensures
        draws[n].record().len() == n,
        forall|i: int| 0 <= i < n ==> is_drawn(original, #[trigger] draws[n].record()[i], pieces[i]@),
    decreases n,
{
    if n > 0 {
        lemma_trace_record(original, rng, pieces, draws, n - 1);
        let (before, after) = (draws[n - 1], draws[n]);
        assert(drawn(original, before, Ok(pieces[n - 1]), draws[n - 1 + 1]));
        let draw = choose|draw: Result<Vec<u8>, Error>| #[trigger]
            encoded_from(original, draw, Ok(pieces[n - 1])) && after.follows(
                before,
                seq![(original.pieces.len() as usize, draw)],
            );
        assert forall|i: int| 0 <= i < n implies is_drawn(
            original,
            #[trigger] after.record()[i],
            pieces[i]@,
        ) by {
            if i < n - 1 {
                assert(after.record()[i] == before.record()[i]);
            }
        }
    }
}

/// An entry of the record asks for one byte for each original piece, and `piece` is
/// the linear combination of the original pieces with the bytes that came back.
pub open spec fn is_drawn(
    original: OriginalView,
    entry: (usize, Result<Vec<u8>, Error>),
    piece: PieceView,
) -> bool {
    &&& entry.0 == original.pieces.len() as usize
    &&& entry.1 matches Ok(bytes) && piece.coeffs == bytes@ && piece.data
        == linear::combination(bytes@, original.pieces, original.piece_byte_len)
}

/// An encoding stream asks the random source once for each piece, and uses each
/// answer for one piece: the coding vector of the `i`-th piece is the `i`-th answer,
/// and when `n` pieces are out the source has been asked `n` times.
pub proof fn lemma_stream_answers<F: Fn(usize) -> Result<Vec<u8>, Error>>(
    original: OriginalView,
    rng: F,
    limit: Option<usize>,
    pieces: Vec<CodedPiece>,
)
    requires
        draws_stream(original, rng, limit, Ok(pieces)),
    ensures
        exists|draws: Seq<Draws<F>>| #[trigger]
            draw_trace(original, rng, pieces@, draws) && draws.last().record().len()
                == pieces@.len() && forall|i: int|
                0 <= i < pieces@.len() ==> is_drawn(
                    original,
                    #[trigger] draws.last().record()[i],
                    pieces@[i]@,
                ),
{
    let (all, draws) = choose|all: Seq<CodedPiece>, draws: Seq<Draws<F>>| #[trigger]
        draw_trace(original, rng, all, draws) && pieces@ == all;
    lemma_trace_record(original, rng, all, draws, all.len() as int);
    assert(draw_trace(original, rng, pieces@, draws));
}

/// One step of an encoding stream: always a piece, unless encoding fails.
pub open spec fn encodes_step<F: FnOnce(usize) -> Result<Vec<u8>, Error>, S>(
    original: OriginalView,
    rng: F,
    o: Result<Option<(CodedPiece, S)>, Error>,
) -> bool {
    match o {
        Ok(Some((piece, _))) => encodes(original, rng, Ok(piece)),
        Ok(None) => false,
        Err(e) => encodes(original, rng, Err(e)),
    }
}

/// What an encoding stream gives up to a limit: exactly as many coded pieces,
/// each from an answer of the random source; or the first error.  Without a
/// limit it only ends by failing.
pub open spec fn streams<F: FnOnce(usize) -> Result<Vec<u8>, Error>>(
    original: OriginalView,
    rng: F,
    limit: Option<usize>,
    r: Result<Vec<CodedPiece>, Error>,
) -> bool {
    match r {
        Ok(pieces) => {
            &&& limit matches Some(n) && pieces@.len() == n
            &&& forall|i: int|
                0 <= i < pieces@.len() ==> encodes(original, rng, Ok(#[trigger] pieces@[i]))
        },
        Err(e) => limit != Some(0usize) && encodes(original, rng, Err(e)),
    }
}

} // verus!
