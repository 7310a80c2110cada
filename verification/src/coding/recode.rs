//! Recoding: generate new coded pieces from existing coded pieces.
//!
//! A [`Recoder`] stores received coded pieces and produces new random linear
//! combinations of them, without decoding back to the original data.  This
//! enables multi-hop distribution in networks where intermediate nodes do not
//! need the original data.
use super::encode;
use super::piece::{CodedPiece, CodingVector, OriginalView, PieceView};
use crate::effect;
use crate::error::Error;
use crate::journal::Draws;
use crate::vector::gf_vec;
use crate::vector::linear;
use crate::vector::GfVec;
use comp_cat_rs::effect::io::Io;
use comp_cat_rs::effect::stream::Stream;
use vstd::prelude::*;

verus! {

/// The views of a sequence of coded pieces.
pub open spec fn views_of(pieces: Seq<CodedPiece>) -> Seq<PieceView> {
    Seq::new(pieces.len(), |i: int| pieces[i]@)
}

/// The coefficients of each piece.
pub open spec fn coeffs_of(pieces: Seq<PieceView>) -> Seq<Seq<u8>> {
    Seq::new(pieces.len(), |i: int| pieces[i].coeffs)
}

/// The payload of each piece.
pub open spec fn data_of(pieces: Seq<PieceView>) -> Seq<Seq<u8>> {
    Seq::new(pieces.len(), |i: int| pieces[i].data)
}

/// Every piece has `count` coefficients and `len` bytes of payload.
pub open spec fn uniform(pieces: Seq<PieceView>, count: nat, len: nat) -> bool {
    linear::has_width(coeffs_of(pieces), count) && linear::has_width(data_of(pieces), len)
}

/// The linear combination of pieces, coefficients and payload alike.
pub open spec fn recoded(
    pieces: Seq<PieceView>,
    coeffs: Seq<u8>,
    count: nat,
    len: nat,
) -> PieceView {
    PieceView {
        coeffs: linear::combination(coeffs, coeffs_of(pieces), count),
        data: linear::combination(coeffs, data_of(pieces), len),
    }
}

/// `r` combines the coding vectors and the payloads of `pieces`, or is the
/// first error in doing so.
pub open spec fn recombined(
    pieces: Seq<PieceView>,
    coeffs: Seq<u8>,
    r: Result<CodedPiece, Error>,
) -> bool {
    exists|c: Result<GfVec, Error>, d: Result<GfVec, Error>| #[trigger]
        gf_vec::combined(coeffs, coeffs_of(pieces), c) && #[trigger] gf_vec::combined(
            coeffs,
            data_of(pieces),
            d,
        ) && match (c, d) {
            (Ok(cv), Ok(data)) => r matches Ok(piece) && piece@ == (PieceView {
                coeffs: cv@,
                data: data@,
            }),
            (Err(e), _) => r == Err::<CodedPiece, Error>(e),
            (_, Err(e)) => r == Err::<CodedPiece, Error>(e),
        }
}

/// `r` is what recoding `pieces` gives for an answer of the random source.
pub open spec fn recoded_from(
    pieces: Seq<PieceView>,
    draw: Result<Vec<u8>, Error>,
    r: Result<CodedPiece, Error>,
) -> bool {
    match draw {
        Ok(bytes) => recombined(pieces, bytes@, r),
        Err(e) => r == Err::<CodedPiece, Error>(e),
    }
}

/// The error of recoding from no pieces.
pub open spec fn nothing_to_recode() -> Error {
    Error::InsufficientPieces { needed: 1, received: 0 }
}

/// Some answer of the random source `rng` makes recoding `pieces` give `r`.
/// Without pieces the source is not asked.
pub open spec fn recodes<F: FnOnce(usize) -> Result<Vec<u8>, Error>>(
    pieces: Seq<PieceView>,
    rng: F,
    r: Result<CodedPiece, Error>,
) -> bool {
    if pieces.len() == 0 {
        r == Err::<CodedPiece, Error>(nothing_to_recode())
    } else {
        exists|draw: Result<Vec<u8>, Error>| #[trigger]
            rng.ensures((pieces.len() as usize,), draw) && recoded_from(pieces, draw, r)
    }
}

/// A recoder that produces new coded pieces from existing ones.
///
/// Stores a collection of received coded pieces and creates new random linear
/// combinations of them.  The new piece's coding vector is the corresponding
/// linear combination of the stored coding vectors, preserving the algebraic
/// relationship to the original data.
#[must_use]
pub struct Recoder {
    pub(crate) pieces: Vec<CodedPiece>,
    pub(crate) piece_count: usize,
    pub(crate) piece_byte_len: usize,
}

/// The stored pieces and the dimensions that they share.
#[verifier::ext_equal]
pub struct RecoderView {
    pub pieces: Seq<PieceView>,
    pub piece_count: nat,
    pub piece_byte_len: nat,
}

impl View for Recoder {
    type V = RecoderView;

    open(crate) spec fn view(&self) -> RecoderView {
        RecoderView {
            pieces: views_of(self.pieces@),
            piece_count: self.piece_count as nat,
            piece_byte_len: self.piece_byte_len as nat,
        }
    }
}

/// A copy of a list of coded pieces.
fn clone_pieces(pieces: &Vec<CodedPiece>) -> (r: Vec<CodedPiece>)
    ensures
        views_of(r@) == views_of(pieces@),
{
    let mut copy: Vec<CodedPiece> = Vec::with_capacity(pieces.len());
    let mut i: usize = 0;
    while i < pieces.len()
        invariant
            i <= pieces@.len(),
            copy@.len() == i,
            forall|k: int| 0 <= k < i ==> (#[trigger] copy@[k])@ == pieces@[k]@,
        decreases pieces@.len() - i,
    {
        copy.push(pieces[i].clone());
        i += 1;
    }
    assert(views_of(copy@) =~= views_of(pieces@));
    copy
}

impl Clone for Recoder {
    fn clone(&self) -> (r: Self)
        ensures
            r@ == self@,
    {
        proof {
            use_type_invariant(self);
        }
        Self {
            pieces: clone_pieces(&self.pieces),
            piece_count: self.piece_count,
            piece_byte_len: self.piece_byte_len,
        }
    }
}

/// `after` is `before` with one more piece.
pub open spec fn stored(before: RecoderView, piece: PieceView, after: RecoderView) -> bool {
    after == (RecoderView { pieces: before.pieces.push(piece), ..before })
}

/// The error for a piece with other dimensions than expected, if it has such.
pub open spec fn dimension_error(piece: PieceView, count: nat, len: nat) -> Option<Error> {
    if piece.coeffs.len() != count {
        Some(
            Error::CodingVectorLengthMismatch {
                expected: count as usize,
                actual: piece.coeffs.len() as usize,
            },
        )
    } else if piece.data.len() != len {
        Some(
            Error::PieceSizeMismatch {
                expected: len as usize,
                actual: piece.data.len() as usize,
            },
        )
    } else {
        None
    }
}

impl Recoder {
    #[verifier::type_invariant]
    pub(crate) open(crate) spec fn consistent(&self) -> bool {
        uniform(self@.pieces, self@.piece_count, self@.piece_byte_len)
    }

    /// Create an empty recoder expecting pieces for `piece_count` original data
    /// pieces, each of `piece_byte_len` bytes.
    pub fn new(piece_count: usize, piece_byte_len: usize) -> (r: Self)
        ensures
            r@ == (RecoderView {
                pieces: Seq::empty(),
                piece_count: piece_count as nat,
                piece_byte_len: piece_byte_len as nat,
            }),
    {
        let pieces: Vec<CodedPiece> = Vec::new();
        assert(views_of(pieces@) =~= Seq::empty());
        Self { pieces, piece_count, piece_byte_len }
    }

    /// Add a coded piece to the recoder's pool, or report that its dimensions
    /// are not those that the recoder expects.
    pub fn add_piece(self, piece: &CodedPiece) -> (r: Result<Self, Error>)
        ensures
            match dimension_error(piece@, self@.piece_count, self@.piece_byte_len) {
                Some(e) => r == Err::<Self, Error>(e),
                None => r matches Ok(after) && stored(self@, piece@, after@),
            },
    {
        proof {
            use_type_invariant(&self);
        }
        if piece.coding_vector().len() != self.piece_count {
            return Err(
                Error::CodingVectorLengthMismatch {
                    expected: self.piece_count,
                    actual: piece.coding_vector().len(),
                },
            );
        }
        if piece.data().len() != self.piece_byte_len {
            return Err(
                Error::PieceSizeMismatch {
                    expected: self.piece_byte_len,
                    actual: piece.data().len(),
                },
            );
        }
        let ghost before = self@;
        let (piece_count, piece_byte_len) = (self.piece_count, self.piece_byte_len);
        let mut pieces = self.pieces;
        pieces.push(piece.clone());
        proof {
            let after = views_of(pieces@);
            assert(after =~= before.pieces.push(piece@));
            lemma_uniform_push(
                before.pieces,
                piece@,
                before.piece_count,
                before.piece_byte_len,
            );
        }
        Ok(Self { pieces, piece_count, piece_byte_len })
    }

    /// The number of stored coded pieces.
    #[must_use]
    pub fn stored_count(&self) -> (r: usize)
        ensures
            r == self@.pieces.len(),
    {
        self.pieces.len()
    }

    /// The expected piece count (k).
    #[must_use]
    pub fn piece_count(&self) -> (r: usize)
        ensures
            r == self@.piece_count,
    {
        self.piece_count
    }

    /// The expected piece byte length.
    #[must_use]
    pub fn piece_byte_len(&self) -> (r: usize)
        ensures
            r == self@.piece_byte_len,
    {
        self.piece_byte_len
    }

    /// Generate a single recoded piece.
    ///
    /// The `rng` closure receives the number of random bytes needed (equal to
    /// `stored_count()`) and must return that many random bytes.  These are the
    /// coefficients for the linear combination of stored pieces.  The returned
    /// `Io` fails if no pieces are stored or if the random source fails.
    #[must_use]
    pub fn recode_one<F: FnOnce(usize) -> Result<Vec<u8>, Error> + Send + 'static>(
        &self,
        rng: F,
    ) -> (io: Io<Error, CodedPiece>)
        requires
            rng.requires((self@.pieces.len() as usize,)),
        ensures
            uniform(self@.pieces, self@.piece_count, self@.piece_byte_len),
            forall|r: Result<CodedPiece, Error>| #[trigger]
                effect::runs_to(io, r) ==> recodes(self@.pieces, rng, r),
    {
        proof {
            use_type_invariant(self);
        }
        let pieces = clone_pieces(&self.pieces);
        let body = move || -> (r: Result<CodedPiece, Error>)
            ensures
                recodes(views_of(pieces@), rng, r),
            { recode_from(pieces.as_slice(), rng) };
        effect::suspend(body)
    }

    /// Generate an unbounded stream of recoded pieces.
    ///
    /// The `rng_factory` closure is called once per recoded piece.  The stream
    /// is infinite unless no pieces are stored; use `.take(n)` to bound it.
    #[must_use]
    pub fn recode_stream<F>(&self, rng_factory: F) -> (stream: Stream<Error, CodedPiece>) where
        F: Fn(usize) -> Result<Vec<u8>, Error> + Send + Sync + 'static,

        requires
            rng_factory.requires((self@.pieces.len() as usize,)),
        ensures
            uniform(self@.pieces, self@.piece_count, self@.piece_byte_len),
            forall|limit: Option<usize>, r: Result<Vec<CodedPiece>, Error>| #[trigger]
                effect::yields(stream, limit, r) ==> streams(
                    self@.pieces,
                    rng_factory,
                    limit,
                    r,
                ) && draws_stream(self@.pieces, rng_factory, limit, r),
    {
        proof {
            use_type_invariant(self);
        }
        let pieces = clone_pieces(&self.pieces);
        let draws = Draws::new(rng_factory);
        let step = move |draws: Draws<F>| -> (io: Io<Error, Option<(CodedPiece, Draws<F>)>>)
            requires
                draws.source().requires((pieces@.len() as usize,)),
            ensures
                forall|o: Result<Option<(CodedPiece, Draws<F>)>, Error>| #[trigger]
                    effect::runs_to(io, o) ==> recodes_step(views_of(pieces@), draws.source(), o)
                        && recodes_next(views_of(pieces@), draws, o) && (o matches Ok(
                        Some((_, left)),
                    ) ==> left.source().requires((pieces@.len() as usize,))),
            {
                let pieces = clone_pieces(&pieces);
                let body = move || -> (o: Result<Option<(CodedPiece, Draws<F>)>, Error>)
                    ensures
                        recodes_step(views_of(pieces@), draws.source(), o),
                        recodes_next(views_of(pieces@), draws, o),
                        o matches Ok(Some((_, left))) ==> left.source() == draws.source(),
                    { recode_next(pieces.as_slice(), draws) };
                effect::suspend(body)
            };
        proof {
            assert forall|s: Draws<F>, a: CodedPiece, next: Draws<F>|
                step.requires((s,)) && #[trigger] effect::step_gives(
                    step,
                    s,
                    Ok(Some((a, next))),
                ) implies step.requires((next,)) by {}
        }
        let stream = effect::unfold(draws, step);
        proof {
            let stored = self@.pieces;
            assert forall|limit: Option<usize>, r: Result<Vec<CodedPiece>, Error>| #[trigger]
                effect::yields(stream, limit, r) implies streams(stored, rng_factory, limit, r)
                && draws_stream(stored, rng_factory, limit, r) by {
                let (items, states) = choose|items: Seq<CodedPiece>, states: Seq<Draws<F>>|
                    #[trigger]
                    effect::unfold_trace(draws, step, items, states) && match r {
                        Ok(all) => {
                            &&& all@ == items
                            &&& limit matches Some(n) ==> items.len() <= n
                            &&& (limit matches Some(n) && items.len() == n) || effect::step_gives(
                                step,
                                states.last(),
                                Ok(None),
                            )
                        },
                        Err(e) => {
                            &&& limit matches Some(n) ==> items.len() < n
                            &&& effect::step_gives(step, states.last(), Err(e))
                        },
                    };
                assert forall|i: int| 0 <= i < items.len() implies stored.len() > 0 && drawn(
                    stored,
                    states[i],
                    Ok(#[trigger] items[i]),
                    states[i + 1],
                ) by {
                    assert(effect::step_gives(
                        step,
                        states[i],
                        Ok(Some((items[i], states[i + 1]))),
                    ));
                }
                if items.len() > 0 {
                    assert(drawn(stored, states[0], Ok(items[0]), states[1]));
                }
                assert(draw_trace(stored, rng_factory, items, states));
                assert forall|i: int| 0 <= i < items.len() implies recodes(
                    stored,
                    rng_factory,
                    Ok(#[trigger] items[i]),
                ) by {
                    lemma_trace_source(stored, rng_factory, items, states, i);
                    assert(effect::step_gives(
                        step,
                        states[i],
                        Ok(Some((items[i], states[i + 1]))),
                    ));
                }
                lemma_trace_source(stored, rng_factory, items, states, items.len() as int);
            }
        }
        stream
    }
}

/// Ask the random source once, and recode with its answer.
pub fn recode_drawn<F: Fn(usize) -> Result<Vec<u8>, Error>>(
    pieces: &[CodedPiece],
    draws: Draws<F>,
) -> (out: (Result<CodedPiece, Error>, Draws<F>))
    requires
        draws.source().requires((pieces@.len() as usize,)),
    ensures
        exists|draw: Result<Vec<u8>, Error>| #[trigger]
            recoded_from(views_of(pieces@), draw, out.0) && out.1.follows(
                draws,
                seq![(pieces@.len() as usize, draw)],
            ),
{
    let (draw, left) = draws.ask(pieces.len());
    let out = (recode_from_draw(pieces, draw), left);
    assert(recoded_from(views_of(pieces@), draw, out.0));
    out
}

/// One step of a recoding stream: ask the random source once and recode with its
/// answer, or nothing without pieces.
pub fn recode_next<F: Fn(usize) -> Result<Vec<u8>, Error>>(
    pieces: &[CodedPiece],
    draws: Draws<F>,
) -> (o: Result<Option<(CodedPiece, Draws<F>)>, Error>)
    requires
        draws.source().requires((pieces@.len() as usize,)),
    ensures
        recodes_step(views_of(pieces@), draws.source(), o),
        recodes_next(views_of(pieces@), draws, o),
        o matches Ok(Some((_, left))) ==> left.source() == draws.source(),
{
    if pieces.len() == 0 {
        return Ok(None);
    }
    let ghost stored = views_of(pieces@);
    let out = effect::call_pair(recode_drawn::<F>, pieces, draws);
    assert(drawn(stored, draws, out.0, out.1));
    proof {
        let draw = choose|draw: Result<Vec<u8>, Error>| #[trigger]
            recoded_from(stored, draw, out.0) && out.1.follows(
                draws,
                seq![(stored.len() as usize, draw)],
            );
        let entries = seq![(stored.len() as usize, draw)];
        assert(draws.source().ensures((entries[0].0,), entries[0].1));
        assert(recodes(stored, draws.source(), out.0));
    }
    match out.0 {
        Ok(piece) => Ok(Some((piece, out.1))),
        Err(e) => Err(e),
    }
}

/// `r` was recoded with the next answer of the random source, and `after` is what
/// is left of it.
pub open spec fn drawn<F: Fn(usize) -> Result<Vec<u8>, Error>>(
    pieces: Seq<PieceView>,
    before: Draws<F>,
    r: Result<CodedPiece, Error>,
    after: Draws<F>,
) -> bool {
    exists|stored: &[CodedPiece]|
        views_of(stored@) == pieces && #[trigger] call_ensures(
            recode_drawn::<F>,
            (stored, before),
            (r, after),
        )
}

/// One step of a recoding stream, with what is left of the random source.
pub open spec fn recodes_next<F: Fn(usize) -> Result<Vec<u8>, Error>>(
    pieces: Seq<PieceView>,
    draws: Draws<F>,
    o: Result<Option<(CodedPiece, Draws<F>)>, Error>,
) -> bool {
    match o {
        Ok(Some((piece, left))) => drawn(pieces, draws, Ok(piece), left),
        Ok(None) => pieces.len() == 0,
        Err(e) => exists|left: Draws<F>| #[trigger] drawn(pieces, draws, Err(e), left),
    }
}

/// Each of `outs` was recoded from `pieces` with the next answer of the random
/// source, from the first on.
pub open spec fn draw_trace<F: Fn(usize) -> Result<Vec<u8>, Error>>(
    pieces: Seq<PieceView>,
    rng: F,
    outs: Seq<CodedPiece>,
    draws: Seq<Draws<F>>,
) -> bool {
    &&& draws.len() == outs.len() + 1
    &&& draws.first().is_fresh(rng)
    &&& forall|i: int|
        0 <= i < outs.len() ==> drawn(pieces, draws[i], Ok(#[trigger] outs[i]), draws[i + 1])
}

/// What a recoding stream gives up to a limit is recoded with the answers of the
/// random source one after the other, one for each piece; its error with the answer
/// behind them.
pub open spec fn draws_stream<F: Fn(usize) -> Result<Vec<u8>, Error>>(
    pieces: Seq<PieceView>,
    rng: F,
    limit: Option<usize>,
    r: Result<Vec<CodedPiece>, Error>,
) -> bool {
    exists|outs: Seq<CodedPiece>, draws: Seq<Draws<F>>| #[trigger]
        draw_trace(pieces, rng, outs, draws) && match r {
            Ok(all) => all@ == outs && (if pieces.len() == 0 {
                outs.len() == 0
            } else {
                limit == Some(outs.len() as usize)
            }),
            Err(e) => (limit matches Some(n) ==> outs.len() < n) && exists|left: Draws<F>|
                #[trigger]
                drawn(pieces, draws.last(), Err(e), left),
        }
}

/// A trace keeps its random source.
proof fn lemma_trace_source<F: Fn(usize) -> Result<Vec<u8>, Error>>(
    pieces: Seq<PieceView>,
    rng: F,
    outs: Seq<CodedPiece>,
    draws: Seq<Draws<F>>,
    i: int,
)
    requires
        draw_trace(pieces, rng, outs, draws),
        0 <= i <= outs.len(),
    ensures
        draws[i].source() == rng,
    decreases i,
{
    if i > 0 {
        lemma_trace_source(pieces, rng, outs, draws, i - 1);
        assert(drawn(pieces, draws[i - 1], Ok(outs[i - 1]), draws[i - 1 + 1]));
    }
}

/// An entry of the record asks for one byte for each of `pieces`, and `out` is their
/// linear combination with the bytes that came back, coefficients and payload alike.
pub open spec fn is_drawn(
    pieces: Seq<PieceView>,
    count: nat,
    len: nat,
    entry: (usize, Result<Vec<u8>, Error>),
    out: PieceView,
) -> bool {
    &&& entry.0 == pieces.len()
    &&& entry.1 matches Ok(bytes) && {
        &&& bytes@.len() == pieces.len()
        &&& out.coeffs == linear::combination(bytes@, coeffs_of(pieces), count)
        &&& out.data == linear::combination(bytes@, data_of(pieces), len)
    }
}

proof fn lemma_trace_record<F: Fn(usize) -> Result<Vec<u8>, Error>>(
    pieces: Seq<PieceView>,
    count: nat,
    len: nat,
    rng: F,
    outs: Seq<CodedPiece>,
    draws: Seq<Draws<F>>,
    n: int,
)
    requires
        0 < pieces.len() <= usize::MAX,
        uniform(pieces, count, len),
        draw_trace(pieces, rng, outs, draws),
        0 <= n <= outs.len(),
    ensures
        draws[n].record().len() == n,
        forall|i: int|
            0 <= i < n ==> is_drawn(
                pieces,
                count,
                len,
                #[trigger] draws[n].record()[i],
                outs[i]@,
            ),
    decreases n,
{
    if n > 0 {
        lemma_trace_record(pieces, count, len, rng, outs, draws, n - 1);
        let (before, after) = (draws[n - 1], draws[n]);
        assert(drawn(pieces, before, Ok(outs[n - 1]), draws[n - 1 + 1]));
        let draw = choose|draw: Result<Vec<u8>, Error>| #[trigger]
            recoded_from(pieces, draw, Ok(outs[n - 1])) && after.follows(
                before,
                seq![(pieces.len() as usize, draw)],
            );
        lemma_recombined_uniform(pieces, draw->Ok_0@, Ok(outs[n - 1]), count, len);
        assert forall|i: int| 0 <= i < n implies is_drawn(
            pieces,
            count,
            len,
            #[trigger] after.record()[i],
            outs[i]@,
        ) by {
            if i < n - 1 {
                assert(after.record()[i] == before.record()[i]);
            }
        }
    }
}

/// A recoding stream asks the random source once for each piece, and uses each
/// answer for one piece: the `i`-th piece combines the stored ones with the `i`-th
/// answer, and when `n` pieces are out the source has been asked `n` times.
pub proof fn lemma_stream_answers<F: Fn(usize) -> Result<Vec<u8>, Error>>(
    pieces: Seq<PieceView>,
    count: nat,
    len: nat,
    rng: F,
    limit: Option<usize>,
    outs: Vec<CodedPiece>,
)
    requires
        0 < pieces.len() <= usize::MAX,
        uniform(pieces, count, len),
        draws_stream(pieces, rng, limit, Ok(outs)),
    ensures
        exists|draws: Seq<Draws<F>>| #[trigger]
            draw_trace(pieces, rng, outs@, draws) && draws.last().record().len() == outs@.len()
                && forall|i: int|
                0 <= i < outs@.len() ==> is_drawn(
                    pieces,
                    count,
                    len,
                    #[trigger] draws.last().record()[i],
                    outs@[i]@,
                ),
{
    let (all, draws) = choose|all: Seq<CodedPiece>, draws: Seq<Draws<F>>| #[trigger]
        draw_trace(pieces, rng, all, draws) && outs@ == all;
    lemma_trace_record(pieces, count, len, rng, all, draws, all.len() as int);
    assert(draw_trace(pieces, rng, outs@, draws));
}

/// One step of a recoding stream: no piece exactly if there is nothing to recode.
pub open spec fn recodes_step<F: FnOnce(usize) -> Result<Vec<u8>, Error>, S>(
    pieces: Seq<PieceView>,
    rng: F,
    o: Result<Option<(CodedPiece, S)>, Error>,
) -> bool {
    match o {
        Ok(Some((piece, _))) => pieces.len() > 0 && recodes(pieces, rng, Ok(piece)),
        Ok(None) => pieces.len() == 0,
        Err(e) => pieces.len() > 0 && recodes(pieces, rng, Err(e)),
    }
}

/// What a recoding stream gives up to a limit: exactly as many recoded pieces,
/// each from an answer of the random source; or the first error.  Without
/// stored pieces it gives nothing and does not fail.
pub open spec fn streams<F: FnOnce(usize) -> Result<Vec<u8>, Error>>(
    pieces: Seq<PieceView>,
    rng: F,
    limit: Option<usize>,
    r: Result<Vec<CodedPiece>, Error>,
) -> bool {
    match r {
        Ok(items) => {
            &&& pieces.len() > 0 ==> (limit matches Some(n) && items@.len() == n)
            &&& pieces.len() == 0 ==> items@.len() == 0
            &&& forall|i: int|
                0 <= i < items@.len() ==> recodes(pieces, rng, Ok(#[trigger] items@[i]))
        },
        Err(e) => pieces.len() > 0 && limit != Some(0usize) && recodes(pieces, rng, Err(e)),
    }
}

/// One step of a recoding stream: a recoded piece, or nothing without pieces.
pub fn recode_step<F: Fn(usize) -> Result<Vec<u8>, Error>>(
    pieces: &[CodedPiece],
    rng: &F,
) -> (o: Result<Option<(CodedPiece, ())>, Error>)
    requires
        rng.requires((pieces@.len() as usize,)),
    ensures
        recodes_step(views_of(pieces@), *rng, o),
{
    if pieces.len() == 0 {
        return Ok(None);
    }
    let draw = rng(pieces.len());
    match recode_from_draw(pieces, draw) {
        Ok(piece) => {
            assert(recodes(views_of(pieces@), *rng, Ok(piece)));
            Ok(Some((piece, ())))
        },
        Err(e) => {
            assert(recodes(views_of(pieces@), *rng, Err(e)));
            Err(e)
        },
    }
}

/// Produce one recoded piece from a set of stored pieces using the random bytes
/// that `rng` provides, or [`Error::InsufficientPieces`] without pieces.
pub fn recode_from<F: FnOnce(usize) -> Result<Vec<u8>, Error>>(
    pieces: &[CodedPiece],
    rng: F,
) -> (r: Result<CodedPiece, Error>)
    requires
        rng.requires((pieces@.len() as usize,)),
    ensures
        recodes(views_of(pieces@), rng, r),
{
    if pieces.len() == 0 {
        return Err(Error::InsufficientPieces { needed: 1, received: 0 });
    }
    let draw = rng(pieces.len());
    recode_from_draw(pieces, draw)
}

/// Produce one recoded piece from an answer of the random source: its bytes are
/// the coefficients, and its error is the result.
pub fn recode_from_draw(pieces: &[CodedPiece], draw: Result<Vec<u8>, Error>) -> (r: Result<
    CodedPiece,
    Error,
>)
    ensures
        recoded_from(views_of(pieces@), draw, r),
{
    let bytes = match draw {
        Ok(bytes) => bytes,
        Err(e) => {
            return Err(e);
        },
    };
    let ghost views = views_of(pieces@);
    let coeffs = GfVec::from_bytes(bytes.as_slice());
    let mut cv_refs: Vec<&GfVec> = Vec::with_capacity(pieces.len());
    let mut data_refs: Vec<&GfVec> = Vec::with_capacity(pieces.len());
    let mut i: usize = 0;
    while i < pieces.len()
        invariant
            i <= pieces@.len(),
            cv_refs@.len() == i,
            data_refs@.len() == i,
            forall|k: int| 0 <= k < i ==> (#[trigger] cv_refs@[k])@ == pieces@[k]@.coeffs,
            forall|k: int| 0 <= k < i ==> (#[trigger] data_refs@[k])@ == pieces@[k]@.data,
        decreases pieces@.len() - i,
    {
        cv_refs.push(pieces[i].coding_vector().as_vec());
        data_refs.push(pieces[i].data());
        i += 1;
    }
    assert(gf_vec::views_of_refs(cv_refs@) =~= coeffs_of(views));
    assert(gf_vec::views_of_refs(data_refs@) =~= data_of(views));
    let c = GfVec::linear_combine(coeffs.elements(), cv_refs.as_slice());
    let d = GfVec::linear_combine(coeffs.elements(), data_refs.as_slice());
    assert(gf_vec::combined(bytes@, coeffs_of(views), c));
    assert(gf_vec::combined(bytes@, data_of(views), d));
    match c {
        Ok(new_cv) => match d {
            Ok(new_data) => Ok(CodedPiece::new(CodingVector::new(new_cv), new_data)),
            Err(e) => Err(e),
        },
        Err(e) => Err(e),
    }
}

proof fn lemma_uniform_push(pieces: Seq<PieceView>, piece: PieceView, count: nat, len: nat)
    requires
        uniform(pieces, count, len),
        piece.coeffs.len() == count,
        piece.data.len() == len,
    ensures
        uniform(pieces.push(piece), count, len),
{
    let after = pieces.push(piece);
    assert forall|k: int| 0 <= k < after.len() implies (#[trigger] coeffs_of(after)[k]).len()
        == count by {
        if k < pieces.len() {
            assert(coeffs_of(pieces)[k].len() == count);
        }
    }
    assert forall|k: int| 0 <= k < after.len() implies (#[trigger] data_of(after)[k]).len()
        == len by {
        if k < pieces.len() {
            assert(data_of(pieces)[k].len() == len);
        }
    }
}

/// Recoding pieces of the same dimensions succeeds exactly if there is one
/// coefficient for each, and gives their linear combination.
pub proof fn lemma_recombined_uniform(
    pieces: Seq<PieceView>,
    coeffs: Seq<u8>,
    r: Result<CodedPiece, Error>,
    count: nat,
    len: nat,
)
    requires
        pieces.len() > 0,
        uniform(pieces, count, len),
        recombined(pieces, coeffs, r),
    ensures
        coeffs.len() == pieces.len() ==> (r matches Ok(piece) && piece@ == recoded(
            pieces,
            coeffs,
            count,
            len,
        )),
        coeffs.len() != pieces.len() ==> r == Err::<CodedPiece, Error>(
            Error::DimensionMismatch {
                expected: coeffs.len() as usize,
                actual: pieces.len() as usize,
            },
        ),
{
    assert(coeffs_of(pieces)[0].len() == count);
    assert(data_of(pieces)[0].len() == len);
    assert(gf_vec::first_width(coeffs_of(pieces)) == count);
    assert(gf_vec::first_width(data_of(pieces)) == len);
}

/// Recoding needs no decoding: a linear combination of coded pieces is the coded
/// piece with the combined coefficients.
pub proof fn lemma_recoding_codes(
    original: OriginalView,
    pieces: Seq<PieceView>,
    coeffs: Seq<u8>,
)
    requires
        original.well_formed(),
        coeffs.len() == pieces.len(),
        forall|i: int|
            0 <= i < pieces.len() ==> (#[trigger] pieces[i]).coeffs.len() == original.pieces.len()
                && pieces[i] == encode::coded(original, pieces[i].coeffs),
    ensures
        recoded(pieces, coeffs, original.pieces.len(), original.piece_byte_len) == encode::coded(
            original,
            linear::combination(coeffs, coeffs_of(pieces), original.pieces.len()),
        ),
{
    let k = original.pieces.len();
    let n = original.piece_byte_len;
    assert forall|i: int| 0 <= i < pieces.len() implies (#[trigger] coeffs_of(pieces)[i]).len()
        == k && data_of(pieces)[i] == linear::combination(
        coeffs_of(pieces)[i],
        original.pieces,
        n,
    ) by {
        assert(pieces[i].coeffs.len() == k);
    }
    assert(data_of(pieces) =~= linear::product(coeffs_of(pieces), original.pieces, n));
    linear::lemma_combination_product(coeffs, coeffs_of(pieces), original.pieces, n);
}

} // verus!
