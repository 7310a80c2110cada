//! Decoding: reconstruct original data from coded pieces.
//!
//! [`DecoderState`] absorbs coded pieces one at a time, keeping the augmented
//! matrix of coding vectors and payloads reduced as each arrives.  When enough
//! linearly independent pieces have been received, [`DecoderState::decode`]
//! extracts the original data.
//!
//! [`decode_stream`] folds a [`Stream`] of coded pieces through the decoder.
use super::piece::{self, CodedPiece, OriginalData, PieceView};
use super::recode;
use crate::effect;
use crate::error::Error;
use crate::vector::echelon;
use crate::vector::gauss::reduced_row_echelon_form;
use crate::vector::gf_vec;
use crate::vector::linear;
use crate::vector::{GfMatrix, GfVec};
use comp_cat_rs::effect::io::Io;
use comp_cat_rs::effect::stream::Stream;
use vstd::prelude::*;

verus! {

/// The state of a decoder accumulating coded pieces.
///
/// Each call to [`absorb`](DecoderState::absorb) adds one coded piece as a new
/// row in an augmented matrix `[coding_vectors | data]` and reduces that
/// matrix.
///
/// When [`is_complete`](DecoderState::is_complete) returns true, calling
/// [`decode`](DecoderState::decode) reconstructs the original data.
#[must_use]
pub struct DecoderState {
    pub(crate) matrix: GfMatrix,
    pub(crate) piece_count: usize,
    pub(crate) piece_byte_len: usize,
    pub(crate) useful_count: usize,
}

/// The reduced rows, the dimensions of a piece, and the number of useful pieces.
#[verifier::ext_equal]
pub struct DecoderView {
    pub rows: Seq<Seq<u8>>,
    pub piece_count: nat,
    pub piece_byte_len: nat,
    pub useful: nat,
}

/// The number of pivots before column `k`.
pub open spec fn count_below(pivots: Seq<usize>, k: nat) -> nat
    decreases pivots.len(),
{
    if pivots.len() == 0 {
        0
    } else if pivots.last() < k {
        count_below(pivots.drop_last(), k) + 1
    } else {
        count_below(pivots.drop_last(), k)
    }
}

impl DecoderView {
    /// The length of a row: coefficients and payload.
    pub open spec fn width(self) -> nat {
        self.piece_count + self.piece_byte_len
    }

    /// The rows are reduced, with these pivots, of which the useful ones lie in
    /// the coefficient columns.
    pub open spec fn reduced_with(self, pivots: Seq<usize>) -> bool {
        &&& echelon::is_rref(self.rows, self.width(), pivots)
        &&& self.useful == count_below(pivots, self.piece_count)
    }

    /// The rows are reduced, and the useful pieces are counted.
    pub open spec fn valid(self) -> bool {
        &&& linear::has_width(self.rows, self.width())
        &&& exists|pivots: Seq<usize>| self.reduced_with(pivots)
    }

    /// The state before any piece.
    pub open spec fn initial(piece_count: nat, piece_byte_len: nat) -> Self {
        DecoderView { rows: Seq::empty(), piece_count, piece_byte_len, useful: 0 }
    }

    /// Enough useful pieces have arrived.
    pub open spec fn complete(self) -> bool {
        self.useful >= self.piece_count
    }

    /// The payload columns of the first `piece_count` rows.
    pub open spec fn solution(self) -> Seq<Seq<u8>> {
        linear::columns(
            self.rows.take(self.piece_count as int),
            self.piece_count as int,
            self.width() as int,
        )
    }
}

/// `after` holds the reduced form of the rows of `before` and the new piece.
/// Reduced form is unique, so this determines `after`.
pub open spec fn absorbed(before: DecoderView, piece: PieceView, after: DecoderView) -> bool {
    &&& after.valid()
    &&& after.piece_count == before.piece_count
    &&& after.piece_byte_len == before.piece_byte_len
    &&& after.rows.len() == before.rows.len() + 1
    &&& linear::same_span(before.rows.push(piece.row()), after.rows, before.width())
}

/// `r` is what decoding gives: the bytes before the padding of the solution.
pub open spec fn decoded(state: DecoderView, r: Result<Vec<u8>, Error>) -> bool {
    if !state.complete() {
        r == Err::<Vec<u8>, Error>(
            Error::InsufficientPieces {
                needed: state.piece_count as usize,
                received: state.useful as usize,
            },
        )
    } else {
        piece::reconstructed(state.solution(), r)
    }
}

impl View for DecoderState {
    type V = DecoderView;

    open(crate) spec fn view(&self) -> DecoderView {
        DecoderView {
            rows: self.matrix@.rows,
            piece_count: self.piece_count as nat,
            piece_byte_len: self.piece_byte_len as nat,
            useful: self.useful_count as nat,
        }
    }
}

impl Clone for DecoderState {
    fn clone(&self) -> (r: Self)
        ensures
            r@ == self@,
    {
        proof {
            use_type_invariant(self);
        }
        Self {
            matrix: self.matrix.clone(),
            piece_count: self.piece_count,
            piece_byte_len: self.piece_byte_len,
            useful_count: self.useful_count,
        }
    }
}

/// Counts the pivots before column `k`.
fn count_pivots(pivots: &Vec<usize>, k: usize) -> (r: usize)
    ensures
        r == count_below(pivots@, k as nat),
{
    let mut useful: usize = 0;
    let mut i: usize = 0;
    assert(pivots@.take(0).len() == 0);
    while i < pivots.len()
        invariant
            i <= pivots@.len(),
            useful <= i,
            useful == count_below(pivots@.take(i as int), k as nat),
        decreases pivots@.len() - i,
    {
        assert(pivots@.take(i + 1).drop_last() =~= pivots@.take(i as int));
        if pivots[i] < k {
            useful += 1;
        }
        i += 1;
    }
    assert(pivots@.take(i as int) =~= pivots@);
    useful
}

impl DecoderState {
    #[verifier::type_invariant]
    pub(crate) open(crate) spec fn consistent(&self) -> bool {
        self@.valid() && self.matrix@.cols == self@.width()
    }

    /// Create an initial empty decoder state.
    ///
    /// `piece_count` is the number of original pieces (k), and
    /// `piece_byte_len` is the byte length of each piece.
    pub fn new(piece_count: usize, piece_byte_len: usize) -> (r: Self)
        requires
            piece_count + piece_byte_len <= usize::MAX,
        ensures
            r@ == DecoderView::initial(piece_count as nat, piece_byte_len as nat),
            r@.valid(),
    {
        let ghost view = DecoderView::initial(piece_count as nat, piece_byte_len as nat);
        assert(view.reduced_with(Seq::empty()));
        Self {
            matrix: GfMatrix::empty(piece_count + piece_byte_len),
            piece_count,
            piece_byte_len,
            useful_count: 0,
        }
    }

    /// The number of original pieces expected.
    #[must_use]
    pub fn piece_count(&self) -> (r: usize)
        ensures
            r == self@.piece_count,
    {
        self.piece_count
    }

    /// The byte length of each piece.
    #[must_use]
    pub fn piece_byte_len(&self) -> (r: usize)
        ensures
            r == self@.piece_byte_len,
    {
        self.piece_byte_len
    }

    /// The number of linearly independent pieces absorbed so far.
    #[must_use]
    pub fn useful_count(&self) -> (r: usize)
        ensures
            r == self@.useful,
            self@.valid(),
    {
        proof {
            use_type_invariant(self);
        }
        self.useful_count
    }

    /// The number of pieces still needed to decode.
    #[must_use]
    pub fn remaining(&self) -> (r: usize)
        ensures
            r == (if self@.useful >= self@.piece_count {
                0
            } else {
                self@.piece_count - self@.useful
            }),
    {
        self.piece_count.saturating_sub(self.useful_count)
    }

    /// Whether enough linearly independent pieces have been received.
    #[must_use]
    pub fn is_complete(&self) -> (r: bool)
        ensures
            r == self@.complete(),
    {
        self.useful_count >= self.piece_count
    }

    /// Absorb one coded piece, returning the updated state.
    ///
    /// The piece is appended as a new row in the augmented matrix, which is
    /// then reduced.  If the piece is linearly dependent on previously received
    /// pieces, the rank does not increase, but the operation still succeeds.
    /// Fails if the piece dimensions are incompatible.
    pub fn absorb(self, piece: &CodedPiece) -> (r: Result<Self, Error>)
        ensures
            match recode::dimension_error(piece@, self@.piece_count, self@.piece_byte_len) {
                Some(e) => r == Err::<Self, Error>(e),
                None => r matches Ok(after) && absorbed(self@, piece@, after@),
            },
    {
        proof {
            use_type_invariant(&self);
        }
        if piece.coding_vector().len() != self.piece_count {
            return Err(
                Error::CodingVectorLengthMismatch {
                    expected: self.piece_count,
                    actual: piece.coding_vector().len(),
                },
            );
        }
        if piece.data().len() != self.piece_byte_len {
            return Err(
                Error::PieceSizeMismatch {
                    expected: self.piece_byte_len,
                    actual: piece.data().len(),
                },
            );
        }
        let row = GfVec::from_bytes(piece.to_bytes().as_slice());
        let new_matrix = match self.matrix.append_row(row) {
            Ok(m) => m,
            Err(e) => {
                return Err(e);
            },
        };
        let (rref_matrix, pivots) = match reduced_row_echelon_form(&new_matrix) {
            Ok(v) => v,
            Err(e) => {
                return Err(e);
            },
        };
        let useful: usize = count_pivots(&pivots, self.piece_count);
        proof {
            use_type_invariant(&rref_matrix);
            let view = DecoderView {
                rows: rref_matrix@.rows,
                piece_count: self@.piece_count,
                piece_byte_len: self@.piece_byte_len,
                useful: useful as nat,
            };
            assert(view.reduced_with(pivots@));
            assert(view.valid());
        }
        Ok(
            Self {
                matrix: rref_matrix,
                piece_count: self.piece_count,
                piece_byte_len: self.piece_byte_len,
                useful_count: useful,
            },
        )
    }

    /// Finish decoding and extract the original data.
    ///
    /// Splits off the data columns of the reduced matrix and reconstructs the
    /// original bytes, stripping the boundary marker padding.  Fails with
    /// [`Error::InsufficientPieces`] if not enough linearly independent pieces
    /// have been received, or [`Error::InvalidPadding`] if the boundary marker
    /// cannot be found.
    pub fn decode(self) -> (r: Result<Vec<u8>, Error>)
        ensures
            decoded(self@, r),
    {
        proof {
            use_type_invariant(&self);
        }
        if !self.is_complete() {
            return Err(
                Error::InsufficientPieces {
                    needed: self.piece_count,
                    received: self.useful_count,
                },
            );
        }
        proof {
            let pivots = choose|pivots: Seq<usize>| self@.reduced_with(pivots);
            lemma_count_increasing(pivots, self@.piece_count);
        }
        let (_, data_matrix) = match self.matrix.split_at_col(self.piece_count) {
            Ok(v) => v,
            Err(e) => {
                return Err(e);
            },
        };
        let mut decoded_pieces: Vec<GfVec> = Vec::with_capacity(self.piece_count);
        let mut i: usize = 0;
        while i < self.piece_count
            invariant
                i <= self.piece_count,
                self.piece_count <= data_matrix@.rows.len(),
                decoded_pieces@.len() == i,
                forall|k: int|
                    0 <= k < i ==> (#[trigger] decoded_pieces@[k])@ == data_matrix@.rows[k],
            decreases self.piece_count - i,
        {
            match data_matrix.row(i) {
                Some(row) => {
                    decoded_pieces.push(row.clone());
                },
                None => {},
            }
            i += 1;
        }
        assert(gf_vec::views_of(decoded_pieces@) =~= self@.solution());
        OriginalData::reconstruct(decoded_pieces.as_slice())
    }
}

/// One step of decoding a stream: a complete state stays, and a piece of other
/// dimensions starts over.
pub open spec fn stepped(
    piece_count: nat,
    piece_byte_len: nat,
    before: DecoderView,
    piece: PieceView,
    after: DecoderView,
) -> bool {
    if before.complete() {
        after == before
    } else {
        match recode::dimension_error(piece, before.piece_count, before.piece_byte_len) {
            Some(_) => after == DecoderView::initial(piece_count, piece_byte_len),
            None => absorbed(before, piece, after),
        }
    }
}

/// The states of decoding `pieces` one after the other, from the empty state.
pub open spec fn trace(
    piece_count: nat,
    piece_byte_len: nat,
    pieces: Seq<PieceView>,
    states: Seq<DecoderView>,
) -> bool {
    &&& states.len() == pieces.len() + 1
    &&& states.first() == DecoderView::initial(piece_count, piece_byte_len)
    &&& forall|i: int|
        0 <= i < pieces.len() ==> stepped(
            piece_count,
            piece_byte_len,
            states[i],
            #[trigger] pieces[i],
            states[i + 1],
        )
}

/// `r` is what decoding `pieces` in order gives.
pub open spec fn decodes_all(
    piece_count: nat,
    piece_byte_len: nat,
    pieces: Seq<PieceView>,
    r: Result<Vec<u8>, Error>,
) -> bool {
    exists|states: Seq<DecoderView>| #[trigger]
        trace(piece_count, piece_byte_len, pieces, states) && decoded(states.last(), r)
}

/// One step of decoding a stream: a complete state stays, and a piece of other
/// dimensions starts over with an empty state of `piece_count` and
/// `piece_byte_len`.
pub fn decode_step(
    piece_count: usize,
    piece_byte_len: usize,
    state: DecoderState,
    piece: &CodedPiece,
) -> (next: DecoderState)
    requires
        piece_count + piece_byte_len <= usize::MAX,
    ensures
        stepped(piece_count as nat, piece_byte_len as nat, state@, piece@, next@),
{
    if state.is_complete() {
        state
    } else {
        match state.absorb(piece) {
            Ok(next) => next,
            Err(_) => DecoderState::new(piece_count, piece_byte_len),
        }
    }
}

/// Decode original data from a stream of coded pieces.
///
/// Folds the stream through [`DecoderState::absorb`], leaving the state alone
/// once the decoder has received enough linearly independent pieces, then
/// finalizes with [`DecoderState::decode`].
///
/// The returned `Io` fails with [`Error::InsufficientPieces`] if the stream ends
/// before enough useful pieces arrive, and with the error of the stream if it
/// has one.
#[must_use]
pub fn decode_stream(
    piece_count: usize,
    piece_byte_len: usize,
    pieces: Stream<Error, CodedPiece>,
) -> (io: Io<Error, Vec<u8>>)
    requires
        piece_count + piece_byte_len <= usize::MAX,
    ensures
        forall|r: Result<Vec<u8>, Error>| #[trigger]
            effect::runs_to(io, r) ==> exists|all: Result<Vec<CodedPiece>, Error>| #[trigger]
                effect::yields(pieces, None, all) && match all {
                    Ok(items) => decodes_all(
                        piece_count as nat,
                        piece_byte_len as nat,
                        recode::views_of(items@),
                        r,
                    ),
                    Err(e) => r == Err::<Vec<u8>, Error>(e),
                },
{
    let init = DecoderState::new(piece_count, piece_byte_len);
    let step = move |state: DecoderState, piece: CodedPiece| -> (next: DecoderState)
        ensures
            stepped(piece_count as nat, piece_byte_len as nat, state@, piece@, next@),
        { decode_step(piece_count, piece_byte_len, state, &piece) };
    let folded = effect::fold(pieces, init, step);
    let finish = |state: DecoderState| -> (io: Io<Error, Vec<u8>>)
        ensures
            forall|r: Result<Vec<u8>, Error>| #[trigger]
                effect::runs_to(io, r) ==> decoded(state@, r),
        {
            let body = move || -> (r: Result<Vec<u8>, Error>)
                ensures
                    decoded(state@, r),
                { state.decode() };
            effect::suspend(body)
        };
    let io = effect::flat_map(folded, finish);
    proof {
        assert forall|r: Result<Vec<u8>, Error>| #[trigger]
            effect::runs_to(io, r) implies exists|all: Result<Vec<CodedPiece>, Error>| #[trigger]
            effect::yields(pieces, None, all) && match all {
                Ok(items) => decodes_all(
                    piece_count as nat,
                    piece_byte_len as nat,
                    recode::views_of(items@),
                    r,
                ),
                Err(e) => r == Err::<Vec<u8>, Error>(e),
            } by {
            if exists|e: Error| #[trigger]
                effect::runs_to(folded, Err::<DecoderState, Error>(e)) && r == Err::<
                    Vec<u8>,
                    Error,
                >(e) {
            } else {
                let (state, next) = choose|state: DecoderState, next: Io<Error, Vec<u8>>|
                    effect::runs_to(folded, Ok::<DecoderState, Error>(state))
                        && #[trigger] finish.ensures((state,), next) && effect::runs_to(next, r);
                let all = choose|all: Result<Vec<CodedPiece>, Error>| #[trigger]
                    effect::yields(pieces, None, all) && match all {
                        Ok(items) => effect::folded(init, step, items@, state),
                        Err(_) => false,
                    };
                let items = all->Ok_0;
                let states = choose|states: Seq<DecoderState>| #[trigger]
                    effect::fold_trace(step, items@, states) && states.first() == init
                        && states.last() == state;
                let views = Seq::new(states.len(), |i: int| states[i]@);
                let pieces = recode::views_of(items@);
                assert forall|i: int| 0 <= i < pieces.len() implies stepped(
                    piece_count as nat,
                    piece_byte_len as nat,
                    views[i],
                    #[trigger] pieces[i],
                    views[i + 1],
                ) by {
                    assert(step.ensures((states[i], items@[i]), states[i + 1]));
                }
                assert(trace(piece_count as nat, piece_byte_len as nat, pieces, views));
            }
        }
    }
    io
}

/// Of strictly increasing pivots, those before column `k` come first, and there
/// are at most `k` of them; if there are `k`, pivot `i` is column `i`.
pub proof fn lemma_count_increasing(pivots: Seq<usize>, k: nat)
    requires
        echelon::increasing(pivots),
    ensures
        count_below(pivots, k) <= pivots.len(),
        forall|i: int| 0 <= i < count_below(pivots, k) ==> #[trigger] pivots[i] < k,
        forall|i: int| count_below(pivots, k) <= i < pivots.len() ==> #[trigger] pivots[i] >= k,
        count_below(pivots, k) <= k,
        count_below(pivots, k) == k ==> forall|i: int| 0 <= i < k ==> #[trigger] pivots[i] == i,
    decreases pivots.len(),
{
    if pivots.len() > 0 {
        let rest = pivots.drop_last();
        lemma_count_increasing(rest, k);
        let last = pivots.len() - 1;
        if pivots[last] < k {
            if count_below(rest, k) < rest.len() {
                let c = count_below(rest, k) as int;
                assert(rest[c] >= k);
                assert(pivots[c] < pivots[last]);
            }
            assert forall|i: int| 0 <= i < count_below(pivots, k) implies #[trigger] pivots[i]
                < k by {
                if i < last {
                    assert(rest[i] < k);
                }
            }
        } else {
            assert forall|i: int| 0 <= i < count_below(pivots, k) implies #[trigger] pivots[i]
                < k by {
                assert(rest[i] < k);
            }
            assert forall|i: int|
                count_below(pivots, k) <= i < pivots.len() implies #[trigger] pivots[i] >= k by {
                if i < last {
                    assert(rest[i] >= k);
                }
            }
        }
    }
    let u = count_below(pivots, k) as int;
    lemma_increasing_lower(pivots, u);
    if u > 0 {
        lemma_increasing_upper(pivots, u, u - 1);
        assert(pivots[u - 1] < k);
    }
    if u == k {
        assert forall|i: int| 0 <= i < k implies #[trigger] pivots[i] == i by {
            lemma_increasing_upper(pivots, u, i);
        }
    }
}

proof fn lemma_increasing_lower(pivots: Seq<usize>, n: int)
    requires
        echelon::increasing(pivots),
        0 <= n <= pivots.len(),
    ensures
        forall|i: int| 0 <= i < n ==> #[trigger] pivots[i] >= i,
    decreases n,
{
    if n > 0 {
        lemma_increasing_lower(pivots, n - 1);
        if n > 1 {
            assert(pivots[n - 2] < pivots[n - 1]);
        }
    }
}

proof fn lemma_increasing_upper(pivots: Seq<usize>, n: int, i: int)
    requires
        echelon::increasing(pivots),
        0 <= i < n <= pivots.len(),
    ensures
        pivots[i] + (n - 1 - i) <= pivots[n - 1],
    decreases n - i,
{
    if i < n - 1 {
        lemma_increasing_upper(pivots, n, i + 1);
        assert(pivots[i] < pivots[i + 1]);
    }
}

} // verus!
