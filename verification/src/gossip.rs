//! Gossip-layer integration.
//!
//! Ties the encode / decode paths to a pluggable [`Authenticator`] and surfaces
//! them as [`Stream`] / [`Io`] arrows that a transport can wire directly into
//! its inbound and outbound queues.
//!
//! - [`source`]: takes [`OriginalData`] and emits a [`Stream`] of authenticated
//!   [`WirePiece`]s to broadcast.
//! - [`relay`] and [`relay_fanout`]: verify incoming pieces, recode the accepted
//!   ones and tag what they emit.
//! - [`receive`]: takes a [`Stream`] of authenticated [`WirePiece`]s and returns
//!   an [`Io`] that resolves to the reconstructed bytes when enough linearly
//!   independent pieces have arrived.
use crate::auth::Authenticator;
use crate::coding::decode::{self, DecoderState, DecoderView};
use crate::coding::encode::{self, Encoder};
use crate::coding::piece::{CodedPiece, OriginalData, OriginalView, PieceView};
use crate::coding::recode::{self, Recoder, RecoderView};
use crate::effect;
use crate::error::Error;
use crate::journal::Draws;
use crate::relay;
use crate::vector::linear;
use comp_cat_rs::effect::io::Io;
use comp_cat_rs::effect::stream::Stream;
use std::sync::Arc;
use vstd::prelude::*;

verus! {

/// A zero-based identifier for one of the outbound peers a relay fans each
/// accepted input out to.  Its view is the index.
///
/// The mapping from [`PeerIndex`] to a concrete network peer address is the
/// caller's responsibility; this crate tracks only the index.
#[derive(Clone, Copy, Debug, PartialEq, Eq, Hash, PartialOrd, Ord, Structural)]
#[must_use]
pub struct PeerIndex(pub(crate) usize);

impl View for PeerIndex {
    type V = usize;

    open(crate) spec fn view(&self) -> usize {
        self.0
    }
}

impl From<usize> for PeerIndex {
    fn from(i: usize) -> (r: Self)
        ensures
            r@ == i,
    {
        Self(i)
    }
}

impl vstd::std_specs::convert::FromSpecImpl<usize> for PeerIndex {
    open spec fn obeys_from_spec() -> bool {
        true
    }

    open(crate) spec fn from_spec(i: usize) -> Self {
        PeerIndex(i)
    }
}

impl From<PeerIndex> for usize {
    fn from(p: PeerIndex) -> (r: Self)
        ensures
            r == p@,
    {
        p.0
    }
}

impl vstd::std_specs::convert::FromSpecImpl<PeerIndex> for usize {
    open spec fn obeys_from_spec() -> bool {
        true
    }

    open spec fn from_spec(p: PeerIndex) -> Self {
        p@
    }
}

impl PeerIndex {
    /// The underlying integer index.
    #[must_use]
    pub fn value(self) -> (r: usize)
        ensures
            r == self@,
    {
        self.0
    }
}

/// The on-wire package for a single authenticated coded piece.
///
/// Bundles the generation commitment, the coded piece itself, and the
/// authenticator's tag so a relay can verify without out-of-band state.
#[must_use]
pub struct WirePiece<A: Authenticator> where A::Commitment: Clone, A::Tag: Clone {
    pub(crate) commitment: A::Commitment,
    pub(crate) piece: CodedPiece,
    pub(crate) tag: A::Tag,
}

/// The commitment, the coded piece and the tag of a wire piece.
pub struct WireView<A: Authenticator> {
    pub commitment: A::Commitment,
    pub piece: PieceView,
    pub tag: A::Tag,
}

impl<A: Authenticator> View for WirePiece<A> where A::Commitment: Clone, A::Tag: Clone {
    type V = WireView<A>;

    open(crate) spec fn view(&self) -> WireView<A> {
        WireView { commitment: self.commitment, piece: self.piece@, tag: self.tag }
    }
}

impl<A: Authenticator> WirePiece<A> where A::Commitment: Clone, A::Tag: Clone {
    /// Construct a wire piece from its three components.
    pub fn new(commitment: A::Commitment, piece: CodedPiece, tag: A::Tag) -> (r: Self)
        ensures
            r@ == (WireView::<A> { commitment, piece: piece@, tag }),
    {
        Self { commitment, piece, tag }
    }

    /// The commitment to the source generation this piece was derived from.
    pub fn commitment(&self) -> (r: &A::Commitment)
        ensures
            *r == self@.commitment,
    {
        &self.commitment
    }

    /// The coded piece payload.
    pub fn piece(&self) -> (r: &CodedPiece)
        ensures
            r@ == self@.piece,
    {
        &self.piece
    }

    /// The authentication tag.
    pub fn tag(&self) -> (r: &A::Tag)
        ensures
            *r == self@.tag,
    {
        &self.tag
    }
}

impl<A: Authenticator> Clone for WirePiece<A> where A::Commitment: Clone, A::Tag: Clone {
    fn clone(&self) -> (r: Self)
        ensures
            cloned(self@.commitment, r@.commitment),
            r@.piece == self@.piece,
            cloned(self@.tag, r@.tag),
    {
        Self {
            commitment: self.commitment.clone(),
            piece: self.piece.clone(),
            tag: self.tag.clone(),
        }
    }
}

/// `wire` carries `piece`, a copy of `commitment`, and the tag of the piece.
pub open spec fn packaged<A: Authenticator>(
    auth: A,
    commitment: A::Commitment,
    piece: PieceView,
    wire: WireView<A>,
) -> bool where A::Commitment: Clone {
    &&& wire.piece == piece
    &&& cloned(commitment, wire.commitment)
    &&& auth.tags(commitment, piece, wire.tag)
}

/// Every piece of these dimensions can be tagged.
pub open spec fn can_tag_all<A: Authenticator>(auth: A, count: nat, len: nat) -> bool {
    forall|commitment: A::Commitment, piece: PieceView|
        piece.coeffs.len() == count && piece.data.len() == len ==> #[trigger] auth.can_tag(
            commitment,
            piece,
        )
}

/// Tag a coded piece and package it with a copy of the commitment.
pub fn package<A: Authenticator>(auth: &A, commitment: &A::Commitment, piece: CodedPiece) -> (wire:
    WirePiece<A>) where A::Commitment: Clone, A::Tag: Clone
    requires
        auth.can_tag(*commitment, piece@),
    ensures
        packaged(*auth, *commitment, piece@, wire@),
{
    let tag = auth.tag(commitment, &piece);
    WirePiece::new(commitment.clone(), piece, tag)
}

/// `r` is what the source emits up to a limit: the coded pieces of an encoding
/// stream, each packaged with its tag under (a copy of) the commitment.
pub open spec fn sourced<A: Authenticator, F: Fn(usize) -> Result<Vec<u8>, Error>>(
    auth: A,
    commitment: A::Commitment,
    original: OriginalView,
    rng: F,
    limit: Option<usize>,
    r: Result<Vec<WirePiece<A>>, Error>,
) -> bool where A::Commitment: Clone, A::Tag: Clone {
    exists|pieces: Result<Vec<CodedPiece>, Error>| #[trigger]
        encode::streams(original, rng, limit, pieces) && encode::draws_stream(
            original,
            rng,
            limit,
            pieces,
        ) && match (pieces, r) {
            (Ok(ps), Ok(ws)) => ps@.len() == ws@.len() && forall|i: int|
                0 <= i < ps@.len() ==> packaged(auth, commitment, ps@[i]@, (#[trigger] ws@[i])@),
            (Err(e), Err(f)) => e == f,
            _ => false,
        }
}

/// Source-side: commit to the generation, encode pieces, tag each one, and emit
/// them on a [`Stream`].
///
/// Returns `(commitment, stream)`.  The caller conveys the commitment to the
/// receiver out-of-band (or trusts the one embedded in the first wire piece
/// received) so the receiver can call [`receive`] with the expected commitment.
///
/// The returned stream is unbounded: cap it with [`Stream::take`].
pub fn source<A, F>(auth: Arc<A>, orig: OriginalData, rng_factory: F) -> (r: (
    A::Commitment,
    Stream<Error, WirePiece<A>>,
)) where
    A: Authenticator + Send + Sync + 'static,
    A::Commitment: Clone + Send + Sync + 'static,
    A::Tag: Clone + Send + Sync + 'static,
    F: Fn(usize) -> Result<Vec<u8>, Error> + Send + Sync + 'static,

    requires
        rng_factory.requires((orig@.pieces.len() as usize,)),
        can_tag_all(*auth, orig@.pieces.len(), orig@.piece_byte_len),
    ensures
        auth.commits(orig@, r.0),
        exists|commitment: A::Commitment| #[trigger]
            cloned(r.0, commitment) && forall|
                limit: Option<usize>,
                out: Result<Vec<WirePiece<A>>, Error>,
            | #[trigger]
                effect::yields(r.1, limit, out) ==> sourced(
                    *auth,
                    commitment,
                    orig@,
                    rng_factory,
                    limit,
                    out,
                ),
{
    let ghost original = orig@;
    let commitment = auth.commit(&orig);
    let c_arc: Arc<A::Commitment> = Arc::new(commitment.clone());
    let encoder = Encoder::new(orig);
    let pieces = encoder.encode_stream(rng_factory);
    let wrap = move |piece: CodedPiece| -> (wire: WirePiece<A>)
        requires
            auth.can_tag(*c_arc, piece@),
        ensures
            packaged(*auth, *c_arc, piece@, wire@),
        { package(&*auth, &*c_arc, piece) };
    proof {
        assert forall|limit: Option<usize>, items: Vec<CodedPiece>, i: int|
            #[trigger] effect::yields(pieces, limit, Ok(items)) && 0 <= i
                < items@.len() implies wrap.requires((#[trigger] items@[i],)) by {
            lemma_streamed_piece(original, rng_factory, limit, items, i);
        }
    }
    let stream = effect::map(pieces, wrap);
    proof {
        assert forall|limit: Option<usize>, out: Result<Vec<WirePiece<A>>, Error>| #[trigger]
            effect::yields(stream, limit, out) implies sourced(
            *auth,
            *c_arc,
            original,
            rng_factory,
            limit,
            out,
        ) by {
            let before = choose|before: Result<Vec<CodedPiece>, Error>| #[trigger]
                effect::yields(pieces, limit, before) && effect::mapped(before, wrap, out);
            assert(encode::streams(original, rng_factory, limit, before));
        }
    }
    assert(cloned(commitment, *c_arc));
    (commitment, stream)
}

/// A piece of an encoding stream has the dimensions of the original.
pub proof fn lemma_streamed_piece<F: FnOnce(usize) -> Result<Vec<u8>, Error>>(
    original: OriginalView,
    rng: F,
    limit: Option<usize>,
    pieces: Vec<CodedPiece>,
    i: int,
)
    requires
        encode::streams(original, rng, limit, Ok(pieces)),
        0 <= i < pieces@.len(),
    ensures
        pieces@[i]@.coeffs.len() == original.pieces.len(),
        pieces@[i]@.data.len() == original.piece_byte_len,
        pieces@[i]@ == encode::coded(original, pieces@[i]@.coeffs),
{
    assert(encode::encodes(original, rng, Ok(pieces@[i])));
    let draw = choose|draw: Result<Vec<u8>, Error>| #[trigger]
        rng.ensures((original.pieces.len() as usize,), draw) && encode::encoded_from(
            original,
            draw,
            Ok(pieces@[i]),
        );
    let bytes = draw->Ok_0;
    linear::lemma_combination_len(bytes@, original.pieces, original.piece_byte_len);
}

/// The relay accepts a piece: its tag is valid and its dimensions are right.
pub open spec fn admits<A: Authenticator>(
    auth: A,
    commitment: A::Commitment,
    recoder: RecoderView,
    wire: WireView<A>,
) -> bool {
    &&& auth.accepts(commitment, wire.piece, wire.tag)
    &&& recode::dimension_error(wire.piece, recoder.piece_count, recoder.piece_byte_len) is None
}

/// `out` is a piece recoded from `pieces`, packaged with its tag, or nothing if
/// recoding failed.
pub open spec fn emitted<A: Authenticator, F: Fn(usize) -> Result<Vec<u8>, Error>>(
    auth: A,
    commitment: A::Commitment,
    pieces: Seq<PieceView>,
    rng: F,
    out: Option<WirePiece<A>>,
) -> bool where A::Commitment: Clone, A::Tag: Clone {
    exists|drawn: Result<CodedPiece, Error>| #[trigger]
        recode::recodes(pieces, rng, drawn) && match drawn {
            Ok(piece) => out matches Some(wire) && packaged(auth, commitment, piece@, wire@),
            Err(_) => out is None,
        }
}

/// The item of an option, if there is one.
pub open spec fn present<T>(item: Option<T>) -> Seq<T> {
    match item {
        Some(t) => seq![t],
        None => Seq::empty(),
    }
}

/// One step of a relay: an admitted piece is stored, and one piece is emitted
/// from the stored ones; any other piece changes nothing and emits nothing.
pub open spec fn relay_stepped<A: Authenticator, F: Fn(usize) -> Result<Vec<u8>, Error>>(
    auth: A,
    commitment: A::Commitment,
    rng: F,
    before: RecoderView,
    wire: WireView<A>,
    after: RecoderView,
    block: Seq<WirePiece<A>>,
) -> bool where A::Commitment: Clone, A::Tag: Clone {
    if admits(auth, commitment, before, wire) {
        &&& recode::stored(before, wire.piece, after)
        &&& exists|out: Option<WirePiece<A>>| #[trigger]
            emitted(auth, commitment, after.pieces, rng, out) && block == present(out)
    } else {
        after == before && block.len() == 0
    }
}

/// The recoder states of a relay and what it emits for each of `items`.
pub open spec fn relay_trace<A: Authenticator, F: Fn(usize) -> Result<Vec<u8>, Error>>(
    auth: A,
    commitment: A::Commitment,
    rng: F,
    items: Seq<WirePiece<A>>,
    states: Seq<RecoderView>,
    blocks: Seq<Seq<WirePiece<A>>>,
) -> bool where A::Commitment: Clone, A::Tag: Clone {
    &&& states.len() == items.len() + 1
    &&& blocks.len() == items.len()
    &&& forall|i: int|
        0 <= i < items.len() ==> relay_stepped(
            auth,
            commitment,
            rng,
            states[i],
            (#[trigger] items[i])@,
            states[i + 1],
            blocks[i],
        )
}

/// The blocks, one after the other.
pub open spec fn concatenated<T>(blocks: Seq<Seq<T>>) -> Seq<T>
    decreases blocks.len(),
{
    if blocks.len() == 0 {
        Seq::empty()
    } else {
        concatenated(blocks.drop_last()) + blocks.last()
    }
}

/// A recoder without pieces.
pub open spec fn empty_recoder(piece_count: nat, piece_byte_len: nat) -> RecoderView {
    RecoderView { pieces: Seq::empty(), piece_count, piece_byte_len }
}

/// `outputs` is what a relay emits for `items`, starting without pieces.
pub open spec fn relayed<A: Authenticator, F: Fn(usize) -> Result<Vec<u8>, Error>>(
    auth: A,
    commitment: A::Commitment,
    piece_count: nat,
    piece_byte_len: nat,
    rng: F,
    items: Seq<WirePiece<A>>,
    outputs: Seq<WirePiece<A>>,
) -> bool where A::Commitment: Clone, A::Tag: Clone {
    exists|states: Seq<RecoderView>, blocks: Seq<Seq<WirePiece<A>>>| #[trigger]
        relay_trace(auth, commitment, rng, items, states, blocks) && states.first()
            == empty_recoder(piece_count, piece_byte_len) && outputs == concatenated(blocks)
}

/// The stream emits exactly these items.
pub open spec fn emits<T: Send + 'static>(stream: Stream<Error, T>, items: Seq<T>) -> bool {
    forall|limit: Option<usize>, out: Result<Vec<T>, Error>| #[trigger]
        effect::yields(stream, limit, out) ==> (out matches Ok(v) && v@ == effect::up_to(
            items,
            limit,
        ))
}

/// A random source that can be asked for any number of bytes.
pub open spec fn answers<F: Fn(usize) -> Result<Vec<u8>, Error>>(rng: F) -> bool {
    forall|n: usize| #[trigger] rng.requires((n,))
}

/// Emit one recoded piece, packaged with its tag, if recoding succeeds.
pub fn emit<A, F>(auth: &A, commitment: &A::Commitment, recoder: &Recoder, rng: &Arc<F>) -> (out:
    Option<WirePiece<A>>) where
    A: Authenticator,
    A::Commitment: Clone,
    A::Tag: Clone,
    F: Fn(usize) -> Result<Vec<u8>, Error> + Send + Sync + 'static,

    requires
        answers(**rng),
        can_tag_all(*auth, recoder@.piece_count, recoder@.piece_byte_len),
    ensures
        emitted(*auth, *commitment, recoder@.pieces, **rng, out),
        relay::emits_asking(*auth, *commitment, *recoder, **rng, out),
{
    let draws: Draws<&F> = Draws::new(&**rng);
    let ghost before = draws;
    let (out, left) = effect::call_four(
        relay::emit_asking::<A, &F>,
        auth,
        commitment,
        recoder,
        draws,
    );
    proof {
        assert(call_ensures(
            relay::emit_asking::<A, &F>,
            (auth, commitment, recoder, before),
            (out, left),
        ));
        let asked = choose|asked: Seq<(usize, Result<Vec<u8>, Error>)>| #[trigger]
            relay::emits_with(*auth, *commitment, recoder@.pieces, asked, out) && left.follows(
                before,
                asked,
            );
        relay::lemma_emits_with(*auth, *commitment, recoder@.pieces, &**rng, asked, out);
    }
    out
}

/// Recoding with a source that answers as another does is recoding with the
/// other.
pub proof fn lemma_drawn_recodes<
    G: FnOnce(usize) -> Result<Vec<u8>, Error>,
    F: Fn(usize) -> Result<Vec<u8>, Error>,
>(pieces: Seq<PieceView>, draw: G, rng: &F, r: Result<CodedPiece, Error>)
    requires
        recode::recodes(pieces, draw, r),
        forall|n: usize, d: Result<Vec<u8>, Error>| #[trigger]
            draw.ensures((n,), d) ==> rng.ensures((n,), d),
    ensures
        recode::recodes(pieces, *rng, r),
{
    if pieces.len() > 0 {
        let n = pieces.len() as usize;
        let d = choose|d: Result<Vec<u8>, Error>| #[trigger]
            draw.ensures((n,), d) && recode::recoded_from(pieces, d, r);
        assert(rng.ensures((n,), d));
    }
}

/// A piece recoded from pieces of the same dimensions has those dimensions.
proof fn lemma_recoded_dimensions<F: FnOnce(usize) -> Result<Vec<u8>, Error>>(
    pieces: Seq<PieceView>,
    rng: &F,
    piece: CodedPiece,
    count: nat,
    len: nat,
)
    requires
        recode::uniform(pieces, count, len),
        recode::recodes(pieces, *rng, Ok(piece)),
    ensures
        piece@.coeffs.len() == count,
        piece@.data.len() == len,
        exists|coeffs: Seq<u8>|
            coeffs.len() == pieces.len() && piece@ == #[trigger] recode::recoded(
                pieces,
                coeffs,
                count,
                len,
            ),
{
    let draw = choose|draw: Result<Vec<u8>, Error>| #[trigger]
        rng.ensures((pieces.len() as usize,), draw) && recode::recoded_from(
            pieces,
            draw,
            Ok(piece),
        );
    let bytes = draw->Ok_0;
    recode::lemma_recombined_uniform(pieces, bytes@, Ok(piece), count, len);
    linear::lemma_combination_len(bytes@, recode::coeffs_of(pieces), count);
    linear::lemma_combination_len(bytes@, recode::data_of(pieces), len);
    assert(piece@ == recode::recoded(pieces, bytes@, count, len));
}

/// Store a verified piece: the recoder with the piece, or the recoder as it was
/// and `false` if the tag is not valid or the dimensions are not right.
pub fn store_verified<A: Authenticator>(
    auth: &A,
    commitment: &A::Commitment,
    recoder: Recoder,
    wire: &WirePiece<A>,
) -> (r: (Recoder, bool)) where A::Commitment: Clone, A::Tag: Clone
    ensures
        r.1 == admits(*auth, *commitment, recoder@, wire@),
        r.1 ==> recode::stored(recoder@, wire@.piece, r.0@),
        !r.1 ==> r.0@ == recoder@,
{
    match auth.verify(commitment, wire.piece(), wire.tag()) {
        Ok(_) => {
            let backup = recoder.clone();
            match recoder.add_piece(wire.piece()) {
                Ok(updated) => (updated, true),
                Err(_) => (backup, false),
            }
        },
        Err(_) => (recoder, false),
    }
}

/// What a relay emits for a batch of incoming pieces.
pub fn relay_batch<A, F>(
    auth: &A,
    commitment: &A::Commitment,
    piece_count: usize,
    piece_byte_len: usize,
    items: &[WirePiece<A>],
    rng: &Arc<F>,
) -> (outputs: Vec<WirePiece<A>>) where
    A: Authenticator,
    A::Commitment: Clone,
    A::Tag: Clone,
    F: Fn(usize) -> Result<Vec<u8>, Error> + Send + Sync + 'static,

    requires
        answers(**rng),
        can_tag_all(*auth, piece_count as nat, piece_byte_len as nat),
    ensures
        relayed(
            *auth,
            *commitment,
            piece_count as nat,
            piece_byte_len as nat,
            **rng,
            items@,
            outputs@,
        ),
        relay::relays_asking(
            *auth,
            *commitment,
            piece_count,
            piece_byte_len,
            items@,
            **rng,
            outputs,
        ),
{
    let draws: Draws<&F> = Draws::new(&**rng);
    let ghost before = draws;
    let (outputs, left) = effect::call_six(
        relay::relay_asking::<A, &F>,
        auth,
        commitment,
        piece_count,
        piece_byte_len,
        items,
        draws,
    );
    proof {
        assert(call_ensures(
            relay::relay_asking::<A, &F>,
            (auth, commitment, piece_count, piece_byte_len, items, before),
            (outputs, left),
        ));
        let (after, asked) = choose|
            after: RecoderView,
            asked: Seq<(usize, Result<Vec<u8>, Error>)>,
        | #[trigger]
            relay::relay_asked(
                *auth,
                *commitment,
                piece_count as nat,
                piece_byte_len as nat,
                items@,
                after,
                asked,
                outputs@,
            ) && left.follows(before, asked);
        relay::lemma_relay_asked(
            *auth,
            *commitment,
            piece_count as nat,
            piece_byte_len as nat,
            &**rng,
            items@,
            after,
            asked,
            outputs@,
        );
    }
    outputs
}

/// `stream` emits what a relay emits for `items`.
pub open spec fn relays<A: Authenticator, F: Fn(usize) -> Result<Vec<u8>, Error>>(
    auth: A,
    commitment: A::Commitment,
    piece_count: nat,
    piece_byte_len: nat,
    rng: F,
    items: Seq<WirePiece<A>>,
    stream: Stream<Error, WirePiece<A>>,
) -> bool where A::Commitment: Clone, A::Tag: Clone, WirePiece<A>: Send + 'static {
    exists|outputs: Vec<WirePiece<A>>| #[trigger]
        relayed(
            auth,
            commitment,
            piece_count,
            piece_byte_len,
            rng,
            items,
            outputs@,
        ) && relay::relays_asking(
            auth,
            commitment,
            piece_count as usize,
            piece_byte_len as usize,
            items,
            rng,
            outputs,
        ) && emits(stream, outputs@)
}

/// Relay side: verify each incoming [`WirePiece`] against `commitment`,
/// accumulate the verified pieces into a [`Recoder`], and emit one
/// freshly-tagged recoded piece per accepted input.
///
/// Pieces that fail authentication are silently dropped; they consume no
/// recoder slot and produce no output.  Pieces that fail the dimension check
/// inside [`Recoder::add_piece`] are likewise dropped.
///
/// This is a *batch-mode* relay: it consumes the entire incoming stream before
/// emitting anything.  It fails with any error raised while draining
/// `incoming`.
pub fn relay<A, F>(
    auth: Arc<A>,
    commitment: A::Commitment,
    piece_count: usize,
    piece_byte_len: usize,
    incoming: Stream<Error, WirePiece<A>>,
    rng_factory: F,
) -> (io: Io<Error, Stream<Error, WirePiece<A>>>) where
    A: Authenticator + Send + Sync + 'static,
    A::Commitment: Clone + Send + Sync + 'static,
    A::Tag: Clone + Send + Sync + 'static,
    F: Fn(usize) -> Result<Vec<u8>, Error> + Send + Sync + 'static,

    requires
        answers(rng_factory),
        can_tag_all(*auth, piece_count as nat, piece_byte_len as nat),
    ensures
        forall|r: Result<Stream<Error, WirePiece<A>>, Error>| #[trigger]
            effect::runs_to(io, r) ==> exists|all: Result<Vec<WirePiece<A>>, Error>| #[trigger]
                effect::yields(incoming, None, all) && match all {
                    Ok(items) => r matches Ok(stream) && relays(
                        *auth,
                        commitment,
                        piece_count as nat,
                        piece_byte_len as nat,
                        rng_factory,
                        items@,
                        stream,
                    ),
                    Err(e) => r == Err::<Stream<Error, WirePiece<A>>, Error>(e),
                },
{
    let rng: Arc<F> = Arc::new(rng_factory);
    let collected = effect::collect(incoming);
    let next = move |items: Vec<WirePiece<A>>| -> (io: Io<Error, Stream<Error, WirePiece<A>>>)
        ensures
            forall|r: Result<Stream<Error, WirePiece<A>>, Error>| #[trigger]
                effect::runs_to(io, r) ==> (r matches Ok(stream) && relays(
                    *auth,
                    commitment,
                    piece_count as nat,
                    piece_byte_len as nat,
                    *rng,
                    items@,
                    stream,
                )),
        {
            let body = move || -> (r: Result<Stream<Error, WirePiece<A>>, Error>)
                ensures
                    (r matches Ok(stream) && relays(
                        *auth,
                        commitment,
                        piece_count as nat,
                        piece_byte_len as nat,
                        *rng,
                        items@,
                        stream,
                    )),
                {
                    let outputs = relay_batch(
                        &*auth,
                        &commitment,
                        piece_count,
                        piece_byte_len,
                        items.as_slice(),
                        &rng,
                    );
                    let ghost emitted = outputs;
                    let stream = effect::from_vec(outputs);
                    assert(emits(stream, emitted@));
                    Ok(stream)
                };
            effect::suspend(body)
        };
    effect::flat_map(collected, next)
}

/// The items present among `outs`, each with the number of its place.
pub open spec fn numbered<T>(outs: Seq<Option<T>>) -> Seq<(PeerIndex, T)>
    decreases outs.len(),
{
    if outs.len() == 0 {
        Seq::empty()
    } else {
        let before = numbered(outs.drop_last());
        match outs.last() {
            Some(t) => before.push((peer_at((outs.len() - 1) as usize), t)),
            None => before,
        }
    }
}

/// The peer with an index.
pub open(crate) spec fn peer_at(index: usize) -> PeerIndex {
    PeerIndex(index)
}

/// `out` is the piece recoded from `pieces` with the answer `draw` of the random
/// source, packaged with its tag, or nothing if there are no pieces or recoding
/// failed.
pub open spec fn emitted_from<A: Authenticator>(
    auth: A,
    commitment: A::Commitment,
    pieces: Seq<PieceView>,
    draw: Result<Vec<u8>, Error>,
    out: Option<WirePiece<A>>,
) -> bool where A::Commitment: Clone, A::Tag: Clone {
    if pieces.len() == 0 {
        out is None
    } else {
        exists|r: Result<CodedPiece, Error>| #[trigger]
            recode::recoded_from(pieces, draw, r) && match r {
                Ok(piece) => out matches Some(wire) && packaged(auth, commitment, piece@, wire@),
                Err(_) => out is None,
            }
    }
}

/// Each of `outs` is emitted from `pieces` with its own one of `draws`.
pub open spec fn all_emitted_from<A: Authenticator>(
    auth: A,
    commitment: A::Commitment,
    pieces: Seq<PieceView>,
    draws: Seq<Result<Vec<u8>, Error>>,
    outs: Seq<Option<WirePiece<A>>>,
) -> bool where A::Commitment: Clone, A::Tag: Clone {
    &&& outs.len() == draws.len()
    &&& forall|j: int|
        0 <= j < outs.len() ==> emitted_from(auth, commitment, pieces, draws[j], #[trigger] outs[j])
}

/// `block` holds, for each peer in order, the piece recoded from `pieces` with the
/// draw of that peer, packaged with its tag; a peer for which recoding failed gets
/// none.
pub open spec fn fanned_from<A: Authenticator>(
    auth: A,
    commitment: A::Commitment,
    pieces: Seq<PieceView>,
    draws: Seq<Result<Vec<u8>, Error>>,
    block: Seq<(PeerIndex, WirePiece<A>)>,
) -> bool where A::Commitment: Clone, A::Tag: Clone {
    exists|outs: Seq<Option<WirePiece<A>>>| #[trigger]
        all_emitted_from(auth, commitment, pieces, draws, outs) && block == numbered(outs)
}

/// Each of `draws` is an answer of the random source to a request for `n` bytes.
pub open spec fn all_drawn<F: Fn(usize) -> Result<Vec<u8>, Error>>(
    rng: F,
    n: usize,
    draws: Seq<Result<Vec<u8>, Error>>,
) -> bool {
    forall|j: int| 0 <= j < draws.len() ==> rng.ensures((n,), #[trigger] draws[j])
}

/// `block` holds, for each peer in order, the piece recoded from `pieces` with an
/// answer of the random source for that peer, packaged with its tag.  Without
/// pieces the source is not asked and no peer gets one.
pub open spec fn fanned<A: Authenticator, F: Fn(usize) -> Result<Vec<u8>, Error>>(
    auth: A,
    commitment: A::Commitment,
    rng: F,
    pieces: Seq<PieceView>,
    peer_count: nat,
    block: Seq<(PeerIndex, WirePiece<A>)>,
) -> bool where A::Commitment: Clone, A::Tag: Clone {
    if pieces.len() == 0 {
        block.len() == 0
    } else {
        exists|draws: Seq<Result<Vec<u8>, Error>>| #[trigger]
            all_drawn(rng, pieces.len() as usize, draws) && draws.len() == peer_count
                && fanned_from(auth, commitment, pieces, draws, block)
    }
}

/// One step of a fanning relay: an admitted piece is stored, and one piece is
/// emitted for every peer; any other piece changes nothing and emits nothing.
pub open spec fn fan_stepped<A: Authenticator, F: Fn(usize) -> Result<Vec<u8>, Error>>(
    auth: A,
    commitment: A::Commitment,
    rng: F,
    peer_count: nat,
    before: RecoderView,
    wire: WireView<A>,
    after: RecoderView,
    block: Seq<(PeerIndex, WirePiece<A>)>,
) -> bool where A::Commitment: Clone, A::Tag: Clone {
    if admits(auth, commitment, before, wire) {
        &&& recode::stored(before, wire.piece, after)
        &&& fanned(auth, commitment, rng, after.pieces, peer_count, block)
    } else {
        after == before && block.len() == 0
    }
}

/// The recoder states of a fanning relay and what it emits for each of `items`.
pub open spec fn fan_trace<A: Authenticator, F: Fn(usize) -> Result<Vec<u8>, Error>>(
    auth: A,
    commitment: A::Commitment,
    rng: F,
    peer_count: nat,
    items: Seq<WirePiece<A>>,
    states: Seq<RecoderView>,
    blocks: Seq<Seq<(PeerIndex, WirePiece<A>)>>,
) -> bool where A::Commitment: Clone, A::Tag: Clone {
    &&& states.len() == items.len() + 1
    &&& blocks.len() == items.len()
    &&& forall|i: int|
        0 <= i < items.len() ==> fan_stepped(
            auth,
            commitment,
            rng,
            peer_count,
            states[i],
            (#[trigger] items[i])@,
            states[i + 1],
            blocks[i],
        )
}

/// `outputs` is what a fanning relay emits for `items`, starting without pieces.
pub open spec fn relayed_fanout<A: Authenticator, F: Fn(usize) -> Result<Vec<u8>, Error>>(
    auth: A,
    commitment: A::Commitment,
    piece_count: nat,
    piece_byte_len: nat,
    peer_count: nat,
    rng: F,
    items: Seq<WirePiece<A>>,
    outputs: Seq<(PeerIndex, WirePiece<A>)>,
) -> bool where A::Commitment: Clone, A::Tag: Clone {
    exists|states: Seq<RecoderView>, blocks: Seq<Seq<(PeerIndex, WirePiece<A>)>>| #[trigger]
        fan_trace(auth, commitment, rng, peer_count, items, states, blocks) && states.first()
            == empty_recoder(piece_count, piece_byte_len) && outputs == concatenated(blocks)
}

/// Emit the piece recoded with an answer of the random source, packaged with its
/// tag, if recoding succeeds.
pub fn emit_drawn<A>(
    auth: &A,
    commitment: &A::Commitment,
    recoder: &Recoder,
    draw: Result<Vec<u8>, Error>,
) -> (out: Option<WirePiece<A>>) where A: Authenticator, A::Commitment: Clone, A::Tag: Clone
    requires
        can_tag_all(*auth, recoder@.piece_count, recoder@.piece_byte_len),
    ensures
        emitted_from(*auth, *commitment, recoder@.pieces, draw, out),
{
    let answer = move |_n: usize| -> (d: Result<Vec<u8>, Error>)
        ensures
            d == draw,
        { draw };
    let io = recoder.recode_one(answer);
    match effect::run(io) {
        Ok(piece) => {
            proof {
                lemma_recoded_dimensions(
                    recoder@.pieces,
                    &answer,
                    piece,
                    recoder@.piece_count,
                    recoder@.piece_byte_len,
                );
                assert(recode::recoded_from(recoder@.pieces, draw, Ok(piece)));
            }
            Some(package(auth, commitment, piece))
        },
        Err(e) => {
            assert(recoder@.pieces.len() > 0 ==> recode::recoded_from(
                recoder@.pieces,
                draw,
                Err(e),
            ));
            None
        },
    }
}

/// Emit a recoded piece for each peer in order, each with its own one of `draws`.
pub fn fan_out_drawn<A>(
    auth: &A,
    commitment: &A::Commitment,
    recoder: &Recoder,
    draws: Vec<Result<Vec<u8>, Error>>,
) -> (block: Vec<(PeerIndex, WirePiece<A>)>) where
    A: Authenticator,
    A::Commitment: Clone,
    A::Tag: Clone,

    requires
        can_tag_all(*auth, recoder@.piece_count, recoder@.piece_byte_len),
    ensures
        fanned_from(*auth, *commitment, recoder@.pieces, draws@, block@),
{
    let peer_count: usize = draws.len();
    let mut block: Vec<(PeerIndex, WirePiece<A>)> = Vec::new();
    let ghost mut outs: Seq<Option<WirePiece<A>>> = Seq::empty();
    let mut peer: usize = 0;
    for draw in it: draws.into_iter()
        invariant
            peer == it.index(),
            peer_count == draws@.len(),
            it.seq() == draws@,
            can_tag_all(*auth, recoder@.piece_count, recoder@.piece_byte_len),
            all_emitted_from(
                *auth,
                *commitment,
                recoder@.pieces,
                draws@.take(peer as int),
                outs,
            ),
            block@ == numbered(outs),
    {
        let out = emit_drawn(auth, commitment, recoder, draw);
        proof {
            let before = outs;
            outs = outs.push(out);
            assert(outs.drop_last() =~= before);
            assert forall|j: int| 0 <= j < outs.len() implies emitted_from(
                *auth,
                *commitment,
                recoder@.pieces,
                draws@.take(peer + 1)[j],
                #[trigger] outs[j],
            ) by {
                if j < peer {
                    assert(outs[j] == before[j]);
                    assert(draws@.take(peer as int)[j] == draws@[j]);
                }
            }
        }
        match out {
            Some(wire) => {
                block.push((PeerIndex(peer), wire));
            },
            None => {},
        }
        peer += 1;
    }
    assert(draws@.take(peer as int) =~= draws@);
    block
}

/// Ask the random source once for each peer, and emit a recoded piece for each
/// with its own answer.
pub fn fan_out<A, F>(
    auth: &A,
    commitment: &A::Commitment,
    recoder: &Recoder,
    peer_count: usize,
    rng: &Arc<F>,
) -> (block: Vec<(PeerIndex, WirePiece<A>)>) where
    A: Authenticator,
    A::Commitment: Clone,
    A::Tag: Clone,
    F: Fn(usize) -> Result<Vec<u8>, Error> + Send + Sync + 'static,

    requires
        answers(**rng),
        can_tag_all(*auth, recoder@.piece_count, recoder@.piece_byte_len),
    ensures
        fanned(*auth, *commitment, **rng, recoder@.pieces, peer_count as nat, block@),
        relay::fans_asking(*auth, *commitment, *recoder, peer_count, **rng, block),
{
    let draws: Draws<&F> = Draws::new(&**rng);
    let ghost before = draws;
    let (block, left) = effect::call_five(
        relay::fan_out_asking::<A, &F>,
        auth,
        commitment,
        recoder,
        peer_count,
        draws,
    );
    proof {
        assert(call_ensures(
            relay::fan_out_asking::<A, &F>,
            (auth, commitment, recoder, peer_count, before),
            (block, left),
        ));
        let asked = choose|asked: Seq<(usize, Result<Vec<u8>, Error>)>| #[trigger]
            relay::fans_with(
                *auth,
                *commitment,
                recoder@.pieces,
                peer_count as nat,
                asked,
                block@,
            ) && left.follows(before, asked);
        relay::lemma_fans_with(
            *auth,
            *commitment,
            recoder@.pieces,
            peer_count as nat,
            &**rng,
            asked,
            block@,
        );
    }
    block
}

/// What a fanning relay sends to the peers is emitted, piece by piece, from what
/// it has stored.
pub proof fn lemma_fanned_emitted<A: Authenticator, F: Fn(usize) -> Result<Vec<u8>, Error>>(
    auth: A,
    commitment: A::Commitment,
    rng: F,
    pieces: Seq<PieceView>,
    peer_count: nat,
    block: Seq<(PeerIndex, WirePiece<A>)>,
) -> (outs: Seq<Option<WirePiece<A>>>) where A::Commitment: Clone, A::Tag: Clone
    requires
        pieces.len() > 0,
        fanned(auth, commitment, rng, pieces, peer_count, block),
    ensures
        outs.len() == peer_count,
        block == numbered(outs),
        forall|j: int|
            0 <= j < outs.len() ==> emitted(auth, commitment, pieces, rng, #[trigger] outs[j]),
{
    let draws = choose|draws: Seq<Result<Vec<u8>, Error>>| #[trigger]
        all_drawn(rng, pieces.len() as usize, draws) && draws.len() == peer_count
            && fanned_from(auth, commitment, pieces, draws, block);
    let outs = choose|outs: Seq<Option<WirePiece<A>>>| #[trigger]
        all_emitted_from(auth, commitment, pieces, draws, outs) && block == numbered(outs);
    assert forall|j: int| 0 <= j < outs.len() implies emitted(
        auth,
        commitment,
        pieces,
        rng,
        #[trigger] outs[j],
    ) by {
        assert(rng.ensures((pieces.len() as usize,), draws[j]));
        let r = choose|r: Result<CodedPiece, Error>| #[trigger]
            recode::recoded_from(pieces, draws[j], r) && match r {
                Ok(piece) => outs[j] matches Some(wire) && packaged(
                    auth,
                    commitment,
                    piece@,
                    wire@,
                ),
                Err(_) => outs[j] is None,
            };
        assert(recode::recodes(pieces, rng, r));
    }
    outs
}

/// What a fanning relay emits for a batch of incoming pieces.
pub fn relay_fanout_batch<A, F>(
    auth: &A,
    commitment: &A::Commitment,
    piece_count: usize,
    piece_byte_len: usize,
    peer_count: usize,
    items: &[WirePiece<A>],
    rng: &Arc<F>,
) -> (outputs: Vec<(PeerIndex, WirePiece<A>)>) where
    A: Authenticator,
    A::Commitment: Clone,
    A::Tag: Clone,
    F: Fn(usize) -> Result<Vec<u8>, Error> + Send + Sync + 'static,

    requires
        answers(**rng),
        can_tag_all(*auth, piece_count as nat, piece_byte_len as nat),
    ensures
        relayed_fanout(
            *auth,
            *commitment,
            piece_count as nat,
            piece_byte_len as nat,
            peer_count as nat,
            **rng,
            items@,
            outputs@,
        ),
        relay::fanouts_asking(
            *auth,
            *commitment,
            piece_count,
            piece_byte_len,
            peer_count,
            items@,
            **rng,
            outputs,
        ),
{
    let draws: Draws<&F> = Draws::new(&**rng);
    let ghost before = draws;
    let (outputs, left) = effect::call_seven(
        relay::relay_fanout_asking::<A, &F>,
        auth,
        commitment,
        piece_count,
        piece_byte_len,
        peer_count,
        items,
        draws,
    );
    proof {
        assert(call_ensures(
            relay::relay_fanout_asking::<A, &F>,
            (auth, commitment, piece_count, piece_byte_len, peer_count, items, before),
            (outputs, left),
        ));
        let (after, asked) = choose|
            after: RecoderView,
            asked: Seq<(usize, Result<Vec<u8>, Error>)>,
        | #[trigger]
            relay::fan_asked(
                *auth,
                *commitment,
                piece_count as nat,
                piece_byte_len as nat,
                peer_count as nat,
                items@,
                after,
                asked,
                outputs@,
            ) && left.follows(before, asked);
        relay::lemma_fan_asked(
            *auth,
            *commitment,
            piece_count as nat,
            piece_byte_len as nat,
            peer_count as nat,
            &**rng,
            items@,
            after,
            asked,
            outputs@,
        );
    }
    outputs
}

/// `stream` emits what a fanning relay emits for `items`.
pub open spec fn relays_fanout<A: Authenticator, F: Fn(usize) -> Result<Vec<u8>, Error>>(
    auth: A,
    commitment: A::Commitment,
    piece_count: nat,
    piece_byte_len: nat,
    peer_count: nat,
    rng: F,
    items: Seq<WirePiece<A>>,
    stream: Stream<Error, (PeerIndex, WirePiece<A>)>,
) -> bool where A::Commitment: Clone, A::Tag: Clone, WirePiece<A>: Send + 'static {
    exists|outputs: Vec<(PeerIndex, WirePiece<A>)>| #[trigger]
        relayed_fanout(
            auth,
            commitment,
            piece_count,
            piece_byte_len,
            peer_count,
            rng,
            items,
            outputs@,
        ) && relay::fanouts_asking(
            auth,
            commitment,
            piece_count as usize,
            piece_byte_len as usize,
            peer_count as usize,
            items,
            rng,
            outputs,
        ) && emits(stream, outputs@)
}

/// Multi-peer variant of [`relay`]: per accepted input, emit `peer_count`
/// freshly-tagged recoded pieces, each with independent coefficients drawn from
/// `rng_factory`, tagged with the outbound [`PeerIndex`] so the caller can
/// dispatch them to distinct peers.
///
/// Authentication failures and dimension mismatches on incoming pieces are
/// handled identically to [`relay`]: silent drop, no output, no recoder slot
/// consumed.
///
/// This is a *batch-mode* fanout.  The output order is
/// `[(peer_0, ...), (peer_1, ...), ..., (peer_{n-1}, ...)]` for the first
/// accepted input, then the same block for the second accepted input, and so
/// on.  Partition by [`PeerIndex`] to get per-peer streams.  It fails with any
/// error raised while draining `incoming`.
pub fn relay_fanout<A, F>(
    auth: Arc<A>,
    commitment: A::Commitment,
    piece_count: usize,
    piece_byte_len: usize,
    peer_count: usize,
    incoming: Stream<Error, WirePiece<A>>,
    rng_factory: F,
) -> (io: Io<Error, Stream<Error, (PeerIndex, WirePiece<A>)>>) where
    A: Authenticator + Send + Sync + 'static,
    A::Commitment: Clone + Send + Sync + 'static,
    A::Tag: Clone + Send + Sync + 'static,
    F: Fn(usize) -> Result<Vec<u8>, Error> + Send + Sync + 'static,

    requires
        answers(rng_factory),
        can_tag_all(*auth, piece_count as nat, piece_byte_len as nat),
    ensures
        forall|r: Result<Stream<Error, (PeerIndex, WirePiece<A>)>, Error>| #[trigger]
            effect::runs_to(io, r) ==> exists|all: Result<Vec<WirePiece<A>>, Error>| #[trigger]
                effect::yields(incoming, None, all) && match all {
                    Ok(items) => r matches Ok(stream) && relays_fanout(
                        *auth,
                        commitment,
                        piece_count as nat,
                        piece_byte_len as nat,
                        peer_count as nat,
                        rng_factory,
                        items@,
                        stream,
                    ),
                    Err(e) => r == Err::<Stream<Error, (PeerIndex, WirePiece<A>)>, Error>(e),
                },
{
    let rng: Arc<F> = Arc::new(rng_factory);
    let collected = effect::collect(incoming);
    let next = move |items: Vec<WirePiece<A>>|
     -> (io: Io<Error, Stream<Error, (PeerIndex, WirePiece<A>)>>)
        ensures
            forall|r: Result<Stream<Error, (PeerIndex, WirePiece<A>)>, Error>| #[trigger]
                effect::runs_to(io, r) ==> (r matches Ok(stream) && relays_fanout(
                    *auth,
                    commitment,
                    piece_count as nat,
                    piece_byte_len as nat,
                    peer_count as nat,
                    *rng,
                    items@,
                    stream,
                )),
        {
            let body = move || -> (r: Result<Stream<Error, (PeerIndex, WirePiece<A>)>, Error>)
                ensures
                    (r matches Ok(stream) && relays_fanout(
                        *auth,
                        commitment,
                        piece_count as nat,
                        piece_byte_len as nat,
                        peer_count as nat,
                        *rng,
                        items@,
                        stream,
                    )),
                {
                    let outputs = relay_fanout_batch(
                        &*auth,
                        &commitment,
                        piece_count,
                        piece_byte_len,
                        peer_count,
                        items.as_slice(),
                        &rng,
                    );
                    let ghost emitted = outputs;
                    let stream = effect::from_vec(outputs);
                    assert(emits(stream, emitted@));
                    Ok(stream)
                };
            effect::suspend(body)
        };
    effect::flat_map(collected, next)
}

/// One step of a receiver: a piece with a valid tag and the right dimensions is
/// absorbed; any other changes nothing.
pub open spec fn receive_stepped<A: Authenticator>(
    auth: A,
    commitment: A::Commitment,
    before: DecoderView,
    wire: WireView<A>,
    after: DecoderView,
) -> bool {
    if auth.accepts(commitment, wire.piece, wire.tag) && recode::dimension_error(
        wire.piece,
        before.piece_count,
        before.piece_byte_len,
    ) is None {
        decode::absorbed(before, wire.piece, after)
    } else {
        after == before
    }
}

/// The decoder states of a receiver of `items`, from the empty state.
pub open spec fn receive_trace<A: Authenticator>(
    auth: A,
    commitment: A::Commitment,
    piece_count: nat,
    piece_byte_len: nat,
    items: Seq<WirePiece<A>>,
    states: Seq<DecoderView>,
) -> bool where A::Commitment: Clone, A::Tag: Clone {
    &&& states.len() == items.len() + 1
    &&& states.first() == DecoderView::initial(piece_count, piece_byte_len)
    &&& forall|i: int|
        0 <= i < items.len() ==> receive_stepped(
            auth,
            commitment,
            states[i],
            (#[trigger] items[i])@,
            states[i + 1],
        )
}

/// `r` is what receiving `items` in order and decoding gives.
pub open spec fn received<A: Authenticator>(
    auth: A,
    commitment: A::Commitment,
    piece_count: nat,
    piece_byte_len: nat,
    items: Seq<WirePiece<A>>,
    r: Result<Vec<u8>, Error>,
) -> bool where A::Commitment: Clone, A::Tag: Clone {
    exists|states: Seq<DecoderView>| #[trigger]
        receive_trace(auth, commitment, piece_count, piece_byte_len, items, states)
            && decode::decoded(states.last(), r)
}

/// One step of a receiver: verify a piece and absorb it, or leave the state.
pub fn receive_step<A: Authenticator>(
    auth: &A,
    commitment: &A::Commitment,
    state: DecoderState,
    wire: &WirePiece<A>,
) -> (next: DecoderState) where A::Commitment: Clone, A::Tag: Clone
    ensures
        receive_stepped(*auth, *commitment, state@, wire@, next@),
{
    match auth.verify(commitment, wire.piece(), wire.tag()) {
        Ok(_) => {
            let backup = state.clone();
            match state.absorb(wire.piece()) {
                Ok(next) => next,
                Err(_) => backup,
            }
        },
        Err(_) => state,
    }
}

/// Terminal side: verify every incoming [`WirePiece`] against the supplied
/// `commitment` and absorb it into a [`DecoderState`].  Pieces that fail
/// authentication are dropped.
///
/// The returned [`Io`] resolves to the decoded byte vector, or fails with any
/// error of the decoder (including [`Error::InsufficientPieces`] if the stream
/// ends before enough valid pieces arrive) or of the stream.
pub fn receive<A>(
    auth: Arc<A>,
    commitment: A::Commitment,
    piece_count: usize,
    piece_byte_len: usize,
    incoming: Stream<Error, WirePiece<A>>,
) -> (io: Io<Error, Vec<u8>>) where
    A: Authenticator + Send + Sync + 'static,
    A::Commitment: Clone + Send + Sync + 'static,
    A::Tag: Clone + Send + Sync + 'static,

    requires
        piece_count + piece_byte_len <= usize::MAX,
    ensures
        forall|r: Result<Vec<u8>, Error>| #[trigger]
            effect::runs_to(io, r) ==> exists|all: Result<Vec<WirePiece<A>>, Error>| #[trigger]
                effect::yields(incoming, None, all) && match all {
                    Ok(items) => received(
                        *auth,
                        commitment,
                        piece_count as nat,
                        piece_byte_len as nat,
                        items@,
                        r,
                    ),
                    Err(e) => r == Err::<Vec<u8>, Error>(e),
                },
{
    let c_arc: Arc<A::Commitment> = Arc::new(commitment);
    let initial = DecoderState::new(piece_count, piece_byte_len);
    let step = move |state: DecoderState, wire: WirePiece<A>| -> (next: DecoderState)
        ensures
            receive_stepped(*auth, *c_arc, state@, wire@, next@),
        { receive_step(&*auth, &*c_arc, state, &wire) };
    let folded = effect::fold(incoming, initial, step);
    let finish = |state: DecoderState| -> (io: Io<Error, Vec<u8>>)
        ensures
            forall|r: Result<Vec<u8>, Error>| #[trigger]
                effect::runs_to(io, r) ==> decode::decoded(state@, r),
        {
            let body = move || -> (r: Result<Vec<u8>, Error>)
                ensures
                    decode::decoded(state@, r),
                { state.decode() };
            effect::suspend(body)
        };
    let io = effect::flat_map(folded, finish);
    proof {
        assert forall|r: Result<Vec<u8>, Error>| #[trigger]
            effect::runs_to(io, r) implies exists|all: Result<Vec<WirePiece<A>>, Error>| #[trigger]
            effect::yields(incoming, None, all) && match all {
                Ok(items) => received(
                    *auth,
                    commitment,
                    piece_count as nat,
                    piece_byte_len as nat,
                    items@,
                    r,
                ),
                Err(e) => r == Err::<Vec<u8>, Error>(e),
            } by {
            if exists|e: Error| #[trigger]
                effect::runs_to(folded, Err::<DecoderState, Error>(e)) && r == Err::<
                    Vec<u8>,
                    Error,
                >(e) {
            } else {
                let (state, next) = choose|state: DecoderState, next: Io<Error, Vec<u8>>|
                    effect::runs_to(folded, Ok::<DecoderState, Error>(state))
                        && #[trigger] finish.ensures((state,), next) && effect::runs_to(next, r);
                let all = choose|all: Result<Vec<WirePiece<A>>, Error>| #[trigger]
                    effect::yields(incoming, None, all) && match all {
                        Ok(items) => effect::folded(initial, step, items@, state),
                        Err(_) => false,
                    };
                let items = all->Ok_0;
                let states = choose|states: Seq<DecoderState>| #[trigger]
                    effect::fold_trace(step, items@, states) && states.first() == initial
                        && states.last() == state;
                let views = Seq::new(states.len(), |i: int| states[i]@);
                assert forall|i: int| 0 <= i < items@.len() implies receive_stepped(
                    *auth,
                    commitment,
                    views[i],
                    (#[trigger] items@[i])@,
                    views[i + 1],
                ) by {
                    assert(step.ensures((states[i], items@[i]), states[i + 1]));
                }
                assert(receive_trace(
                    *auth,
                    commitment,
                    piece_count as nat,
                    piece_byte_len as nat,
                    items@,
                    views,
                ));
            }
        }
    }
    io
}

} // verus!
