//! What gossip preserves: relays emit coded pieces of the same data, drop what
//! fails authentication, and serve every peer; receivers recover the data.
use crate::auth::Authenticator;
use crate::coding::decode::{self, DecoderView};
use crate::coding::encode;
use crate::coding::piece::{self, CodedPiece, OriginalView, PieceView};
use crate::coding::recode::{self, RecoderView};
use crate::coding::recovery;
use crate::error::Error;
use crate::gossip::{self, PeerIndex, WirePiece};
use crate::vector::dimension;
use crate::vector::linear;
use vstd::prelude::*;

verus! {

/// A random source that always gives as many bytes as it is asked for.
pub open spec fn reliable<F: Fn(usize) -> Result<Vec<u8>, Error>>(rng: F) -> bool {
    forall|n: usize, d: Result<Vec<u8>, Error>| #[trigger]
        rng.ensures((n,), d) ==> (d matches Ok(bytes) && bytes@.len() == n)
}

/// Every piece that the authenticator accepts is a coded piece of `original`.
pub open spec fn accepted_are_coded<A: Authenticator>(
    auth: A,
    commitment: A::Commitment,
    original: OriginalView,
    items: Seq<WirePiece<A>>,
) -> bool where A::Commitment: Clone, A::Tag: Clone {
    forall|i: int|
        0 <= i < items.len() && auth.accepts(
            commitment,
            (#[trigger] items[i])@.piece,
            items[i]@.tag,
        ) ==> is_coded(original, items[i]@.piece)
}

/// `piece` is a coded piece of `original`.
pub open spec fn is_coded(original: OriginalView, piece: PieceView) -> bool {
    &&& piece.coeffs.len() == original.pieces.len()
    &&& piece == encode::coded(original, piece.coeffs)
}

/// From a nonempty pool, a relay with a reliable random source always emits.
proof fn lemma_emits<A: Authenticator, F: Fn(usize) -> Result<Vec<u8>, Error>>(
    auth: A,
    commitment: A::Commitment,
    recoder: RecoderView,
    rng: F,
    out: Option<WirePiece<A>>,
) where A::Commitment: Clone, A::Tag: Clone
    requires
        reliable(rng),
        recoder.pieces.len() > 0,
        recoder.pieces.len() <= usize::MAX,
        recode::uniform(recoder.pieces, recoder.piece_count, recoder.piece_byte_len),
        gossip::emitted(auth, commitment, recoder.pieces, rng, out),
    ensures
        out is Some,
{
    let drawn = choose|drawn: Result<CodedPiece, Error>| #[trigger]
        recode::recodes(recoder.pieces, rng, drawn) && match drawn {
            Ok(p) => out matches Some(wire) && gossip::packaged(auth, commitment, p@, wire@),
            Err(_) => out is None,
        };
    let n = recoder.pieces.len() as usize;
    let draw = choose|draw: Result<Vec<u8>, Error>| #[trigger]
        rng.ensures((n,), draw) && recode::recoded_from(recoder.pieces, draw, drawn);
    let bytes = draw->Ok_0;
    recode::lemma_recombined_uniform(
        recoder.pieces,
        bytes@,
        drawn,
        recoder.piece_count,
        recoder.piece_byte_len,
    );
}

proof fn lemma_numbered_all<T>(outs: Seq<Option<T>>)
    requires
        outs.len() <= usize::MAX,
        forall|j: int| 0 <= j < outs.len() ==> #[trigger] outs[j] is Some,
    ensures
        gossip::numbered(outs).len() == outs.len(),
        forall|j: int|
            0 <= j < outs.len() ==> (#[trigger] gossip::numbered(outs)[j]).0@ == j,
    decreases outs.len(),
{
    if outs.len() > 0 {
        assert forall|j: int| 0 <= j < outs.drop_last().len() implies #[trigger] outs.drop_last()[j] is Some by {
            assert(outs[j] is Some);
        }
        lemma_numbered_all(outs.drop_last());
        assert(outs[outs.len() - 1] is Some);
        assert forall|j: int| 0 <= j < outs.len() implies (#[trigger] gossip::numbered(
            outs,
        )[j]).0@ == j by {
            if j < outs.len() - 1 {
                assert(gossip::numbered(outs.drop_last())[j].0@ == j);
            }
        }
    }
}

/// For each accepted input, a fanning relay with a reliable random source emits
/// exactly one piece for every peer, in the order of the peers.
pub proof fn lemma_fanout_serves_every_peer<
    A: Authenticator,
    F: Fn(usize) -> Result<Vec<u8>, Error>,
>(
    auth: A,
    commitment: A::Commitment,
    rng: F,
    recoder: RecoderView,
    peer_count: nat,
    block: Seq<(PeerIndex, WirePiece<A>)>,
) where A::Commitment: Clone, A::Tag: Clone
    requires
        reliable(rng),
        recoder.pieces.len() > 0,
        recoder.pieces.len() <= usize::MAX,
        peer_count <= usize::MAX,
        recode::uniform(recoder.pieces, recoder.piece_count, recoder.piece_byte_len),
        gossip::fanned(auth, commitment, rng, recoder.pieces, peer_count, block),
    ensures
        block.len() == peer_count,
        forall|j: int| 0 <= j < peer_count ==> (#[trigger] block[j]).0@ == j,
{
    let outs = gossip::lemma_fanned_emitted(
        auth,
        commitment,
        rng,
        recoder.pieces,
        peer_count,
        block,
    );
    assert forall|j: int| 0 <= j < outs.len() implies #[trigger] outs[j] is Some by {
        lemma_emits(auth, commitment, recoder, rng, outs[j]);
    }
    lemma_numbered_all(outs);
}

/// A relay that accepts nothing emits nothing.
pub proof fn lemma_relay_drops<A: Authenticator, F: Fn(usize) -> Result<Vec<u8>, Error>>(
    auth: A,
    commitment: A::Commitment,
    piece_count: nat,
    piece_byte_len: nat,
    rng: F,
    items: Seq<WirePiece<A>>,
    outputs: Seq<WirePiece<A>>,
) where A::Commitment: Clone, A::Tag: Clone
    requires
        gossip::relayed(
            auth,
            commitment,
            piece_count,
            piece_byte_len,
            rng,
            items,
            outputs,
        ),
        forall|i: int|
            0 <= i < items.len() ==> !auth.accepts(
                commitment,
                (#[trigger] items[i])@.piece,
                items[i]@.tag,
            ),
    ensures
        outputs.len() == 0,
{
    let (states, blocks) = choose|
        states: Seq<RecoderView>,
        blocks: Seq<Seq<WirePiece<A>>>,
    | #[trigger]
        gossip::relay_trace(auth, commitment, rng, items, states, blocks) && states.first()
            == gossip::empty_recoder(piece_count, piece_byte_len) && outputs
            == gossip::concatenated(blocks);
    assert forall|i: int| 0 <= i < blocks.len() implies (#[trigger] blocks[i]).len() == 0 by {
        assert(!auth.accepts(commitment, items[i]@.piece, items[i]@.tag));
    }
    lemma_concatenated_empty(blocks);
}

proof fn lemma_concatenated_empty<T>(blocks: Seq<Seq<T>>)
    requires
        forall|i: int| 0 <= i < blocks.len() ==> (#[trigger] blocks[i]).len() == 0,
    ensures
        gossip::concatenated(blocks).len() == 0,
    decreases blocks.len(),
{
    if blocks.len() > 0 {
        assert forall|i: int| 0 <= i < blocks.drop_last().len() implies (
        #[trigger] blocks.drop_last()[i]).len() == 0 by {
            assert(blocks[i].len() == 0);
        }
        lemma_concatenated_empty(blocks.drop_last());
        assert(blocks[blocks.len() - 1].len() == 0);
    }
}

/// What a relay emits from coded pieces is a coded piece of the same data.
proof fn lemma_emitted_coded<A: Authenticator, F: Fn(usize) -> Result<Vec<u8>, Error>>(
    auth: A,
    commitment: A::Commitment,
    original: OriginalView,
    pieces: Seq<PieceView>,
    rng: F,
    out: WirePiece<A>,
) where A::Commitment: Clone, A::Tag: Clone
    requires
        original.well_formed(),
        recovery::all_coded(original, pieces),
        gossip::emitted(auth, commitment, pieces, rng, Some(out)),
    ensures
        is_coded(original, out@.piece),
        auth.tags(commitment, out@.piece, out@.tag),
{
    let (k, l) = (original.pieces.len(), original.piece_byte_len);
    let drawn = choose|drawn: Result<CodedPiece, Error>| #[trigger]
        recode::recodes(pieces, rng, drawn) && match drawn {
            Ok(p) => gossip::packaged(auth, commitment, p@, out@),
            Err(_) => false,
        };
    let n = pieces.len() as usize;
    let draw = choose|draw: Result<Vec<u8>, Error>| #[trigger]
        rng.ensures((n,), draw) && recode::recoded_from(pieces, draw, drawn);
    let bytes = draw->Ok_0;
    lemma_coded_uniform(original, pieces);
    recode::lemma_recombined_uniform(pieces, bytes@, drawn, k, l);
    recode::lemma_recoding_codes(original, pieces, bytes@);
    linear::lemma_combination_len(bytes@, recode::coeffs_of(pieces), k);
}

proof fn lemma_coded_uniform(original: OriginalView, pieces: Seq<PieceView>)
    requires
        recovery::all_coded(original, pieces),
    ensures
        recode::uniform(pieces, original.pieces.len(), original.piece_byte_len),
{
    assert forall|i: int| 0 <= i < pieces.len() implies (
    #[trigger] recode::coeffs_of(pieces)[i]).len() == original.pieces.len() by {
        assert(pieces[i].coeffs.len() == original.pieces.len());
    }
    assert forall|i: int| 0 <= i < pieces.len() implies (#[trigger] recode::data_of(
        pieces,
    )[i]).len() == original.piece_byte_len by {
        assert(pieces[i] == encode::coded(original, pieces[i].coeffs));
        linear::lemma_combination_len(
            pieces[i].coeffs,
            original.pieces,
            original.piece_byte_len,
        );
    }
}

/// The pool of a relay of coded pieces holds coded pieces.
proof fn lemma_relay_pool_coded<A: Authenticator, F: Fn(usize) -> Result<Vec<u8>, Error>>(
    auth: A,
    commitment: A::Commitment,
    rng: F,
    original: OriginalView,
    items: Seq<WirePiece<A>>,
    states: Seq<RecoderView>,
    blocks: Seq<Seq<WirePiece<A>>>,
    i: int,
) where A::Commitment: Clone, A::Tag: Clone
    requires
        accepted_are_coded(auth, commitment, original, items),
        gossip::relay_trace(auth, commitment, rng, items, states, blocks),
        states.first().pieces.len() == 0,
        0 <= i <= items.len(),
    ensures
        recovery::all_coded(original, states[i].pieces),
    decreases i,
{
    if i > 0 {
        lemma_relay_pool_coded(
            auth,
            commitment,
            rng,
            original,
            items,
            states,
            blocks,
            i - 1,
        );
        let wire = items[i - 1];
        assert(gossip::relay_stepped(
            auth,
            commitment,
            rng,
            states[i - 1],
            wire@,
            states[i - 1 + 1],
            blocks[i - 1],
        ));
        assert(auth.accepts(commitment, wire@.piece, wire@.tag) ==> is_coded(
            original,
            wire@.piece,
        ));
    }
}

/// A relay of coded pieces emits coded pieces of the same data, with their tags.
pub proof fn lemma_relay_codes<A: Authenticator, F: Fn(usize) -> Result<Vec<u8>, Error>>(
    auth: A,
    commitment: A::Commitment,
    rng: F,
    original: OriginalView,
    items: Seq<WirePiece<A>>,
    outputs: Seq<WirePiece<A>>,
) where A::Commitment: Clone, A::Tag: Clone
    requires
        original.well_formed(),
        accepted_are_coded(auth, commitment, original, items),
        gossip::relayed(
            auth,
            commitment,
            original.pieces.len(),
            original.piece_byte_len,
            rng,
            items,
            outputs,
        ),
    ensures
        forall|j: int|
            0 <= j < outputs.len() ==> is_coded(original, (#[trigger] outputs[j])@.piece)
                && auth.tags(commitment, outputs[j]@.piece, outputs[j]@.tag),
{
    let (k, l) = (original.pieces.len(), original.piece_byte_len);
    let (states, blocks) = choose|
        states: Seq<RecoderView>,
        blocks: Seq<Seq<WirePiece<A>>>,
    | #[trigger]
        gossip::relay_trace(auth, commitment, rng, items, states, blocks) && states.first()
            == gossip::empty_recoder(k, l) && outputs == gossip::concatenated(blocks);
    assert forall|i: int, j: int|
        0 <= i < blocks.len() && 0 <= j < blocks[i].len() implies is_coded(
        original,
        (#[trigger] blocks[i][j])@.piece,
    ) && auth.tags(commitment, blocks[i][j]@.piece, blocks[i][j]@.tag) by {
        lemma_relay_pool_coded(auth, commitment, rng, original, items, states, blocks, i + 1);
        assert(gossip::relay_stepped(
            auth,
            commitment,
            rng,
            states[i],
            items[i]@,
            states[i + 1],
            blocks[i],
        ));
        let pool = states[i + 1].pieces;
        let out = choose|out: Option<WirePiece<A>>| #[trigger]
            gossip::emitted(auth, commitment, pool, rng, out) && blocks[i] == gossip::present(
                out,
            );
        lemma_emitted_coded(auth, commitment, original, pool, rng, blocks[i][j]);
    }
    lemma_concatenated_all(
        blocks,
        |w: WirePiece<A>|
            is_coded(original, w@.piece) && auth.tags(commitment, w@.piece, w@.tag),
    );
}

/// What holds of every item of every block holds of the items of the blocks one
/// after the other.
proof fn lemma_concatenated_all<T>(blocks: Seq<Seq<T>>, p: spec_fn(T) -> bool)
    requires
        forall|i: int, j: int|
            0 <= i < blocks.len() && 0 <= j < blocks[i].len() ==> p(#[trigger] blocks[i][j]),
    ensures
        forall|j: int|
            0 <= j < gossip::concatenated(blocks).len() ==> p(
                #[trigger] gossip::concatenated(blocks)[j],
            ),
    decreases blocks.len(),
{
    if blocks.len() > 0 {
        let rest = blocks.drop_last();
        assert forall|i: int, j: int| 0 <= i < rest.len() && 0 <= j < rest[i].len() implies p(
            #[trigger] rest[i][j],
        ) by {
            assert(p(blocks[i][j]));
        }
        lemma_concatenated_all(rest, p);
        let all = gossip::concatenated(blocks);
        let front = gossip::concatenated(rest);
        let last = blocks.len() - 1;
        assert forall|j: int| 0 <= j < all.len() implies p(#[trigger] all[j]) by {
            if j < front.len() {
                assert(all[j] == front[j]);
            } else {
                assert(all[j] == blocks[last][j - front.len()]);
            }
        }
    }
}

/// The pieces of `items` that pass verification, in order.
pub open spec fn kept<A: Authenticator>(
    auth: A,
    commitment: A::Commitment,
    items: Seq<WirePiece<A>>,
) -> Seq<PieceView> where A::Commitment: Clone, A::Tag: Clone
    decreases items.len(),
{
    if items.len() == 0 {
        Seq::empty()
    } else {
        let before = kept(auth, commitment, items.drop_last());
        let wire = items.last()@;
        if auth.accepts(commitment, wire.piece, wire.tag) {
            before.push(wire.piece)
        } else {
            before
        }
    }
}

proof fn lemma_receive_describes<A: Authenticator>(
    auth: A,
    commitment: A::Commitment,
    original: OriginalView,
    items: Seq<WirePiece<A>>,
    states: Seq<DecoderView>,
    i: int,
) where A::Commitment: Clone, A::Tag: Clone
    requires
        original.well_formed(),
        accepted_are_coded(auth, commitment, original, items),
        gossip::receive_trace(
            auth,
            commitment,
            original.pieces.len(),
            original.piece_byte_len,
            items,
            states,
        ),
        0 <= i <= items.len(),
    ensures
        recovery::describes(states[i], kept(auth, commitment, items.take(i))),
        recovery::all_coded(original, kept(auth, commitment, items.take(i))),
        states[i].piece_count == original.pieces.len(),
        states[i].piece_byte_len == original.piece_byte_len,
    decreases i,
{
    let (k, l) = (original.pieces.len(), original.piece_byte_len);
    if i == 0 {
        recovery::lemma_initial_describes(k, l);
        assert(items.take(0).len() == 0);
    } else {
        lemma_receive_describes(auth, commitment, original, items, states, i - 1);
        let wire = items[i - 1];
        assert(items.take(i).drop_last() =~= items.take(i - 1));
        assert(gossip::receive_stepped(
            auth,
            commitment,
            states[i - 1],
            wire@,
            states[i - 1 + 1],
        ));
        if auth.accepts(commitment, wire@.piece, wire@.tag) {
            assert(is_coded(original, wire@.piece));
            linear::lemma_combination_len(wire@.piece.coeffs, original.pieces, l);
            recovery::lemma_absorb_describes(
                states[i - 1],
                kept(auth, commitment, items.take(i - 1)),
                wire@.piece,
                states[i],
            );
        }
    }
}

/// A receiver recovers the data: whatever was rejected in between, accepted
/// coded pieces of full rank decode to the data that was split and encoded.
pub proof fn lemma_receive_recovers<A: Authenticator>(
    auth: A,
    commitment: A::Commitment,
    original: OriginalView,
    data: Seq<u8>,
    items: Seq<WirePiece<A>>,
    r: Result<Vec<u8>, Error>,
) where A::Commitment: Clone, A::Tag: Clone
    requires
        original.well_formed(),
        piece::is_padding_of(piece::joined(original.pieces), data),
        accepted_are_coded(auth, commitment, original, items),
        dimension::has_rank(
            recode::coeffs_of(kept(auth, commitment, items)),
            original.pieces.len(),
            original.pieces.len(),
        ),
        gossip::received(
            auth,
            commitment,
            original.pieces.len(),
            original.piece_byte_len,
            items,
            r,
        ),
    ensures
        r matches Ok(recovered) && recovered@ == data,
{
    let (k, l) = (original.pieces.len(), original.piece_byte_len);
    let states = choose|states: Seq<DecoderView>| #[trigger]
        gossip::receive_trace(auth, commitment, k, l, items, states) && decode::decoded(
            states.last(),
            r,
        );
    lemma_receive_describes(
        auth,
        commitment,
        original,
        items,
        states,
        items.len() as int,
    );
    assert(items.take(items.len() as int) =~= items);
    recovery::lemma_decoding_recovers(
        original,
        data,
        kept(auth, commitment, items),
        states.last(),
        r,
    );
}

/// A receiver that accepts nothing has nothing to decode.
pub proof fn lemma_receive_rejects<A: Authenticator>(
    auth: A,
    commitment: A::Commitment,
    piece_count: nat,
    piece_byte_len: nat,
    items: Seq<WirePiece<A>>,
    r: Result<Vec<u8>, Error>,
) where A::Commitment: Clone, A::Tag: Clone
    requires
        piece_count > 0,
        forall|i: int|
            0 <= i < items.len() ==> !auth.accepts(
                commitment,
                (#[trigger] items[i])@.piece,
                items[i]@.tag,
            ),
        gossip::received(auth, commitment, piece_count, piece_byte_len, items, r),
    ensures
        r == Err::<Vec<u8>, Error>(
            Error::InsufficientPieces { needed: piece_count as usize, received: 0 },
        ),
{
    let states = choose|states: Seq<DecoderView>| #[trigger]
        gossip::receive_trace(auth, commitment, piece_count, piece_byte_len, items, states)
            && decode::decoded(states.last(), r);
    lemma_states_unchanged(
        auth,
        commitment,
        piece_count,
        piece_byte_len,
        items,
        states,
        items.len() as int,
    );
}

proof fn lemma_states_unchanged<A: Authenticator>(
    auth: A,
    commitment: A::Commitment,
    piece_count: nat,
    piece_byte_len: nat,
    items: Seq<WirePiece<A>>,
    states: Seq<DecoderView>,
    i: int,
) where A::Commitment: Clone, A::Tag: Clone
    requires
        forall|i: int|
            0 <= i < items.len() ==> !auth.accepts(
                commitment,
                (#[trigger] items[i])@.piece,
                items[i]@.tag,
            ),
        gossip::receive_trace(auth, commitment, piece_count, piece_byte_len, items, states),
        0 <= i <= items.len(),
    ensures
        states[i] == DecoderView::initial(piece_count, piece_byte_len),
    decreases i,
{
    if i > 0 {
        lemma_states_unchanged(
            auth,
            commitment,
            piece_count,
            piece_byte_len,
            items,
            states,
            i - 1,
        );
        assert(gossip::receive_stepped(
            auth,
            commitment,
            states[i - 1],
            items[i - 1]@,
            states[i - 1 + 1],
        ));
    }
}

/// A receiver of pieces with these dimensions absorbs the piece: its tag is valid
/// and its dimensions are right.
pub open spec fn is_good<A: Authenticator>(
    auth: A,
    commitment: A::Commitment,
    piece_count: nat,
    piece_byte_len: nat,
    wire: WirePiece<A>,
) -> bool where A::Commitment: Clone, A::Tag: Clone {
    &&& auth.accepts(commitment, wire@.piece, wire@.tag)
    &&& recode::dimension_error(wire@.piece, piece_count, piece_byte_len) is None
}

/// The items that a receiver absorbs, in order.
pub open spec fn good<A: Authenticator>(
    auth: A,
    commitment: A::Commitment,
    piece_count: nat,
    piece_byte_len: nat,
    items: Seq<WirePiece<A>>,
) -> Seq<WirePiece<A>> where A::Commitment: Clone, A::Tag: Clone
    decreases items.len(),
{
    if items.len() == 0 {
        items
    } else {
        let before = good(auth, commitment, piece_count, piece_byte_len, items.drop_last());
        if is_good(auth, commitment, piece_count, piece_byte_len, items.last()) {
            before.push(items.last())
        } else {
            before
        }
    }
}

/// The coded pieces of wire pieces.
pub open spec fn pieces_of<A: Authenticator>(items: Seq<WirePiece<A>>) -> Seq<
    PieceView,
> where A::Commitment: Clone, A::Tag: Clone {
    Seq::new(items.len(), |i: int| items[i]@.piece)
}

/// The decoder states from the empty one while absorbing every one of `pieces`.
pub open spec fn absorbs_all(
    piece_count: nat,
    piece_byte_len: nat,
    pieces: Seq<PieceView>,
    states: Seq<DecoderView>,
) -> bool {
    &&& states.len() == pieces.len() + 1
    &&& states.first() == DecoderView::initial(piece_count, piece_byte_len)
    &&& forall|i: int|
        0 <= i < pieces.len() ==> decode::absorbed(
            states[i],
            #[trigger] pieces[i],
            states[i + 1],
        )
}

/// The same data, or the same error.
pub open spec fn same_result(a: Result<Vec<u8>, Error>, b: Result<Vec<u8>, Error>) -> bool {
    match (a, b) {
        (Ok(x), Ok(y)) => x@ == y@,
        (Err(e), Err(f)) => e == f,
        _ => false,
    }
}

/// The states of a receiver keep its dimensions and are valid.
proof fn lemma_receive_dimensions<A: Authenticator>(
    auth: A,
    commitment: A::Commitment,
    piece_count: nat,
    piece_byte_len: nat,
    items: Seq<WirePiece<A>>,
    states: Seq<DecoderView>,
    i: int,
) where A::Commitment: Clone, A::Tag: Clone
    requires
        gossip::receive_trace(auth, commitment, piece_count, piece_byte_len, items, states),
        0 <= i <= items.len(),
    ensures
        states[i].piece_count == piece_count,
        states[i].piece_byte_len == piece_byte_len,
        states[i].valid(),
    decreases i,
{
    if i == 0 {
        recovery::lemma_initial_describes(piece_count, piece_byte_len);
    } else {
        lemma_receive_dimensions(
            auth,
            commitment,
            piece_count,
            piece_byte_len,
            items,
            states,
            i - 1,
        );
        assert(gossip::receive_stepped(
            auth,
            commitment,
            states[i - 1],
            items[i - 1]@,
            states[i - 1 + 1],
        ));
    }
}

/// Leaving out the last item leaves out the last state.
proof fn lemma_receive_front<A: Authenticator>(
    auth: A,
    commitment: A::Commitment,
    piece_count: nat,
    piece_byte_len: nat,
    items: Seq<WirePiece<A>>,
    states: Seq<DecoderView>,
) where A::Commitment: Clone, A::Tag: Clone
    requires
        items.len() > 0,
        gossip::receive_trace(auth, commitment, piece_count, piece_byte_len, items, states),
    ensures
        gossip::receive_trace(
            auth,
            commitment,
            piece_count,
            piece_byte_len,
            items.drop_last(),
            states.drop_last(),
        ),
        gossip::receive_stepped(
            auth,
            commitment,
            states.drop_last().last(),
            items.last()@,
            states.last(),
        ),
        states.drop_last().last().piece_count == piece_count,
        states.drop_last().last().piece_byte_len == piece_byte_len,
{
    let (front, before) = (items.drop_last(), states.drop_last());
    let n = items.len() - 1;
    assert forall|i: int| 0 <= i < front.len() implies gossip::receive_stepped(
        auth,
        commitment,
        before[i],
        (#[trigger] front[i])@,
        before[i + 1],
    ) by {
        assert(front[i] == items[i]);
    }
    assert(items[n] == items.last());
    lemma_receive_dimensions(auth, commitment, piece_count, piece_byte_len, items, states, n);
}

/// One more item adds one more state.
proof fn lemma_receive_push<A: Authenticator>(
    auth: A,
    commitment: A::Commitment,
    piece_count: nat,
    piece_byte_len: nat,
    items: Seq<WirePiece<A>>,
    states: Seq<DecoderView>,
    wire: WirePiece<A>,
    after: DecoderView,
) where A::Commitment: Clone, A::Tag: Clone
    requires
        gossip::receive_trace(auth, commitment, piece_count, piece_byte_len, items, states),
        gossip::receive_stepped(auth, commitment, states.last(), wire@, after),
    ensures
        gossip::receive_trace(
            auth,
            commitment,
            piece_count,
            piece_byte_len,
            items.push(wire),
            states.push(after),
        ),
{
    let (more, later) = (items.push(wire), states.push(after));
    assert forall|i: int| 0 <= i < more.len() implies gossip::receive_stepped(
        auth,
        commitment,
        later[i],
        (#[trigger] more[i])@,
        later[i + 1],
    ) by {
        if i < items.len() {
            assert(more[i] == items[i]);
        }
    }
}

/// The states of a receiver without those that a rejected item repeats.
proof fn lemma_receive_thins<A: Authenticator>(
    auth: A,
    commitment: A::Commitment,
    piece_count: nat,
    piece_byte_len: nat,
    items: Seq<WirePiece<A>>,
    states: Seq<DecoderView>,
) -> (thin: Seq<DecoderView>) where A::Commitment: Clone, A::Tag: Clone
    requires
        gossip::receive_trace(auth, commitment, piece_count, piece_byte_len, items, states),
    ensures
        gossip::receive_trace(
            auth,
            commitment,
            piece_count,
            piece_byte_len,
            good(auth, commitment, piece_count, piece_byte_len, items),
            thin,
        ),
        thin.last() == states.last(),
    decreases items.len(),
{
    if items.len() == 0 {
        states
    } else {
        lemma_receive_front(auth, commitment, piece_count, piece_byte_len, items, states);
        let front = items.drop_last();
        let thin = lemma_receive_thins(
            auth,
            commitment,
            piece_count,
            piece_byte_len,
            front,
            states.drop_last(),
        );
        if is_good(auth, commitment, piece_count, piece_byte_len, items.last()) {
            lemma_receive_push(
                auth,
                commitment,
                piece_count,
                piece_byte_len,
                good(auth, commitment, piece_count, piece_byte_len, front),
                thin,
                items.last(),
                states.last(),
            );
            thin.push(states.last())
        } else {
            thin
        }
    }
}

/// The states of a receiver of the good items, with those that a rejected item
/// repeats put in.
proof fn lemma_receive_thickens<A: Authenticator>(
    auth: A,
    commitment: A::Commitment,
    piece_count: nat,
    piece_byte_len: nat,
    items: Seq<WirePiece<A>>,
    thin: Seq<DecoderView>,
) -> (states: Seq<DecoderView>) where A::Commitment: Clone, A::Tag: Clone
    requires
        gossip::receive_trace(
            auth,
            commitment,
            piece_count,
            piece_byte_len,
            good(auth, commitment, piece_count, piece_byte_len, items),
            thin,
        ),
    ensures
        gossip::receive_trace(auth, commitment, piece_count, piece_byte_len, items, states),
        states.last() == thin.last(),
    decreases items.len(),
{
    if items.len() == 0 {
        thin
    } else {
        let front = items.drop_last();
        let all = good(auth, commitment, piece_count, piece_byte_len, items);
        let some = good(auth, commitment, piece_count, piece_byte_len, front);
        assert(front.push(items.last()) =~= items);
        if is_good(auth, commitment, piece_count, piece_byte_len, items.last()) {
            lemma_receive_front(auth, commitment, piece_count, piece_byte_len, all, thin);
            assert(all.drop_last() =~= some);
            let states = lemma_receive_thickens(
                auth,
                commitment,
                piece_count,
                piece_byte_len,
                front,
                thin.drop_last(),
            );
            lemma_receive_push(
                auth,
                commitment,
                piece_count,
                piece_byte_len,
                front,
                states,
                items.last(),
                thin.last(),
            );
            states.push(thin.last())
        } else {
            let states = lemma_receive_thickens(
                auth,
                commitment,
                piece_count,
                piece_byte_len,
                front,
                thin,
            );
            lemma_receive_dimensions(
                auth,
                commitment,
                piece_count,
                piece_byte_len,
                front,
                states,
                front.len() as int,
            );
            lemma_receive_push(
                auth,
                commitment,
                piece_count,
                piece_byte_len,
                front,
                states,
                items.last(),
                states.last(),
            );
            states.push(states.last())
        }
    }
}

/// Pieces that fail authentication or have other dimensions never influence a
/// receiver: it gives for a list of items exactly what it gives for the good ones
/// among them.
pub proof fn lemma_receive_good<A: Authenticator>(
    auth: A,
    commitment: A::Commitment,
    piece_count: nat,
    piece_byte_len: nat,
    items: Seq<WirePiece<A>>,
    r: Result<Vec<u8>, Error>,
) where A::Commitment: Clone, A::Tag: Clone
    ensures
        gossip::received(auth, commitment, piece_count, piece_byte_len, items, r)
            <==> gossip::received(
            auth,
            commitment,
            piece_count,
            piece_byte_len,
            good(auth, commitment, piece_count, piece_byte_len, items),
            r,
        ),
{
    let some = good(auth, commitment, piece_count, piece_byte_len, items);
    if gossip::received(auth, commitment, piece_count, piece_byte_len, items, r) {
        let states = choose|states: Seq<DecoderView>| #[trigger]
            gossip::receive_trace(auth, commitment, piece_count, piece_byte_len, items, states)
                && decode::decoded(states.last(), r);
        let thin = lemma_receive_thins(
            auth,
            commitment,
            piece_count,
            piece_byte_len,
            items,
            states,
        );
    }
    if gossip::received(auth, commitment, piece_count, piece_byte_len, some, r) {
        let thin = choose|states: Seq<DecoderView>| #[trigger]
            gossip::receive_trace(auth, commitment, piece_count, piece_byte_len, some, states)
                && decode::decoded(states.last(), r);
        let states = lemma_receive_thickens(
            auth,
            commitment,
            piece_count,
            piece_byte_len,
            items,
            thin,
        );
    }
}

proof fn lemma_all_good<A: Authenticator>(
    auth: A,
    commitment: A::Commitment,
    piece_count: nat,
    piece_byte_len: nat,
    items: Seq<WirePiece<A>>,
) where A::Commitment: Clone, A::Tag: Clone
    ensures
        forall|i: int|
            0 <= i < good(auth, commitment, piece_count, piece_byte_len, items).len() ==> is_good(
                auth,
                commitment,
                piece_count,
                piece_byte_len,
                #[trigger] good(auth, commitment, piece_count, piece_byte_len, items)[i],
            ),
    decreases items.len(),
{
    if items.len() > 0 {
        lemma_all_good(auth, commitment, piece_count, piece_byte_len, items.drop_last());
        let front = good(auth, commitment, piece_count, piece_byte_len, items.drop_last());
        let all = good(auth, commitment, piece_count, piece_byte_len, items);
        assert forall|i: int| 0 <= i < all.len() implies is_good(
            auth,
            commitment,
            piece_count,
            piece_byte_len,
            #[trigger] all[i],
        ) by {
            if i < front.len() {
                assert(all[i] == front[i]);
            }
        }
    }
}

/// The states of a receiver of good items absorb every one of their pieces, and
/// describe them.
proof fn lemma_good_absorbed<A: Authenticator>(
    auth: A,
    commitment: A::Commitment,
    piece_count: nat,
    piece_byte_len: nat,
    items: Seq<WirePiece<A>>,
    states: Seq<DecoderView>,
)
    where A::Commitment: Clone, A::Tag: Clone
    requires
        forall|i: int|
            0 <= i < items.len() ==> is_good(
                auth,
                commitment,
                piece_count,
                piece_byte_len,
                #[trigger] items[i],
            ),
        gossip::receive_trace(auth, commitment, piece_count, piece_byte_len, items, states),
    ensures
        absorbs_all(piece_count, piece_byte_len, pieces_of(items), states),
        recovery::describes(states.last(), pieces_of(items)),
        states.last().piece_count == piece_count,
    decreases items.len(),
{
    let pieces = pieces_of(items);
    assert forall|i: int| 0 <= i < pieces.len() implies decode::absorbed(
        states[i],
        #[trigger] pieces[i],
        states[i + 1],
    ) by {
        assert(is_good(auth, commitment, piece_count, piece_byte_len, items[i]));
        lemma_receive_dimensions(
            auth,
            commitment,
            piece_count,
            piece_byte_len,
            items,
            states,
            i,
        );
    }
    if items.len() == 0 {
        recovery::lemma_initial_describes(piece_count, piece_byte_len);
        assert(pieces =~= Seq::empty());
    } else {
        let (front, before) = (items.drop_last(), states.drop_last());
        let n = items.len() - 1;
        lemma_receive_front(auth, commitment, piece_count, piece_byte_len, items, states);
        assert forall|i: int| 0 <= i < front.len() implies is_good(
            auth,
            commitment,
            piece_count,
            piece_byte_len,
            #[trigger] front[i],
        ) by {
            assert(front[i] == items[i]);
        }
        lemma_good_absorbed(auth, commitment, piece_count, piece_byte_len, front, before);
        assert(is_good(auth, commitment, piece_count, piece_byte_len, items[n]));
        assert(pieces_of(front).push(items[n]@.piece) =~= pieces);
        recovery::lemma_absorb_describes(
            before.last(),
            pieces_of(front),
            items[n]@.piece,
            states.last(),
        );
    }
}

/// What a receiver gives is what decoding gives after the empty decoder has
/// absorbed the good pieces, in order.
pub proof fn lemma_receive_absorbs<A: Authenticator>(
    auth: A,
    commitment: A::Commitment,
    piece_count: nat,
    piece_byte_len: nat,
    items: Seq<WirePiece<A>>,
    r: Result<Vec<u8>, Error>,
) where A::Commitment: Clone, A::Tag: Clone
    requires
        gossip::received(auth, commitment, piece_count, piece_byte_len, items, r),
    ensures
        exists|states: Seq<DecoderView>| #[trigger]
            absorbs_all(
                piece_count,
                piece_byte_len,
                pieces_of(good(auth, commitment, piece_count, piece_byte_len, items)),
                states,
            ) && decode::decoded(states.last(), r),
{
    let some = good(auth, commitment, piece_count, piece_byte_len, items);
    lemma_receive_good(auth, commitment, piece_count, piece_byte_len, items, r);
    let states = choose|states: Seq<DecoderView>| #[trigger]
        gossip::receive_trace(auth, commitment, piece_count, piece_byte_len, some, states)
            && decode::decoded(states.last(), r);
    lemma_all_good(auth, commitment, piece_count, piece_byte_len, items);
    lemma_good_absorbed(auth, commitment, piece_count, piece_byte_len, some, states);
}

/// If the coding vectors of the good pieces have too low a rank, a receiver
/// reports that rank and what it needs.
pub proof fn lemma_receive_insufficient<A: Authenticator>(
    auth: A,
    commitment: A::Commitment,
    piece_count: nat,
    piece_byte_len: nat,
    items: Seq<WirePiece<A>>,
    rank: nat,
    r: Result<Vec<u8>, Error>,
) where A::Commitment: Clone, A::Tag: Clone
    requires
        dimension::has_rank(
            recode::coeffs_of(
                pieces_of(good(auth, commitment, piece_count, piece_byte_len, items)),
            ),
            piece_count,
            rank,
        ),
        rank < piece_count,
        gossip::received(auth, commitment, piece_count, piece_byte_len, items, r),
    ensures
        r == Err::<Vec<u8>, Error>(
            Error::InsufficientPieces { needed: piece_count as usize, received: rank as usize },
        ),
{
    let some = good(auth, commitment, piece_count, piece_byte_len, items);
    lemma_receive_good(auth, commitment, piece_count, piece_byte_len, items, r);
    let states = choose|states: Seq<DecoderView>| #[trigger]
        gossip::receive_trace(auth, commitment, piece_count, piece_byte_len, some, states)
            && decode::decoded(states.last(), r);
    lemma_all_good(auth, commitment, piece_count, piece_byte_len, items);
    lemma_good_absorbed(auth, commitment, piece_count, piece_byte_len, some, states);
    recovery::lemma_useful_is_rank(states.last(), pieces_of(some));
    dimension::lemma_rank_unique(
        recode::coeffs_of(pieces_of(some)),
        piece_count,
        rank,
        states.last().useful,
    );
}

/// The items determine the states of a receiver.
proof fn lemma_receive_states_unique<A: Authenticator>(
    auth: A,
    commitment: A::Commitment,
    piece_count: nat,
    piece_byte_len: nat,
    items: Seq<WirePiece<A>>,
    a: Seq<DecoderView>,
    b: Seq<DecoderView>,
    i: int,
) where A::Commitment: Clone, A::Tag: Clone
    requires
        gossip::receive_trace(auth, commitment, piece_count, piece_byte_len, items, a),
        gossip::receive_trace(auth, commitment, piece_count, piece_byte_len, items, b),
        0 <= i <= items.len(),
    ensures
        a[i] == b[i],
    decreases i,
{
    if i > 0 {
        lemma_receive_states_unique(
            auth,
            commitment,
            piece_count,
            piece_byte_len,
            items,
            a,
            b,
            i - 1,
        );
        lemma_receive_dimensions(
            auth,
            commitment,
            piece_count,
            piece_byte_len,
            items,
            a,
            i - 1,
        );
        let wire = items[i - 1];
        assert(gossip::receive_stepped(auth, commitment, a[i - 1], wire@, a[i - 1 + 1]));
        assert(gossip::receive_stepped(auth, commitment, b[i - 1], wire@, b[i - 1 + 1]));
        if is_good(auth, commitment, piece_count, piece_byte_len, wire) {
            recovery::lemma_absorb_unique(a[i - 1], wire@.piece, a[i], b[i]);
        }
    }
}

/// The good items determine what a receiver gives: two lists with the same good
/// items give the same data or the same error.
pub proof fn lemma_receive_unique<A: Authenticator>(
    auth: A,
    commitment: A::Commitment,
    piece_count: nat,
    piece_byte_len: nat,
    items: Seq<WirePiece<A>>,
    others: Seq<WirePiece<A>>,
    a: Result<Vec<u8>, Error>,
    b: Result<Vec<u8>, Error>,
) where A::Commitment: Clone, A::Tag: Clone
    requires
        good(auth, commitment, piece_count, piece_byte_len, items) == good(
            auth,
            commitment,
            piece_count,
            piece_byte_len,
            others,
        ),
        gossip::received(auth, commitment, piece_count, piece_byte_len, items, a),
        gossip::received(auth, commitment, piece_count, piece_byte_len, others, b),
    ensures
        same_result(a, b),
{
    let some = good(auth, commitment, piece_count, piece_byte_len, items);
    lemma_receive_good(auth, commitment, piece_count, piece_byte_len, items, a);
    lemma_receive_good(auth, commitment, piece_count, piece_byte_len, others, b);
    let x = choose|states: Seq<DecoderView>| #[trigger]
        gossip::receive_trace(auth, commitment, piece_count, piece_byte_len, some, states)
            && decode::decoded(states.last(), a);
    let y = choose|states: Seq<DecoderView>| #[trigger]
        gossip::receive_trace(auth, commitment, piece_count, piece_byte_len, some, states)
            && decode::decoded(states.last(), b);
    lemma_receive_states_unique(
        auth,
        commitment,
        piece_count,
        piece_byte_len,
        some,
        x,
        y,
        some.len() as int,
    );
    if let (Ok(d), Ok(e)) = (a, b) {
        piece::lemma_padding_unique(piece::joined(x.last().solution()), d@, e@);
    }
}

/// Receiving the good items alone gives the same data or the same error.
pub proof fn lemma_receive_good_alone<A: Authenticator>(
    auth: A,
    commitment: A::Commitment,
    piece_count: nat,
    piece_byte_len: nat,
    items: Seq<WirePiece<A>>,
    a: Result<Vec<u8>, Error>,
    b: Result<Vec<u8>, Error>,
) where A::Commitment: Clone, A::Tag: Clone
    requires
        gossip::received(auth, commitment, piece_count, piece_byte_len, items, a),
        gossip::received(
            auth,
            commitment,
            piece_count,
            piece_byte_len,
            good(auth, commitment, piece_count, piece_byte_len, items),
            b,
        ),
    ensures
        same_result(a, b),
{
    lemma_receive_good(auth, commitment, piece_count, piece_byte_len, items, b);
    lemma_receive_unique(auth, commitment, piece_count, piece_byte_len, items, items, a, b);
}

/// The pieces that a source emits are coded pieces of its data, with their tags.
pub proof fn lemma_source_codes<A: Authenticator, F: Fn(usize) -> Result<Vec<u8>, Error>>(
    auth: A,
    commitment: A::Commitment,
    original: OriginalView,
    rng: F,
    limit: Option<usize>,
    items: Vec<WirePiece<A>>,
) where A::Commitment: Clone, A::Tag: Clone
    requires
        gossip::sourced(auth, commitment, original, rng, limit, Ok(items)),
    ensures
        limit matches Some(n) && items@.len() == n,
        forall|i: int|
            0 <= i < items@.len() ==> is_coded(original, (#[trigger] items@[i])@.piece)
                && auth.tags(commitment, items@[i]@.piece, items@[i]@.tag),
{
    let pieces = choose|pieces: Result<Vec<CodedPiece>, Error>| #[trigger]
        encode::streams(original, rng, limit, pieces) && match pieces {
            Ok(ps) => ps@.len() == items@.len() && forall|i: int|
                0 <= i < ps@.len() ==> gossip::packaged(
                    auth,
                    commitment,
                    ps@[i]@,
                    (#[trigger] items@[i])@,
                ),
            Err(_) => false,
        };
    let ps = pieces->Ok_0;
    assert forall|i: int| 0 <= i < items@.len() implies is_coded(
        original,
        (#[trigger] items@[i])@.piece,
    ) && auth.tags(commitment, items@[i]@.piece, items@[i]@.tag) by {
        gossip::lemma_streamed_piece(original, rng, limit, ps, i);
        assert(gossip::packaged(auth, commitment, ps@[i]@, items@[i]@));
    }
}

/// Source to receiver: if the receiver accepts every tag that the source makes for
/// a coded piece, pieces of full rank from the source decode to its data.
pub proof fn lemma_broadcast_recovers<
    A: Authenticator,
    F: Fn(usize) -> Result<Vec<u8>, Error>,
>(
    auth: A,
    source_commitment: A::Commitment,
    receiver: A,
    commitment: A::Commitment,
    original: OriginalView,
    data: Seq<u8>,
    rng: F,
    limit: Option<usize>,
    items: Vec<WirePiece<A>>,
    r: Result<Vec<u8>, Error>,
) where A::Commitment: Clone, A::Tag: Clone
    requires
        original.well_formed(),
        piece::is_padding_of(piece::joined(original.pieces), data),
        gossip::sourced(auth, source_commitment, original, rng, limit, Ok(items)),
        forall|p: PieceView, t: A::Tag| #[trigger]
            auth.tags(source_commitment, p, t) && is_coded(original, p) ==> receiver.accepts(
                commitment,
                p,
                t,
            ),
        dimension::has_rank(
            Seq::new(items@.len(), |i: int| items@[i]@.piece.coeffs),
            original.pieces.len(),
            original.pieces.len(),
        ),
        gossip::received(
            receiver,
            commitment,
            original.pieces.len(),
            original.piece_byte_len,
            items@,
            r,
        ),
    ensures
        r matches Ok(recovered) && recovered@ == data,
{
    lemma_source_codes(auth, source_commitment, original, rng, limit, items);
    assert forall|i: int| 0 <= i < items@.len() implies receiver.accepts(
        commitment,
        (#[trigger] items@[i])@.piece,
        items@[i]@.tag,
    ) by {
        assert(auth.tags(source_commitment, items@[i]@.piece, items@[i]@.tag));
    }
    lemma_kept_all(receiver, commitment, items@);
    assert(recode::coeffs_of(kept(receiver, commitment, items@)) =~= Seq::new(
        items@.len(),
        |i: int| items@[i]@.piece.coeffs,
    ));
    lemma_receive_recovers(receiver, commitment, original, data, items@, r);
}

proof fn lemma_kept_all<A: Authenticator>(
    auth: A,
    commitment: A::Commitment,
    items: Seq<WirePiece<A>>,
) where A::Commitment: Clone, A::Tag: Clone
    requires
        forall|i: int|
            0 <= i < items.len() ==> auth.accepts(
                commitment,
                (#[trigger] items[i])@.piece,
                items[i]@.tag,
            ),
    ensures
        kept(auth, commitment, items) == Seq::new(items.len(), |i: int| items[i]@.piece),
    decreases items.len(),
{
    if items.len() > 0 {
        assert forall|i: int| 0 <= i < items.drop_last().len() implies auth.accepts(
            commitment,
            (#[trigger] items.drop_last()[i])@.piece,
            items.drop_last()[i]@.tag,
        ) by {
            assert(auth.accepts(commitment, items[i]@.piece, items[i]@.tag));
        }
        lemma_kept_all(auth, commitment, items.drop_last());
        assert(auth.accepts(
            commitment,
            items[items.len() - 1]@.piece,
            items[items.len() - 1]@.tag,
        ));
    }
    assert(kept(auth, commitment, items) =~= Seq::new(
        items.len(),
        |i: int| items[i]@.piece,
    ));
}

/// Relay to receiver: if the receiver accepts every tag that the relay makes for
/// a coded piece, relayed pieces of full rank decode to the data that was split and encoded.
pub proof fn lemma_relayed_recovers<A: Authenticator, F: Fn(usize) -> Result<Vec<u8>, Error>>(
    auth: A,
    relay_commitment: A::Commitment,
    receiver: A,
    commitment: A::Commitment,
    rng: F,
    original: OriginalView,
    data: Seq<u8>,
    items: Seq<WirePiece<A>>,
    outputs: Seq<WirePiece<A>>,
    r: Result<Vec<u8>, Error>,
) where A::Commitment: Clone, A::Tag: Clone
    requires
        original.well_formed(),
        piece::is_padding_of(piece::joined(original.pieces), data),
        accepted_are_coded(auth, relay_commitment, original, items),
        gossip::relayed(
            auth,
            relay_commitment,
            original.pieces.len(),
            original.piece_byte_len,
            rng,
            items,
            outputs,
        ),
        forall|p: PieceView, t: A::Tag| #[trigger]
            auth.tags(relay_commitment, p, t) && is_coded(original, p) ==> receiver.accepts(
                commitment,
                p,
                t,
            ),
        dimension::has_rank(
            Seq::new(outputs.len(), |i: int| outputs[i]@.piece.coeffs),
            original.pieces.len(),
            original.pieces.len(),
        ),
        gossip::received(
            receiver,
            commitment,
            original.pieces.len(),
            original.piece_byte_len,
            outputs,
            r,
        ),
    ensures
        r matches Ok(recovered) && recovered@ == data,
{
    lemma_relay_codes(auth, relay_commitment, rng, original, items, outputs);
    assert forall|i: int| 0 <= i < outputs.len() implies receiver.accepts(
        commitment,
        (#[trigger] outputs[i])@.piece,
        outputs[i]@.tag,
    ) by {
        assert(auth.tags(relay_commitment, outputs[i]@.piece, outputs[i]@.tag));
    }
    lemma_kept_all(receiver, commitment, outputs);
    assert(recode::coeffs_of(kept(receiver, commitment, outputs)) =~= Seq::new(
        outputs.len(),
        |i: int| outputs[i]@.piece.coeffs,
    ));
    lemma_receive_recovers(receiver, commitment, original, data, outputs, r);
}

/// The pool of a fanning relay of coded pieces holds coded pieces.
proof fn lemma_fan_pool_coded<A: Authenticator, F: Fn(usize) -> Result<Vec<u8>, Error>>(
    auth: A,
    commitment: A::Commitment,
    rng: F,
    peer_count: nat,
    original: OriginalView,
    items: Seq<WirePiece<A>>,
    states: Seq<RecoderView>,
    blocks: Seq<Seq<(PeerIndex, WirePiece<A>)>>,
    i: int,
) where A::Commitment: Clone, A::Tag: Clone
    requires
        accepted_are_coded(auth, commitment, original, items),
        gossip::fan_trace(auth, commitment, rng, peer_count, items, states, blocks),
        states.first().pieces.len() == 0,
        0 <= i <= items.len(),
    ensures
        recovery::all_coded(original, states[i].pieces),
    decreases i,
{
    if i > 0 {
        lemma_fan_pool_coded(
            auth,
            commitment,
            rng,
            peer_count,
            original,
            items,
            states,
            blocks,
            i - 1,
        );
        let wire = items[i - 1];
        assert(gossip::fan_stepped(
            auth,
            commitment,
            rng,
            peer_count,
            states[i - 1],
            wire@,
            states[i - 1 + 1],
            blocks[i - 1],
        ));
        assert(auth.accepts(commitment, wire@.piece, wire@.tag) ==> is_coded(
            original,
            wire@.piece,
        ));
    }
}

/// A numbered item is one of the items.
proof fn lemma_numbered_member<T>(outs: Seq<Option<T>>, j: int) -> (i: int)
    requires
        0 <= j < gossip::numbered(outs).len(),
    ensures
        0 <= i < outs.len(),
        outs[i] == Some(gossip::numbered(outs)[j].1),
    decreases outs.len(),
{
    let before = gossip::numbered(outs.drop_last());
    if j < before.len() {
        let i = lemma_numbered_member(outs.drop_last(), j);
        i
    } else {
        outs.len() - 1
    }
}

/// A fanning relay of coded pieces emits coded pieces of the same data, with
/// their tags, to every peer.
pub proof fn lemma_fanout_codes<A: Authenticator, F: Fn(usize) -> Result<Vec<u8>, Error>>(
    auth: A,
    commitment: A::Commitment,
    rng: F,
    peer_count: nat,
    original: OriginalView,
    items: Seq<WirePiece<A>>,
    outputs: Seq<(PeerIndex, WirePiece<A>)>,
) where A::Commitment: Clone, A::Tag: Clone
    requires
        original.well_formed(),
        accepted_are_coded(auth, commitment, original, items),
        gossip::relayed_fanout(
            auth,
            commitment,
            original.pieces.len(),
            original.piece_byte_len,
            peer_count,
            rng,
            items,
            outputs,
        ),
    ensures
        forall|j: int|
            0 <= j < outputs.len() ==> is_coded(original, (#[trigger] outputs[j]).1@.piece)
                && auth.tags(commitment, outputs[j].1@.piece, outputs[j].1@.tag),
{
    let (k, l) = (original.pieces.len(), original.piece_byte_len);
    let (states, blocks) = choose|
        states: Seq<RecoderView>,
        blocks: Seq<Seq<(PeerIndex, WirePiece<A>)>>,
    | #[trigger]
        gossip::fan_trace(auth, commitment, rng, peer_count, items, states, blocks)
            && states.first() == gossip::empty_recoder(k, l) && outputs == gossip::concatenated(
            blocks,
        );
    assert forall|i: int, j: int|
        0 <= i < blocks.len() && 0 <= j < blocks[i].len() implies is_coded(
        original,
        (#[trigger] blocks[i][j]).1@.piece,
    ) && auth.tags(commitment, blocks[i][j].1@.piece, blocks[i][j].1@.tag) by {
        lemma_fan_pool_coded(
            auth,
            commitment,
            rng,
            peer_count,
            original,
            items,
            states,
            blocks,
            i + 1,
        );
        assert(gossip::fan_stepped(
            auth,
            commitment,
            rng,
            peer_count,
            states[i],
            items[i]@,
            states[i + 1],
            blocks[i],
        ));
        let pool = states[i + 1].pieces;
        let outs = gossip::lemma_fanned_emitted(
            auth,
            commitment,
            rng,
            pool,
            peer_count,
            blocks[i],
        );
        let m = lemma_numbered_member(outs, j);
        assert(gossip::emitted(auth, commitment, pool, rng, outs[m]));
        lemma_emitted_coded(auth, commitment, original, pool, rng, blocks[i][j].1);
    }
    lemma_concatenated_all(
        blocks,
        |w: (PeerIndex, WirePiece<A>)|
            is_coded(original, w.1@.piece) && auth.tags(commitment, w.1@.piece, w.1@.tag),
    );
}

/// What a fanning relay emits for one peer.
pub open spec fn addressed<A: Authenticator>(
    outputs: Seq<(PeerIndex, WirePiece<A>)>,
    peer: usize,
) -> Seq<WirePiece<A>> where A::Commitment: Clone, A::Tag: Clone
    decreases outputs.len(),
{
    if outputs.len() == 0 {
        Seq::empty()
    } else {
        let rest = addressed(outputs.drop_last(), peer);
        if outputs.last().0@ == peer {
            rest.push(outputs.last().1)
        } else {
            rest
        }
    }
}

/// What is addressed to a peer is among the outputs.
proof fn lemma_addressed_member<A: Authenticator>(
    outputs: Seq<(PeerIndex, WirePiece<A>)>,
    peer: usize,
    j: int,
) -> (i: int) where A::Commitment: Clone, A::Tag: Clone
    requires
        0 <= j < addressed(outputs, peer).len(),
    ensures
        0 <= i < outputs.len(),
        outputs[i].1 == addressed(outputs, peer)[j],
    decreases outputs.len(),
{
    let before = addressed(outputs.drop_last(), peer);
    if j < before.len() {
        let i = lemma_addressed_member(outputs.drop_last(), peer, j);
        i
    } else {
        outputs.len() - 1
    }
}

/// Fan-out to receivers: if a receiver accepts every tag that the relay makes for
/// a coded piece, what the relay addresses to a peer, if of full rank, decodes to
/// the data that was split and encoded.
pub proof fn lemma_fanout_recovers<A: Authenticator, F: Fn(usize) -> Result<Vec<u8>, Error>>(
    auth: A,
    relay_commitment: A::Commitment,
    receiver: A,
    commitment: A::Commitment,
    rng: F,
    peer_count: nat,
    peer: usize,
    original: OriginalView,
    data: Seq<u8>,
    items: Seq<WirePiece<A>>,
    outputs: Seq<(PeerIndex, WirePiece<A>)>,
    r: Result<Vec<u8>, Error>,
) where A::Commitment: Clone, A::Tag: Clone
    requires
        original.well_formed(),
        piece::is_padding_of(piece::joined(original.pieces), data),
        accepted_are_coded(auth, relay_commitment, original, items),
        gossip::relayed_fanout(
            auth,
            relay_commitment,
            original.pieces.len(),
            original.piece_byte_len,
            peer_count,
            rng,
            items,
            outputs,
        ),
        forall|p: PieceView, t: A::Tag| #[trigger]
            auth.tags(relay_commitment, p, t) && is_coded(original, p) ==> receiver.accepts(
                commitment,
                p,
                t,
            ),
        dimension::has_rank(
            Seq::new(
                addressed(outputs, peer).len(),
                |i: int| addressed(outputs, peer)[i]@.piece.coeffs,
            ),
            original.pieces.len(),
            original.pieces.len(),
        ),
        gossip::received(
            receiver,
            commitment,
            original.pieces.len(),
            original.piece_byte_len,
            addressed(outputs, peer),
            r,
        ),
    ensures
        r matches Ok(recovered) && recovered@ == data,
{
    let own = addressed(outputs, peer);
    lemma_fanout_codes(auth, relay_commitment, rng, peer_count, original, items, outputs);
    assert forall|j: int| 0 <= j < own.len() implies receiver.accepts(
        commitment,
        (#[trigger] own[j])@.piece,
        own[j]@.tag,
    ) && is_coded(original, own[j]@.piece) by {
        let i = lemma_addressed_member(outputs, peer, j);
        assert(is_coded(original, outputs[i].1@.piece));
        assert(auth.tags(relay_commitment, outputs[i].1@.piece, outputs[i].1@.tag));
    }
    lemma_kept_all(receiver, commitment, own);
    assert(recode::coeffs_of(kept(receiver, commitment, own)) =~= Seq::new(
        own.len(),
        |i: int| own[i]@.piece.coeffs,
    ));
    lemma_receive_recovers(receiver, commitment, original, data, own, r);
}

/// A fanning relay that accepts nothing emits nothing.
pub proof fn lemma_fanout_drops<A: Authenticator, F: Fn(usize) -> Result<Vec<u8>, Error>>(
    auth: A,
    commitment: A::Commitment,
    piece_count: nat,
    piece_byte_len: nat,
    peer_count: nat,
    rng: F,
    items: Seq<WirePiece<A>>,
    outputs: Seq<(PeerIndex, WirePiece<A>)>,
) where A::Commitment: Clone, A::Tag: Clone
    requires
        gossip::relayed_fanout(
            auth,
            commitment,
            piece_count,
            piece_byte_len,
            peer_count,
            rng,
            items,
            outputs,
        ),
        forall|i: int|
            0 <= i < items.len() ==> !auth.accepts(
                commitment,
                (#[trigger] items[i])@.piece,
                items[i]@.tag,
            ),
    ensures
        outputs.len() == 0,
{
    let (states, blocks) = choose|
        states: Seq<RecoderView>,
        blocks: Seq<Seq<(PeerIndex, WirePiece<A>)>>,
    | #[trigger]
        gossip::fan_trace(auth, commitment, rng, peer_count, items, states, blocks)
            && states.first() == gossip::empty_recoder(piece_count, piece_byte_len) && outputs
            == gossip::concatenated(blocks);
    assert forall|i: int| 0 <= i < blocks.len() implies (#[trigger] blocks[i]).len() == 0 by {
        assert(!auth.accepts(commitment, items[i]@.piece, items[i]@.tag));
    }
    lemma_concatenated_empty(blocks);
}

} // verus!
