//! Relaying with a record of what the random source was asked.
//!
//! A relay asks the random source for the coefficients of each piece that it emits,
//! and a fanning relay asks once for each peer.  The functions here carry a
//! [`Draws`] journal of the source from input to input, so that their contracts say
//! which answer each emitted piece was recoded with.
use crate::auth::Authenticator;
use crate::coding::piece::{CodedPiece, PieceView};
use crate::coding::recode::{self, Recoder, RecoderView};
use crate::error::Error;
use crate::gossip::{self, PeerIndex, WirePiece, WireView};
use crate::journal::{self, Draws};
use vstd::prelude::*;

verus! {

/// `out` is emitted from `pieces` with the one answer in `asked`, for one byte from
/// each piece.  Without pieces nothing is asked and nothing emitted.
pub open spec fn emits_with<A: Authenticator>(
    auth: A,
    commitment: A::Commitment,
    pieces: Seq<PieceView>,
    asked: Seq<(usize, Result<Vec<u8>, Error>)>,
    out: Option<WirePiece<A>>,
) -> bool where A::Commitment: Clone, A::Tag: Clone {
    if pieces.len() == 0 {
        asked.len() == 0 && out is None
    } else {
        &&& asked.len() == 1
        &&& asked[0].0 == pieces.len() as usize
        &&& gossip::emitted_from(auth, commitment, pieces, asked[0].1, out)
    }
}

/// `block` holds for each of `peer_count` peers what is emitted from `pieces` with
/// the answer in `asked` at the place of the peer, each for one byte from each
/// piece.  Without pieces nothing is asked and nothing emitted.
pub open spec fn fans_with<A: Authenticator>(
    auth: A,
    commitment: A::Commitment,
    pieces: Seq<PieceView>,
    peer_count: nat,
    asked: Seq<(usize, Result<Vec<u8>, Error>)>,
    block: Seq<(PeerIndex, WirePiece<A>)>,
) -> bool where A::Commitment: Clone, A::Tag: Clone {
    if pieces.len() == 0 {
        asked.len() == 0 && block.len() == 0
    } else {
        &&& asked.len() == peer_count
        &&& forall|j: int| 0 <= j < asked.len() ==> (#[trigger] asked[j]).0 == pieces.len() as usize
        &&& gossip::fanned_from(auth, commitment, pieces, journal::answers_of(asked), block)
    }
}

/// Ask the random source once, and emit a piece recoded with its answer.
pub fn emit_asking<A, F>(
    auth: &A,
    commitment: &A::Commitment,
    recoder: &Recoder,
    draws: Draws<F>,
) -> (out: (Option<WirePiece<A>>, Draws<F>)) where
    A: Authenticator,
    A::Commitment: Clone,
    A::Tag: Clone,
    F: Fn(usize) -> Result<Vec<u8>, Error>,

    requires
        gossip::answers(draws.source()),
        gossip::can_tag_all(*auth, recoder@.piece_count, recoder@.piece_byte_len),
    ensures
        exists|asked: Seq<(usize, Result<Vec<u8>, Error>)>| #[trigger]
            emits_with(*auth, *commitment, recoder@.pieces, asked, out.0) && out.1.follows(
                draws,
                asked,
            ),
{
    let stored: usize = recoder.stored_count();
    if stored == 0 {
        proof {
            journal::lemma_follows_itself(draws);
        }
        let out = (None, draws);
        assert(emits_with(*auth, *commitment, recoder@.pieces, Seq::empty(), out.0));
        return out;
    }
    let (draw, left) = draws.ask(stored);
    let ghost asked = seq![(stored, draw)];
    let out = (gossip::emit_drawn(auth, commitment, recoder, draw), left);
    assert(emits_with(*auth, *commitment, recoder@.pieces, asked, out.0));
    out
}

/// Ask the random source once for each peer, and emit for each a piece recoded with
/// its own answer.
pub fn fan_out_asking<A, F>(
    auth: &A,
    commitment: &A::Commitment,
    recoder: &Recoder,
    peer_count: usize,
    draws: Draws<F>,
) -> (out: (Vec<(PeerIndex, WirePiece<A>)>, Draws<F>)) where
    A: Authenticator,
    A::Commitment: Clone,
    A::Tag: Clone,
    F: Fn(usize) -> Result<Vec<u8>, Error>,

    requires
        gossip::answers(draws.source()),
        gossip::can_tag_all(*auth, recoder@.piece_count, recoder@.piece_byte_len),
    ensures
        exists|asked: Seq<(usize, Result<Vec<u8>, Error>)>| #[trigger]
            fans_with(
                *auth,
                *commitment,
                recoder@.pieces,
                peer_count as nat,
                asked,
                out.0@,
            ) && out.1.follows(draws, asked),
{
    let stored: usize = recoder.stored_count();
    let ghost mut asked: Seq<(usize, Result<Vec<u8>, Error>)> = Seq::empty();
    proof {
        journal::lemma_follows_itself(draws);
    }
    if stored == 0 {
        let out = (Vec::new(), draws);
        assert(fans_with(
            *auth,
            *commitment,
            recoder@.pieces,
            peer_count as nat,
            asked,
            out.0@,
        ));
        return out;
    }
    let mut left = draws;
    let mut answers: Vec<Result<Vec<u8>, Error>> = Vec::new();
    while answers.len() < peer_count
        invariant
            gossip::answers(draws.source()),
            answers@.len() <= peer_count,
            left.follows(draws, asked),
            asked.len() == answers@.len(),
            forall|j: int|
                0 <= j < asked.len() ==> (#[trigger] asked[j]).0 == stored && asked[j].1
                    == answers@[j],
        decreases peer_count - answers@.len(),
    {
        let ghost before = left;
        let (answer, rest) = left.ask(stored);
        proof {
            journal::lemma_follows_on(draws, asked, before, seq![(stored, answer)], rest);
            asked = asked + seq![(stored, answer)];
        }
        answers.push(answer);
        left = rest;
    }
    assert(answers@ =~= journal::answers_of(asked));
    let block = gossip::fan_out_drawn(auth, commitment, recoder, answers);
    let out = (block, left);
    assert(fans_with(*auth, *commitment, recoder@.pieces, peer_count as nat, asked, out.0@));
    out
}

/// One step of a relay: an admitted piece is stored, and one piece is emitted with
/// what was asked; any other piece changes nothing, asks nothing and emits nothing.
pub open spec fn asked_step<A: Authenticator>(
    auth: A,
    commitment: A::Commitment,
    before: RecoderView,
    wire: WireView<A>,
    after: RecoderView,
    asked: Seq<(usize, Result<Vec<u8>, Error>)>,
    block: Seq<WirePiece<A>>,
) -> bool where A::Commitment: Clone, A::Tag: Clone {
    if gossip::admits(auth, commitment, before, wire) {
        &&& recode::stored(before, wire.piece, after)
        &&& exists|out: Option<WirePiece<A>>| #[trigger]
            emits_with(auth, commitment, after.pieces, asked, out) && block == gossip::present(out)
    } else {
        after == before && asked.len() == 0 && block.len() == 0
    }
}

/// A relay of `items` that starts without pieces ends with the pieces of `after`,
/// asks `asked` and emits `outputs`.
pub open spec fn relay_asked<A: Authenticator>(
    auth: A,
    commitment: A::Commitment,
    piece_count: nat,
    piece_byte_len: nat,
    items: Seq<WirePiece<A>>,
    after: RecoderView,
    asked: Seq<(usize, Result<Vec<u8>, Error>)>,
    outputs: Seq<WirePiece<A>>,
) -> bool where A::Commitment: Clone, A::Tag: Clone
    decreases items.len(),
{
    if items.len() == 0 {
        &&& after == gossip::empty_recoder(piece_count, piece_byte_len)
        &&& asked.len() == 0
        &&& outputs.len() == 0
    } else {
        exists|
            before: RecoderView,
            first: Seq<(usize, Result<Vec<u8>, Error>)>,
            front: Seq<WirePiece<A>>,
            next: Seq<(usize, Result<Vec<u8>, Error>)>,
            block: Seq<WirePiece<A>>,
        |
            relay_asked(
                auth,
                commitment,
                piece_count,
                piece_byte_len,
                items.drop_last(),
                before,
                first,
                front,
            ) && #[trigger] asked_step(
                auth,
                commitment,
                before,
                items.last()@,
                after,
                next,
                block,
            ) && #[trigger] journal::joins(first, next, asked) && #[trigger] journal::joins(front, block, outputs)
    }
}

/// What a relay emits for a batch of incoming pieces, asking the random source once
/// for each piece that it emits.
pub fn relay_asking<A, F>(
    auth: &A,
    commitment: &A::Commitment,
    piece_count: usize,
    piece_byte_len: usize,
    items: &[WirePiece<A>],
    draws: Draws<F>,
) -> (out: (Vec<WirePiece<A>>, Draws<F>)) where
    A: Authenticator,
    A::Commitment: Clone,
    A::Tag: Clone,
    F: Fn(usize) -> Result<Vec<u8>, Error>,

    requires
        gossip::answers(draws.source()),
        gossip::can_tag_all(*auth, piece_count as nat, piece_byte_len as nat),
    ensures
        exists|after: RecoderView, asked: Seq<(usize, Result<Vec<u8>, Error>)>| #[trigger]
            relay_asked(
                *auth,
                *commitment,
                piece_count as nat,
                piece_byte_len as nat,
                items@,
                after,
                asked,
                out.0@,
            ) && out.1.follows(draws, asked),
{
    let mut recoder = Recoder::new(piece_count, piece_byte_len);
    let mut outputs: Vec<WirePiece<A>> = Vec::new();
    let mut left = draws;
    let ghost mut asked: Seq<(usize, Result<Vec<u8>, Error>)> = Seq::empty();
    proof {
        journal::lemma_follows_itself(draws);
    }
    let mut i: usize = 0;
    while i < items.len()
        invariant
            i <= items@.len(),
            gossip::answers(draws.source()),
            gossip::can_tag_all(*auth, piece_count as nat, piece_byte_len as nat),
            recoder@.piece_count == piece_count,
            recoder@.piece_byte_len == piece_byte_len,
            relay_asked(
                *auth,
                *commitment,
                piece_count as nat,
                piece_byte_len as nat,
                items@.take(i as int),
                recoder@,
                asked,
                outputs@,
            ),
            left.follows(draws, asked),
        decreases items@.len() - i,
    {
        let ghost before = recoder@;
        let ghost front = outputs@;
        let ghost mut next: Seq<(usize, Result<Vec<u8>, Error>)> = Seq::empty();
        let ghost mut block: Seq<WirePiece<A>> = Seq::empty();
        let (updated, admitted) = gossip::store_verified(auth, commitment, recoder, &items[i]);
        recoder = updated;
        if admitted {
            let ghost prior = left;
            let (out, rest) = emit_asking(auth, commitment, &recoder, left);
            proof {
                next = choose|asked: Seq<(usize, Result<Vec<u8>, Error>)>| #[trigger]
                    emits_with(*auth, *commitment, recoder@.pieces, asked, out) && rest.follows(
                        prior,
                        asked,
                    );
                block = gossip::present(out);
                journal::lemma_follows_on(draws, asked, prior, next, rest);
            }
            left = rest;
            match out {
                Some(wire) => {
                    outputs.push(wire);
                },
                None => {},
            }
        }
        proof {
            let n = i as int;
            let taken = items@.take(n + 1);
            assert(taken.drop_last() =~= items@.take(n));
            assert(taken.last() == items@[n]);
            assert(relay_asked(
                *auth,
                *commitment,
                piece_count as nat,
                piece_byte_len as nat,
                taken.drop_last(),
                before,
                asked,
                front,
            ));
            assert(asked_step(
                *auth,
                *commitment,
                before,
                taken.last()@,
                recoder@,
                next,
                block,
            ));
            assert(outputs@ =~= front + block);
            let first = asked;
            assert(first + Seq::<(usize, Result<Vec<u8>, Error>)>::empty() =~= first);
            asked = first + next;
            assert(journal::joins(first, next, asked));
            assert(journal::joins(front, block, outputs@));
            assert(relay_asked(
                *auth,
                *commitment,
                piece_count as nat,
                piece_byte_len as nat,
                taken,
                recoder@,
                asked,
                outputs@,
            ));
        }
        i += 1;
    }
    assert(items@.take(i as int) =~= items@);
    let out = (outputs, left);
    assert(relay_asked(
        *auth,
        *commitment,
        piece_count as nat,
        piece_byte_len as nat,
        items@,
        recoder@,
        asked,
        out.0@,
    ));
    out
}

/// One step of a fanning relay: an admitted piece is stored, and one piece is
/// emitted for each peer with what was asked; any other piece changes nothing, asks
/// nothing and emits nothing.
pub open spec fn fan_asked_step<A: Authenticator>(
    auth: A,
    commitment: A::Commitment,
    peer_count: nat,
    before: RecoderView,
    wire: WireView<A>,
    after: RecoderView,
    asked: Seq<(usize, Result<Vec<u8>, Error>)>,
    block: Seq<(PeerIndex, WirePiece<A>)>,
) -> bool where A::Commitment: Clone, A::Tag: Clone {
    if gossip::admits(auth, commitment, before, wire) {
        &&& recode::stored(before, wire.piece, after)
        &&& fans_with(auth, commitment, after.pieces, peer_count, asked, block)
    } else {
        after == before && asked.len() == 0 && block.len() == 0
    }
}

/// A fanning relay of `items` that starts without pieces ends with the pieces of
/// `after`, asks `asked` and emits `outputs`.
pub open spec fn fan_asked<A: Authenticator>(
    auth: A,
    commitment: A::Commitment,
    piece_count: nat,
    piece_byte_len: nat,
    peer_count: nat,
    items: Seq<WirePiece<A>>,
    after: RecoderView,
    asked: Seq<(usize, Result<Vec<u8>, Error>)>,
    outputs: Seq<(PeerIndex, WirePiece<A>)>,
) -> bool where A::Commitment: Clone, A::Tag: Clone
    decreases items.len(),
{
    if items.len() == 0 {
        &&& after == gossip::empty_recoder(piece_count, piece_byte_len)
        &&& asked.len() == 0
        &&& outputs.len() == 0
    } else {
        exists|
            before: RecoderView,
            first: Seq<(usize, Result<Vec<u8>, Error>)>,
            front: Seq<(PeerIndex, WirePiece<A>)>,
            next: Seq<(usize, Result<Vec<u8>, Error>)>,
            block: Seq<(PeerIndex, WirePiece<A>)>,
        |
            fan_asked(
                auth,
                commitment,
                piece_count,
                piece_byte_len,
                peer_count,
                items.drop_last(),
                before,
                first,
                front,
            ) && #[trigger] fan_asked_step(
                auth,
                commitment,
                peer_count,
                before,
                items.last()@,
                after,
                next,
                block,
            ) && #[trigger] journal::joins(first, next, asked) && #[trigger] journal::joins(front, block, outputs)
    }
}

/// What a fanning relay emits for a batch of incoming pieces, asking the random
/// source once for each peer and accepted piece.
pub fn relay_fanout_asking<A, F>(
    auth: &A,
    commitment: &A::Commitment,
    piece_count: usize,
    piece_byte_len: usize,
    peer_count: usize,
    items: &[WirePiece<A>],
    draws: Draws<F>,
) -> (out: (Vec<(PeerIndex, WirePiece<A>)>, Draws<F>)) where
    A: Authenticator,
    A::Commitment: Clone,
    A::Tag: Clone,
    F: Fn(usize) -> Result<Vec<u8>, Error>,

    requires
        gossip::answers(draws.source()),
        gossip::can_tag_all(*auth, piece_count as nat, piece_byte_len as nat),
    ensures
        exists|after: RecoderView, asked: Seq<(usize, Result<Vec<u8>, Error>)>| #[trigger]
            fan_asked(
                *auth,
                *commitment,
                piece_count as nat,
                piece_byte_len as nat,
                peer_count as nat,
                items@,
                after,
                asked,
                out.0@,
            ) && out.1.follows(draws, asked),
{
    let mut recoder = Recoder::new(piece_count, piece_byte_len);
    let mut outputs: Vec<(PeerIndex, WirePiece<A>)> = Vec::new();
    let mut left = draws;
    let ghost mut asked: Seq<(usize, Result<Vec<u8>, Error>)> = Seq::empty();
    proof {
        journal::lemma_follows_itself(draws);
    }
    let mut i: usize = 0;
    while i < items.len()
        invariant
            i <= items@.len(),
            gossip::answers(draws.source()),
            gossip::can_tag_all(*auth, piece_count as nat, piece_byte_len as nat),
            recoder@.piece_count == piece_count,
            recoder@.piece_byte_len == piece_byte_len,
            fan_asked(
                *auth,
                *commitment,
                piece_count as nat,
                piece_byte_len as nat,
                peer_count as nat,
                items@.take(i as int),
                recoder@,
                asked,
                outputs@,
            ),
            left.follows(draws, asked),
        decreases items@.len() - i,
    {
        let ghost before = recoder@;
        let ghost front = outputs@;
        let ghost mut next: Seq<(usize, Result<Vec<u8>, Error>)> = Seq::empty();
        let ghost mut block: Seq<(PeerIndex, WirePiece<A>)> = Seq::empty();
        let (updated, admitted) = gossip::store_verified(auth, commitment, recoder, &items[i]);
        recoder = updated;
        if admitted {
            let ghost prior = left;
            let (mut out, rest) = fan_out_asking(auth, commitment, &recoder, peer_count, left);
            proof {
                block = out@;
                next = choose|asked: Seq<(usize, Result<Vec<u8>, Error>)>| #[trigger]
                    fans_with(
                        *auth,
                        *commitment,
                        recoder@.pieces,
                        peer_count as nat,
                        asked,
                        block,
                    ) && rest.follows(prior, asked);
                journal::lemma_follows_on(draws, asked, prior, next, rest);
            }
            left = rest;
            outputs.append(&mut out);
        }
        proof {
            let n = i as int;
            let taken = items@.take(n + 1);
            assert(taken.drop_last() =~= items@.take(n));
            assert(taken.last() == items@[n]);
            assert(fan_asked(
                *auth,
                *commitment,
                piece_count as nat,
                piece_byte_len as nat,
                peer_count as nat,
                taken.drop_last(),
                before,
                asked,
                front,
            ));
            assert(fan_asked_step(
                *auth,
                *commitment,
                peer_count as nat,
                before,
                taken.last()@,
                recoder@,
                next,
                block,
            ));
            assert(outputs@ =~= front + block);
            let first = asked;
            assert(first + Seq::<(usize, Result<Vec<u8>, Error>)>::empty() =~= first);
            asked = first + next;
            assert(journal::joins(first, next, asked));
            assert(journal::joins(front, block, outputs@));
            assert(fan_asked(
                *auth,
                *commitment,
                piece_count as nat,
                piece_byte_len as nat,
                peer_count as nat,
                taken,
                recoder@,
                asked,
                outputs@,
            ));
        }
        i += 1;
    }
    assert(items@.take(i as int) =~= items@);
    let out = (outputs, left);
    assert(fan_asked(
        *auth,
        *commitment,
        piece_count as nat,
        piece_byte_len as nat,
        peer_count as nat,
        items@,
        recoder@,
        asked,
        out.0@,
    ));
    out
}

/// `out` is what emitting gives with a random source that was not asked before.
pub open spec fn emits_asking<A: Authenticator, F: Fn(usize) -> Result<Vec<u8>, Error>>(
    auth: A,
    commitment: A::Commitment,
    recoder: Recoder,
    rng: F,
    out: Option<WirePiece<A>>,
) -> bool where A::Commitment: Clone, A::Tag: Clone {
    exists|before: Draws<&F>, after: Draws<&F>|
        before.is_fresh(&rng) && #[trigger] call_ensures(
            emit_asking::<A, &F>,
            (&auth, &commitment, &recoder, before),
            (out, after),
        )
}

/// `block` is what fanning out gives with a random source that was not asked before.
pub open spec fn fans_asking<A: Authenticator, F: Fn(usize) -> Result<Vec<u8>, Error>>(
    auth: A,
    commitment: A::Commitment,
    recoder: Recoder,
    peer_count: usize,
    rng: F,
    block: Vec<(PeerIndex, WirePiece<A>)>,
) -> bool where A::Commitment: Clone, A::Tag: Clone {
    exists|before: Draws<&F>, after: Draws<&F>|
        before.is_fresh(&rng) && #[trigger] call_ensures(
            fan_out_asking::<A, &F>,
            (&auth, &commitment, &recoder, peer_count, before),
            (block, after),
        )
}

/// `outputs` is what relaying `items` gives with a random source that was not asked
/// before.
pub open spec fn relays_asking<A: Authenticator, F: Fn(usize) -> Result<Vec<u8>, Error>>(
    auth: A,
    commitment: A::Commitment,
    piece_count: usize,
    piece_byte_len: usize,
    items: Seq<WirePiece<A>>,
    rng: F,
    outputs: Vec<WirePiece<A>>,
) -> bool where A::Commitment: Clone, A::Tag: Clone {
    exists|given: &[WirePiece<A>], before: Draws<&F>, after: Draws<&F>|
        given@ == items && before.is_fresh(&rng) && #[trigger] call_ensures(
            relay_asking::<A, &F>,
            (&auth, &commitment, piece_count, piece_byte_len, given, before),
            (outputs, after),
        )
}

/// `outputs` is what relaying `items` to several peers gives with a random source
/// that was not asked before.
pub open spec fn fanouts_asking<A: Authenticator, F: Fn(usize) -> Result<Vec<u8>, Error>>(
    auth: A,
    commitment: A::Commitment,
    piece_count: usize,
    piece_byte_len: usize,
    peer_count: usize,
    items: Seq<WirePiece<A>>,
    rng: F,
    outputs: Vec<(PeerIndex, WirePiece<A>)>,
) -> bool where A::Commitment: Clone, A::Tag: Clone {
    exists|given: &[WirePiece<A>], before: Draws<&F>, after: Draws<&F>|
        given@ == items && before.is_fresh(&rng) && #[trigger] call_ensures(
            relay_fanout_asking::<A, &F>,
            (&auth, &commitment, piece_count, piece_byte_len, peer_count, given, before),
            (outputs, after),
        )
}

/// What is emitted with an answer of the random source is emitted from it.
pub proof fn lemma_emits_with<A: Authenticator, F: Fn(usize) -> Result<Vec<u8>, Error>>(
    auth: A,
    commitment: A::Commitment,
    pieces: Seq<PieceView>,
    rng: &F,
    asked: Seq<(usize, Result<Vec<u8>, Error>)>,
    out: Option<WirePiece<A>>,
) where A::Commitment: Clone, A::Tag: Clone
    requires
        emits_with(auth, commitment, pieces, asked, out),
        journal::all_answered(*rng, asked),
    ensures
        gossip::emitted(auth, commitment, pieces, *rng, out),
{
    if pieces.len() == 0 {
        assert(recode::recodes(pieces, *rng, Err(recode::nothing_to_recode())));
    } else {
        assert(rng.ensures((asked[0].0,), asked[0].1));
        let r = choose|r: Result<CodedPiece, Error>| #[trigger]
            recode::recoded_from(pieces, asked[0].1, r) && match r {
                Ok(piece) => out matches Some(wire) && gossip::packaged(
                    auth,
                    commitment,
                    piece@,
                    wire@,
                ),
                Err(_) => out is None,
            };
        assert(recode::recodes(pieces, *rng, r));
    }
}

/// What is emitted to the peers with answers of the random source is fanned out
/// from it.
pub proof fn lemma_fans_with<A: Authenticator, F: Fn(usize) -> Result<Vec<u8>, Error>>(
    auth: A,
    commitment: A::Commitment,
    pieces: Seq<PieceView>,
    peer_count: nat,
    rng: &F,
    asked: Seq<(usize, Result<Vec<u8>, Error>)>,
    block: Seq<(PeerIndex, WirePiece<A>)>,
) where A::Commitment: Clone, A::Tag: Clone
    requires
        fans_with(auth, commitment, pieces, peer_count, asked, block),
        journal::all_answered(*rng, asked),
    ensures
        gossip::fanned(auth, commitment, *rng, pieces, peer_count, block),
{
    if pieces.len() > 0 {
        let draws = journal::answers_of(asked);
        assert forall|j: int| 0 <= j < draws.len() implies rng.ensures(
            (pieces.len() as usize,),
            #[trigger] draws[j],
        ) by {
            assert(rng.ensures((asked[j].0,), asked[j].1));
        }
        assert(gossip::all_drawn(*rng, pieces.len() as usize, draws));
    }
}

proof fn lemma_relay_trace<A: Authenticator, F: Fn(usize) -> Result<Vec<u8>, Error>>(
    auth: A,
    commitment: A::Commitment,
    piece_count: nat,
    piece_byte_len: nat,
    rng: &F,
    items: Seq<WirePiece<A>>,
    after: RecoderView,
    asked: Seq<(usize, Result<Vec<u8>, Error>)>,
    outputs: Seq<WirePiece<A>>,
) -> (trace: (Seq<RecoderView>, Seq<Seq<WirePiece<A>>>)) where A::Commitment: Clone, A::Tag: Clone
    requires
        relay_asked(
            auth,
            commitment,
            piece_count,
            piece_byte_len,
            items,
            after,
            asked,
            outputs,
        ),
        journal::all_answered(*rng, asked),
    ensures
        gossip::relay_trace(auth, commitment, *rng, items, trace.0, trace.1),
        trace.0.first() == gossip::empty_recoder(piece_count, piece_byte_len),
        trace.0.last() == after,
        outputs == gossip::concatenated(trace.1),
    decreases items.len(),
{
    if items.len() == 0 {
        assert(outputs =~= Seq::empty());
        (seq![after], Seq::empty())
    } else {
        let (before, first, front, next, block) = choose|
            before: RecoderView,
            first: Seq<(usize, Result<Vec<u8>, Error>)>,
            front: Seq<WirePiece<A>>,
            next: Seq<(usize, Result<Vec<u8>, Error>)>,
            block: Seq<WirePiece<A>>,
        |
            relay_asked(
                auth,
                commitment,
                piece_count,
                piece_byte_len,
                items.drop_last(),
                before,
                first,
                front,
            ) && #[trigger] asked_step(
                auth,
                commitment,
                before,
                items.last()@,
                after,
                next,
                block,
            ) && #[trigger] journal::joins(first, next, asked) && #[trigger] journal::joins(front, block, outputs);
        journal::lemma_answered_parts(rng, first, next, asked);
        let (states, blocks) = lemma_relay_trace(
            auth,
            commitment,
            piece_count,
            piece_byte_len,
            rng,
            items.drop_last(),
            before,
            first,
            front,
        );
        if gossip::admits(auth, commitment, before, items.last()@) {
            let out = choose|out: Option<WirePiece<A>>| #[trigger]
                emits_with(auth, commitment, after.pieces, next, out) && block == gossip::present(
                    out,
                );
            lemma_emits_with(auth, commitment, after.pieces, rng, next, out);
        }
        let (s, b) = (states.push(after), blocks.push(block));
        assert(b.drop_last() =~= blocks);
        assert forall|i: int| 0 <= i < items.len() implies gossip::relay_stepped(
            auth,
            commitment,
            *rng,
            s[i],
            (#[trigger] items[i])@,
            s[i + 1],
            b[i],
        ) by {
            if i < items.len() - 1 {
                assert(items.drop_last()[i] == items[i]);
            }
        }
        (s, b)
    }
}

/// What a relay emits with answers of the random source is relayed from it.
pub proof fn lemma_relay_asked<A: Authenticator, F: Fn(usize) -> Result<Vec<u8>, Error>>(
    auth: A,
    commitment: A::Commitment,
    piece_count: nat,
    piece_byte_len: nat,
    rng: &F,
    items: Seq<WirePiece<A>>,
    after: RecoderView,
    asked: Seq<(usize, Result<Vec<u8>, Error>)>,
    outputs: Seq<WirePiece<A>>,
) where A::Commitment: Clone, A::Tag: Clone
    requires
        relay_asked(
            auth,
            commitment,
            piece_count,
            piece_byte_len,
            items,
            after,
            asked,
            outputs,
        ),
        journal::all_answered(*rng, asked),
    ensures
        gossip::relayed(auth, commitment, piece_count, piece_byte_len, *rng, items, outputs),
{
    let (states, blocks) = lemma_relay_trace(
        auth,
        commitment,
        piece_count,
        piece_byte_len,
        rng,
        items,
        after,
        asked,
        outputs,
    );
}

proof fn lemma_fan_trace<A: Authenticator, F: Fn(usize) -> Result<Vec<u8>, Error>>(
    auth: A,
    commitment: A::Commitment,
    piece_count: nat,
    piece_byte_len: nat,
    peer_count: nat,
    rng: &F,
    items: Seq<WirePiece<A>>,
    after: RecoderView,
    asked: Seq<(usize, Result<Vec<u8>, Error>)>,
    outputs: Seq<(PeerIndex, WirePiece<A>)>,
) -> (trace: (Seq<RecoderView>, Seq<Seq<(PeerIndex, WirePiece<A>)>>)) where A::Commitment: Clone, A::Tag: Clone
    requires
        fan_asked(
            auth,
            commitment,
            piece_count,
            piece_byte_len,
            peer_count,
            items,
            after,
            asked,
            outputs,
        ),
        journal::all_answered(*rng, asked),
    ensures
        gossip::fan_trace(auth, commitment, *rng, peer_count, items, trace.0, trace.1),
        trace.0.first() == gossip::empty_recoder(piece_count, piece_byte_len),
        trace.0.last() == after,
        outputs == gossip::concatenated(trace.1),
    decreases items.len(),
{
    if items.len() == 0 {
        assert(outputs =~= Seq::empty());
        (seq![after], Seq::empty())
    } else {
        let (before, first, front, next, block) = choose|
            before: RecoderView,
            first: Seq<(usize, Result<Vec<u8>, Error>)>,
            front: Seq<(PeerIndex, WirePiece<A>)>,
            next: Seq<(usize, Result<Vec<u8>, Error>)>,
            block: Seq<(PeerIndex, WirePiece<A>)>,
        |
            fan_asked(
                auth,
                commitment,
                piece_count,
                piece_byte_len,
                peer_count,
                items.drop_last(),
                before,
                first,
                front,
            ) && #[trigger] fan_asked_step(
                auth,
                commitment,
                peer_count,
                before,
                items.last()@,
                after,
                next,
                block,
            ) && #[trigger] journal::joins(first, next, asked) && #[trigger] journal::joins(front, block, outputs);
        journal::lemma_answered_parts(rng, first, next, asked);
        let (states, blocks) = lemma_fan_trace(
            auth,
            commitment,
            piece_count,
            piece_byte_len,
            peer_count,
            rng,
            items.drop_last(),
            before,
            first,
            front,
        );
        if gossip::admits(auth, commitment, before, items.last()@) {
            lemma_fans_with(auth, commitment, after.pieces, peer_count, rng, next, block);
        }
        let (s, b) = (states.push(after), blocks.push(block));
        assert(b.drop_last() =~= blocks);
        assert forall|i: int| 0 <= i < items.len() implies gossip::fan_stepped(
            auth,
            commitment,
            *rng,
            peer_count,
            s[i],
            (#[trigger] items[i])@,
            s[i + 1],
            b[i],
        ) by {
            if i < items.len() - 1 {
                assert(items.drop_last()[i] == items[i]);
            }
        }
        (s, b)
    }
}

/// What a fanning relay emits with answers of the random source is relayed from it.
pub proof fn lemma_fan_asked<A: Authenticator, F: Fn(usize) -> Result<Vec<u8>, Error>>(
    auth: A,
    commitment: A::Commitment,
    piece_count: nat,
    piece_byte_len: nat,
    peer_count: nat,
    rng: &F,
    items: Seq<WirePiece<A>>,
    after: RecoderView,
    asked: Seq<(usize, Result<Vec<u8>, Error>)>,
    outputs: Seq<(PeerIndex, WirePiece<A>)>,
) where A::Commitment: Clone, A::Tag: Clone
    requires
        fan_asked(
            auth,
            commitment,
            piece_count,
            piece_byte_len,
            peer_count,
            items,
            after,
            asked,
            outputs,
        ),
        journal::all_answered(*rng, asked),
    ensures
        gossip::relayed_fanout(
            auth,
            commitment,
            piece_count,
            piece_byte_len,
            peer_count,
            *rng,
            items,
            outputs,
        ),
{
    let (states, blocks) = lemma_fan_trace(
        auth,
        commitment,
        piece_count,
        piece_byte_len,
        peer_count,
        rng,
        items,
        after,
        asked,
        outputs,
    );
}

} // verus!
