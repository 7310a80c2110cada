//! Which answer of the random source each relayed piece was recoded with.
//!
//! A relay uses each answer for one piece: what it emits is a function of the
//! accepted pieces and of the answers, one after the other.
use crate::auth::Authenticator;
use crate::coding::piece::{CodedPiece, PieceView};
use crate::coding::recode::{self, Recoder, RecoderView};
use crate::dissemination;
use crate::effect;
use crate::error::Error;
use crate::gossip::{self, PeerIndex, WirePiece};
use crate::journal::{self, Draws};
use crate::relay;
use comp_cat_rs::effect::stream::Stream;
use vstd::arithmetic::div_mod::*;
use vstd::prelude::*;

verus! {

/// The answer holds as many bytes as were asked for.
pub open spec fn is_usable(entry: (usize, Result<Vec<u8>, Error>)) -> bool {
    entry.1 matches Ok(bytes) && bytes@.len() == entry.0
}

/// The places of the usable answers, in order.
pub open spec fn usable(asked: Seq<(usize, Result<Vec<u8>, Error>)>) -> Seq<int>
    decreases asked.len(),
{
    if asked.len() == 0 {
        Seq::empty()
    } else {
        let before = usable(asked.drop_last());
        if is_usable(asked.last()) {
            before.push(asked.len() - 1)
        } else {
            before
        }
    }
}

/// The pieces that a relay stores: those that pass verification and have the right
/// dimensions, in order.
pub open spec fn pool<A: Authenticator>(
    auth: A,
    commitment: A::Commitment,
    piece_count: nat,
    piece_byte_len: nat,
    items: Seq<WirePiece<A>>,
) -> Seq<PieceView> where A::Commitment: Clone, A::Tag: Clone {
    dissemination::pieces_of(
        dissemination::good(auth, commitment, piece_count, piece_byte_len, items),
    )
}

/// The places of the usable answers are places, and their answers are usable.
proof fn lemma_usable(asked: Seq<(usize, Result<Vec<u8>, Error>)>)
    ensures
        usable(asked).len() <= asked.len(),
        forall|t: int|
            0 <= t < usable(asked).len() ==> 0 <= #[trigger] usable(asked)[t] < asked.len()
                && is_usable(asked[usable(asked)[t]]),
    decreases asked.len(),
{
    if asked.len() > 0 {
        lemma_usable(asked.drop_last());
        let before = usable(asked.drop_last());
        assert forall|t: int| 0 <= t < usable(asked).len() implies 0 <= #[trigger] usable(
            asked,
        )[t] < asked.len() && is_usable(asked[usable(asked)[t]]) by {
            if t < before.len() {
                assert(usable(asked)[t] == before[t]);
            }
        }
    }
}

/// The usable answers of a record in two parts are those of the first, then those
/// of the second.
proof fn lemma_usable_joined(
    first: Seq<(usize, Result<Vec<u8>, Error>)>,
    next: Seq<(usize, Result<Vec<u8>, Error>)>,
)
    ensures
        usable(first + next).len() == usable(first).len() + usable(next).len(),
        forall|t: int|
            0 <= t < usable(first).len() ==> #[trigger] usable(first + next)[t] == usable(first)[t],
        forall|t: int|
            usable(first).len() <= t < usable(first + next).len() ==> #[trigger] usable(
                first + next,
            )[t] == first.len() + usable(next)[t - usable(first).len()],
    decreases next.len(),
{
    if next.len() == 0 {
        assert(first + next =~= first);
    } else {
        let rest = next.drop_last();
        lemma_usable_joined(first, rest);
        let all = first + next;
        assert(all.drop_last() =~= first + rest);
        assert(all.last() == next.last());
        let (u, v, w) = (usable(first), usable(first + rest), usable(rest));
        assert forall|t: int| u.len() <= t < usable(all).len() implies #[trigger] usable(all)[t]
            == first.len() + usable(next)[t - u.len()] by {
            if t < v.len() {
                assert(usable(all)[t] == v[t]);
                assert(usable(next)[t - u.len()] == w[t - u.len()]);
            }
        }
        assert forall|t: int| 0 <= t < u.len() implies #[trigger] usable(all)[t] == u[t] by {
            assert(usable(all)[t] == v[t]);
        }
    }
}

/// An answer makes a piece exactly if it is usable, and the piece combines the pool
/// with its bytes.
proof fn lemma_emitted_from<A: Authenticator>(
    auth: A,
    commitment: A::Commitment,
    pieces: Seq<PieceView>,
    count: nat,
    len: nat,
    entry: (usize, Result<Vec<u8>, Error>),
    out: Option<WirePiece<A>>,
) where A::Commitment: Clone, A::Tag: Clone
    requires
        0 < pieces.len() <= usize::MAX,
        recode::uniform(pieces, count, len),
        entry.0 == pieces.len(),
        gossip::emitted_from(auth, commitment, pieces, entry.1, out),
    ensures
        out is Some == is_usable(entry),
        out matches Some(wire) ==> recode::is_drawn(pieces, count, len, entry, wire@.piece)
            && auth.tags(commitment, wire@.piece, wire@.tag),
{
    let r = choose|r: Result<CodedPiece, Error>| #[trigger]
        recode::recoded_from(pieces, entry.1, r) && match r {
            Ok(piece) => out matches Some(wire) && gossip::packaged(
                auth,
                commitment,
                piece@,
                wire@,
            ),
            Err(_) => out is None,
        };
    if let Ok(bytes) = entry.1 {
        recode::lemma_recombined_uniform(pieces, bytes@, r, count, len);
    }
}

/// The peers of a block are those with a usable answer, in order, each with the
/// piece of its answer.
proof fn lemma_block<A: Authenticator>(
    auth: A,
    commitment: A::Commitment,
    pieces: Seq<PieceView>,
    count: nat,
    len: nat,
    asked: Seq<(usize, Result<Vec<u8>, Error>)>,
    outs: Seq<Option<WirePiece<A>>>,
) where A::Commitment: Clone, A::Tag: Clone
    requires
        0 < pieces.len() <= usize::MAX,
        recode::uniform(pieces, count, len),
        asked.len() <= usize::MAX,
        outs.len() == asked.len(),
        forall|j: int| 0 <= j < asked.len() ==> (#[trigger] asked[j]).0 == pieces.len(),
        forall|j: int|
            0 <= j < outs.len() ==> gossip::emitted_from(
                auth,
                commitment,
                pieces,
                asked[j].1,
                #[trigger] outs[j],
            ),
    ensures
        gossip::numbered(outs).len() == usable(asked).len(),
        forall|t: int|
            0 <= t < usable(asked).len() ==> {
                let (peer, wire) = #[trigger] gossip::numbered(outs)[t];
                &&& peer@ == usable(asked)[t]
                &&& recode::is_drawn(pieces, count, len, asked[usable(asked)[t]], wire@.piece)
                &&& auth.tags(commitment, wire@.piece, wire@.tag)
            },
    decreases asked.len(),
{
    if asked.len() > 0 {
        let (a, o) = (asked.drop_last(), outs.drop_last());
        assert forall|j: int| 0 <= j < a.len() implies (#[trigger] a[j]).0 == pieces.len() by {
            assert(asked[j].0 == pieces.len());
        }
        assert forall|j: int| 0 <= j < o.len() implies gossip::emitted_from(
            auth,
            commitment,
            pieces,
            a[j].1,
            #[trigger] o[j],
        ) by {
            assert(outs[j] == o[j]);
        }
        lemma_block(auth, commitment, pieces, count, len, a, o);
        lemma_usable(a);
        let last = asked.len() - 1;
        assert(asked[last].0 == pieces.len());
        assert(outs[last] == outs.last());
        lemma_emitted_from(auth, commitment, pieces, count, len, asked[last], outs[last]);
        let (before, all) = (gossip::numbered(o), gossip::numbered(outs));
        assert forall|t: int| 0 <= t < usable(asked).len() implies {
            let (peer, wire) = #[trigger] all[t];
            &&& peer@ == usable(asked)[t]
            &&& recode::is_drawn(pieces, count, len, asked[usable(asked)[t]], wire@.piece)
            &&& auth.tags(commitment, wire@.piece, wire@.tag)
        } by {
            if t < before.len() {
                assert(all[t] == before[t]);
                assert(usable(asked)[t] == usable(a)[t]);
                assert(a[usable(a)[t]] == asked[usable(a)[t]]);
            }
        }
    }
}

/// A pool holds pieces of the dimensions of the relay.
proof fn lemma_pool_push<A: Authenticator>(
    auth: A,
    commitment: A::Commitment,
    piece_count: nat,
    piece_byte_len: nat,
    items: Seq<WirePiece<A>>,
    before: RecoderView,
    after: RecoderView,
) where A::Commitment: Clone, A::Tag: Clone
    requires
        items.len() > 0,
        before.pieces == pool(auth, commitment, piece_count, piece_byte_len, items.drop_last()),
        before.piece_count == piece_count,
        before.piece_byte_len == piece_byte_len,
        recode::uniform(before.pieces, piece_count, piece_byte_len),
        if gossip::admits(auth, commitment, before, items.last()@) {
            recode::stored(before, items.last()@.piece, after)
        } else {
            after == before
        },
    ensures
        after.pieces == pool(auth, commitment, piece_count, piece_byte_len, items),
        after.piece_count == piece_count,
        after.piece_byte_len == piece_byte_len,
        recode::uniform(after.pieces, piece_count, piece_byte_len),
{
    let front = dissemination::good(
        auth,
        commitment,
        piece_count,
        piece_byte_len,
        items.drop_last(),
    );
    let piece = items.last()@.piece;
    if gossip::admits(auth, commitment, before, items.last()@) {
        assert(dissemination::pieces_of(front.push(items.last())) =~= dissemination::pieces_of(
            front,
        ).push(piece));
        let all = after.pieces;
        assert forall|k: int| 0 <= k < all.len() implies (#[trigger] recode::coeffs_of(
            all,
        )[k]).len() == piece_count by {
            if k < before.pieces.len() {
                assert(recode::coeffs_of(before.pieces)[k].len() == piece_count);
            }
        }
        assert forall|k: int| 0 <= k < all.len() implies (#[trigger] recode::data_of(all)[k]).len()
            == piece_byte_len by {
            if k < before.pieces.len() {
                assert(recode::data_of(before.pieces)[k].len() == piece_byte_len);
            }
        }
    }
}

/// Output `t` of a fanning relay goes to the peer of the `t`-th usable answer, and
/// combines the pieces stored when that answer came with its bytes.
pub open spec fn is_fanned<A: Authenticator>(
    auth: A,
    commitment: A::Commitment,
    piece_count: nat,
    piece_byte_len: nat,
    peer_count: nat,
    stored: Seq<PieceView>,
    asked: Seq<(usize, Result<Vec<u8>, Error>)>,
    m: int,
    output: (PeerIndex, WirePiece<A>),
) -> bool where A::Commitment: Clone, A::Tag: Clone {
    &&& output.0@ == m % peer_count as int
    &&& recode::is_drawn(
        stored.take(m / peer_count as int + 1),
        piece_count,
        piece_byte_len,
        asked[m],
        output.1@.piece,
    )
    &&& auth.tags(commitment, output.1@.piece, output.1@.tag)
}

#[verifier::spinoff_prover]
proof fn lemma_fan_asked<A: Authenticator>(
    auth: A,
    commitment: A::Commitment,
    piece_count: nat,
    piece_byte_len: nat,
    peer_count: nat,
    items: Seq<WirePiece<A>>,
    after: RecoderView,
    asked: Seq<(usize, Result<Vec<u8>, Error>)>,
    outputs: Seq<(PeerIndex, WirePiece<A>)>,
) where A::Commitment: Clone, A::Tag: Clone
    requires
        items.len() <= usize::MAX,
        peer_count <= usize::MAX,
        relay::fan_asked(
            auth,
            commitment,
            piece_count,
            piece_byte_len,
            peer_count,
            items,
            after,
            asked,
            outputs,
        ),
    ensures
        after.pieces == pool(auth, commitment, piece_count, piece_byte_len, items),
        after.pieces.len() <= items.len(),
        after.piece_count == piece_count,
        after.piece_byte_len == piece_byte_len,
        recode::uniform(after.pieces, piece_count, piece_byte_len),
        asked.len() == after.pieces.len() * peer_count,
        forall|m: int|
            0 <= m < asked.len() ==> (#[trigger] asked[m]).0 == m / peer_count as int + 1,
        outputs.len() == usable(asked).len(),
        forall|t: int|
            0 <= t < outputs.len() ==> is_fanned(
                auth,
                commitment,
                piece_count,
                piece_byte_len,
                peer_count,
                after.pieces,
                asked,
                usable(asked)[t],
                #[trigger] outputs[t],
            ),
    decreases items.len(),
{
    if items.len() == 0 {
        assert(pool(auth, commitment, piece_count, piece_byte_len, items) =~= after.pieces);
        assert(after.pieces.len() * peer_count == 0) by (nonlinear_arith)
            requires
                after.pieces.len() == 0,
        ;
    } else {
        let (before, first, front, next, block) = choose|
            before: RecoderView,
            first: Seq<(usize, Result<Vec<u8>, Error>)>,
            front: Seq<(PeerIndex, WirePiece<A>)>,
            next: Seq<(usize, Result<Vec<u8>, Error>)>,
            block: Seq<(PeerIndex, WirePiece<A>)>,
        |
            relay::fan_asked(
                auth,
                commitment,
                piece_count,
                piece_byte_len,
                peer_count,
                items.drop_last(),
                before,
                first,
                front,
            ) && #[trigger] relay::fan_asked_step(
                auth,
                commitment,
                peer_count,
                before,
                items.last()@,
                after,
                next,
                block,
            ) && #[trigger] journal::joins(first, next, asked) && #[trigger] journal::joins(
                front,
                block,
                outputs,
            );
        lemma_fan_asked(
            auth,
            commitment,
            piece_count,
            piece_byte_len,
            peer_count,
            items.drop_last(),
            before,
            first,
            front,
        );
        lemma_pool_push(
            auth,
            commitment,
            piece_count,
            piece_byte_len,
            items,
            before,
            after,
        );
        lemma_usable_joined(first, next);
        lemma_usable(first);
        lemma_usable(next);
        let (p, b) = (peer_count as int, before.pieces.len() as int);
        if gossip::admits(auth, commitment, before, items.last()@) {
            let outs = choose|outs: Seq<Option<WirePiece<A>>>| #[trigger]
                gossip::all_emitted_from(
                    auth,
                    commitment,
                    after.pieces,
                    journal::answers_of(next),
                    outs,
                ) && block == gossip::numbered(outs);
            assert(after.pieces.len() == b + 1);
            assert((b + 1) * p == b * p + p) by (nonlinear_arith);
            assert forall|j: int| 0 <= j < outs.len() implies gossip::emitted_from(
                auth,
                commitment,
                after.pieces,
                next[j].1,
                #[trigger] outs[j],
            ) by {
                assert(journal::answers_of(next)[j] == next[j].1);
            }
            lemma_block(
                auth,
                commitment,
                after.pieces,
                piece_count,
                piece_byte_len,
                next,
                outs,
            );
            assert forall|m: int| 0 <= m < asked.len() implies (#[trigger] asked[m]).0 == m / p
                + 1 by {
                if m < first.len() {
                    assert(asked[m] == first[m]);
                } else {
                    assert(asked[m] == next[m - first.len()]);
                    lemma_fundamental_div_mod_converse(m, p, b, m - b * p);
                }
            }
            assert forall|t: int| 0 <= t < outputs.len() implies is_fanned(
                auth,
                commitment,
                piece_count,
                piece_byte_len,
                peer_count,
                after.pieces,
                asked,
                usable(asked)[t],
                #[trigger] outputs[t],
            ) by {
                if t < front.len() {
                    let m = usable(first)[t];
                    assert(outputs[t] == front[t]);
                    assert(usable(asked)[t] == m);
                    assert(asked[m] == first[m]);
                    lemma_quotient_below(m, p, b);
                    assert(after.pieces.take(m / p + 1) =~= before.pieces.take(m / p + 1));
                } else {
                    let j = usable(next)[t - front.len()];
                    let m = first.len() + j;
                    assert(outputs[t] == block[t - front.len()]);
                    assert(usable(asked)[t] == m);
                    assert(asked[m] == next[j]);
                    lemma_fundamental_div_mod_converse(m, p, b, j);
                    assert(after.pieces.take(b + 1) =~= after.pieces);
                }
            }
        } else {
            assert(asked =~= first);
            assert(outputs =~= front);
        }
    }
}

proof fn lemma_quotient_below(m: int, p: int, b: int)
    requires
        0 <= m < b * p,
        p >= 0,
    ensures
        0 <= m / p < b,
{
    assert(p > 0) by (nonlinear_arith)
        requires
            0 <= m < b * p,
            p >= 0,
    ;
    assert(0 <= m / p < b) by (nonlinear_arith)
        requires
            0 <= m < b * p,
            p > 0,
    ;
}

/// The `m`-th of `asked` is for peer `m % peer_count` and the accepted piece number
/// `m / peer_count`, and there are no others; `outputs` holds for each usable answer,
/// in order, the peer it is for and the linear combination of the pieces accepted so
/// far with the bytes of that answer, with its tag.
pub open spec fn one_answer_per_peer<A: Authenticator>(
    auth: A,
    commitment: A::Commitment,
    piece_count: nat,
    piece_byte_len: nat,
    peer_count: nat,
    items: Seq<WirePiece<A>>,
    asked: Seq<(usize, Result<Vec<u8>, Error>)>,
    outputs: Seq<(PeerIndex, WirePiece<A>)>,
) -> bool where A::Commitment: Clone, A::Tag: Clone {
    let stored = pool(auth, commitment, piece_count, piece_byte_len, items);
    &&& asked.len() == stored.len() * peer_count
    &&& forall|m: int|
        0 <= m < asked.len() ==> (#[trigger] asked[m]).0 == m / peer_count as int + 1
    &&& outputs.len() == usable(asked).len()
    &&& forall|t: int|
        0 <= t < outputs.len() ==> is_fanned(
            auth,
            commitment,
            piece_count,
            piece_byte_len,
            peer_count,
            stored,
            asked,
            usable(asked)[t],
            #[trigger] outputs[t],
        )
}

/// A fanning relay asks the random source once for each accepted piece and peer, and
/// uses each answer for one peer: its `m`-th answer is that of peer `m % peer_count`
/// for the accepted piece number `m / peer_count`, and the piece sent for it is the
/// linear combination of the pieces accepted so far with the bytes of that answer.
/// An answer that does not hold as many bytes as were asked for sends nothing.
pub proof fn lemma_fanout_answers<A: Authenticator, F: Fn(usize) -> Result<Vec<u8>, Error>>(
    auth: A,
    commitment: A::Commitment,
    piece_count: usize,
    piece_byte_len: usize,
    peer_count: usize,
    items: &[WirePiece<A>],
    before: Draws<F>,
    outputs: Vec<(PeerIndex, WirePiece<A>)>,
    after: Draws<F>,
) where A::Commitment: Clone, A::Tag: Clone
    requires
        items@.len() <= usize::MAX,
        call_ensures(
            relay::relay_fanout_asking::<A, F>,
            (&auth, &commitment, piece_count, piece_byte_len, peer_count, items, before),
            (outputs, after),
        ),
    ensures
        exists|asked: Seq<(usize, Result<Vec<u8>, Error>)>| #[trigger]
            after.follows(before, asked) && one_answer_per_peer(
                auth,
                commitment,
                piece_count as nat,
                piece_byte_len as nat,
                peer_count as nat,
                items@,
                asked,
                outputs@,
            ),
{
    let (state, asked) = choose|state: RecoderView, asked: Seq<(usize, Result<Vec<u8>, Error>)>| #[trigger]
        relay::fan_asked(
            auth,
            commitment,
            piece_count as nat,
            piece_byte_len as nat,
            peer_count as nat,
            items@,
            state,
            asked,
            outputs@,
        ) && after.follows(before, asked);
    lemma_fan_asked(
        auth,
        commitment,
        piece_count as nat,
        piece_byte_len as nat,
        peer_count as nat,
        items@,
        state,
        asked,
        outputs@,
    );
}

/// The stream of a fanning relay holds what [`relay::relay_fanout_asking`] gave for
/// the incoming pieces and a random source that had not been asked before, and so for
/// each accepted piece and peer the piece of its own answer.
pub proof fn lemma_fanout_stream_answers<A: Authenticator, F: Fn(usize) -> Result<Vec<u8>, Error>>(
    auth: A,
    commitment: A::Commitment,
    piece_count: usize,
    piece_byte_len: usize,
    peer_count: usize,
    rng: F,
    items: Seq<WirePiece<A>>,
    stream: Stream<Error, (PeerIndex, WirePiece<A>)>,
    collected: Vec<(PeerIndex, WirePiece<A>)>,
) where A::Commitment: Clone, A::Tag: Clone, WirePiece<A>: Send + 'static
    requires
        items.len() <= usize::MAX,
        gossip::relays_fanout(
            auth,
            commitment,
            piece_count as nat,
            piece_byte_len as nat,
            peer_count as nat,
            rng,
            items,
            stream,
        ),
        effect::yields(stream, None, Ok(collected)),
    ensures
        exists|
            given: &[WirePiece<A>],
            before: Draws<&F>,
            outputs: Vec<(PeerIndex, WirePiece<A>)>,
            after: Draws<&F>,
        | #[trigger]
            call_ensures(
                relay::relay_fanout_asking::<A, &F>,
                (&auth, &commitment, piece_count, piece_byte_len, peer_count, given, before),
                (outputs, after),
            ) && given@ == items && before.is_fresh(&rng) && outputs@ == collected@
                && one_answer_per_peer(
                auth,
                commitment,
                piece_count as nat,
                piece_byte_len as nat,
                peer_count as nat,
                items,
                after.record(),
                collected@,
            ),
{
    let outputs = choose|outputs: Vec<(PeerIndex, WirePiece<A>)>| #[trigger]
        gossip::relayed_fanout(
            auth,
            commitment,
            piece_count as nat,
            piece_byte_len as nat,
            peer_count as nat,
            rng,
            items,
            outputs@,
        ) && relay::fanouts_asking(
            auth,
            commitment,
            piece_count,
            piece_byte_len,
            peer_count,
            items,
            rng,
            outputs,
        ) && gossip::emits(stream, outputs@);
    let (given, before, after) = choose|
        given: &[WirePiece<A>],
        before: Draws<&F>,
        after: Draws<&F>,
    |
        given@ == items && before.is_fresh(&rng) && #[trigger] call_ensures(
            relay::relay_fanout_asking::<A, &F>,
            (&auth, &commitment, piece_count, piece_byte_len, peer_count, given, before),
            (outputs, after),
        );
    lemma_fanout_answers(
        auth,
        commitment,
        piece_count,
        piece_byte_len,
        peer_count,
        given,
        before,
        outputs,
        after,
    );
    let asked = choose|asked: Seq<(usize, Result<Vec<u8>, Error>)>| #[trigger]
        after.follows(before, asked) && one_answer_per_peer(
            auth,
            commitment,
            piece_count as nat,
            piece_byte_len as nat,
            peer_count as nat,
            given@,
            asked,
            outputs@,
        );
    assert(after.record() =~= asked);
}

/// Output `t` of a relay combines the pieces stored when the `t`-th usable answer came
/// with its bytes.
pub open spec fn is_relayed<A: Authenticator>(
    auth: A,
    commitment: A::Commitment,
    piece_count: nat,
    piece_byte_len: nat,
    stored: Seq<PieceView>,
    asked: Seq<(usize, Result<Vec<u8>, Error>)>,
    m: int,
    output: WirePiece<A>,
) -> bool where A::Commitment: Clone, A::Tag: Clone {
    &&& recode::is_drawn(
        stored.take(m + 1),
        piece_count,
        piece_byte_len,
        asked[m],
        output@.piece,
    )
    &&& auth.tags(commitment, output@.piece, output@.tag)
}

/// The `m`-th of `asked` is for the accepted piece number `m`, and there are no
/// others; `outputs` holds for each usable answer, in order, the linear combination of
/// the pieces accepted so far with the bytes of that answer, with its tag.
pub open spec fn one_answer_per_piece<A: Authenticator>(
    auth: A,
    commitment: A::Commitment,
    piece_count: nat,
    piece_byte_len: nat,
    items: Seq<WirePiece<A>>,
    asked: Seq<(usize, Result<Vec<u8>, Error>)>,
    outputs: Seq<WirePiece<A>>,
) -> bool where A::Commitment: Clone, A::Tag: Clone {
    let stored = pool(auth, commitment, piece_count, piece_byte_len, items);
    &&& asked.len() == stored.len()
    &&& forall|m: int| 0 <= m < asked.len() ==> (#[trigger] asked[m]).0 == m + 1
    &&& outputs.len() == usable(asked).len()
    &&& forall|t: int|
        0 <= t < outputs.len() ==> is_relayed(
            auth,
            commitment,
            piece_count,
            piece_byte_len,
            stored,
            asked,
            usable(asked)[t],
            #[trigger] outputs[t],
        )
}

#[verifier::spinoff_prover]
proof fn lemma_relay_asked<A: Authenticator>(
    auth: A,
    commitment: A::Commitment,
    piece_count: nat,
    piece_byte_len: nat,
    items: Seq<WirePiece<A>>,
    after: RecoderView,
    asked: Seq<(usize, Result<Vec<u8>, Error>)>,
    outputs: Seq<WirePiece<A>>,
) where A::Commitment: Clone, A::Tag: Clone
    requires
        items.len() <= usize::MAX,
        relay::relay_asked(
            auth,
            commitment,
            piece_count,
            piece_byte_len,
            items,
            after,
            asked,
            outputs,
        ),
    ensures
        after.pieces == pool(auth, commitment, piece_count, piece_byte_len, items),
        after.pieces.len() <= items.len(),
        after.piece_count == piece_count,
        after.piece_byte_len == piece_byte_len,
        recode::uniform(after.pieces, piece_count, piece_byte_len),
        one_answer_per_piece(
            auth,
            commitment,
            piece_count,
            piece_byte_len,
            items,
            asked,
            outputs,
        ),
    decreases items.len(),
{
    if items.len() == 0 {
        assert(pool(auth, commitment, piece_count, piece_byte_len, items) =~= after.pieces);
    } else {
        let (before, first, front, next, block) = choose|
            before: RecoderView,
            first: Seq<(usize, Result<Vec<u8>, Error>)>,
            front: Seq<WirePiece<A>>,
            next: Seq<(usize, Result<Vec<u8>, Error>)>,
            block: Seq<WirePiece<A>>,
        |
            relay::relay_asked(
                auth,
                commitment,
                piece_count,
                piece_byte_len,
                items.drop_last(),
                before,
                first,
                front,
            ) && #[trigger] relay::asked_step(
                auth,
                commitment,
                before,
                items.last()@,
                after,
                next,
                block,
            ) && #[trigger] journal::joins(first, next, asked) && #[trigger] journal::joins(
                front,
                block,
                outputs,
            );
        lemma_relay_asked(
            auth,
            commitment,
            piece_count,
            piece_byte_len,
            items.drop_last(),
            before,
            first,
            front,
        );
        lemma_pool_push(
            auth,
            commitment,
            piece_count,
            piece_byte_len,
            items,
            before,
            after,
        );
        lemma_usable_joined(first, next);
        lemma_usable(first);
        let b = before.pieces.len() as int;
        if gossip::admits(auth, commitment, before, items.last()@) {
            let out = choose|out: Option<WirePiece<A>>| #[trigger]
                relay::emits_with(auth, commitment, after.pieces, next, out) && block
                    == gossip::present(out);
            assert(after.pieces.len() == b + 1);
            lemma_emitted_from(
                auth,
                commitment,
                after.pieces,
                piece_count,
                piece_byte_len,
                next[0],
                out,
            );
            assert(usable(next.drop_last()).len() == 0);
            assert(usable(next) == if is_usable(next[0]) {
                seq![0int]
            } else {
                Seq::empty()
            });
            assert forall|m: int| 0 <= m < asked.len() implies (#[trigger] asked[m]).0 == m
                + 1 by {
                if m < first.len() {
                    assert(asked[m] == first[m]);
                } else {
                    assert(asked[m] == next[m - first.len()]);
                }
            }
            assert forall|t: int| 0 <= t < outputs.len() implies is_relayed(
                auth,
                commitment,
                piece_count,
                piece_byte_len,
                after.pieces,
                asked,
                usable(asked)[t],
                #[trigger] outputs[t],
            ) by {
                if t < front.len() {
                    let m = usable(first)[t];
                    assert(outputs[t] == front[t]);
                    assert(usable(asked)[t] == m);
                    assert(asked[m] == first[m]);
                    assert(after.pieces.take(m + 1) =~= before.pieces.take(m + 1));
                } else {
                    assert(outputs[t] == block[t - front.len()]);
                    assert(usable(asked)[t] == b);
                    assert(asked[b] == next[0]);
                    assert(after.pieces.take(b + 1) =~= after.pieces);
                }
            }
        } else {
            assert(asked =~= first);
            assert(outputs =~= front);
        }
    }
}

/// A relay asks the random source once for each accepted piece, and uses each answer
/// for one piece: the piece sent for its `m`-th answer is the linear combination of
/// the first `m + 1` accepted pieces with the bytes of that answer.  An answer that
/// does not hold as many bytes as were asked for sends nothing.
pub proof fn lemma_relay_answers<A: Authenticator, F: Fn(usize) -> Result<Vec<u8>, Error>>(
    auth: A,
    commitment: A::Commitment,
    piece_count: usize,
    piece_byte_len: usize,
    items: &[WirePiece<A>],
    before: Draws<F>,
    outputs: Vec<WirePiece<A>>,
    after: Draws<F>,
) where A::Commitment: Clone, A::Tag: Clone
    requires
        items@.len() <= usize::MAX,
        call_ensures(
            relay::relay_asking::<A, F>,
            (&auth, &commitment, piece_count, piece_byte_len, items, before),
            (outputs, after),
        ),
    ensures
        exists|asked: Seq<(usize, Result<Vec<u8>, Error>)>| #[trigger]
            after.follows(before, asked) && one_answer_per_piece(
                auth,
                commitment,
                piece_count as nat,
                piece_byte_len as nat,
                items@,
                asked,
                outputs@,
            ),
{
    let (state, asked) = choose|state: RecoderView, asked: Seq<(usize, Result<Vec<u8>, Error>)>| #[trigger]
        relay::relay_asked(
            auth,
            commitment,
            piece_count as nat,
            piece_byte_len as nat,
            items@,
            state,
            asked,
            outputs@,
        ) && after.follows(before, asked);
    lemma_relay_asked(
        auth,
        commitment,
        piece_count as nat,
        piece_byte_len as nat,
        items@,
        state,
        asked,
        outputs@,
    );
}

/// The stream of a relay holds what [`relay::relay_asking`] gave for the incoming
/// pieces and a random source that had not been asked before, and so for each accepted
/// piece the piece of its own answer.
pub proof fn lemma_relay_stream_answers<A: Authenticator, F: Fn(usize) -> Result<Vec<u8>, Error>>(
    auth: A,
    commitment: A::Commitment,
    piece_count: usize,
    piece_byte_len: usize,
    rng: F,
    items: Seq<WirePiece<A>>,
    stream: Stream<Error, WirePiece<A>>,
    collected: Vec<WirePiece<A>>,
) where A::Commitment: Clone, A::Tag: Clone, WirePiece<A>: Send + 'static
    requires
        items.len() <= usize::MAX,
        gossip::relays(
            auth,
            commitment,
            piece_count as nat,
            piece_byte_len as nat,
            rng,
            items,
            stream,
        ),
        effect::yields(stream, None, Ok(collected)),
    ensures
        exists|
            given: &[WirePiece<A>],
            before: Draws<&F>,
            outputs: Vec<WirePiece<A>>,
            after: Draws<&F>,
        | #[trigger]
            call_ensures(
                relay::relay_asking::<A, &F>,
                (&auth, &commitment, piece_count, piece_byte_len, given, before),
                (outputs, after),
            ) && given@ == items && before.is_fresh(&rng) && outputs@ == collected@
                && one_answer_per_piece(
                auth,
                commitment,
                piece_count as nat,
                piece_byte_len as nat,
                items,
                after.record(),
                collected@,
            ),
{
    let outputs = choose|outputs: Vec<WirePiece<A>>| #[trigger]
        gossip::relayed(
            auth,
            commitment,
            piece_count as nat,
            piece_byte_len as nat,
            rng,
            items,
            outputs@,
        ) && relay::relays_asking(
            auth,
            commitment,
            piece_count,
            piece_byte_len,
            items,
            rng,
            outputs,
        ) && gossip::emits(stream, outputs@);
    let (given, before, after) = choose|
        given: &[WirePiece<A>],
        before: Draws<&F>,
        after: Draws<&F>,
    |
        given@ == items && before.is_fresh(&rng) && #[trigger] call_ensures(
            relay::relay_asking::<A, &F>,
            (&auth, &commitment, piece_count, piece_byte_len, given, before),
            (outputs, after),
        );
    lemma_relay_answers(
        auth,
        commitment,
        piece_count,
        piece_byte_len,
        given,
        before,
        outputs,
        after,
    );
    let asked = choose|asked: Seq<(usize, Result<Vec<u8>, Error>)>| #[trigger]
        after.follows(before, asked) && one_answer_per_piece(
            auth,
            commitment,
            piece_count as nat,
            piece_byte_len as nat,
            given@,
            asked,
            outputs@,
        );
    assert(after.record() =~= asked);
}

/// Fanning out asks the random source once for each peer, and the piece of each peer
/// with a usable answer combines the stored pieces with the bytes of its own answer.
pub proof fn lemma_fan_out_answers<A: Authenticator, F: Fn(usize) -> Result<Vec<u8>, Error>>(
    auth: A,
    commitment: A::Commitment,
    recoder: Recoder,
    peer_count: usize,
    before: Draws<F>,
    block: Vec<(PeerIndex, WirePiece<A>)>,
    after: Draws<F>,
) where A::Commitment: Clone, A::Tag: Clone
    requires
        0 < recoder@.pieces.len() <= usize::MAX,
        recode::uniform(recoder@.pieces, recoder@.piece_count, recoder@.piece_byte_len),
        call_ensures(
            relay::fan_out_asking::<A, F>,
            (&auth, &commitment, &recoder, peer_count, before),
            (block, after),
        ),
    ensures
        exists|asked: Seq<(usize, Result<Vec<u8>, Error>)>| #[trigger]
            after.follows(before, asked) && {
                &&& asked.len() == peer_count
                &&& block@.len() == usable(asked).len()
                &&& forall|t: int|
                    0 <= t < block@.len() ==> {
                        let (peer, wire) = #[trigger] block@[t];
                        &&& peer@ == usable(asked)[t]
                        &&& recode::is_drawn(
                            recoder@.pieces,
                            recoder@.piece_count,
                            recoder@.piece_byte_len,
                            asked[usable(asked)[t]],
                            wire@.piece,
                        )
                        &&& auth.tags(commitment, wire@.piece, wire@.tag)
                    }
            },
{
    let asked = choose|asked: Seq<(usize, Result<Vec<u8>, Error>)>| #[trigger]
        relay::fans_with(
            auth,
            commitment,
            recoder@.pieces,
            peer_count as nat,
            asked,
            block@,
        ) && after.follows(before, asked);
    let outs = choose|outs: Seq<Option<WirePiece<A>>>| #[trigger]
        gossip::all_emitted_from(
            auth,
            commitment,
            recoder@.pieces,
            journal::answers_of(asked),
            outs,
        ) && block@ == gossip::numbered(outs);
    assert forall|j: int| 0 <= j < outs.len() implies gossip::emitted_from(
        auth,
        commitment,
        recoder@.pieces,
        asked[j].1,
        #[trigger] outs[j],
    ) by {
        assert(journal::answers_of(asked)[j] == asked[j].1);
    }
    lemma_block(
        auth,
        commitment,
        recoder@.pieces,
        recoder@.piece_count,
        recoder@.piece_byte_len,
        asked,
        outs,
    );
}

} // verus!
