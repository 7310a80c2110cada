//! In-memory transport for wiring gossip nodes together.
//!
//! Three types:
//!
//! - [`InMemorySender`]: clone-able handle for sending packets to any peer in
//!   the network.  Sends land in an `mpsc` buffer; receivers see them as soon as
//!   they pull.
//! - [`InMemoryTransport`]: one peer's view of the network.  Owns the peer's
//!   unique `Receiver` for inbound packets, plus a sender handle for outbound.
//! - [`InMemoryNetwork`]: factory that wires peers into a full-mesh topology
//!   (every peer can send to every peer, every peer has its own inbox).
//!
//! What travels through a channel rests on what other threads do.  So the
//! contracts say which calls are made on which channel, and what becomes of
//! their answers; the calls themselves promise nothing here.
use crate::effect;
use crate::error::Error;
use crate::gossip::PeerIndex;
use crate::inbox::Inbox;
use crate::text;
use comp_cat_rs::effect::io::Io;
use comp_cat_rs::effect::stream::Stream;
use core::ops::Deref;
use std::collections::VecDeque;
use std::sync::mpsc::{channel, Receiver, RecvError, SendError, Sender};
use std::sync::{Arc, LockResult, Mutex, MutexGuard, PoisonError};
use vstd::prelude::*;
use vstd::string::*;

verus! {

/// `std::sync::mpsc::Sender`: the sending half of a channel.
#[verifier::external_type_specification]
#[verifier::external_body]
#[verifier::reject_recursive_types(T)]
pub struct ExSender<T>(Sender<T>);

/// `std::sync::mpsc::Receiver`: the receiving half of a channel.
#[verifier::external_type_specification]
#[verifier::external_body]
#[verifier::reject_recursive_types(T)]
pub struct ExReceiver<T>(Receiver<T>);

/// `std::sync::mpsc::SendError`: the error of a send to a closed channel.
#[verifier::external_type_specification]
#[verifier::external_body]
#[verifier::reject_recursive_types(T)]
pub struct ExSendError<T>(SendError<T>);

/// `std::sync::mpsc::RecvError`: the error of a receive from a channel whose
/// senders are gone.
#[verifier::external_type_specification]
#[verifier::external_body]
pub struct ExRecvError(RecvError);

/// `std::sync::Mutex`: a lock around a value.
#[verifier::external_type_specification]
#[verifier::external_body]
#[verifier::reject_recursive_types(T)]
pub struct ExMutex<T: ?Sized>(Mutex<T>);

/// `std::sync::MutexGuard`: access to the value of a lock.
#[verifier::external_type_specification]
#[verifier::external_body]
#[verifier::reject_recursive_types(T)]
pub struct ExMutexGuard<'a, T: ?Sized + 'a>(MutexGuard<'a, T>);

/// `std::sync::PoisonError`: the error of a lock whose holder panicked.
#[verifier::external_type_specification]
#[verifier::external_body]
#[verifier::reject_recursive_types(T)]
pub struct ExPoisonError<T>(PoisonError<T>);

/// `std::sync::mpsc::channel` makes the two halves of a channel.
pub assume_specification<T>[ channel::<T> ]() -> (ends: (Sender<T>, Receiver<T>))
;

/// `Sender::send` puts a value into a channel.
pub assume_specification<T>[ Sender::<T>::send ](sender: &Sender<T>, t: T) -> (r: Result<
    (),
    SendError<T>,
>)
;

/// `Receiver::recv` waits for a value from a channel.
pub assume_specification<T>[ Receiver::<T>::recv ](receiver: &Receiver<T>) -> (r: Result<
    T,
    RecvError,
>)
;

/// `Mutex::new` puts a value into a lock.
pub assume_specification<T>[ Mutex::<T>::new ](t: T) -> (mutex: Mutex<T>)
;

/// `Mutex::lock` waits for access to the value of a lock.
pub assume_specification<T: ?Sized>[ Mutex::<T>::lock ](mutex: &Mutex<T>) -> (r: LockResult<
    MutexGuard<'_, T>,
>)
;

/// `MutexGuard::deref` borrows the value of a lock.
pub assume_specification<'a, 'b, T: ?Sized>[ <MutexGuard<'a, T> as Deref>::deref ](
    guard: &'b MutexGuard<'a, T>,
) -> (value: &'b T)
;

/// `tx` and `rx` are the two halves of a channel.
pub open spec fn is_channel<T>(tx: Sender<T>, rx: Receiver<T>) -> bool {
    call_ensures(channel::<T>, (), (tx, rx))
}

/// Sending `item` on `tx` can give `r`.
pub open spec fn puts<T>(tx: Sender<T>, item: T, r: Result<(), SendError<T>>) -> bool {
    call_ensures(Sender::<T>::send, (&tx, item), r)
}

/// Receiving from `rx` can give `r`.
pub open spec fn takes<T>(rx: Receiver<T>, r: Result<T, RecvError>) -> bool {
    call_ensures(Receiver::<T>::recv, (&rx,), r)
}

/// `mutex` is the lock made of `value`.
pub open spec fn is_locked<T>(value: T, mutex: Mutex<T>) -> bool {
    call_ensures(Mutex::<T>::new, (value,), mutex)
}

/// `guard` gives access to `value`.
pub open spec fn guards<T>(guard: MutexGuard<'_, T>, value: T) -> bool {
    call_ensures(<MutexGuard<'_, T> as Deref>::deref, (&guard,), &value)
}

/// The failure for a destination outside the network.
pub open spec fn is_unknown_peer(e: Error, to: usize) -> bool {
    e matches Error::TransportFailed(text) && text@ == "unknown peer "@ + text::decimal(to as nat)
}

/// The failure for a destination whose inbox has been dropped, with the text of
/// the error of the channel.
pub open spec fn is_closed<T>(cause: SendError<T>, e: Error) -> bool {
    e matches Error::TransportFailed(text) && to_string_from_display_ensures::<SendError<T>>(
        &cause,
        text,
    )
}

/// The failure for a lock whose holder panicked, with the text of its error.
pub open spec fn is_poisoned<T>(cause: PoisonError<T>, e: Error) -> bool {
    e matches Error::TransportFailed(text) && exists|reason: String| #[trigger]
        to_string_from_display_ensures::<PoisonError<T>>(&cause, reason) && text@
            == "mutex poisoned: "@ + reason@
}

/// `r` is what sending `packet` from peer `from` to peer `to` can give: an error
/// for a destination outside the network, and otherwise what the channel of the
/// destination answers.
pub open spec fn sends<P>(
    inboxes: Seq<Sender<(PeerIndex, P)>>,
    from: PeerIndex,
    to: PeerIndex,
    packet: P,
    r: Result<(), Error>,
) -> bool {
    if to@ >= inboxes.len() {
        r matches Err(e) && is_unknown_peer(e, to@)
    } else {
        exists|answer: Result<(), SendError<(PeerIndex, P)>>| #[trigger]
            puts(inboxes[to@ as int], (from, packet), answer) && match (answer, r) {
                (Ok(_), Ok(_)) => true,
                (Err(cause), Err(e)) => is_closed(cause, e),
                _ => false,
            }
    }
}

/// What is left of an answer to a receive: the value, or nothing once the
/// senders are gone.
pub open spec fn received<T>(answer: Result<T, RecvError>) -> Option<T> {
    match answer {
        Ok(item) => Some(item),
        Err(_) => None,
    }
}

/// `o` is what pulling from the receiver in a lock can give.
pub open spec fn pulls<T>(inbox: Mutex<Receiver<T>>, o: Result<Option<T>, Error>) -> bool {
    exists|locked: LockResult<MutexGuard<'_, Receiver<T>>>| #[trigger]
        call_ensures(Mutex::<Receiver<T>>::lock, (&inbox,), locked) && match locked {
            Ok(guard) => exists|rx: Receiver<T>, answer: Result<T, RecvError>| #[trigger]
                guards(guard, rx) && #[trigger] takes(rx, answer) && o == Ok::<Option<T>, Error>(
                    received(answer),
                ),
            Err(cause) => o matches Err(e) && is_poisoned(cause, e),
        }
}

/// `r` is what draining a lock with a receiver up to a limit can give: the items
/// of the pulls, which stop at the limit or once the senders are gone; or the
/// error of a pull.
pub open spec fn drains<T>(
    inbox: Mutex<Receiver<T>>,
    limit: Option<usize>,
    r: Result<Vec<T>, Error>,
) -> bool {
    match r {
        Ok(items) => {
            &&& forall|i: int|
                0 <= i < items@.len() ==> pulls(
                    inbox,
                    Ok::<Option<T>, Error>(Some(#[trigger] items@[i])),
                )
            &&& limit matches Some(n) ==> items@.len() <= n
            &&& (limit matches Some(n) && items@.len() == n) || pulls(
                inbox,
                Ok::<Option<T>, Error>(None),
            )
        },
        Err(e) => limit != Some(0usize) && pulls(inbox, Err::<Option<T>, Error>(e)),
    }
}

/// All that `stream` gives comes from draining a lock with a receiver.
pub open spec fn is_inbound<T: Send + 'static>(
    inbox: Mutex<Receiver<T>>,
    stream: Stream<Error, T>,
) -> bool {
    forall|limit: Option<usize>, r: Result<Vec<T>, Error>| #[trigger]
        effect::yields(stream, limit, r) ==> drains(inbox, limit, r)
}

/// Turn the answer of a channel to a send into a result.
fn settle_send<T>(answer: Result<(), SendError<T>>) -> (r: Result<(), Error>)
    ensures
        match (answer, r) {
            (Ok(_), Ok(_)) => true,
            (Err(cause), Err(e)) => is_closed(cause, e),
            _ => false,
        },
{
    match answer {
        Ok(_) => Ok(()),
        Err(cause) => Err(Error::TransportFailed(cause.to_string())),
    }
}

/// Send a packet to an inbox.
fn send_to<P>(
    inboxes: &Vec<Sender<(PeerIndex, P)>>,
    from: PeerIndex,
    to: PeerIndex,
    packet: P,
) -> (r: Result<(), Error>)
    ensures
        sends(inboxes@, from, to, packet, r),
{
    if to.value() < inboxes.len() {
        let answer = effect::call_pair(
            Sender::<(PeerIndex, P)>::send,
            &inboxes[to.value()],
            (from, packet),
        );
        assert(puts(inboxes@[to@ as int], (from, packet), answer));
        settle_send(answer)
    } else {
        Err(
            Error::TransportFailed(
                String::from_str("unknown peer ").concat(
                    text::decimal_string(to.value()).as_str(),
                ),
            ),
        )
    }
}

/// Pull from the receiver in a lock.
pub(crate) fn pull<T>(inbox: &Mutex<Receiver<T>>) -> (o: Result<Option<T>, Error>)
    ensures
        pulls(*inbox, o),
{
    let locked = effect::call_once(Mutex::<Receiver<T>>::lock, inbox);
    match locked {
        Ok(guard) => {
            let rx = effect::call_once(<MutexGuard<'_, Receiver<T>> as Deref>::deref, &guard);
            assert(guards(guard, *rx));
            let answer = effect::call_once(Receiver::<T>::recv, rx);
            assert(takes(*rx, answer));
            match answer {
                Ok(item) => Ok(Some(item)),
                Err(_) => Ok(None),
            }
        },
        Err(cause) => {
            let reason = cause.to_string();
            Err(
                Error::TransportFailed(
                    String::from_str("mutex poisoned: ").concat(reason.as_str()),
                ),
            )
        },
    }
}

/// A clone-able sender handle: can publish packets to any peer in the network.
/// Backed by shared channel senders indexed by destination [`PeerIndex`].
#[must_use]
#[verifier::reject_recursive_types(P)]
pub struct InMemorySender<P: Send + 'static> {
    pub(crate) inboxes: Arc<Vec<Sender<(PeerIndex, P)>>>,
    pub(crate) self_peer: PeerIndex,
}

/// The inboxes of the network, and the sender's own index.
#[verifier::reject_recursive_types(P)]
pub struct SenderView<P> {
    pub inboxes: Seq<Sender<(PeerIndex, P)>>,
    pub self_peer: PeerIndex,
}

impl<P: Send + 'static> View for InMemorySender<P> {
    type V = SenderView<P>;

    open(crate) spec fn view(&self) -> SenderView<P> {
        SenderView { inboxes: self.inboxes@, self_peer: self.self_peer }
    }
}

impl<P: Send + 'static> Clone for InMemorySender<P> {
    fn clone(&self) -> (r: Self)
        ensures
            r@ == self@,
    {
        Self { inboxes: Arc::clone(&self.inboxes), self_peer: self.self_peer }
    }
}

impl<P: Send + 'static> InMemorySender<P> {
    /// Send a packet to the peer at `to`.
    ///
    /// Running the result gives [`Error::TransportFailed`] if `to` is out of
    /// range for the network or the destination's inbox has been dropped.
    #[must_use]
    pub fn send(&self, to: PeerIndex, packet: P) -> (io: Io<Error, ()>)
        ensures
            forall|r: Result<(), Error>| #[trigger]
                effect::runs_to(io, r) ==> sends(
                    self@.inboxes,
                    self@.self_peer,
                    to,
                    packet,
                    r,
                ),
    {
        let inboxes = Arc::clone(&self.inboxes);
        let from = self.self_peer;
        let body = move || -> (r: Result<(), Error>)
            ensures
                sends(inboxes@, from, to, packet, r),
            { send_to(&inboxes, from, to, packet) };
        effect::suspend(body)
    }

    /// This sender's own peer index.
    pub fn self_peer(&self) -> (r: PeerIndex)
        ensures
            r == self@.self_peer,
    {
        self.self_peer
    }
}

/// One peer's transport: owns the inbox receiver and provides a sender.
#[must_use]
#[verifier::reject_recursive_types(P)]
pub struct InMemoryTransport<P: Send + 'static> {
    pub(crate) sender: InMemorySender<P>,
    pub(crate) inbox: Receiver<(PeerIndex, P)>,
    pub(crate) peer_count: usize,
}

/// The sender, the inbox and the number of peers.
#[verifier::reject_recursive_types(P)]
pub struct TransportView<P> {
    pub sender: SenderView<P>,
    pub inbox: Receiver<(PeerIndex, P)>,
    pub peer_count: usize,
}

impl<P: Send + 'static> View for InMemoryTransport<P> {
    type V = TransportView<P>;

    open(crate) spec fn view(&self) -> TransportView<P> {
        TransportView { sender: self.sender@, inbox: self.inbox, peer_count: self.peer_count }
    }
}

impl<P: Send + 'static> InMemoryTransport<P> {
    /// A clone of this transport's sender handle.
    pub fn sender(&self) -> (r: InMemorySender<P>)
        ensures
            r@ == self@.sender,
    {
        self.sender.clone()
    }

    /// This transport's own peer index.
    pub fn self_peer(&self) -> (r: PeerIndex)
        ensures
            r == self@.sender.self_peer,
    {
        self.sender.self_peer()
    }

    /// Number of peers in the network.
    #[must_use]
    pub fn peer_count(&self) -> (r: usize)
        ensures
            r == self@.peer_count,
    {
        self.peer_count
    }

    /// Consume this transport into a [`Stream`] of inbound packets, each with
    /// its source peer.  The stream ends when every sender targeting this inbox
    /// has been dropped.
    #[must_use]
    pub fn into_inbound(self) -> (stream: Stream<Error, (PeerIndex, P)>)
        ensures
            exists|inbox: Mutex<Receiver<(PeerIndex, P)>>| #[trigger]
                is_locked(self@.inbox, inbox) && is_inbound(inbox, stream),
            exists|inbox: Inbox<(PeerIndex, P)>| #[trigger]
                is_locked(self@.inbox, inbox.lock()) && inbox.is_fresh(inbox.lock()) && empties(
                    inbox,
                    stream,
                ),
    {
        let locked = effect::call_once(Mutex::<Receiver<(PeerIndex, P)>>::new, self.inbox);
        let ghost held = locked;
        let inbox = Inbox::new(locked);
        let ghost first = inbox;
        let step = |inbox: Inbox<(PeerIndex, P)>|
         -> (io: Io<Error, Option<((PeerIndex, P), Inbox<(PeerIndex, P)>)>>)
            ensures
                forall|o: Result<Option<((PeerIndex, P), Inbox<(PeerIndex, P)>)>, Error>|
                    #[trigger]
                    effect::runs_to(io, o) ==> takes_step(inbox, o),
            {
                let body = move || -> (o: Result<
                    Option<((PeerIndex, P), Inbox<(PeerIndex, P)>)>,
                    Error,
                >)
                    ensures
                        takes_step(inbox, o),
                    { take_step(inbox) };
                effect::suspend(body)
            };
        let stream = effect::unfold(inbox, step);
        proof {
            assert(is_locked(self@.inbox, held));
            assert forall|limit: Option<usize>, r: Result<Vec<(PeerIndex, P)>, Error>| #[trigger]
                effect::yields(stream, limit, r) implies drains(held, limit, r) && emptied(
                first,
                limit,
                r,
            ) by {
                assert(effect::unfolds(first, step, limit, r));
                let (items, states) = choose|
                    items: Seq<(PeerIndex, P)>,
                    states: Seq<Inbox<(PeerIndex, P)>>,
                | #[trigger]
                    effect::unfold_trace(first, step, items, states) && match r {
                        Ok(all) => {
                            &&& all@ == items
                            &&& limit matches Some(n) ==> items.len() <= n
                            &&& (limit matches Some(n) && items.len() == n) || effect::step_gives(
                                step,
                                states.last(),
                                Ok(None),
                            )
                        },
                        Err(e) => {
                            &&& limit matches Some(n) ==> items.len() < n
                            &&& effect::step_gives(step, states.last(), Err(e))
                        },
                    };
                assert forall|i: int| 0 <= i < items.len() implies call_ensures(
                    Inbox::<(PeerIndex, P)>::take,
                    (states[i],),
                    (Ok(Some(#[trigger] items[i])), states[i + 1]),
                ) by {
                    assert(effect::step_gives(
                        step,
                        states[i],
                        Ok(Some((items[i], states[i + 1]))),
                    ));
                }
                assert(take_trace(first, items, states));
                lemma_take_trace(first, items, states, items.len() as int);
                assert(states[items.len() as int] == states.last());
                assert forall|i: int| 0 <= i < items.len() implies pulls(
                    held,
                    Ok::<Option<(PeerIndex, P)>, Error>(Some(#[trigger] items[i])),
                ) by {
                    lemma_take_trace(first, items, states, i);
                }
            }
            assert(is_inbound(held, stream));
            assert(is_locked(self@.inbox, first.lock()));
        }
        stream
    }
}

/// Take the next item from an inbox, as a step of a stream.
fn take_step<T>(inbox: Inbox<T>) -> (o: Result<Option<(T, Inbox<T>)>, Error>)
    ensures
        takes_step(inbox, o),
        pulls_step(inbox.lock(), o),
{
    let out = effect::call_once(Inbox::<T>::take, inbox);
    match out.0 {
        Ok(Some(item)) => Ok(Some((item, out.1))),
        Ok(None) => Ok(None),
        Err(e) => Err(e),
    }
}

/// One step of an inbound stream.
pub open spec fn pulls_step<T, S>(
    inbox: Mutex<Receiver<T>>,
    o: Result<Option<(T, S)>, Error>,
) -> bool {
    match o {
        Ok(Some((item, _))) => pulls(inbox, Ok::<Option<T>, Error>(Some(item))),
        Ok(None) => pulls(inbox, Ok::<Option<T>, Error>(None)),
        Err(e) => pulls(inbox, Err::<Option<T>, Error>(e)),
    }
}

/// `o` is what taking from `inbox` once gave, with the inbox that is left.
pub open spec fn takes_step<T>(inbox: Inbox<T>, o: Result<Option<(T, Inbox<T>)>, Error>) -> bool {
    match o {
        Ok(Some((item, left))) => call_ensures(
            Inbox::<T>::take,
            (inbox,),
            (Ok::<Option<T>, Error>(Some(item)), left),
        ),
        Ok(None) => exists|left: Inbox<T>| #[trigger]
            call_ensures(Inbox::<T>::take, (inbox,), (Ok::<Option<T>, Error>(None), left)),
        Err(e) => exists|left: Inbox<T>| #[trigger]
            call_ensures(Inbox::<T>::take, (inbox,), (Err::<Option<T>, Error>(e), left)),
    }
}

/// Each of `items` was taken from the inbox that the one before it left.
pub open spec fn take_trace<T>(first: Inbox<T>, items: Seq<T>, inboxes: Seq<Inbox<T>>) -> bool {
    &&& inboxes.len() == items.len() + 1
    &&& inboxes.first() == first
    &&& forall|i: int|
        0 <= i < items.len() ==> call_ensures(
            Inbox::<T>::take,
            (inboxes[i],),
            (Ok::<Option<T>, Error>(Some(#[trigger] items[i])), inboxes[i + 1]),
        )
}

/// `r` is what taking one item after the other gives, up to a limit, until nothing
/// comes or a lock fails.
pub open spec fn emptied<T>(
    first: Inbox<T>,
    limit: Option<usize>,
    r: Result<Vec<T>, Error>,
) -> bool {
    exists|items: Seq<T>, inboxes: Seq<Inbox<T>>| #[trigger]
        take_trace(first, items, inboxes) && match r {
            Ok(all) => {
                &&& all@ == items
                &&& limit matches Some(n) ==> items.len() <= n
                &&& (limit matches Some(n) && items.len() == n) || takes_step(
                    inboxes.last(),
                    Ok(None),
                )
            },
            Err(e) => {
                &&& limit matches Some(n) ==> items.len() < n
                &&& takes_step(inboxes.last(), Err(e))
            },
        }
}

/// All that `stream` gives was taken from `inbox`, one item after the other.
pub open spec fn empties<T: Send + 'static>(inbox: Inbox<T>, stream: Stream<Error, T>) -> bool {
    forall|limit: Option<usize>, r: Result<Vec<T>, Error>| #[trigger]
        effect::yields(stream, limit, r) ==> emptied(inbox, limit, r)
}

/// After `i` items, what was taken from an inbox is those items.
proof fn lemma_take_trace<T>(first: Inbox<T>, items: Seq<T>, inboxes: Seq<Inbox<T>>, i: int)
    requires
        take_trace(first, items, inboxes),
        0 <= i <= items.len(),
    ensures
        inboxes[i].lock() == first.lock(),
        inboxes[i].taken() == first.taken() + items.take(i),
    decreases i,
{
    if i == 0 {
        assert(first.taken() + items.take(0) =~= first.taken());
    } else {
        lemma_take_trace(first, items, inboxes, i - 1);
        assert(call_ensures(
            Inbox::<T>::take,
            (inboxes[i - 1],),
            (Ok::<Option<T>, Error>(Some(items[i - 1])), inboxes[i - 1 + 1]),
        ));
        assert(first.taken() + items.take(i) =~= (first.taken() + items.take(i - 1)).push(
            items[i - 1],
        ));
    }
}

/// Nothing is lost or changed on the way from an inbox to the items of its stream:
/// collecting the stream leaves the inbox with a record of exactly the collected
/// items, in the order in which they were taken.  A stream that ended by itself
/// found the inbox empty right behind the last of them.
pub proof fn lemma_inbound_complete<T: Send + 'static>(
    inbox: Inbox<T>,
    stream: Stream<Error, T>,
    limit: Option<usize>,
    items: Vec<T>,
)
    requires
        inbox.is_fresh(inbox.lock()),
        empties(inbox, stream),
        effect::yields(stream, limit, Ok(items)),
    ensures
        exists|inboxes: Seq<Inbox<T>>| #[trigger]
            take_trace(inbox, items@, inboxes) && inboxes.last().taken() == items@
                && inboxes.last().lock() == inbox.lock() && (limit != Some(items@.len() as usize)
                ==> exists|left: Inbox<T>| #[trigger]
                call_ensures(
                    Inbox::<T>::take,
                    (inboxes.last(),),
                    (Ok::<Option<T>, Error>(None), left),
                ) && left.taken() == items@),
{
    let (all, inboxes) = choose|all: Seq<T>, inboxes: Seq<Inbox<T>>| #[trigger]
        take_trace(inbox, all, inboxes) && items@ == all && (limit matches Some(n) ==> all.len()
            <= n) && ((limit matches Some(n) && all.len() == n) || takes_step(
            inboxes.last(),
            Ok(None),
        ));
    lemma_take_trace(inbox, all, inboxes, all.len() as int);
    assert(all.take(all.len() as int) =~= all);
    assert(inbox.taken() + all =~= all);
    assert(take_trace(inbox, items@, inboxes));
}

/// Factory that wires peers into a full-mesh in-memory network.
#[must_use]
#[verifier::reject_recursive_types(P)]
pub struct InMemoryNetwork<P: Send + 'static> {
    pub(crate) transports: Vec<InMemoryTransport<P>>,
}

/// A full mesh: transport `i` belongs to peer `i` and receives from the channel
/// to which every sender of the network sends for destination `i`.
pub open spec fn is_mesh<P: Send + 'static>(
    transports: Seq<InMemoryTransport<P>>,
    peer_count: nat,
) -> bool {
    &&& transports.len() == peer_count
    &&& exists|inboxes: Seq<Sender<(PeerIndex, P)>>|
        #![trigger inboxes.len()]
        inboxes.len() == peer_count && forall|i: int|
            0 <= i < peer_count ==> is_member(inboxes, peer_count, i, #[trigger] transports[i]@)
}

/// The transport of peer `i` in a network with the given inboxes.
pub open spec fn is_member<P>(
    inboxes: Seq<Sender<(PeerIndex, P)>>,
    peer_count: nat,
    i: int,
    transport: TransportView<P>,
) -> bool {
    &&& transport.sender.inboxes == inboxes
    &&& transport.sender.self_peer@ == i
    &&& transport.peer_count == peer_count
    &&& is_channel(inboxes[i], transport.inbox)
}

/// In a full mesh every peer reaches every peer: what peer `i` sends to peer `j` is
/// put, with `i` as its source, into the channel from which the transport of peer
/// `j` receives, and the sender learns what that channel answers.  A destination
/// outside the network is refused.
pub proof fn lemma_send_reaches<P: Send + 'static>(
    transports: Seq<InMemoryTransport<P>>,
    peer_count: nat,
    i: int,
    to: PeerIndex,
    packet: P,
    r: Result<(), Error>,
)
    requires
        is_mesh(transports, peer_count),
        0 <= i < peer_count,
        sends(transports[i]@.sender.inboxes, transports[i]@.sender.self_peer, to, packet, r),
    ensures
        to@ >= peer_count ==> (r matches Err(e) && is_unknown_peer(e, to@)),
        to@ < peer_count ==> exists|
            tx: Sender<(PeerIndex, P)>,
            from: PeerIndex,
            answer: Result<(), SendError<(PeerIndex, P)>>,
        |
            is_channel(tx, transports[to@ as int]@.inbox) && from@ == i && #[trigger] puts(
                tx,
                (from, packet),
                answer,
            ) && (answer is Ok <==> r is Ok),
{
    let inboxes = choose|inboxes: Seq<Sender<(PeerIndex, P)>>|
        #![trigger inboxes.len()]
        inboxes.len() == peer_count && forall|i: int|
            0 <= i < peer_count ==> is_member(inboxes, peer_count, i, #[trigger] transports[i]@);
    assert(is_member(inboxes, peer_count, i, transports[i]@));
    if to@ < peer_count {
        let j = to@ as int;
        assert(is_member(inboxes, peer_count, j, transports[j]@));
        let from = transports[i]@.sender.self_peer;
        let answer = choose|answer: Result<(), SendError<(PeerIndex, P)>>| #[trigger]
            puts(inboxes[j], (from, packet), answer) && match (answer, r) {
                (Ok(_), Ok(_)) => true,
                (Err(cause), Err(e)) => is_closed(cause, e),
                _ => false,
            };
        assert(puts(inboxes[j], (from, packet), answer));
    }
}

impl<P: Send + 'static> View for InMemoryNetwork<P> {
    type V = Seq<InMemoryTransport<P>>;

    open(crate) spec fn view(&self) -> Seq<InMemoryTransport<P>> {
        self.transports@
    }
}

impl<P: Send + 'static> InMemoryNetwork<P> {
    /// Build a fresh network with `peer_count` peers.  Every peer can send to
    /// every peer, including itself.
    pub fn new(peer_count: usize) -> (r: Self)
        ensures
            is_mesh(r@, peer_count as nat),
    {
        let mut senders: Vec<Sender<(PeerIndex, P)>> = Vec::with_capacity(peer_count);
        let mut receivers: VecDeque<Receiver<(PeerIndex, P)>> = VecDeque::new();
        let mut i: usize = 0;
        while i < peer_count
            invariant
                i <= peer_count,
                senders@.len() == i,
                receivers@.len() == i,
                forall|k: int| 0 <= k < i ==> is_channel(#[trigger] senders@[k], receivers@[k]),
            decreases peer_count - i,
        {
            let ends = effect::call_bare(channel::<(PeerIndex, P)>);
            assert(is_channel(ends.0, ends.1));
            senders.push(ends.0);
            receivers.push_back(ends.1);
            i += 1;
        }
        let all_senders = Arc::new(senders);
        let ghost inboxes = all_senders@;
        let ghost all = receivers@;
        let mut transports: Vec<InMemoryTransport<P>> = Vec::with_capacity(peer_count);
        let mut i: usize = 0;
        while i < peer_count
            invariant
                i <= peer_count,
                inboxes == all_senders@,
                inboxes.len() == peer_count,
                all.len() == peer_count,
                receivers@ == all.skip(i as int),
                forall|k: int| 0 <= k < peer_count ==> is_channel(#[trigger] inboxes[k], all[k]),
                transports@.len() == i,
                forall|k: int|
                    0 <= k < i ==> is_member(
                        inboxes,
                        peer_count as nat,
                        k,
                        #[trigger] transports@[k]@,
                    ),
            decreases peer_count - i,
        {
            match receivers.pop_front() {
                Some(inbox) => {
                    let sender = InMemorySender {
                        inboxes: Arc::clone(&all_senders),
                        self_peer: PeerIndex::from(i),
                    };
                    let transport = InMemoryTransport { sender, inbox, peer_count };
                    assert(is_channel(inboxes[i as int], all[i as int]));
                    assert(is_member(inboxes, peer_count as nat, i as int, transport@));
                    transports.push(transport);
                },
                None => {},
            }
            assert(receivers@ =~= all.skip(i + 1));
            i += 1;
        }
        proof {
            assert forall|k: int| 0 <= k < peer_count implies is_member(
                inboxes,
                peer_count as nat,
                k,
                #[trigger] transports@[k]@,
            ) by {}
            assert(inboxes.len() == peer_count);
        }
        Self { transports }
    }

    /// Consume the network into its per-peer transports.
    #[must_use]
    pub fn into_transports(self) -> (r: Vec<InMemoryTransport<P>>)
        ensures
            r@ == self@,
    {
        self.transports
    }
}

} // verus!
