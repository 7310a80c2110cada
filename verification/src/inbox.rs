//! An inbox that keeps a record of what was taken from it.
//!
//! Taking moves the inbox on, and its record grows by the item that was taken.
//! Outside this module there is no way to an item but by taking it, and no way to
//! take one without its entry in the record.
use crate::error::Error;
use crate::transport;
use std::sync::mpsc::Receiver;
use std::sync::Mutex;
use vstd::prelude::*;

verus! {

/// The receiving half of a channel in a lock, with the items taken from it, in
/// order.
#[verifier::reject_recursive_types(T)]
pub struct Inbox<T> {
    lock: Mutex<Receiver<T>>,
    taken: Ghost<Seq<T>>,
}

/// The items, with the one that was taken if there was one.
pub open spec fn with_taken<T>(items: Seq<T>, o: Result<Option<T>, Error>) -> Seq<T> {
    match o {
        Ok(Some(item)) => items.push(item),
        _ => items,
    }
}

impl<T> Inbox<T> {
    /// The lock with the receiver.
    pub closed spec fn lock(self) -> Mutex<Receiver<T>> {
        self.lock
    }

    /// The items taken, in order.
    pub closed spec fn taken(self) -> Seq<T> {
        self.taken@
    }

    /// Nothing has been taken yet.
    pub open spec fn is_fresh(self, lock: Mutex<Receiver<T>>) -> bool {
        self.lock() == lock && self.taken() == Seq::<T>::empty()
    }

    /// An inbox from which nothing has been taken.
    pub fn new(lock: Mutex<Receiver<T>>) -> (r: Self)
        ensures
            r.is_fresh(lock),
    {
        Self { lock, taken: Ghost(Seq::empty()) }
    }

    /// Take the next item: nothing once the senders are gone.
    pub fn take(self) -> (out: (Result<Option<T>, Error>, Self))
        ensures
            transport::pulls(self.lock(), out.0),
            out.1.lock() == self.lock(),
            out.1.taken() == with_taken(self.taken(), out.0),
    {
        let Inbox { lock, taken } = self;
        let o = transport::pull(&lock);
        let ghost items = with_taken(taken@, o);
        (o, Self { lock, taken: Ghost(items) })
    }
}

} // verus!
