//! Asking a source, with a record of what it was asked and what it answered.
//!
//! A source is a closure, and to a contract a closure is the relation between its
//! arguments and its possible results: the relation does not tell one call from
//! two.  A [`Journal`] does.  It owns the source, asking moves it on, and its
//! record grows by exactly one entry for each call.  It can be neither copied nor
//! made up: outside this module there is no way to a record but by asking.  So a
//! contract that says what the record grew by says which calls were made, in which
//! order, and that no answer was left out or used in place of another.
use crate::error::Error;
use vstd::prelude::*;

verus! {

/// A source, with the questions it was asked and the answers it gave, in order.
#[verifier::reject_recursive_types(X)]
#[verifier::reject_recursive_types(Y)]
#[verifier::reject_recursive_types(F)]
pub struct Journal<X, Y, F: Fn(X) -> Y> {
    source: F,
    record: Ghost<Seq<(X, Y)>>,
}

/// A journal of a random source: requests for a number of bytes, and the answers.
pub type Draws<F> = Journal<usize, Result<Vec<u8>, Error>, F>;

impl<X, Y, F: Fn(X) -> Y> Journal<X, Y, F> {
    /// Every entry of the record is a question with an answer of the source.
    #[verifier::type_invariant]
    spec fn is_kept(self) -> bool {
        all_answered(self.source, self.record@)
    }

    /// The source.
    pub closed spec fn source(self) -> F {
        self.source
    }

    /// What the source was asked and what it answered, in order.
    pub closed spec fn record(self) -> Seq<(X, Y)> {
        self.record@
    }

    /// The source has not been asked anything.
    pub open spec fn is_fresh(self, source: F) -> bool {
        self.source() == source && self.record() == Seq::<(X, Y)>::empty()
    }

    /// Between `before` and this journal the source was asked exactly `entries`.
    pub open spec fn follows(self, before: Self, entries: Seq<(X, Y)>) -> bool {
        &&& self.source() == before.source()
        &&& self.record() == before.record() + entries
        &&& all_answered(self.source(), entries)
    }

    /// A journal of a source that has not been asked anything.
    pub fn new(source: F) -> (r: Self)
        ensures
            r.is_fresh(source),
    {
        Self { source, record: Ghost(Seq::empty()) }
    }

    /// Ask the source once.
    pub fn ask(self, x: X) -> (out: (Y, Self))
        requires
            self.source().requires((x,)),
        ensures
            out.1.follows(self, seq![(x, out.0)]),
    {
        proof {
            use_type_invariant(&self);
        }
        let Journal { source, record } = self;
        let ghost asked = x;
        let y = source(x);
        let ghost entries = record@.push((asked, y));
        assert(record@ + seq![(asked, y)] =~= entries);
        (y, Self { source, record: Ghost(entries) })
    }
}

/// Every entry is a question with an answer of the source to it.
pub open spec fn all_answered<X, Y, F: Fn(X) -> Y>(source: F, entries: Seq<(X, Y)>) -> bool {
    forall|i: int|
        0 <= i < entries.len() ==> source.ensures(((#[trigger] entries[i]).0,), entries[i].1)
}

/// Nothing was asked between a journal and itself.
pub proof fn lemma_follows_itself<X, Y, F: Fn(X) -> Y>(journal: Journal<X, Y, F>)
    ensures
        journal.follows(journal, Seq::empty()),
{
    assert(journal.record() + Seq::<(X, Y)>::empty() =~= journal.record());
}

/// What was asked first and what was asked next was asked one after the other.
pub proof fn lemma_follows_on<X, Y, F: Fn(X) -> Y>(
    before: Journal<X, Y, F>,
    first: Seq<(X, Y)>,
    between: Journal<X, Y, F>,
    next: Seq<(X, Y)>,
    after: Journal<X, Y, F>,
)
    requires
        between.follows(before, first),
        after.follows(between, next),
    ensures
        after.follows(before, first + next),
{
    let all = first + next;
    assert(before.record() + first + next =~= before.record() + all);
    assert forall|i: int| 0 <= i < all.len() implies after.source().ensures(
        ((#[trigger] all[i]).0,),
        all[i].1,
    ) by {
        if i < first.len() {
            assert(all[i] == first[i]);
        } else {
            assert(all[i] == next[i - first.len()]);
        }
    }
}

/// What was asked between two journals is fixed by their records.
pub proof fn lemma_follows_unique<X, Y, F: Fn(X) -> Y>(
    before: Journal<X, Y, F>,
    after: Journal<X, Y, F>,
    a: Seq<(X, Y)>,
    b: Seq<(X, Y)>,
)
    requires
        after.follows(before, a),
        after.follows(before, b),
    ensures
        a == b,
{
    let n = before.record().len() as int;
    assert(after.record().skip(n) =~= a);
    assert(after.record().skip(n) =~= b);
}

/// The answers of a record.
pub open spec fn answers_of<X, Y>(entries: Seq<(X, Y)>) -> Seq<Y> {
    Seq::new(entries.len(), |i: int| entries[i].1)
}

/// `all` is `first` with `next` behind it.
pub open spec fn joins<T>(first: Seq<T>, next: Seq<T>, all: Seq<T>) -> bool {
    all == first + next
}

/// A source of two arguments, with the questions it was asked and the answers it
/// gave, in order.
#[verifier::reject_recursive_types(W)]
#[verifier::reject_recursive_types(X)]
#[verifier::reject_recursive_types(Y)]
#[verifier::reject_recursive_types(F)]
pub struct PairJournal<W, X, Y, F: Fn(W, X) -> Y> {
    source: F,
    record: Ghost<Seq<((W, X), Y)>>,
}

impl<W, X, Y, F: Fn(W, X) -> Y> PairJournal<W, X, Y, F> {
    /// Every entry of the record is a question with an answer of the source.
    #[verifier::type_invariant]
    spec fn is_kept(self) -> bool {
        all_pairs_answered(self.source, self.record@)
    }

    /// The source.
    pub closed spec fn source(self) -> F {
        self.source
    }

    /// What the source was asked and what it answered, in order.
    pub closed spec fn record(self) -> Seq<((W, X), Y)> {
        self.record@
    }

    /// The source has not been asked anything.
    pub open spec fn is_fresh(self, source: F) -> bool {
        self.source() == source && self.record() == Seq::<((W, X), Y)>::empty()
    }

    /// Between `before` and this journal the source was asked exactly `entries`.
    pub open spec fn follows(self, before: Self, entries: Seq<((W, X), Y)>) -> bool {
        &&& self.source() == before.source()
        &&& self.record() == before.record() + entries
        &&& all_pairs_answered(self.source(), entries)
    }

    /// A journal of a source that has not been asked anything.
    pub fn new(source: F) -> (r: Self)
        ensures
            r.is_fresh(source),
    {
        Self { source, record: Ghost(Seq::empty()) }
    }

    /// Ask the source once.
    pub fn ask(self, w: W, x: X) -> (out: (Y, Self))
        requires
            self.source().requires((w, x)),
        ensures
            out.1.follows(self, seq![((w, x), out.0)]),
    {
        proof {
            use_type_invariant(&self);
        }
        let PairJournal { source, record } = self;
        let ghost asked = (w, x);
        let y = source(w, x);
        let ghost entries = record@.push((asked, y));
        assert(record@ + seq![(asked, y)] =~= entries);
        (y, Self { source, record: Ghost(entries) })
    }
}

/// Every entry is a question with an answer of the source to it.
pub open spec fn all_pairs_answered<W, X, Y, F: Fn(W, X) -> Y>(
    source: F,
    entries: Seq<((W, X), Y)>,
) -> bool {
    forall|i: int|
        0 <= i < entries.len() ==> source.ensures((#[trigger] entries[i]).0, entries[i].1)
}

/// Nothing was asked between a journal and itself.
pub proof fn lemma_pairs_follow_themselves<W, X, Y, F: Fn(W, X) -> Y>(
    journal: PairJournal<W, X, Y, F>,
)
    ensures
        journal.follows(journal, Seq::empty()),
{
    assert(journal.record() + Seq::<((W, X), Y)>::empty() =~= journal.record());
}

/// What was asked first and what was asked next was asked one after the other.
pub proof fn lemma_pairs_follow_on<W, X, Y, F: Fn(W, X) -> Y>(
    before: PairJournal<W, X, Y, F>,
    first: Seq<((W, X), Y)>,
    between: PairJournal<W, X, Y, F>,
    next: Seq<((W, X), Y)>,
    after: PairJournal<W, X, Y, F>,
)
    requires
        between.follows(before, first),
        after.follows(between, next),
    ensures
        after.follows(before, first + next),
{
    let all = first + next;
    assert(before.record() + first + next =~= before.record() + all);
    assert forall|i: int| 0 <= i < all.len() implies after.source().ensures(
        (#[trigger] all[i]).0,
        all[i].1,
    ) by {
        if i < first.len() {
            assert(all[i] == first[i]);
        } else {
            assert(all[i] == next[i - first.len()]);
        }
    }
}

/// What holds of all entries holds of the first and of the next.
pub proof fn lemma_answered_parts<X, Y, F: Fn(X) -> Y>(
    source: &F,
    first: Seq<(X, Y)>,
    next: Seq<(X, Y)>,
    all: Seq<(X, Y)>,
)
    requires
        joins(first, next, all),
        all_answered(*source, all),
    ensures
        all_answered(*source, first),
        all_answered(*source, next),
{
    assert forall|i: int| 0 <= i < first.len() implies source.ensures(
        ((#[trigger] first[i]).0,),
        first[i].1,
    ) by {
        assert(all[i] == first[i]);
    }
    assert forall|i: int| 0 <= i < next.len() implies source.ensures(
        ((#[trigger] next[i]).0,),
        next[i].1,
    ) by {
        assert(all[first.len() + i] == next[i]);
    }
}

} // verus!
