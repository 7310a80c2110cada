//! Vectors over `Z/QZ`.
//!
//! [`ZqVec`] is the vector-space counterpart to [`Zq`]: an owned, immutable
//! sequence of `Z/QZ` entries with linear-combination and squared-L2-norm
//! operations.  The norm uses the *signed* representative of each entry, since
//! "short" in a lattice always means "close to zero" in the balanced interval
//! `(-Q/2, Q/2]`.
use super::integers;
use super::zq::{self, Zq};
use crate::bytes;
use crate::effect;
use crate::error::Error;
use crate::journal::{self, Draws};
use vstd::arithmetic::div_mod::*;
use vstd::prelude::*;

verus! {

/// An immutable vector over `Z/QZ`.  Its view is the sequence of the canonical
/// representatives.
#[derive(Debug, PartialEq, Eq)]
#[must_use]
pub struct ZqVec<const Q: u32> {
    pub(crate) entries: Vec<Zq<Q>>,
}

/// The representatives of a sequence of elements.
pub open spec fn values_of<const Q: u32>(entries: Seq<Zq<Q>>) -> Seq<int> {
    Seq::new(entries.len(), |i: int| entries[i]@)
}

/// The views of a sequence of vectors.
pub open spec fn views_of<const Q: u32>(vecs: Seq<ZqVec<Q>>) -> Seq<Seq<int>> {
    Seq::new(vecs.len(), |i: int| vecs[i]@)
}

impl<const Q: u32> View for ZqVec<Q> {
    type V = Seq<int>;

    open(crate) spec fn view(&self) -> Seq<int> {
        values_of(self.entries@)
    }
}

impl<const Q: u32> Clone for ZqVec<Q> {
    fn clone(&self) -> (r: Self)
        ensures
            r@ == self@,
    {
        let entries = copy_entries(&self.entries);
        Self { entries }
    }
}

/// A copy of a list of elements.
pub(crate) fn copy_entries<const Q: u32>(entries: &Vec<Zq<Q>>) -> (r: Vec<Zq<Q>>)
    ensures
        values_of(r@) == values_of(entries@),
{
    let mut copy: Vec<Zq<Q>> = Vec::with_capacity(entries.len());
    let mut i: usize = 0;
    while i < entries.len()
        invariant
            i <= entries@.len(),
            copy@.len() == i,
            forall|k: int| 0 <= k < i ==> (#[trigger] copy@[k])@ == entries@[k]@,
        decreases entries@.len() - i,
    {
        copy.push(entries[i]);
        i += 1;
    }
    assert(values_of(copy@) =~= values_of(entries@));
    copy
}

/// The balanced signed representatives of a vector.
pub open spec fn signed(v: Seq<int>, q: int) -> Seq<int> {
    Seq::new(v.len(), |i: int| zq::balanced(v[i], q))
}

impl<const Q: u32> ZqVec<Q> {
    /// Create a vector from an owned entry list.
    pub fn new(entries: Vec<Zq<Q>>) -> (r: Self)
        ensures
            r@ == values_of(entries@),
    {
        Self { entries }
    }

    /// The zero vector of the given length.
    pub fn zeros(len: usize) -> (r: Self)
        ensures
            r@ == integers::zeros(len as nat),
    {
        let mut entries: Vec<Zq<Q>> = Vec::with_capacity(len);
        let mut i: usize = 0;
        while i < len
            invariant
                i <= len,
                entries@.len() == i,
                forall|k: int| 0 <= k < i ==> (#[trigger] entries@[k])@ == 0,
            decreases len - i,
        {
            entries.push(Zq::zero());
            i += 1;
        }
        assert(values_of(entries@) =~= integers::zeros(len as nat));
        Self { entries }
    }

    /// The number of entries.
    #[must_use]
    pub fn len(&self) -> (r: usize)
        ensures
            r == self@.len(),
    {
        self.entries.len()
    }

    /// Whether the vector has zero length.
    #[must_use]
    pub fn is_empty(&self) -> (r: bool)
        ensures
            r == (self@.len() == 0),
    {
        self.entries.len() == 0
    }

    /// A borrowed slice of the entries.
    pub fn entries(&self) -> (r: &[Zq<Q>])
        ensures
            values_of(r@) == self@,
    {
        self.entries.as_slice()
    }

    /// The entry at `index`, if in bounds.
    #[must_use]
    pub fn get(&self, index: usize) -> (r: Option<Zq<Q>>)
        ensures
            index >= self@.len() ==> r is None,
            index < self@.len() ==> (r matches Some(e) && e@ == self@[index as int]),
    {
        if index < self.entries.len() {
            Some(self.entries[index])
        } else {
            None
        }
    }

    /// Whether two vectors have the same entries.
    pub(crate) fn same(&self, other: &Self) -> (r: bool)
        ensures
            r == (self@ == other@),
    {
        if self.entries.len() != other.entries.len() {
            assert(self@.len() != other@.len());
            return false;
        }
        let mut i: usize = 0;
        while i < self.entries.len()
            invariant
                i <= self.entries@.len(),
                self.entries@.len() == other.entries@.len(),
                forall|k: int| 0 <= k < i ==> self@[k] == #[trigger] other@[k],
            decreases self.entries@.len() - i,
        {
            if self.entries[i].value() != other.entries[i].value() {
                assert(self@[i as int] != other@[i as int]);
                return false;
            }
            i += 1;
        }
        assert(self@ =~= other@);
        true
    }

    /// The linear combination `sum(scalars[i] * vecs[i])`.
    ///
    /// All input vectors must share a common length; the output has that same
    /// length.  An empty input yields a length-zero vector.  Otherwise the first
    /// inconsistency is reported as [`Error::DimensionMismatch`].
    pub fn linear_combine(scalars: &[Zq<Q>], vecs: &[Self]) -> (r: Result<Self, Error>)
        requires
            Q > 0,
        ensures
            ({
                let rows = views_of(vecs@);
                if integers::combinable(scalars@.len(), rows) {
                    r matches Ok(v) && v@ == integers::reduced(
                        integers::combination(
                            values_of(scalars@),
                            rows,
                            integers::first_width(rows),
                        ),
                        Q as int,
                    )
                } else {
                    r matches Err(e) && integers::is_combination_error(scalars@.len(), rows, e)
                }
            }),
    {
        if scalars.len() != vecs.len() {
            return Err(Error::DimensionMismatch { expected: scalars.len(), actual: vecs.len() });
        }
        let ghost rows = views_of(vecs@);
        let ghost cs = values_of(scalars@);
        let ghost q = Q as int;
        let dim: usize = if vecs.len() == 0 {
            0
        } else {
            vecs[0].len()
        };
        let mut i: usize = 0;
        while i < vecs.len()
            invariant
                i <= vecs@.len(),
                scalars@.len() == vecs@.len(),
                rows == views_of(vecs@),
                dim == integers::first_width(rows),
                forall|k: int| 0 <= k < i ==> (#[trigger] rows[k]).len() == dim,
            decreases vecs@.len() - i,
        {
            assert(rows[i as int] == vecs@[i as int]@);
            if vecs[i].len() != dim {
                assert(integers::first_odd_row(rows, i as int));
                return Err(Error::DimensionMismatch { expected: dim, actual: vecs[i].len() });
            }
            i += 1;
        }
        let zero = Self::zeros(dim);
        let ghost start = zero@;
        let mut acc: Vec<Zq<Q>> = zero.entries;
        proof {
            assert(start.len() == acc@.len());
            lemma_small_mod(0nat, q as nat);
            assert forall|j: int| 0 <= j < dim implies (#[trigger] acc@[j])@ == integers::dot(
                cs.take(0),
                integers::column(rows, j).take(0),
            ) % q by {
                assert(start[j] == 0);
            }
        }
        let mut i: usize = 0;
        while i < vecs.len()
            invariant
                Q > 0,
                q == Q as int,
                i <= vecs@.len(),
                scalars@.len() == vecs@.len(),
                rows == views_of(vecs@),
                cs == values_of(scalars@),
                integers::has_width(rows, dim as nat),
                acc@.len() == dim,
                forall|j: int|
                    0 <= j < dim ==> (#[trigger] acc@[j])@ == integers::dot(
                        cs.take(i as int),
                        integers::column(rows, j).take(i as int),
                    ) % q,
            decreases vecs@.len() - i,
        {
            let s = scalars[i];
            let v = &vecs[i];
            assert(rows[i as int].len() == dim);
            let mut next: Vec<Zq<Q>> = Vec::with_capacity(dim);
            let mut j: usize = 0;
            while j < dim
                invariant
                    Q > 0,
                    q == Q as int,
                    i < vecs@.len(),
                    scalars@.len() == vecs@.len(),
                    rows == views_of(vecs@),
                    cs == values_of(scalars@),
                    s == scalars@[i as int],
                    *v == vecs@[i as int],
                    v@.len() == dim,
                    j <= dim,
                    next@.len() == j,
                    acc@.len() == dim,
                    forall|j: int|
                        0 <= j < dim ==> (#[trigger] acc@[j])@ == integers::dot(
                            cs.take(i as int),
                            integers::column(rows, j).take(i as int),
                        ) % q,
                    forall|k: int|
                        0 <= k < j ==> (#[trigger] next@[k])@ == integers::dot(
                            cs.take(i + 1),
                            integers::column(rows, k).take(i + 1),
                        ) % q,
                decreases dim - j,
            {
                let ghost col = integers::column(rows, j as int);
                proof {
                    integers::lemma_dot_step(cs, col, i as int);
                    let d = integers::dot(cs.take(i as int), col.take(i as int));
                    let p = cs[i as int] * col[i as int];
                    lemma_mod_twice(d, q);
                    lemma_mod_twice(p, q);
                    integers::lemma_add_congruent(d % q, d, p % q, p, q);
                }
                next.push(acc[j] + s * v.entries[j]);
                j += 1;
            }
            acc = next;
            i += 1;
        }
        proof {
            let n = dim as nat;
            let c = integers::reduced(integers::combination(cs, rows, n), q);
            assert forall|j: int| 0 <= j < dim implies values_of(acc@)[j] == c[j] by {
                assert(acc@[j]@ == integers::dot(
                    cs.take(i as int),
                    integers::column(rows, j).take(i as int),
                ) % q);
                assert(cs.take(i as int) =~= cs);
                assert(integers::column(rows, j).take(i as int) =~= integers::column(rows, j));
            }
            assert(values_of(acc@) =~= c);
        }
        Ok(Self { entries: acc })
    }

    /// Pointwise addition, or [`Error::DimensionMismatch`] if lengths differ.
    pub fn add(&self, other: &Self) -> (r: Result<Self, Error>)
        requires
            Q > 0,
        ensures
            self@.len() != other@.len() ==> r == Err::<Self, Error>(
                Error::DimensionMismatch {
                    expected: self@.len() as usize,
                    actual: other@.len() as usize,
                },
            ),
            self@.len() == other@.len() ==> (r matches Ok(v) && v@ == integers::reduced(
                integers::sum(self@, other@),
                Q as int,
            )),
    {
        if self.len() == other.len() {
            let mut entries: Vec<Zq<Q>> = Vec::with_capacity(self.len());
            let mut i: usize = 0;
            while i < self.entries.len()
                invariant
                    Q > 0,
                    i <= self.entries@.len(),
                    self.entries@.len() == other.entries@.len(),
                    entries@.len() == i,
                    forall|k: int|
                        0 <= k < i ==> (#[trigger] entries@[k])@ == (self@[k] + other@[k])
                            % Q as int,
                decreases self.entries@.len() - i,
            {
                entries.push(self.entries[i] + other.entries[i]);
                i += 1;
            }
            assert(values_of(entries@) =~= integers::reduced(
                integers::sum(self@, other@),
                Q as int,
            ));
            Ok(Self { entries })
        } else {
            Err(Error::DimensionMismatch { expected: self.len(), actual: other.len() })
        }
    }

    /// Multiply every entry by `scalar`.
    pub fn scale(&self, scalar: Zq<Q>) -> (r: Self)
        requires
            Q > 0,
        ensures
            r@ == integers::reduced(integers::scaled(scalar@, self@), Q as int),
    {
        let mut entries: Vec<Zq<Q>> = Vec::with_capacity(self.len());
        let mut i: usize = 0;
        while i < self.entries.len()
            invariant
                Q > 0,
                i <= self.entries@.len(),
                entries@.len() == i,
                forall|k: int|
                    0 <= k < i ==> (#[trigger] entries@[k])@ == (scalar@ * self@[k]) % Q as int,
            decreases self.entries@.len() - i,
        {
            entries.push(scalar * self.entries[i]);
            i += 1;
        }
        assert(values_of(entries@) =~= integers::reduced(
            integers::scaled(scalar@, self@),
            Q as int,
        ));
        Self { entries }
    }

    /// The sum of squared *signed* representatives.
    ///
    /// Each entry is interpreted in the balanced interval `(-Q/2, Q/2]` before
    /// squaring, so a value `Q - 1` contributes `1`, not `(Q-1)^2`.  The return
    /// type is `u128` so large vectors cannot overflow (for `Q < 2^32` each
    /// square is at most `2^62`).
    #[must_use]
    pub fn squared_l2_norm(&self) -> (r: u128)
        requires
            Q > 0,
        ensures
            r == integers::squared_norm(signed(self@, Q as int)),
    {
        let ghost s = signed(self@, Q as int);
        let mut total: u128 = 0;
        let mut i: usize = 0;
        assert(s.take(0).len() == 0);
        while i < self.entries.len()
            invariant
                Q > 0,
                i <= self.entries@.len(),
                s == signed(self@, Q as int),
                total == integers::dot(s.take(i as int), s.take(i as int)),
                total <= i * 0x4000_0000_0000_0000,
            decreases self.entries@.len() - i,
        {
            let x: i64 = self.entries[i].signed_repr();
            let a: u128 = if x < 0 {
                (-x) as u128
            } else {
                x as u128
            };
            proof {
                integers::lemma_dot_step(s, s, i as int);
                assert(a <= 0x8000_0000);
                assert(a * a <= 0x4000_0000_0000_0000) by (nonlinear_arith)
                    requires
                        0 <= a <= 0x8000_0000,
                ;
                assert(a * a == x * x) by (nonlinear_arith)
                    requires
                        a == x || a == -x,
                ;
                assert(i * 0x4000_0000_0000_0000 + 0x4000_0000_0000_0000 == (i + 1)
                    * 0x4000_0000_0000_0000);
            }
            total = total + a * a;
            i += 1;
        }
        assert(s.take(i as int) =~= s);
        total
    }

    /// Sample a uniform vector of the given length.
    ///
    /// Each entry is drawn independently from the uniform distribution on
    /// `Z/QZ` via rejection sampling in [`Zq::sample`]; the first
    /// [`Error::RandomGenerationFailed`] of that sampler is the result.
    pub fn sample<F>(len: usize, rng: &F) -> (r: Result<Self, Error>) where
        F: Fn(usize) -> Result<Vec<u8>, Error>,

        requires
            Q > 0,
            rng.requires((4usize,)),
        ensures
            match r {
                Ok(v) => all_sampled(*rng, v@, Q, len as nat),
                Err(e) => {
                    &&& len > 0
                    &&& zq::sampled::<Q, F>(*rng, 32, Err(e))
                    &&& e is RandomGenerationFailed
                },
            },
            vector_asking(*rng, len, r),
    {
        match sample_entries(len, rng) {
            Ok(entries) => Ok(Self { entries }),
            Err(e) => Err(e),
        }
    }
}

/// Every one of `n` values is a sample of the random source.
pub open spec fn all_sampled<F: Fn(usize) -> Result<Vec<u8>, Error>>(
    rng: F,
    values: Seq<int>,
    q: u32,
    n: nat,
) -> bool {
    &&& values.len() == n
    &&& forall|i: int| 0 <= i < n ==> is_sample(rng, #[trigger] values[i], q)
}

/// `value` is the residue of a value below the limit that the random source gave.
pub open spec fn is_sample<F: Fn(usize) -> Result<Vec<u8>, Error>>(
    rng: F,
    value: int,
    q: u32,
) -> bool {
    exists|answer: Vec<u8>| #[trigger]
        rng.ensures((4usize,), Ok(answer)) && answer@.len() == 4 && bytes::le_value(
            answer@,
        ) < zq::draw_limit(q) && value == bytes::le_value(answer@) as int % q as int
}

/// Sample a list of elements.
pub(crate) fn sample_entries<const Q: u32, F>(len: usize, rng: &F) -> (r: Result<
    Vec<Zq<Q>>,
    Error,
>) where F: Fn(usize) -> Result<Vec<u8>, Error>
    requires
        Q > 0,
        rng.requires((4usize,)),
    ensures
        match r {
            Ok(v) => all_sampled(*rng, values_of(v@), Q, len as nat),
            Err(e) => {
                &&& len > 0
                &&& zq::sampled::<Q, F>(*rng, 32, Err(e))
                &&& e is RandomGenerationFailed
            },
        },
        entries_asking(*rng, len, r),
{
    let draws: Draws<&F> = Draws::new(rng);
    let ghost before = draws;
    let (r, left) = effect::call_pair(sample_entries_asking::<Q, &F>, len, draws);
    proof {
        assert(call_ensures(sample_entries_asking::<Q, &F>, (len, before), (r, left)));
        let asked = choose|asked: Seq<(usize, Result<Vec<u8>, Error>)>| #[trigger]
            entries_sampled(len as nat, asked, r) && left.follows(before, asked);
        lemma_entries_sampled(rng, len as nat, asked, r);
    }
    r
}

/// The entries are samples of consecutive stretches of `asked`, which together are all
/// of it.
pub open spec fn entries_with<const Q: u32>(asked: Seq<(usize, Result<Vec<u8>, Error>)>, entries: Seq<Zq<Q>>) -> bool
    decreases entries.len(),
{
    if entries.len() == 0 {
        asked.len() == 0
    } else {
        exists|first: Seq<(usize, Result<Vec<u8>, Error>)>, next: Seq<(usize, Result<Vec<u8>, Error>)>|
            entries_with(first, entries.drop_last()) && #[trigger] zq::sampled_with(
                32,
                next,
                Ok(entries.last()),
            ) && #[trigger] journal::joins(first, next, asked)
    }
}

/// `r` is what sampling `len` entries gives where `asked` is what the random source was
/// asked and answered: the entries, or the error of the first sample that failed.
pub open spec fn entries_sampled<const Q: u32>(
    len: nat,
    asked: Seq<(usize, Result<Vec<u8>, Error>)>,
    r: Result<Vec<Zq<Q>>, Error>,
) -> bool {
    match r {
        Ok(entries) => entries@.len() == len && entries_with(asked, entries@),
        Err(e) => exists|
            entries: Seq<Zq<Q>>,
            first: Seq<(usize, Result<Vec<u8>, Error>)>,
            next: Seq<(usize, Result<Vec<u8>, Error>)>,
        |
            entries.len() < len && #[trigger] entries_with(first, entries)
                && #[trigger] zq::sampled_with::<Q>(32, next, Err(e)) && journal::joins(
                first,
                next,
                asked,
            ),
    }
}

/// `r` is what sampling entries gives with a random source that was not asked before.
pub open spec fn entries_asking<const Q: u32, F: Fn(usize) -> Result<Vec<u8>, Error>>(
    rng: F,
    len: usize,
    r: Result<Vec<Zq<Q>>, Error>,
) -> bool {
    exists|before: Draws<&F>, after: Draws<&F>|
        before.is_fresh(&rng) && #[trigger] call_ensures(
            sample_entries_asking::<Q, &F>,
            (len, before),
            (r, after),
        )
}

/// Sample a list of elements, one after the other, with the answers of a random
/// source.
pub fn sample_entries_asking<const Q: u32, F>(len: usize, draws: Draws<F>) -> (out: (
    Result<Vec<Zq<Q>>, Error>,
    Draws<F>,
)) where F: Fn(usize) -> Result<Vec<u8>, Error>
    requires
        Q > 0,
        draws.source().requires((4usize,)),
    ensures
        exists|asked: Seq<(usize, Result<Vec<u8>, Error>)>| #[trigger]
            entries_sampled(len as nat, asked, out.0) && out.1.follows(draws, asked),
        out.0 matches Err(e) ==> e is RandomGenerationFailed,
{
    let mut entries: Vec<Zq<Q>> = Vec::new();
    let mut left = draws;
    let ghost mut asked: Seq<(usize, Result<Vec<u8>, Error>)> = Seq::empty();
    proof {
        journal::lemma_follows_itself(draws);
    }
    while entries.len() < len
        invariant
            Q > 0,
            draws.source().requires((4usize,)),
            entries@.len() <= len,
            entries_with(asked, entries@),
            left.follows(draws, asked),
        decreases len - entries@.len(),
    {
        let ghost prior = left;
        let (r, rest) = Zq::<Q>::sample_asking(left, 32);
        let ghost first = asked;
        let ghost next = choose|next: Seq<(usize, Result<Vec<u8>, Error>)>| #[trigger]
            zq::sampled_with(32, next, r) && rest.follows(prior, next);
        proof {
            journal::lemma_follows_on(draws, first, prior, next, rest);
            asked = first + next;
            assert(journal::joins(first, next, asked));
        }
        left = rest;
        match r {
            Ok(z) => {
                let ghost old_entries = entries@;
                entries.push(z);
                assert(entries@.drop_last() =~= old_entries);
                assert(entries@.last() == z);
                assert(zq::sampled_with(32, next, Ok(entries@.last())));
            },
            Err(e) => {
                let out = (Err(e), left);
                assert(entries_with(first, entries@));
                assert(zq::sampled_with::<Q>(32, next, Err(e)));
                assert(entries_sampled::<Q>(len as nat, asked, out.0));
                return out;
            },
        }
    }
    let out = (Ok(entries), left);
    assert(entries_sampled::<Q>(len as nat, asked, out.0));
    out
}

proof fn lemma_entries_with<const Q: u32, F: Fn(usize) -> Result<Vec<u8>, Error>>(
    rng: &F,
    asked: Seq<(usize, Result<Vec<u8>, Error>)>,
    entries: Seq<Zq<Q>>,
)
    requires
        entries_with(asked, entries),
        journal::all_answered(*rng, asked),
    ensures
        forall|i: int| 0 <= i < entries.len() ==> is_sample(*rng, (#[trigger] entries[i])@, Q),
    decreases entries.len(),
{
    if entries.len() > 0 {
        let (first, next) = choose|first: Seq<(usize, Result<Vec<u8>, Error>)>, next: Seq<(usize, Result<Vec<u8>, Error>)>|
            entries_with(first, entries.drop_last()) && #[trigger] zq::sampled_with(
                32,
                next,
                Ok(entries.last()),
            ) && #[trigger] journal::joins(first, next, asked);
        journal::lemma_answered_parts(rng, first, next, asked);
        lemma_entries_with(rng, first, entries.drop_last());
        let last = next.len() - 1;
        assert(rng.ensures((next[last].0,), next[last].1));
        assert(rng.ensures((4usize,), Ok(next[last].1->Ok_0)));
        assert forall|i: int| 0 <= i < entries.len() implies is_sample(
            *rng,
            (#[trigger] entries[i])@,
            Q,
        ) by {
            if i < entries.len() - 1 {
                assert(entries.drop_last()[i] == entries[i]);
            }
        }
    }
}

/// Entries sampled with answers of the random source are samples of it.
pub proof fn lemma_entries_sampled<const Q: u32, F: Fn(usize) -> Result<Vec<u8>, Error>>(
    rng: &F,
    len: nat,
    asked: Seq<(usize, Result<Vec<u8>, Error>)>,
    r: Result<Vec<Zq<Q>>, Error>,
)
    requires
        entries_sampled(len, asked, r),
        journal::all_answered(*rng, asked),
    ensures
        match r {
            Ok(v) => all_sampled(*rng, values_of(v@), Q, len),
            Err(e) => len > 0 && zq::sampled::<Q, F>(*rng, 32, Err(e)),
        },
{
    match r {
        Ok(v) => {
            lemma_entries_with(rng, asked, v@);
            assert forall|i: int| 0 <= i < len implies is_sample(
                *rng,
                #[trigger] values_of(v@)[i],
                Q,
            ) by {
                assert(is_sample(*rng, v@[i]@, Q));
            }
        },
        Err(e) => {
            let (entries, first, next) = choose|
                entries: Seq<Zq<Q>>,
                first: Seq<(usize, Result<Vec<u8>, Error>)>,
                next: Seq<(usize, Result<Vec<u8>, Error>)>,
            |
                entries.len() < len && #[trigger] entries_with(first, entries)
                    && #[trigger] zq::sampled_with::<Q>(32, next, Err(e)) && journal::joins(
                    first,
                    next,
                    asked,
                );
            journal::lemma_answered_parts(rng, first, next, asked);
            zq::lemma_sampled_with::<Q, F>(rng, 32, next, Err(e));
        },
    }
}

/// An answer of four bytes whose value lies below the largest multiple of `q` that
/// four bytes can hold.
pub open spec fn is_residue(q: u32, entry: (usize, Result<Vec<u8>, Error>)) -> bool {
    entry.1 matches Ok(answer) && answer@.len() == 4 && bytes::le_value(answer@) < u32::MAX - (
    u32::MAX as int % q as int)
}

/// The residues of such answers, in order.
pub open spec fn residues(q: u32, asked: Seq<(usize, Result<Vec<u8>, Error>)>) -> Seq<int>
    decreases asked.len(),
{
    if asked.len() == 0 {
        Seq::empty()
    } else {
        let before = residues(q, asked.drop_last());
        if is_residue(q, asked.last()) {
            before.push(bytes::le_value(asked.last().1->Ok_0@) as int % q as int)
        } else {
            before
        }
    }
}

proof fn lemma_residues_joined(q: u32, first: Seq<(usize, Result<Vec<u8>, Error>)>, next: Seq<(usize, Result<Vec<u8>, Error>)>)
    ensures
        residues(q, first + next) == residues(q, first) + residues(q, next),
    decreases next.len(),
{
    let all = first + next;
    if next.len() == 0 {
        assert(all =~= first);
    } else {
        lemma_residues_joined(q, first, next.drop_last());
        assert(all.drop_last() =~= first + next.drop_last());
        assert(all.last() == next.last());
    }
    assert(residues(q, all) =~= residues(q, first) + residues(q, next));
}

proof fn lemma_rejected_run(q: u32, asked: Seq<(usize, Result<Vec<u8>, Error>)>)
    requires
        forall|i: int| 0 <= i < asked.len() ==> zq::rejected_draw(q, (#[trigger] asked[i]).1),
    ensures
        residues(q, asked).len() == 0,
    decreases asked.len(),
{
    if asked.len() > 0 {
        let rest = asked.drop_last();
        assert forall|i: int| 0 <= i < rest.len() implies zq::rejected_draw(
            q,
            (#[trigger] rest[i]).1,
        ) by {
            assert(asked[i] == rest[i]);
        }
        lemma_rejected_run(q, rest);
        assert(zq::rejected_draw(q, asked[asked.len() - 1].1));
    }
}

/// The answers of a sample have its residue, and no other.
proof fn lemma_run_residue<const Q: u32>(asked: Seq<(usize, Result<Vec<u8>, Error>)>, z: Zq<Q>)
    requires
        zq::sampled_with(32, asked, Ok(z)),
    ensures
        asked.len() > 0,
        residues(Q, asked) == seq![z@],
        is_residue(Q, asked.last()),
        forall|i: int| 0 <= i < asked.len() ==> (#[trigger] asked[i]).0 == 4,
{
    let rest = asked.drop_last();
    assert forall|i: int| 0 <= i < rest.len() implies zq::rejected_draw(
        Q,
        (#[trigger] rest[i]).1,
    ) by {
        assert(asked[i] == rest[i]);
    }
    lemma_rejected_run(Q, rest);
    assert(residues(Q, asked) =~= seq![z@]);
}

/// The entries sampled with `asked` are the residues of its answers.
pub proof fn lemma_entries_residues<const Q: u32>(asked: Seq<(usize, Result<Vec<u8>, Error>)>, entries: Seq<Zq<Q>>)
    requires
        entries_with(asked, entries),
    ensures
        values_of(entries) == residues(Q, asked),
        entries.len() > 0 ==> asked.len() > 0 && is_residue(Q, asked.last()),
        entries.len() == 0 ==> asked.len() == 0,
        forall|i: int| 0 <= i < asked.len() ==> (#[trigger] asked[i]).0 == 4,
    decreases entries.len(),
{
    if entries.len() == 0 {
        assert(values_of(entries) =~= Seq::empty());
    } else {
        let (first, next) = choose|first: Seq<(usize, Result<Vec<u8>, Error>)>, next: Seq<(usize, Result<Vec<u8>, Error>)>|
            entries_with(first, entries.drop_last()) && #[trigger] zq::sampled_with(
                32,
                next,
                Ok(entries.last()),
            ) && #[trigger] journal::joins(first, next, asked);
        lemma_entries_residues(first, entries.drop_last());
        lemma_run_residue(next, entries.last());
        lemma_residues_joined(Q, first, next);
        assert(asked.last() == next.last());
        assert(values_of(entries) =~= values_of(entries.drop_last()) + seq![entries.last()@]);
        assert forall|i: int| 0 <= i < asked.len() implies (#[trigger] asked[i]).0 == 4 by {
            if i < first.len() {
                assert(asked[i] == first[i]);
            } else {
                assert(asked[i] == next[i - first.len()]);
            }
        }
    }
}

/// Sampled entries are the residues of the answers of the random source in the order
/// in which they came: each usable answer gives one entry, and none is asked for
/// behind that of the last.
pub proof fn lemma_entries_in_order<const Q: u32, F: Fn(usize) -> Result<Vec<u8>, Error>>(
    len: usize,
    before: Draws<F>,
    entries: Vec<Zq<Q>>,
    after: Draws<F>,
)
    requires
        call_ensures(sample_entries_asking::<Q, F>, (len, before), (Ok(entries), after)),
    ensures
        exists|asked: Seq<(usize, Result<Vec<u8>, Error>)>| #[trigger]
            after.follows(before, asked) && {
                &&& entries@.len() == len
                &&& values_of(entries@) == residues(Q, asked)
                &&& len > 0 ==> asked.len() > 0 && is_residue(Q, asked.last())
                &&& forall|i: int| 0 <= i < asked.len() ==> (#[trigger] asked[i]).0 == 4
            },
{
    let asked = choose|asked: Seq<(usize, Result<Vec<u8>, Error>)>| #[trigger]
        entries_sampled(len as nat, asked, Ok(entries)) && after.follows(before, asked);
    lemma_entries_residues(asked, entries@);
}

/// The entries of a sampled vector are the residues of the answers of the random
/// source in the order in which they came.
pub proof fn lemma_sample_in_order<const Q: u32, F: Fn(usize) -> Result<Vec<u8>, Error>>(
    rng: F,
    len: usize,
    vector: ZqVec<Q>,
)
    requires
        vector_asking(rng, len, Ok(vector)),
    ensures
        exists|entries: Vec<Zq<Q>>, before: Draws<&F>, after: Draws<&F>| #[trigger]
            call_ensures(
                sample_entries_asking::<Q, &F>,
                (len, before),
                (Ok::<Vec<Zq<Q>>, Error>(entries), after),
            ) && before.is_fresh(&rng) && vector@ == values_of(entries@) && vector@.len() == len
                && vector@ == residues(Q, after.record()),
{
    let entries = choose|entries: Vec<Zq<Q>>| #[trigger]
        entries_asking(rng, len, Ok(entries)) && vector@ == values_of(entries@);
    let (before, after) = choose|before: Draws<&F>, after: Draws<&F>|
        before.is_fresh(&rng) && #[trigger] call_ensures(
            sample_entries_asking::<Q, &F>,
            (len, before),
            (Ok::<Vec<Zq<Q>>, Error>(entries), after),
        );
    lemma_entries_in_order(len, before, entries, after);
    let asked = choose|asked: Seq<(usize, Result<Vec<u8>, Error>)>| #[trigger]
        after.follows(before, asked) && values_of(entries@) == residues(Q, asked);
    assert(after.record() =~= asked);
}

/// `r` is the vector of the entries that sampling gives with a random source that was
/// not asked before, or its error.
pub open spec fn vector_asking<const Q: u32, F: Fn(usize) -> Result<Vec<u8>, Error>>(
    rng: F,
    len: usize,
    r: Result<ZqVec<Q>, Error>,
) -> bool {
    match r {
        Ok(vector) => exists|entries: Vec<Zq<Q>>| #[trigger]
            entries_asking(rng, len, Ok(entries)) && vector@ == values_of(entries@),
        Err(e) => entries_asking::<Q, F>(rng, len, Err(e)),
    }
}

} // verus!
