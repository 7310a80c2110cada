//! Integer modular arithmetic over `Z/QZ`.
//!
//! [`Zq`] is a newtype over `u32` representing an integer modulo a
//! compile-time constant `Q`.  Arithmetic uses `u64` intermediates to avoid
//! overflow.  For lattice constructions, elements are often viewed as signed
//! integers in the canonical interval `(-Q/2, Q/2]`; see [`Zq::signed_repr`].
use super::draw;
use crate::bytes;
use crate::effect;
use crate::error::Error;
use crate::journal::{self, Draws};
use crate::text;
use core::fmt::{Debug, Formatter};
use core::ops::{Add, Mul, Neg, Sub};
use vstd::arithmetic::div_mod::*;
use vstd::prelude::*;
use vstd::std_specs::ops::{AddSpecImpl, MulSpecImpl, NegSpecImpl, SubSpecImpl};
use vstd::string::*;

verus! {

/// An integer modulo `Q`.  Its view is the canonical representative in `[0, Q)`.
///
/// The const parameter `Q` must be greater than zero: no arithmetic is defined
/// on `Zq<0>`.
#[derive(Clone, Copy, Hash)]
#[must_use]
pub struct Zq<const Q: u32>(pub(crate) u32);

impl<const Q: u32> View for Zq<Q> {
    type V = int;

    open(crate) spec fn view(&self) -> int {
        self.0 as int
    }
}

impl<const Q: u32> PartialEq for Zq<Q> {
    fn eq(&self, other: &Self) -> (r: bool) {
        self.0 == other.0
    }
}

impl<const Q: u32> vstd::std_specs::cmp::PartialEqSpecImpl for Zq<Q> {
    open spec fn obeys_eq_spec() -> bool {
        true
    }

    open spec fn eq_spec(&self, other: &Self) -> bool {
        self@ == other@
    }
}

impl<const Q: u32> Eq for Zq<Q> {

}

/// The balanced signed representative of `v` modulo `q`: `v` if `2 * v <= q`,
/// else `v - q`.
pub open spec fn balanced(v: int, q: int) -> int {
    if v * 2 > q {
        v - q
    } else {
        v
    }
}

/// The balanced representative is the one integer of its residue class in the
/// interval from `-q / 2`, without it, to `q / 2`.
pub proof fn lemma_balanced_representative(v: int, q: int)
    requires
        0 <= v < q,
    ensures
        -q < 2 * balanced(v, q) <= q,
        balanced(v, q) % q == v,
        forall|x: int| -q < 2 * x <= q && #[trigger] (x % q) == v ==> x == balanced(v, q),
{
    let b = balanced(v, q);
    lemma_small_mod(v as nat, q as nat);
    if b != v {
        lemma_mod_sub_multiples_vanish(v, q);
    }
    assert forall|x: int| -q < 2 * x <= q && #[trigger] (x % q) == v implies x == b by {
        lemma_fundamental_div_mod(x, q);
        let d = x / q;
        assert(-1 <= d <= 0) by (nonlinear_arith)
            requires
                x == q * d + v,
                0 <= v < q,
                -q < 2 * x <= q,
        ;
        if d == 0 {
            assert(q * d == 0) by (nonlinear_arith)
                requires
                    d == 0,
            ;
        } else {
            assert(q * d == -q) by (nonlinear_arith)
                requires
                    d == -1,
            ;
        }
    }
}

/// The draws that are not rejected are whole runs of residues: there are as many
/// of them for each residue, and fewer than `q` draws are rejected but for the
/// largest one.
pub proof fn lemma_draw_limit(q: u32)
    requires
        q > 0,
    ensures
        draw_limit(q) % q as int == 0,
        u32::MAX - q < draw_limit(q) <= u32::MAX,
{
    let top = u32::MAX as int;
    lemma_fundamental_div_mod(top, q as int);
    lemma_mod_multiples_basic(top / q as int, q as int);
    assert(q as int * (top / q as int) == (top / q as int) * q as int) by (nonlinear_arith);
    lemma_mod_bound(top, q as int);
}

/// The largest multiple of `q` below `2^32`: draws from there on are rejected.
pub open spec fn draw_limit(q: u32) -> int {
    u32::MAX - u32::MAX as int % q as int
}

/// An answer of the random source that asks for another: four bytes of a value
/// in the rejected range.
pub open spec fn rejected_draw(q: u32, draw: Result<Vec<u8>, Error>) -> bool {
    draw matches Ok(bytes) && bytes@.len() == 4 && bytes::le_value(bytes@) >= draw_limit(q)
}

/// What the last answer of the random source makes of a sample.
pub open spec fn settles<const Q: u32>(
    draw: Result<Vec<u8>, Error>,
    r: Result<Zq<Q>, Error>,
) -> bool {
    match draw {
        Ok(bytes) => if bytes@.len() == 4 {
            &&& bytes::le_value(bytes@) < draw_limit(Q)
            &&& r matches Ok(v) && v@ == bytes::le_value(bytes@) as int % Q as int
        } else {
            r matches Err(e) && draw::is_short_read(e, 4, bytes@.len())
        },
        Err(cause) => r matches Err(e) && e is RandomGenerationFailed && draw::is_reported(
            e,
            cause,
        ),
    }
}

/// Every one of `draws` is an answer to a request for four bytes, and all but
/// the last are rejected.
pub open spec fn draw_trace<F: Fn(usize) -> Result<Vec<u8>, Error>>(
    q: u32,
    rng: F,
    draws: Seq<Result<Vec<u8>, Error>>,
) -> bool {
    &&& forall|i: int| 0 <= i < draws.len() ==> rng.ensures((4usize,), #[trigger] draws[i])
    &&& forall|i: int| 0 <= i < draws.len() - 1 ==> rejected_draw(q, #[trigger] draws[i])
}

/// `r` is what sampling with up to `budget` draws can give.
pub open spec fn sampled<const Q: u32, F: Fn(usize) -> Result<Vec<u8>, Error>>(
    rng: F,
    budget: nat,
    r: Result<Zq<Q>, Error>,
) -> bool {
    exists|draws: Seq<Result<Vec<u8>, Error>>| #[trigger]
        draw_trace(Q, rng, draws) && draws.len() <= budget && (if draws.len() > 0
            && !rejected_draw(Q, draws.last()) {
            settles(draws.last(), r)
        } else {
            &&& draws.len() == budget
            &&& r matches Err(e)
            &&& draw::is_failure(e, "rejection sampling exhausted"@)
        })
}

/// `r` is what sampling with up to `budget` draws gives where `asked` is what the
/// random source was asked and answered: four bytes at a time, until an answer is not
/// rejected or the budget is used up.
pub open spec fn sampled_with<const Q: u32>(
    budget: nat,
    asked: Seq<(usize, Result<Vec<u8>, Error>)>,
    r: Result<Zq<Q>, Error>,
) -> bool {
    &&& asked.len() <= budget
    &&& forall|i: int| 0 <= i < asked.len() ==> (#[trigger] asked[i]).0 == 4
    &&& forall|i: int| 0 <= i < asked.len() - 1 ==> rejected_draw(Q, (#[trigger] asked[i]).1)
    &&& if asked.len() > 0 && !rejected_draw(Q, asked.last().1) {
        settles(asked.last().1, r)
    } else {
        &&& asked.len() == budget
        &&& r matches Err(e)
        &&& draw::is_failure(e, "rejection sampling exhausted"@)
    }
}

/// `r` is what sampling gives with a random source that was not asked before.
pub open spec fn samples_asking<const Q: u32, F: Fn(usize) -> Result<Vec<u8>, Error>>(
    rng: F,
    budget: u32,
    r: Result<Zq<Q>, Error>,
) -> bool {
    exists|before: Draws<&F>, after: Draws<&F>|
        before.is_fresh(&rng) && #[trigger] call_ensures(
            Zq::<Q>::sample_asking::<&F>,
            (before, budget),
            (r, after),
        )
}

/// A sample with answers of the random source is a sample of it.
pub proof fn lemma_sampled_with<const Q: u32, F: Fn(usize) -> Result<Vec<u8>, Error>>(
    rng: &F,
    budget: nat,
    asked: Seq<(usize, Result<Vec<u8>, Error>)>,
    r: Result<Zq<Q>, Error>,
)
    requires
        sampled_with(budget, asked, r),
        journal::all_answered(*rng, asked),
    ensures
        sampled(*rng, budget, r),
{
    let draws = journal::answers_of(asked);
    assert forall|i: int| 0 <= i < draws.len() implies rng.ensures(
        (4usize,),
        #[trigger] draws[i],
    ) by {
        assert(rng.ensures((asked[i].0,), asked[i].1));
    }
    assert forall|i: int| 0 <= i < draws.len() - 1 implies rejected_draw(
        Q,
        #[trigger] draws[i],
    ) by {
        assert(rejected_draw(Q, asked[i].1));
    }
    assert(draw_trace(Q, *rng, draws));
}

impl<const Q: u32> Zq<Q> {
    /// The representative is reduced.
    #[verifier::type_invariant]
    pub(crate) open(crate) spec fn canonical(&self) -> bool {
        Q > 0 ==> self.0 < Q
    }

    /// Create an element by reducing `val` mod `Q`.
    pub fn new(val: u32) -> (r: Self)
        requires
            Q > 0,
        ensures
            r@ == val as int % Q as int,
    {
        Self(val % Q)
    }

    /// The additive identity.
    pub fn zero() -> (r: Self)
        ensures
            r@ == 0,
    {
        Self(0)
    }

    /// The multiplicative identity.  Returns zero when `Q == 1`, since `Z/1Z` is
    /// the zero ring.
    pub fn one() -> (r: Self)
        requires
            Q > 0,
        ensures
            r@ == 1int % Q as int,
    {
        Self(1 % Q)
    }

    /// The canonical representative in `[0, Q)`.
    #[must_use]
    pub fn value(self) -> (r: u32)
        ensures
            r as int == self@,
            Q > 0 ==> r < Q,
    {
        proof {
            use_type_invariant(&self);
        }
        self.0
    }

    /// The canonical representative in decimal.
    #[must_use]
    pub fn to_decimal(self) -> (r: String)
        ensures
            r@ == text::decimal(self@ as nat),
    {
        text::decimal_string(self.0 as usize)
    }

    /// Whether this element is the additive identity.
    #[must_use]
    pub fn is_zero(self) -> (r: bool)
        ensures
            r == (self@ == 0),
    {
        self.0 == 0
    }

    /// The balanced signed representative in `(-Q/2, Q/2]`.
    ///
    /// Values `v` with `2 * v <= Q` map to `v`; larger values map to `v - Q` so
    /// the result is the lift closer to zero.  Used for L2 norm computations in
    /// lattice verification.
    #[must_use]
    pub fn signed_repr(self) -> (r: i64)
        ensures
            r as int == balanced(self@, Q as int),
            Q > 0 ==> -(Q as int) < 2 * r <= Q,
    {
        proof {
            use_type_invariant(&self);
        }
        let v: i64 = self.0 as i64;
        let q: i64 = Q as i64;
        if v * 2 > q {
            v - q
        } else {
            v
        }
    }

    /// Sample one uniform element of `Z/QZ` by rejection sampling.
    ///
    /// Reads 4 bytes at a time from `rng` and rejects draws that fall in the
    /// non-canonical high range, so the output distribution is exactly uniform
    /// on `[0, Q)`.  The retry loop is bounded at 32; for typical `Q` in the
    /// `2^20` to `2^30` range the acceptance rate per draw exceeds 99%, so
    /// budget exhaustion indicates a broken RNG.
    ///
    /// Fails with [`Error::RandomGenerationFailed`] when the RNG closure errors,
    /// returns other than 4 bytes, or the retry budget is exhausted.
    pub fn sample<F>(rng: &F) -> (r: Result<Self, Error>) where
        F: Fn(usize) -> Result<Vec<u8>, Error>,

        requires
            Q > 0,
            rng.requires((4usize,)),
        ensures
            sampled(*rng, 32, r),
            samples_asking(*rng, 32, r),
            r matches Err(e) ==> e is RandomGenerationFailed,
    {
        Self::sample_bounded(rng, 32)
    }

    /// What a draw makes of a sample: an element, an error, or nothing if it
    /// falls in the rejected range.
    pub fn accept_draw(draw: Result<Vec<u8>, Error>) -> (r: Result<Option<Self>, Error>)
        requires
            Q > 0,
        ensures
            match r {
                Ok(None) => rejected_draw(Q, draw),
                Ok(Some(v)) => !rejected_draw(Q, draw) && settles(draw, Ok(v)),
                Err(e) => !rejected_draw(Q, draw) && settles::<Q>(draw, Err(e)),
            },
    {
        let limit: u32 = u32::MAX - (u32::MAX % Q);
        match draw {
            Ok(bytes) => match draw::read_u32(&bytes) {
                Ok(v) => if v < limit {
                    Ok(Some(Self(v % Q)))
                } else {
                    Ok(None)
                },
                Err(e) => Err(e),
            },
            Err(cause) => Err(draw::report(cause)),
        }
    }

    /// Sample with up to `budget` draws.
    pub fn sample_bounded<F>(rng: &F, budget: u32) -> (r: Result<Self, Error>) where
        F: Fn(usize) -> Result<Vec<u8>, Error>,

        requires
            Q > 0,
            rng.requires((4usize,)),
        ensures
            sampled(*rng, budget as nat, r),
            samples_asking(*rng, budget, r),
            r matches Err(e) ==> e is RandomGenerationFailed,
    {
        let draws: Draws<&F> = Draws::new(rng);
        let ghost before = draws;
        let (r, left) = effect::call_pair(Self::sample_asking::<&F>, draws, budget);
        proof {
            assert(call_ensures(Self::sample_asking::<&F>, (before, budget), (r, left)));
            let asked = choose|asked: Seq<(usize, Result<Vec<u8>, Error>)>| #[trigger]
                sampled_with(budget as nat, asked, r) && left.follows(before, asked);
            lemma_sampled_with(rng, budget as nat, asked, r);
        }
        r
    }

    /// Sample with up to `budget` answers of the random source.
    pub fn sample_asking<F>(draws: Draws<F>, budget: u32) -> (out: (
        Result<Self, Error>,
        Draws<F>,
    )) where F: Fn(usize) -> Result<Vec<u8>, Error>
        requires
            Q > 0,
            draws.source().requires((4usize,)),
        ensures
            exists|asked: Seq<(usize, Result<Vec<u8>, Error>)>| #[trigger]
                sampled_with(budget as nat, asked, out.0) && out.1.follows(draws, asked),
            out.0 matches Err(e) ==> e is RandomGenerationFailed,
    {
        let ghost mut asked: Seq<(usize, Result<Vec<u8>, Error>)> = Seq::empty();
        let mut left = draws;
        let mut remaining: u32 = budget;
        proof {
            journal::lemma_follows_itself(draws);
        }
        while remaining > 0
            invariant
                Q > 0,
                draws.source().requires((4usize,)),
                remaining <= budget,
                left.follows(draws, asked),
                asked.len() == budget - remaining,
                forall|i: int| 0 <= i < asked.len() ==> (#[trigger] asked[i]).0 == 4,
                forall|i: int|
                    0 <= i < asked.len() ==> rejected_draw(Q, (#[trigger] asked[i]).1),
            decreases remaining,
        {
            let ghost prior = left;
            let (draw, rest) = left.ask(4);
            proof {
                journal::lemma_follows_on(draws, asked, prior, seq![(4usize, draw)], rest);
                asked = asked + seq![(4usize, draw)];
                assert(asked.last() == (4usize, draw));
            }
            left = rest;
            match Self::accept_draw(draw) {
                Ok(Some(v)) => {
                    let out = (Ok(v), left);
                    assert(sampled_with(budget as nat, asked, out.0));
                    return out;
                },
                Ok(None) => {},
                Err(e) => {
                    let out = (Err(e), left);
                    assert(sampled_with::<Q>(budget as nat, asked, out.0));
                    return out;
                },
            }
            remaining -= 1;
        }
        let out = (
            Err(Error::RandomGenerationFailed(String::from_str("rejection sampling exhausted"))),
            left,
        );
        assert(asked.len() > 0 ==> rejected_draw(Q, asked[asked.len() - 1].1));
        assert(sampled_with::<Q>(budget as nat, asked, out.0));
        out
    }
}

impl<const Q: u32> From<u32> for Zq<Q> {
    fn from(val: u32) -> (r: Self)
        ensures
            Q > 0 ==> r@ == val as int % Q as int,
    {
        if Q == 0 {
            Self(0)
        } else {
            Self::new(val)
        }
    }
}

impl<const Q: u32> vstd::std_specs::convert::FromSpecImpl<u32> for Zq<Q> {
    open spec fn obeys_from_spec() -> bool {
        true
    }

    open(crate) spec fn from_spec(val: u32) -> Self {
        if Q == 0 {
            Zq(0)
        } else {
            Zq((val as int % Q as int) as u32)
        }
    }
}

impl<const Q: u32> Debug for Zq<Q> {
    /// Writes the canonical representative behind the modulus.
    fn fmt(&self, f: &mut Formatter<'_>) -> (r: Result<(), core::fmt::Error>)
        ensures
            exists|g: &mut Formatter<'_>, data: &str|
                *g == *old(f) && *final(g) == *final(f) && data@ == "Zq<"@ + text::decimal(
                    Q as nat,
                ) + ">("@ + text::decimal(self@ as nat) + ")"@ && #[trigger] call_ensures(
                    Formatter::write_str,
                    (g, data),
                    r,
                ),
    {
        let rendered = text::two_numbers("Zq<", Q as usize, ">(", self.0 as usize).concat(")");
        text::write(f, rendered.as_str())
    }
}

impl<const Q: u32> Add for Zq<Q> {
    type Output = Self;

    fn add(self, rhs: Self) -> (r: Self)
        ensures
            r@ == (self@ + rhs@) % Q as int,
    {
        let r: u64 = (self.0 as u64 + rhs.0 as u64) % (Q as u64);
        Self(r as u32)
    }
}

impl<const Q: u32> AddSpecImpl for Zq<Q> {
    open spec fn obeys_add_spec() -> bool {
        true
    }

    open spec fn add_req(self, rhs: Self) -> bool {
        Q > 0
    }

    open(crate) spec fn add_spec(self, rhs: Self) -> Self {
        Zq(((self@ + rhs@) % Q as int) as u32)
    }
}

impl<const Q: u32> Sub for Zq<Q> {
    type Output = Self;

    fn sub(self, rhs: Self) -> (r: Self)
        ensures
            r@ == (self@ - rhs@) % Q as int,
    {
        proof {
            use_type_invariant(&rhs);
            lemma_mod_add_multiples_vanish(self@ - rhs@, Q as int);
        }
        let q: u64 = Q as u64;
        let r: u64 = (self.0 as u64 + q - rhs.0 as u64) % q;
        Self(r as u32)
    }
}

impl<const Q: u32> SubSpecImpl for Zq<Q> {
    open spec fn obeys_sub_spec() -> bool {
        true
    }

    open spec fn sub_req(self, rhs: Self) -> bool {
        Q > 0
    }

    open(crate) spec fn sub_spec(self, rhs: Self) -> Self {
        Zq(((self@ - rhs@) % Q as int) as u32)
    }
}

impl<const Q: u32> Mul for Zq<Q> {
    type Output = Self;

    fn mul(self, rhs: Self) -> (r: Self)
        ensures
            r@ == (self@ * rhs@) % Q as int,
    {
        proof {
            let (a, b) = (self.0, rhs.0);
            assert(a * b <= u32::MAX * u32::MAX) by (nonlinear_arith)
                requires
                    0 <= a <= u32::MAX,
                    0 <= b <= u32::MAX,
            ;
        }
        let r: u64 = ((self.0 as u64) * (rhs.0 as u64)) % (Q as u64);
        Self(r as u32)
    }
}

impl<const Q: u32> MulSpecImpl for Zq<Q> {
    open spec fn obeys_mul_spec() -> bool {
        true
    }

    open spec fn mul_req(self, rhs: Self) -> bool {
        Q > 0
    }

    open(crate) spec fn mul_spec(self, rhs: Self) -> Self {
        Zq(((self@ * rhs@) % Q as int) as u32)
    }
}

impl<const Q: u32> Neg for Zq<Q> {
    type Output = Self;

    fn neg(self) -> (r: Self)
        ensures
            r@ == (-self@) % Q as int,
    {
        proof {
            use_type_invariant(&self);
            if self.0 != 0 {
                lemma_mod_add_multiples_vanish(-self@, Q as int);
                lemma_small_mod((Q - self.0) as nat, Q as nat);
            } else {
                lemma_small_mod(0nat, Q as nat);
            }
        }
        if self.0 == 0 {
            self
        } else {
            Self(Q - self.0)
        }
    }
}

impl<const Q: u32> NegSpecImpl for Zq<Q> {
    open spec fn obeys_neg_spec() -> bool {
        true
    }

    open spec fn neg_req(self) -> bool {
        Q > 0
    }

    open(crate) spec fn neg_spec(self) -> Self {
        Zq(((-self@) % Q as int) as u32)
    }
}

} // verus!
