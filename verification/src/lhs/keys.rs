//! Key generation and key types.
//!
//! The public key carries the public matrix `A = [A_0 | G - A_0 * R]` and the
//! parameter set.  The secret key carries the trapdoor `R`: the short matrix
//! with ternary entries that lets the signer produce short preimages under `A`
//! via the gadget identity `A * [R*w ; w] = G * w`.
//!
//! Hash targets are *not* part of the keypair.  They are per-generation data
//! derived from caller-supplied metadata by the authenticator layer.  That keeps
//! the keypair reusable across many generations and binds each generation's
//! commitment to the file it authenticates.
use super::gadget::{self, gadget_entry, gadget_kernel_basis};
use super::params::{self, LhsParams, ParamsView};
use crate::effect;
use crate::error::Error;
use crate::journal::{self, Draws};
use crate::lattice::draw;
use crate::lattice::integers::{self, MatrixView};
use crate::lattice::matrix;
use crate::lattice::signed;
use crate::lattice::vector;
use crate::lattice::zq;
use crate::lattice::{ZMatrix, Zq, ZqMatrix, ZqVec};
use crate::text;
use vstd::arithmetic::div_mod::*;
use vstd::arithmetic::power2::pow2;
use vstd::prelude::*;
use vstd::string::*;

verus! {

/// A public key.
#[derive(Debug)]
#[must_use]
pub struct PublicKey<const Q: u32> {
    pub(crate) a: ZqMatrix<Q>,
    pub(crate) params: LhsParams<Q>,
}

/// The public matrix and the parameter set.
pub struct PublicKeyView {
    pub a: MatrixView,
    pub params: ParamsView,
}

impl PublicKeyView {
    /// The matrix has the shape that the parameters ask for.
    pub open spec fn well_formed(self, q: nat) -> bool {
        &&& q >= 2
        &&& self.params.valid()
        &&& self.a.rows.len() == self.params.n
        &&& self.a.cols == self.params.m(q)
        &&& self.a.rectangular()
    }
}

impl<const Q: u32> View for PublicKey<Q> {
    type V = PublicKeyView;

    open(crate) spec fn view(&self) -> PublicKeyView {
        PublicKeyView { a: self.a@, params: self.params@ }
    }
}

impl<const Q: u32> Clone for PublicKey<Q> {
    fn clone(&self) -> (r: Self)
        ensures
            r@ == self@,
    {
        proof {
            use_type_invariant(self);
        }
        Self { a: self.a.clone(), params: self.params.clone() }
    }
}

impl<const Q: u32> PublicKey<Q> {
    #[verifier::type_invariant]
    pub(crate) open(crate) spec fn consistent(&self) -> bool {
        self@.well_formed(Q as nat)
    }

    /// Build a public key from the public matrix, or
    /// [`Error::DimensionMismatch`] if its shape is not `n` rows by `m` columns.
    pub fn new(a: ZqMatrix<Q>, params: LhsParams<Q>) -> (r: Result<Self, Error>)
        requires
            params@.m(Q as nat) <= usize::MAX,
            params@.n * params@.m(Q as nat) <= usize::MAX,
        ensures
            if a@.rows.len() == params@.n && a@.cols == params@.m(Q as nat) {
                r matches Ok(key) && key@ == (PublicKeyView { a: a@, params: params@ })
            } else {
                r == Err::<Self, Error>(
                    Error::DimensionMismatch {
                        expected: (params@.n * params@.m(Q as nat)) as usize,
                        actual: (a@.rows.len() * a@.cols) as usize,
                    },
                )
            },
    {
        let n: usize = params.n();
        let m: usize = params.m();
        if a.rows() == n && a.cols() == m {
            Ok(Self { a, params })
        } else {
            proof {
                use_type_invariant(&a);
                assert(a.data.len() <= usize::MAX);
            }
            Err(Error::DimensionMismatch { expected: n * m, actual: a.rows() * a.cols() })
        }
    }

    /// The public matrix `A`.
    pub fn a(&self) -> (r: &ZqMatrix<Q>)
        ensures
            r@ == self@.a,
            self@.well_formed(Q as nat),
    {
        proof {
            use_type_invariant(self);
        }
        &self.a
    }

    /// The parameter set.
    pub fn params(&self) -> (r: &LhsParams<Q>)
        ensures
            r@ == self@.params,
            self@.well_formed(Q as nat),
    {
        proof {
            use_type_invariant(self);
        }
        &self.params
    }
}

/// The secret key: the trapdoor matrix `R`, the parameter set, and the basis of
/// the single-block gadget kernel on which a signer draws an offset on top of
/// the deterministic bit-decomposition preimage.
#[derive(Debug)]
#[must_use]
pub struct SecretKey<const Q: u32> {
    pub(crate) r: ZMatrix,
    pub(crate) params: LhsParams<Q>,
    pub(crate) gadget_kernel: ZMatrix,
}

/// The trapdoor matrix and the parameter set.
pub struct SecretKeyView {
    pub r: MatrixView,
    pub params: ParamsView,
}

impl SecretKeyView {
    /// The matrix has the shape that the parameters ask for, and the gadget
    /// kernel for modulus `q` has a basis.
    pub open spec fn well_formed(self, q: nat) -> bool {
        &&& q >= 2
        &&& self.params.valid()
        &&& self.r.rows.len() == self.params.m0
        &&& self.r.cols == self.params.gadget_width(q)
        &&& self.r.rectangular()
        &&& !power_of_two(q)
    }
}

impl<const Q: u32> View for SecretKey<Q> {
    type V = SecretKeyView;

    open(crate) spec fn view(&self) -> SecretKeyView {
        SecretKeyView { r: self.r@, params: self.params@ }
    }
}

impl<const Q: u32> Clone for SecretKey<Q> {
    fn clone(&self) -> (r: Self)
        ensures
            r@ == self@,
    {
        proof {
            use_type_invariant(self);
        }
        Self {
            r: self.r.clone(),
            params: self.params.clone(),
            gadget_kernel: self.gadget_kernel.clone(),
        }
    }
}

/// The modulus is a power of two, so that its low bits are zero and the rows for
/// the gadget kernel are dependent.
pub open spec fn power_of_two(q: nat) -> bool {
    q == pow2(params::gadget_bits(q))
}

/// The failure for a modulus whose gadget kernel has no basis of the chosen form.
pub open spec fn is_singular(e: Error, q: nat) -> bool {
    draw::is_failure(
        e,
        text::expected_got(
            "basis is singular: Gram-Schmidt row "@,
            (params::gadget_bits(q) - 1) as nat,
            " has squared norm "@,
            0,
        ),
    )
}

/// Whether the modulus is a power of two.
fn is_power_of_two<const Q: u32>() -> (r: bool)
    requires
        Q >= 2,
    ensures
        r == power_of_two(Q as nat),
{
    let k: usize = LhsParams::<Q>::k_gadget();
    let shift: u64 = k as u64;
    proof {
        vstd::bits::lemma_u64_pow2_no_overflow(shift as nat);
        vstd::bits::lemma_u64_shl_is_mul(1, shift);
    }
    Q as u64 == 1u64 << shift
}

impl<const Q: u32> SecretKey<Q> {
    #[verifier::type_invariant]
    pub(crate) open(crate) spec fn consistent(&self) -> bool {
        &&& self@.well_formed(Q as nat)
        &&& self.gadget_kernel@ == gadget::kernel_basis(Q as nat)
    }

    /// Build a secret key from the trapdoor matrix.
    ///
    /// Also materialises the basis of the gadget kernel, for repeated use when
    /// signing.
    ///
    /// Fails with [`Error::DimensionMismatch`] if the shape is not `m0` rows by
    /// `gadget_width` columns, and with [`Error::RandomGenerationFailed`] if
    /// the gadget-kernel basis derived from `Q` is singular, which is the case
    /// when `Q` is a power of two.
    pub fn new(r: ZMatrix, params: LhsParams<Q>) -> (key: Result<Self, Error>)
        requires
            params@.gadget_width(Q as nat) <= usize::MAX,
            params@.m0 * params@.gadget_width(Q as nat) <= usize::MAX,
        ensures
            if r@.rows.len() != params@.m0 || r@.cols != params@.gadget_width(Q as nat) {
                key == Err::<Self, Error>(
                    Error::DimensionMismatch {
                        expected: (params@.m0 * params@.gadget_width(Q as nat)) as usize,
                        actual: (r@.rows.len() * r@.cols) as usize,
                    },
                )
            } else if power_of_two(Q as nat) {
                key matches Err(e) && is_singular(e, Q as nat)
            } else {
                key matches Ok(k) && k@ == (SecretKeyView { r: r@, params: params@ })
            },
    {
        let n: usize = params.n();
        if r.rows() != params.m0() || r.cols() != params.gadget_width() {
            proof {
                use_type_invariant(&r);
                assert(r.data.len() <= usize::MAX);
            }
            return Err(
                Error::DimensionMismatch {
                    expected: params.m0() * params.gadget_width(),
                    actual: r.rows() * r.cols(),
                },
            );
        }
        if is_power_of_two::<Q>() {
            let k: usize = LhsParams::<Q>::k_gadget();
            return Err(
                Error::RandomGenerationFailed(
                    text::two_numbers(
                        "basis is singular: Gram-Schmidt row ",
                        k - 1,
                        " has squared norm ",
                        0,
                    ),
                ),
            );
        }
        match gadget_kernel_basis::<Q>() {
            Ok(gadget_kernel) => Ok(Self { r, params, gadget_kernel }),
            Err(e) => Err(e),
        }
    }

    /// Borrow of the trapdoor matrix.
    pub fn r(&self) -> (r: &ZMatrix)
        ensures
            r@ == self@.r,
            self@.well_formed(Q as nat),
    {
        proof {
            use_type_invariant(self);
        }
        &self.r
    }

    /// The parameter set.
    pub fn params(&self) -> (r: &LhsParams<Q>)
        ensures
            r@ == self@.params,
            self@.well_formed(Q as nat),
    {
        proof {
            use_type_invariant(self);
        }
        &self.params
    }

    /// Borrow of the basis of the gadget kernel, one vector per row.
    pub fn gadget_kernel(&self) -> (r: &ZMatrix)
        ensures
            r@ == gadget::kernel_basis(Q as nat),
    {
        proof {
            use_type_invariant(self);
        }
        &self.gadget_kernel
    }
}

/// The ternary values of a byte string: each byte below 255 gives the third of
/// the range `[0, 255)` that it lies in, as `-1`, `0` or `1`.
pub open spec fn ternary_values(bytes: Seq<u8>) -> Seq<int>
    decreases bytes.len(),
{
    if bytes.len() == 0 {
        Seq::empty()
    } else {
        let rest = ternary_values(bytes.drop_last());
        if bytes.last() == 255 {
            rest
        } else {
            rest.push(bytes.last() as int / 85 - 1)
        }
    }
}

/// The ternary values of a sequence of answers of the random source.
pub open spec fn collected(answers: Seq<Vec<u8>>) -> Seq<int>
    decreases answers.len(),
{
    if answers.len() == 0 {
        Seq::empty()
    } else {
        collected(answers.drop_last()) + ternary_values(answers.last()@)
    }
}

/// The number of bytes asked for when `have` of `need` values are there.
pub open spec fn request(need: nat, have: nat) -> usize {
    ((need - have) * 2) as usize
}

/// After the answers `before`, which leave values missing, the random source can
/// answer the request that is due with `answer`.
pub open spec fn answered<F: Fn(usize) -> Result<Vec<u8>, Error>>(
    rng: F,
    need: nat,
    before: Seq<Vec<u8>>,
    answer: Result<Vec<u8>, Error>,
) -> bool {
    let have = collected(before).len();
    have < need && rng.ensures((request(need, have),), answer)
}

/// Every one of `answers` answers the request after those before it, which left
/// values missing.
pub open spec fn ternary_trace<F: Fn(usize) -> Result<Vec<u8>, Error>>(
    rng: F,
    need: nat,
    answers: Seq<Vec<u8>>,
) -> bool {
    forall|i: int|
        0 <= i < answers.len() ==> answered(rng, need, answers.take(i), Ok(#[trigger] answers[i]))
}

/// `r` is what sampling `need` ternary values with up to `budget` requests can
/// give.
pub open spec fn ternary_sampled<F: Fn(usize) -> Result<Vec<u8>, Error>>(
    rng: F,
    need: nat,
    budget: nat,
    r: Result<Vec<i64>, Error>,
) -> bool {
    exists|answers: Seq<Vec<u8>>| #[trigger]
        ternary_trace(rng, need, answers) && answers.len() <= budget && {
            let have = collected(answers);
            match r {
                Ok(values) => have.len() >= need && signed::ints_of(values@) == have.take(
                    need as int,
                ),
                Err(e) => have.len() < need && (if answers.len() == budget {
                    draw::is_failure(e, "ternary sampling exhausted"@)
                } else {
                    e is RandomGenerationFailed && exists|cause: Error|
                        answered(rng, need, answers, Err(cause)) && #[trigger] draw::is_reported(
                            e,
                            cause,
                        )
                }),
            }
        }
}

/// Every value is `-1`, `0` or `1`.
pub open spec fn all_ternary(values: Seq<int>) -> bool {
    forall|i: int| 0 <= i < values.len() ==> -1 <= #[trigger] values[i] <= 1
}

/// The values of a byte string are ternary.
pub proof fn lemma_ternary_values(bytes: Seq<u8>)
    ensures
        all_ternary(ternary_values(bytes)),
    decreases bytes.len(),
{
    if bytes.len() > 0 {
        lemma_ternary_values(bytes.drop_last());
    }
}

/// Every byte gives its own value, whatever stands around it: a single byte gives
/// the third of the range that it lies in, or nothing if it is 255, and the values
/// of bytes one behind the other are their values one behind the other.
pub proof fn lemma_ternary_bytes(a: Seq<u8>, x: u8, b: Seq<u8>)
    ensures
        ternary_values(a + seq![x] + b) == ternary_values(a) + (if x == 255 {
            Seq::<int>::empty()
        } else if x < 85 {
            seq![-1int]
        } else if x < 170 {
            seq![0int]
        } else {
            seq![1int]
        }) + ternary_values(b),
    decreases b.len(),
{
    let middle = a + seq![x];
    if b.len() == 0 {
        assert(middle.drop_last() =~= a);
        assert(middle + b =~= middle);
        assert(ternary_values(middle) =~= ternary_values(a) + (if x == 255 {
            Seq::<int>::empty()
        } else {
            seq![x as int / 85 - 1]
        }) + ternary_values(b));
    } else {
        let c = b.drop_last();
        lemma_ternary_bytes(a, x, c);
        assert((middle + b).drop_last() =~= middle + c);
        assert((middle + b).last() == b.last());
        let all = ternary_values(middle + c);
        let start = ternary_values(a) + (if x == 255 {
            Seq::<int>::empty()
        } else if x < 85 {
            seq![-1int]
        } else if x < 170 {
            seq![0int]
        } else {
            seq![1int]
        });
        assert(all == start + ternary_values(c));
        let y = b.last() as int / 85 - 1;
        assert((start + ternary_values(c)).push(y) =~= start + ternary_values(c).push(y));
    }
}

/// One more answer to the request that is due extends a trace.
proof fn lemma_ternary_step<F: Fn(usize) -> Result<Vec<u8>, Error>>(
    rng: &F,
    need: nat,
    answers: Seq<Vec<u8>>,
    bytes: Vec<u8>,
)
    requires
        ternary_trace(*rng, need, answers),
        all_ternary(collected(answers)),
        answered(*rng, need, answers, Ok(bytes)),
    ensures
        ternary_trace(*rng, need, answers.push(bytes)),
        collected(answers.push(bytes)) == collected(answers) + ternary_values(bytes@),
        all_ternary(collected(answers.push(bytes))),
{
    let after = answers.push(bytes);
    assert(after.drop_last() =~= answers);
    lemma_ternary_values(bytes@);
    assert forall|i: int| 0 <= i < after.len() implies answered(
        *rng,
        need,
        after.take(i),
        Ok(#[trigger] after[i]),
    ) by {
        assert(after.take(i) =~= answers.take(i));
        if i < answers.len() {
            assert(after[i] == answers[i]);
        } else {
            assert(answers.take(i) =~= answers);
        }
    }
}

/// Append the ternary values of `bytes` to `out`.
pub fn push_ternary(out: &mut Vec<i64>, bytes: &Vec<u8>)
    ensures
        signed::ints_of(final(out)@) == signed::ints_of(old(out)@) + ternary_values(bytes@),
{
    let ghost before = signed::ints_of(out@);
    let mut i: usize = 0;
    assert(bytes@.take(0) =~= Seq::empty());
    assert(signed::ints_of(out@) =~= before + ternary_values(bytes@.take(0)));
    while i < bytes.len()
        invariant
            i <= bytes@.len(),
            signed::ints_of(out@) == before + ternary_values(bytes@.take(i as int)),
        decreases bytes@.len() - i,
    {
        let ghost prior = out@;
        let ghost so_far = ternary_values(bytes@.take(i as int));
        assert(bytes@.take(i + 1).drop_last() =~= bytes@.take(i as int));
        let b: u8 = bytes[i];
        if b != 255 {
            let third: i64 = (b / 85) as i64;
            out.push(third - 1);
            assert(signed::ints_of(out@) =~= signed::ints_of(prior).push(b as int / 85 - 1));
            assert((before + so_far).push(b as int / 85 - 1) =~= before + so_far.push(
                b as int / 85 - 1,
            ));
        }
        i += 1;
    }
    assert(bytes@.take(i as int) =~= bytes@);
}

/// Sample `count` integers uniformly from `{-1, 0, 1}` by reading bytes and
/// splitting the `[0, 255)` range into thirds.
///
/// Fails with [`Error::RandomGenerationFailed`] when the random source errors or
/// too few bytes below 255 have come after 32 requests.
pub fn sample_ternary<F>(count: usize, rng: &F) -> (r: Result<Vec<i64>, Error>) where
    F: Fn(usize) -> Result<Vec<u8>, Error>,

    requires
        count * 2 <= usize::MAX,
        forall|n: usize| #[trigger] rng.requires((n,)),
    ensures
        ternary_sampled(*rng, count as nat, 32, r),
        r matches Ok(values) ==> values@.len() == count && all_ternary(
            signed::ints_of(values@),
        ),
        r matches Err(e) ==> e is RandomGenerationFailed,
        ternary_asking(*rng, count, r),
{
    let draws: Draws<&F> = Draws::new(rng);
    let ghost before = draws;
    let (r, left) = effect::call_pair(sample_ternary_asking::<&F>, count, draws);
    proof {
        assert(call_ensures(sample_ternary_asking::<&F>, (count, before), (r, left)));
        let asked = choose|asked: Seq<(usize, Result<Vec<u8>, Error>)>| #[trigger]
            ternary_with(count as nat, 32, asked, r) && left.follows(before, asked);
        lemma_ternary_with(rng, count as nat, 32, asked, r);
    }
    r
}

/// The ternary values of the answers in a record, in order.
pub open spec fn gathered(asked: Seq<(usize, Result<Vec<u8>, Error>)>) -> Seq<int>
    decreases asked.len(),
{
    if asked.len() == 0 {
        Seq::empty()
    } else {
        gathered(asked.drop_last()) + match asked.last().1 {
            Ok(bytes) => ternary_values(bytes@),
            Err(_) => Seq::empty(),
        }
    }
}

/// Every entry asks for two bytes for each value that the ones before it left missing,
/// and there was one missing.
pub open spec fn all_requested(need: nat, asked: Seq<(usize, Result<Vec<u8>, Error>)>) -> bool
    decreases asked.len(),
{
    asked.len() > 0 ==> {
        let have = gathered(asked.drop_last()).len();
        &&& all_requested(need, asked.drop_last())
        &&& have < need
        &&& asked.last().0 == request(need, have)
    }
}

/// `r` is what sampling `need` ternary values with up to `budget` requests gives where
/// `asked` is what the random source was asked and answered: two bytes for each value
/// that is still missing, until none is, the source fails or the budget is used up.
pub open spec fn ternary_with(
    need: nat,
    budget: nat,
    asked: Seq<(usize, Result<Vec<u8>, Error>)>,
    r: Result<Vec<i64>, Error>,
) -> bool {
    &&& asked.len() <= budget
    &&& all_requested(need, asked)
    &&& forall|i: int| 0 <= i < asked.len() - 1 ==> (#[trigger] asked[i]).1 is Ok
    &&& match r {
        Ok(values) => {
            &&& asked.len() > 0 ==> asked.last().1 is Ok
            &&& gathered(asked).len() >= need
            &&& signed::ints_of(values@) == gathered(asked).take(need as int)
        },
        Err(e) => if asked.len() > 0 && asked.last().1 is Err {
            e is RandomGenerationFailed && draw::is_reported(e, asked.last().1->Err_0)
        } else {
            &&& asked.len() == budget
            &&& gathered(asked).len() < need
            &&& draw::is_failure(e, "ternary sampling exhausted"@)
        },
    }
}

/// `r` is what sampling ternary values gives with a random source that was not asked
/// before.
pub open spec fn ternary_asking<F: Fn(usize) -> Result<Vec<u8>, Error>>(
    rng: F,
    count: usize,
    r: Result<Vec<i64>, Error>,
) -> bool {
    exists|before: Draws<&F>, after: Draws<&F>|
        before.is_fresh(&rng) && #[trigger] call_ensures(
            sample_ternary_asking::<&F>,
            (count, before),
            (r, after),
        )
}

/// The values of a record are ternary.
proof fn lemma_gathered_ternary(asked: Seq<(usize, Result<Vec<u8>, Error>)>)
    ensures
        all_ternary(gathered(asked)),
    decreases asked.len(),
{
    if asked.len() > 0 {
        lemma_gathered_ternary(asked.drop_last());
        if let Ok(bytes) = asked.last().1 {
            lemma_ternary_values(bytes@);
        }
    }
}

/// The answers in a record that are no errors.
spec fn answers_in(asked: Seq<(usize, Result<Vec<u8>, Error>)>) -> Seq<Vec<u8>>
    decreases asked.len(),
{
    if asked.len() == 0 {
        Seq::empty()
    } else {
        let before = answers_in(asked.drop_last());
        match asked.last().1 {
            Ok(bytes) => before.push(bytes),
            Err(_) => before,
        }
    }
}

proof fn lemma_answers_in<F: Fn(usize) -> Result<Vec<u8>, Error>>(rng: &F, need: nat, asked: Seq<(usize, Result<Vec<u8>, Error>)>)
    requires
        all_requested(need, asked),
        forall|i: int| 0 <= i < asked.len() ==> (#[trigger] asked[i]).1 is Ok,
        journal::all_answered(*rng, asked),
    ensures
        answers_in(asked).len() == asked.len(),
        collected(answers_in(asked)) == gathered(asked),
        ternary_trace(*rng, need, answers_in(asked)),
    decreases asked.len(),
{
    if asked.len() > 0 {
        let rest = asked.drop_last();
        let last = asked.len() - 1;
        assert forall|i: int| 0 <= i < rest.len() implies (#[trigger] rest[i]).1 is Ok by {
            assert(asked[i] == rest[i]);
        }
        assert forall|i: int| 0 <= i < rest.len() implies rng.ensures(
            ((#[trigger] rest[i]).0,),
            rest[i].1,
        ) by {
            assert(asked[i] == rest[i]);
        }
        lemma_answers_in(rng, need, rest);
        assert(asked[last].1 is Ok);
        assert(rng.ensures((asked[last].0,), asked[last].1));
        let (before, bytes) = (answers_in(rest), asked[last].1->Ok_0);
        assert(answered(*rng, need, before, Ok(bytes)));
        lemma_gathered_ternary(rest);
        lemma_ternary_step(rng, need, before, bytes);
    } else {
        assert(collected(answers_in(asked)) =~= gathered(asked));
    }
}

/// Ternary values sampled with answers of the random source are sampled from it.
pub proof fn lemma_ternary_with<F: Fn(usize) -> Result<Vec<u8>, Error>>(
    rng: &F,
    need: nat,
    budget: nat,
    asked: Seq<(usize, Result<Vec<u8>, Error>)>,
    r: Result<Vec<i64>, Error>,
)
    requires
        ternary_with(need, budget, asked, r),
        journal::all_answered(*rng, asked),
    ensures
        ternary_sampled(*rng, need, budget, r),
        r matches Ok(values) ==> values@.len() == need && all_ternary(signed::ints_of(values@)),
{
    lemma_gathered_ternary(asked);
    let last = asked.len() - 1;
    if asked.len() > 0 && asked.last().1 is Err {
        let rest = asked.drop_last();
        assert forall|i: int| 0 <= i < rest.len() implies (#[trigger] rest[i]).1 is Ok by {
            assert(asked[i] == rest[i]);
        }
        assert forall|i: int| 0 <= i < rest.len() implies rng.ensures(
            ((#[trigger] rest[i]).0,),
            rest[i].1,
        ) by {
            assert(asked[i] == rest[i]);
        }
        lemma_answers_in(rng, need, rest);
        assert(rng.ensures((asked[last].0,), asked[last].1));
        let answers = answers_in(rest);
        let cause = asked[last].1->Err_0;
        assert(answered(*rng, need, answers, Err(cause)));
        assert(ternary_trace(*rng, need, answers));
        assert(draw::is_reported(r->Err_0, cause));
    } else {
        assert forall|i: int| 0 <= i < asked.len() implies (#[trigger] asked[i]).1 is Ok by {
            if i == last {
                assert(asked[i] == asked.last());
            }
        }
        lemma_answers_in(rng, need, asked);
        assert(ternary_trace(*rng, need, answers_in(asked)));
    }
    if let Ok(values) = r {
        assert(signed::ints_of(values@).len() == values@.len());
    }
}

/// Sample `count` ternary values with the answers of a random source.
pub fn sample_ternary_asking<F>(count: usize, draws: Draws<F>) -> (out: (
    Result<Vec<i64>, Error>,
    Draws<F>,
)) where F: Fn(usize) -> Result<Vec<u8>, Error>
    requires
        count * 2 <= usize::MAX,
        forall|n: usize| #[trigger] draws.source().requires((n,)),
    ensures
        exists|asked: Seq<(usize, Result<Vec<u8>, Error>)>| #[trigger]
            ternary_with(count as nat, 32, asked, out.0) && out.1.follows(draws, asked),
        out.0 matches Ok(values) ==> values@.len() == count && all_ternary(
            signed::ints_of(values@),
        ),
        out.0 matches Err(e) ==> e is RandomGenerationFailed,
{
    let mut acc: Vec<i64> = Vec::new();
    let mut left = draws;
    let ghost mut asked: Seq<(usize, Result<Vec<u8>, Error>)> = Seq::empty();
    let mut budget: u32 = 32;
    proof {
        journal::lemma_follows_itself(draws);
        assert(signed::ints_of(acc@) =~= gathered(asked));
    }
    while acc.len() < count && budget > 0
        invariant
            count * 2 <= usize::MAX,
            forall|n: usize| #[trigger] draws.source().requires((n,)),
            budget <= 32,
            asked.len() == 32 - budget,
            left.follows(draws, asked),
            signed::ints_of(acc@) == gathered(asked),
            all_requested(count as nat, asked),
            forall|i: int| 0 <= i < asked.len() ==> (#[trigger] asked[i]).1 is Ok,
        decreases budget,
    {
        assert(signed::ints_of(acc@).len() == acc@.len());
        let deficit: usize = count - acc.len();
        let wanted: usize = deficit * 2;
        let ghost prior = left;
        let (answer, rest) = left.ask(wanted);
        let ghost grown = asked.push((wanted, answer));
        proof {
            journal::lemma_follows_on(draws, asked, prior, seq![(wanted, answer)], rest);
            assert(asked + seq![(wanted, answer)] =~= grown);
            assert(grown.drop_last() =~= asked);
        }
        left = rest;
        match answer {
            Ok(bytes) => {
                push_ternary(&mut acc, &bytes);
                proof {
                    asked = grown;
                }
            },
            Err(cause) => {
                let out = (Err(draw::report(cause)), left);
                assert(ternary_with(count as nat, 32, grown, out.0));
                return out;
            },
        }
        budget -= 1;
    }
    assert(signed::ints_of(acc@).len() == acc@.len());
    proof {
        lemma_gathered_ternary(asked);
        assert(asked.len() > 0 ==> asked[asked.len() - 1].1 is Ok);
    }
    if acc.len() < count {
        let out = (
            Err(Error::RandomGenerationFailed(String::from_str("ternary sampling exhausted"))),
            left,
        );
        assert(ternary_with(count as nat, 32, asked, out.0));
        return out;
    }
    let ghost all = acc@;
    acc.truncate(count);
    assert(signed::ints_of(acc@) =~= signed::ints_of(all).take(count as int));
    let out = (Ok(acc), left);
    assert(ternary_with(count as nat, 32, asked, out.0));
    out
}

/// The entry in row `i` and column `j` of `G - A_0 * R` over `Z/qZ`, where `top`
/// is row `i` of `A_0`.
pub open spec fn masked_entry(
    q: nat,
    top: Seq<int>,
    r: Seq<Seq<int>>,
    i: int,
    j: int,
) -> int {
    (gadget::entry(q, i, j) - integers::dot(top, integers::column(r, j))) % q as int
}

/// Row `i` of `G - A_0 * R`, with `width` columns.
pub open spec fn masked_row(
    q: nat,
    top: Seq<int>,
    r: Seq<Seq<int>>,
    i: int,
    width: nat,
) -> Seq<int> {
    Seq::new(width, |j: int| masked_entry(q, top, r, i, j))
}

/// The matrix `[A_0 | G - A_0 * R]` over `Z/qZ`.
pub open spec fn public_matrix(
    q: nat,
    a_0: Seq<Seq<int>>,
    r: Seq<Seq<int>>,
    m0: nat,
    width: nat,
) -> MatrixView {
    MatrixView {
        rows: Seq::new(a_0.len(), |i: int| a_0[i] + masked_row(q, a_0[i], r, i, width)),
        cols: m0 + width,
    }
}

/// `R` is a trapdoor of `A`: the columns of `A` from `m0` on are those of
/// `G - A_0 * R`, where `A_0` holds the first `m0` columns of `A`.
pub open spec fn is_trapdoor(
    q: nat,
    a: Seq<Seq<int>>,
    r: Seq<Seq<int>>,
    m0: nat,
    width: nat,
) -> bool {
    &&& r.len() == m0
    &&& integers::has_width(a, m0 + width)
    &&& integers::has_width(r, width)
    &&& forall|i: int|
        0 <= i < a.len() ==> (#[trigger] a[i]).skip(m0 as int) == masked_row(
            q,
            a[i].take(m0 as int),
            r,
            i,
            width,
        )
}

/// The secret key holds a trapdoor of the public key, for the same parameters.
pub open spec fn are_related(q: nat, public: PublicKeyView, secret: SecretKeyView) -> bool {
    &&& public.params == secret.params
    &&& is_trapdoor(
        q,
        public.a.rows,
        secret.r.rows,
        public.params.m0,
        public.params.gadget_width(q),
    )
}

/// The vector `[R*w ; w]`.
pub open spec fn lifted(r: Seq<Seq<int>>, w: Seq<int>) -> Seq<int> {
    integers::apply(r, w) + w
}

/// The matrix `[A_0 | G - A_0 * R]` has the trapdoor `R`.
pub proof fn lemma_public_matrix(
    q: nat,
    a_0: Seq<Seq<int>>,
    r: Seq<Seq<int>>,
    m0: nat,
    width: nat,
)
    requires
        integers::has_width(a_0, m0),
        r.len() == m0,
        integers::has_width(r, width),
    ensures
        public_matrix(q, a_0, r, m0, width).rectangular(),
        is_trapdoor(q, public_matrix(q, a_0, r, m0, width).rows, r, m0, width),
{
    let a = public_matrix(q, a_0, r, m0, width).rows;
    assert forall|i: int| 0 <= i < a.len() implies (#[trigger] a[i]).len() == m0 + width
        && a[i].skip(m0 as int) == masked_row(q, a[i].take(m0 as int), r, i, width) by {
        assert(a_0[i].len() == m0);
        assert(a[i].take(m0 as int) =~= a_0[i]);
        assert(a[i].skip(m0 as int) =~= masked_row(q, a_0[i], r, i, width));
    }
}

/// The trapdoor identity: `A * [R*w ; w] = G * w` over `Z/qZ`, for every integer
/// vector `w`.
pub proof fn lemma_trapdoor_identity(
    q: u32,
    n: nat,
    a: Seq<Seq<int>>,
    r: Seq<Seq<int>>,
    m0: nat,
    w: Seq<int>,
)
    requires
        q >= 2,
        a.len() == n,
        w.len() == n * params::gadget_bits(q as nat),
        is_trapdoor(q as nat, a, r, m0, w.len()),
    ensures
        lifted(r, w).len() == m0 + w.len(),
        integers::reduced(integers::apply(a, lifted(r, w)), q as int) == gadget::applied(
            q as nat,
            n,
            w,
        ),
{
    let qi = q as int;
    let v = lifted(r, w);
    let left = integers::reduced(integers::apply(a, v), qi);
    let right = gadget::applied(q as nat, n, w);
    assert forall|i: int| 0 <= i < n implies left[i] == right[i] by {
        assert(a[i].len() == m0 + w.len());
        let (top, rest) = (a[i].take(m0 as int), a[i].skip(m0 as int));
        let g = gadget::row(q as nat, n, i);
        assert(a[i] =~= top + rest);
        integers::lemma_dot_concat(top, rest, integers::apply(r, w), w);
        integers::lemma_dot_associates(top, r, w);
        let c = integers::combination(top, r, w.len());
        // rest is congruent to g - c
        let d = integers::sum(g, integers::scaled(-1, c));
        assert forall|j: int| 0 <= j < rest.len() implies #[trigger] rest[j] % qi == d[j] % qi by {
            assert(rest[j] == masked_entry(q as nat, top, r, i, j));
            lemma_mod_twice(g[j] - c[j], qi);
        }
        integers::lemma_reduced_congruent(w, qi);
        integers::lemma_dot_congruent(rest, d, w, w, qi);
        integers::lemma_dot_commutes(d, w);
        integers::lemma_dot_linear(w, g, -1, c);
        integers::lemma_dot_commutes(w, g);
        integers::lemma_dot_commutes(w, c);
        // dot(rest, w) is congruent to dot(g, w) - dot(c, w)
        let cw = integers::dot(c, w);
        integers::lemma_add_congruent(
            cw,
            cw,
            integers::dot(rest, w),
            integers::dot(g, w) - cw,
            qi,
        );
        gadget::lemma_row_applied(q, n, i, w);
    }
    assert(left =~= right);
}

/// Compute `A_1 = G - A_0 * R` modulo `Q`, where `G` is the gadget matrix and the
/// product `A_0 * R` is computed column by column.
pub fn build_a1<const Q: u32>(a_0: &ZqMatrix<Q>, r: &ZMatrix, n: usize, g_width: usize) -> (a_1:
    Result<ZqMatrix<Q>, Error>)
    requires
        Q >= 2,
        a_0@.rows.len() == n,
        a_0@.cols == r@.rows.len(),
        r@.cols == g_width,
        n * g_width <= usize::MAX,
    ensures
        a_1 matches Ok(m) && m@ == (MatrixView {
            rows: Seq::new(
                n as nat,
                |i: int| masked_row(Q as nat, a_0@.rows[i], r@.rows, i, g_width as nat),
            ),
            cols: g_width as nat,
        }),
{
    let ghost q = Q as int;
    let ghost rows = r@.rows;
    let ghost tops = a_0@.rows;
    let height: usize = a_0.cols();
    let n_rows: usize = a_0.rows();
    let r_rows: usize = r.rows();
    let r_zq: ZqMatrix<Q> = r.reduce_mod();
    let mut cols: Vec<ZqVec<Q>> = Vec::with_capacity(g_width);
    let mut j: usize = 0;
    while j < g_width
        invariant
            Q >= 2,
            q == Q as int,
            rows == r@.rows,
            tops == a_0@.rows,
            integers::has_width(tops, height as nat),
            integers::has_width(rows, g_width as nat),
            a_0@.cols == height,
            rows.len() == height,
            r_zq@.rows == integers::reduced_rows(rows, q),
            r_zq@.cols == g_width,
            tops.len() == n,
            j <= g_width,
            cols@.len() == j,
            forall|t: int|
                0 <= t < j ==> (#[trigger] cols@[t])@ == integers::reduced(
                    integers::apply(tops, integers::column(rows, t)),
                    q,
                ),
        decreases g_width - j,
    {
        let ghost column = integers::column(rows, j as int);
        let mut col: Vec<Zq<Q>> = Vec::with_capacity(height);
        let mut k: usize = 0;
        while k < height
            invariant
                Q >= 2,
                q == Q as int,
                integers::has_width(rows, g_width as nat),
                rows.len() == height,
                r_zq@.rows == integers::reduced_rows(rows, q),
                r_zq@.cols == g_width,
                j < g_width,
                column == integers::column(rows, j as int),
                k <= height,
                col@.len() == k,
                forall|t: int| 0 <= t < k ==> (#[trigger] col@[t])@ == column[t] % q,
            decreases height - k,
        {
            let e: Zq<Q> = match r_zq.entry(k, j) {
                Some(e) => e,
                None => Zq::zero(),
            };
            proof {
                assert(r_zq@.rows[k as int] == integers::reduced(rows[k as int], q));
                assert(rows[k as int].len() == g_width);
            }
            col.push(e);
            k += 1;
        }
        let v = ZqVec::new(col);
        assert(v@ =~= integers::reduced(column, q));
        match a_0.mul_vec(&v) {
            Ok(product) => {
                proof {
                    integers::lemma_reduced_congruent(column, q);
                    let x = integers::apply(tops, v@);
                    let y = integers::apply(tops, column);
                    assert forall|i: int| 0 <= i < n implies x[i] % q == y[i] % q by {
                        integers::lemma_reduced_congruent(tops[i], q);
                        integers::lemma_dot_congruent(tops[i], tops[i], v@, column, q);
                    }
                    assert(integers::reduced(x, q) =~= integers::reduced(y, q));
                }
                cols.push(product);
            },
            Err(e) => {
                return Err(e);
            },
        }
        j += 1;
    }
    let ghost q_nat = Q as nat;
    let ghost width = g_width as nat;
    let ghost target = Seq::new(n as nat, |i: int| masked_row(q_nat, tops[i], rows, i, width));
    let mut data: Vec<Zq<Q>> = Vec::new();
    let mut i: usize = 0;
    assert(0 * g_width == 0);
    while i < n
        invariant
            Q >= 2,
            q == Q as int,
            q_nat == Q as nat,
            width == g_width,
            tops.len() == n,
            cols@.len() == g_width,
            forall|t: int|
                0 <= t < g_width ==> (#[trigger] cols@[t])@ == integers::reduced(
                    integers::apply(tops, integers::column(rows, t)),
                    q,
                ),
            target == Seq::new(n as nat, |i: int| masked_row(q_nat, tops[i], rows, i, width)),
            i <= n,
            data@.len() == i * g_width,
            forall|s: int, t: int|
                0 <= s < i && 0 <= t < g_width ==> #[trigger] target[s][t] == data@[s * width
                    + t]@,
        decreases n - i,
    {
        let mut j: usize = 0;
        while j < g_width
            invariant
                Q >= 2,
                q == Q as int,
                q_nat == Q as nat,
                width == g_width,
                tops.len() == n,
                cols@.len() == g_width,
                forall|t: int|
                    0 <= t < g_width ==> (#[trigger] cols@[t])@ == integers::reduced(
                        integers::apply(tops, integers::column(rows, t)),
                        q,
                    ),
                target == Seq::new(
                    n as nat,
                    |i: int| masked_row(q_nat, tops[i], rows, i, width),
                ),
                i < n,
                j <= g_width,
                data@.len() == i * g_width + j,
                forall|s: int, t: int|
                    0 <= s < i && 0 <= t < g_width ==> #[trigger] target[s][t] == data@[s
                        * width + t]@,
                forall|t: int|
                    0 <= t < j ==> #[trigger] target[i as int][t] == data@[i * width + t]@,
            decreases g_width - j,
        {
            let ghost before = data@;
            let g_ij: Zq<Q> = gadget_entry(i, j);
            let ghost product = integers::dot(tops[i as int], integers::column(rows, j as int));
            assert(cols@[j as int]@[i as int] == product % q);
            let entries = cols[j].entries();
            assert(vector::values_of(entries@).len() == entries@.len());
            let a0r_ij: Zq<Q> = entries[i];
            assert(a0r_ij@ == vector::values_of(entries@)[i as int]);
            proof {
                lemma_mod_twice(product, q);
                integers::lemma_sub_congruent(g_ij@, g_ij@, product % q, product, q);
            }
            let e: Zq<Q> = g_ij - a0r_ij;
            assert(e@ == target[i as int][j as int]);
            data.push(e);
            proof {
                assert forall|s: int, t: int|
                    0 <= s < i && 0 <= t < g_width implies #[trigger] target[s][t] == data@[s
                    * width + t]@ by {
                    gadget::lemma_block_index(i as nat, width, s, t);
                    assert(target[s][t] == before[s * width + t]@);
                }
            }
            j += 1;
        }
        assert(i * g_width + g_width == (i + 1) * g_width) by (nonlinear_arith);
        i += 1;
    }
    proof {
        let values = vector::values_of(data@);
        assert forall|s: int, t: int|
            0 <= s < n && 0 <= t < width implies #[trigger] target[s][t] == values[s * width
            + t] by {
            gadget::lemma_block_index(n as nat, width, s, t);
        }
        lemma_rows_from(values, n as nat, width, target);
    }
    ZqMatrix::new(n, g_width, data)
}

/// Row-major data with the entries of `target` has its rows.
proof fn lemma_rows_from(data: Seq<int>, rows: nat, cols: nat, target: Seq<Seq<int>>)
    requires
        data.len() == rows * cols,
        target.len() == rows,
        integers::has_width(target, cols),
        forall|s: int, t: int|
            0 <= s < rows && 0 <= t < cols ==> #[trigger] target[s][t] == data[s * cols + t],
    ensures
        integers::rows_of(data, rows, cols) == target,
{
    let view = integers::rows_of(data, rows, cols);
    integers::lemma_rows_width(data, rows, cols);
    assert forall|s: int| 0 <= s < rows implies #[trigger] view[s] == target[s] by {
        assert(target[s].len() == cols);
        assert forall|t: int| 0 <= t < cols implies view[s][t] == target[s][t] by {
            integers::lemma_row_index(data, rows, cols, s, t);
        }
        assert(view[s] =~= target[s]);
    }
    assert(view =~= target);
}

/// Horizontally concatenate `A_0` (`n` rows, `m0` columns) and `A_1` (`n` rows,
/// `g_width` columns).
pub fn assemble_full_a<const Q: u32>(
    a_0: &ZqMatrix<Q>,
    a_1: &ZqMatrix<Q>,
    n: usize,
    m0: usize,
    g_width: usize,
) -> (a: Result<ZqMatrix<Q>, Error>)
    requires
        a_0@.rows.len() == n,
        a_0@.cols == m0,
        a_1@.rows.len() == n,
        a_1@.cols == g_width,
        m0 + g_width <= usize::MAX,
        n * (m0 + g_width) <= usize::MAX,
    ensures
        a matches Ok(m) && m@ == (MatrixView {
            rows: Seq::new(n as nat, |i: int| a_0@.rows[i] + a_1@.rows[i]),
            cols: (m0 + g_width) as nat,
        }),
{
    let m: usize = m0 + g_width;
    let n_rows: usize = a_0.rows();
    let n_other: usize = a_1.rows();
    let ghost width = m as nat;
    let ghost (left, right) = (a_0@.rows, a_1@.rows);
    let ghost target = Seq::new(n as nat, |i: int| left[i] + right[i]);
    let mut data: Vec<Zq<Q>> = Vec::new();
    let mut i: usize = 0;
    assert(0 * m == 0);
    while i < n
        invariant
            m == m0 + g_width,
            width == m,
            left == a_0@.rows,
            right == a_1@.rows,
            left.len() == n,
            right.len() == n,
            integers::has_width(left, m0 as nat),
            integers::has_width(right, g_width as nat),
            a_0@.cols == m0,
            a_1@.cols == g_width,
            target == Seq::new(n as nat, |i: int| left[i] + right[i]),
            i <= n,
            data@.len() == i * m,
            forall|s: int, t: int|
                0 <= s < i && 0 <= t < m ==> #[trigger] target[s][t] == data@[s * width + t]@,
        decreases n - i,
    {
        let mut j: usize = 0;
        while j < m
            invariant
                m == m0 + g_width,
                width == m,
                left == a_0@.rows,
                right == a_1@.rows,
                left.len() == n,
                right.len() == n,
                integers::has_width(left, m0 as nat),
                integers::has_width(right, g_width as nat),
                a_0@.cols == m0,
                a_1@.cols == g_width,
                target == Seq::new(n as nat, |i: int| left[i] + right[i]),
                i < n,
                j <= m,
                data@.len() == i * m + j,
                forall|s: int, t: int|
                    0 <= s < i && 0 <= t < m ==> #[trigger] target[s][t] == data@[s * width
                        + t]@,
                forall|t: int|
                    0 <= t < j ==> #[trigger] target[i as int][t] == data@[i * width + t]@,
            decreases m - j,
        {
            let ghost before = data@;
            let found: Option<Zq<Q>> = if j < m0 {
                a_0.entry(i, j)
            } else {
                a_1.entry(i, j - m0)
            };
            let e: Zq<Q> = match found {
                Some(e) => e,
                None => Zq::zero(),
            };
            assert(left[i as int].len() == m0);
            assert(right[i as int].len() == g_width);
            assert(e@ == target[i as int][j as int]);
            data.push(e);
            proof {
                assert forall|s: int, t: int|
                    0 <= s < i && 0 <= t < m implies #[trigger] target[s][t] == data@[s * width
                    + t]@ by {
                    gadget::lemma_block_index(i as nat, width, s, t);
                    assert(target[s][t] == before[s * width + t]@);
                }
            }
            j += 1;
        }
        assert(i * m + m == (i + 1) * m) by (nonlinear_arith);
        i += 1;
    }
    proof {
        assert forall|s: int| 0 <= s < n implies (#[trigger] target[s]).len() == m by {
            assert(left[s].len() == m0);
            assert(right[s].len() == g_width);
        }
        let values = vector::values_of(data@);
        assert forall|s: int, t: int|
            0 <= s < n && 0 <= t < width implies #[trigger] target[s][t] == values[s * width
            + t] by {
            gadget::lemma_block_index(n as nat, width, s, t);
        }
        lemma_rows_from(values, n as nat, width, target);
    }
    ZqMatrix::new(n, m, data)
}

/// The sizes of the key matrices are machine sizes.
pub open spec fn sizes_fit(params: ParamsView, q: nat) -> bool {
    &&& params.n * params.m(q) <= usize::MAX
    &&& params.m(q) <= usize::MAX
    &&& params.m0 * params.gadget_width(q) * 2 <= usize::MAX
}

/// Assemble a keypair from the uniform matrix `A_0` and the trapdoor `R`.
pub fn keys_from<const Q: u32>(params: LhsParams<Q>, a_0: ZqMatrix<Q>, r: ZMatrix) -> (keys: Result<
    (PublicKey<Q>, SecretKey<Q>),
    Error,
>)
    requires
        sizes_fit(params@, Q as nat),
        a_0@.rows.len() == params@.n,
        a_0@.cols == params@.m0,
        r@.rows.len() == params@.m0,
        r@.cols == params@.gadget_width(Q as nat),
    ensures
        match keys {
            Ok((pk, sk)) => {
                &&& !power_of_two(Q as nat)
                &&& pk@ == (PublicKeyView {
                    a: public_matrix(
                        Q as nat,
                        a_0@.rows,
                        r@.rows,
                        params@.m0,
                        params@.gadget_width(Q as nat),
                    ),
                    params: params@,
                })
                &&& sk@ == (SecretKeyView { r: r@, params: params@ })
                &&& are_related(Q as nat, pk@, sk@)
            },
            Err(e) => power_of_two(Q as nat) && is_singular(e, Q as nat),
        },
{
    let n: usize = params.n();
    let m0: usize = params.m0();
    let g_width: usize = params.gadget_width();
    let a_rows: usize = a_0.rows();
    let r_rows: usize = r.rows();
    proof {
        let (p, q) = (params@, Q as nat);
        assert(p.n * p.gadget_width(q) <= p.n * p.m(q)) by (nonlinear_arith)
            requires
                p.n >= 0,
                p.gadget_width(q) <= p.m(q),
        ;
        lemma_public_matrix(q, a_0@.rows, r@.rows, p.m0, p.gadget_width(q));
    }
    let a_1 = match build_a1(&a_0, &r, n, g_width) {
        Ok(a_1) => a_1,
        Err(e) => {
            return Err(e);
        },
    };
    let a = match assemble_full_a(&a_0, &a_1, n, m0, g_width) {
        Ok(a) => a,
        Err(e) => {
            return Err(e);
        },
    };
    assert(a@.rows =~= public_matrix(
        Q as nat,
        a_0@.rows,
        r@.rows,
        m0 as nat,
        g_width as nat,
    ).rows);
    match PublicKey::new(a, params.clone()) {
        Ok(pk) => match SecretKey::new(r, params) {
            Ok(sk) => Ok((pk, sk)),
            Err(e) => Err(e),
        },
        Err(e) => Err(e),
    }
}

/// What key generation can give: keys assembled from samples of the random
/// source, or the error of a sampler, or that of a modulus that is a power of
/// two.
pub open spec fn generates<const Q: u32, F: Fn(usize) -> Result<Vec<u8>, Error>>(
    params: ParamsView,
    rng: F,
    keys: Result<(PublicKey<Q>, SecretKey<Q>), Error>,
) -> bool {
    let q = Q as nat;
    let width = params.gadget_width(q);
    match keys {
        Ok((pk, sk)) => {
            &&& !power_of_two(q)
            &&& pk@.params == params
            &&& sk@.params == params
            &&& exists|values: Seq<int>| #[trigger]
                vector::all_sampled(rng, values, Q, params.n * params.m0) && pk@.a
                    == public_matrix(
                    q,
                    integers::rows_of(values, params.n, params.m0),
                    sk@.r.rows,
                    params.m0,
                    width,
                )
            &&& exists|trapdoor: Vec<i64>| #[trigger]
                ternary_sampled(
                    rng,
                    params.m0 * width,
                    32,
                    Ok::<Vec<i64>, Error>(trapdoor),
                ) && sk@.r.rows == integers::rows_of(
                    signed::ints_of(trapdoor@),
                    params.m0,
                    width,
                )
            &&& are_related(q, pk@, sk@)
        },
        Err(e) => {
            ||| zq::sampled::<Q, F>(rng, 32, Err(e))
            ||| ternary_sampled(rng, params.m0 * width, 32, Err(e))
            ||| power_of_two(q) && is_singular(e, q)
        },
    }
}

/// Generate a fresh keypair.
///
/// Samples a uniform `A_0` with `n` rows and `m0` columns and a matrix `R` of
/// `m0` rows and `n * k_gadget` columns with entries in `{-1, 0, 1}`, and
/// assembles `A = [A_0 | G - A_0 * R]` so that `A * [R*w ; w] = G * w` for every
/// `w`.
///
/// Fails with [`Error::RandomGenerationFailed`] from any of the underlying
/// samplers, or for a modulus that is a power of two.
pub fn keygen<const Q: u32, F>(params: LhsParams<Q>, rng: &F) -> (keys: Result<
    (PublicKey<Q>, SecretKey<Q>),
    Error,
>) where F: Fn(usize) -> Result<Vec<u8>, Error>
    requires
        sizes_fit(params@, Q as nat),
        forall|n: usize| #[trigger] rng.requires((n,)),
    ensures
        generates(params@, *rng, keys),
        keys matches Ok((_, sk)) ==> forall|i: int, j: int|
            0 <= i < sk@.r.rows.len() && 0 <= j < sk@.r.cols ==> -1 <= #[trigger] sk@.r.rows[i][j]
                <= 1,
        keys matches Err(e) ==> e is RandomGenerationFailed,
        keygen_draws(params, *rng, keys),
{
    let draws: Draws<&F> = Draws::new(rng);
    let ghost before = draws;
    let ghost set = params;
    let (keys, left) = effect::call_pair(keygen_asking::<Q, &F>, params, draws);
    proof {
        assert(call_ensures(keygen_asking::<Q, &F>, (set, before), (keys, left)));
        let asked = choose|asked: Seq<(usize, Result<Vec<u8>, Error>)>| #[trigger]
            generated_with(set@, asked, keys) && left.follows(before, asked);
        let (p, q) = (set@, Q as nat);
        assert(p.n * p.m0 <= p.n * p.m(q)) by (nonlinear_arith)
            requires
                p.n >= 0,
                p.m0 <= p.m(q),
        ;
        lemma_generated_with(rng, set@, asked, keys);
    }
    keys
}

/// `keys` is what key generation gives where `asked` is what the random source was
/// asked and answered: first for the entries of `A_0`, then for those of `R`.
pub open spec fn generated_with<const Q: u32>(
    params: ParamsView,
    asked: Seq<(usize, Result<Vec<u8>, Error>)>,
    keys: Result<(PublicKey<Q>, SecretKey<Q>), Error>,
) -> bool {
    let width = params.gadget_width(Q as nat);
    exists|
        first: Seq<(usize, Result<Vec<u8>, Error>)>,
        rest: Seq<(usize, Result<Vec<u8>, Error>)>,
        a_0: Result<ZqMatrix<Q>, Error>,
    | #[trigger]
        matrix::matrix_sampled(params.n as usize, params.m0 as usize, first, a_0)
            && #[trigger] journal::joins(first, rest, asked) && match a_0 {
            Err(e) => rest.len() == 0 && keys == Err::<(PublicKey<Q>, SecretKey<Q>), Error>(e),
            Ok(m) => exists|trapdoor: Result<Vec<i64>, Error>| #[trigger]
                ternary_with(params.m0 * width, 32, rest, trapdoor) && match trapdoor {
                    Err(e) => keys == Err::<(PublicKey<Q>, SecretKey<Q>), Error>(e),
                    Ok(values) => assembled(params, m@.rows, signed::ints_of(values@), keys),
                },
        }
}

/// `keys` are made of the matrix `A_0` and of the values of `R`, row by row, or the
/// error of a modulus that is a power of two.
pub open spec fn assembled<const Q: u32>(
    params: ParamsView,
    a_0: Seq<Seq<int>>,
    values: Seq<int>,
    keys: Result<(PublicKey<Q>, SecretKey<Q>), Error>,
) -> bool {
    let q = Q as nat;
    let width = params.gadget_width(q);
    match keys {
        Ok((pk, sk)) => {
            &&& !power_of_two(q)
            &&& pk@.params == params
            &&& sk@.params == params
            &&& sk@.r.rows == integers::rows_of(values, params.m0, width)
            &&& sk@.r.cols == width
            &&& pk@.a == public_matrix(q, a_0, sk@.r.rows, params.m0, width)
            &&& are_related(q, pk@, sk@)
        },
        Err(e) => power_of_two(q) && is_singular(e, q),
    }
}

/// `keys` is what key generation gives with a random source that was not asked before.
pub open spec fn keygen_draws<const Q: u32, F: Fn(usize) -> Result<Vec<u8>, Error>>(
    params: LhsParams<Q>,
    rng: F,
    keys: Result<(PublicKey<Q>, SecretKey<Q>), Error>,
) -> bool {
    exists|before: Draws<&F>, after: Draws<&F>|
        before.is_fresh(&rng) && #[trigger] call_ensures(
            keygen_asking::<Q, &F>,
            (params, before),
            (keys, after),
        )
}

/// Generate a fresh keypair with the answers of a random source.
pub fn keygen_asking<const Q: u32, F>(params: LhsParams<Q>, draws: Draws<F>) -> (out: (
    Result<(PublicKey<Q>, SecretKey<Q>), Error>,
    Draws<F>,
)) where F: Fn(usize) -> Result<Vec<u8>, Error>
    requires
        sizes_fit(params@, Q as nat),
        forall|n: usize| #[trigger] draws.source().requires((n,)),
    ensures
        exists|asked: Seq<(usize, Result<Vec<u8>, Error>)>| #[trigger]
            generated_with(params@, asked, out.0) && out.1.follows(draws, asked),
        out.0 matches Ok((_, sk)) ==> forall|i: int, j: int|
            0 <= i < sk@.r.rows.len() && 0 <= j < sk@.r.cols ==> -1 <= #[trigger] sk@.r.rows[i][j]
                <= 1,
        out.0 matches Err(e) ==> e is RandomGenerationFailed,
{
    let n: usize = params.n();
    let m0: usize = params.m0();
    let ghost q = Q as nat;
    let ghost view = params@;
    proof {
        let (p, q) = (params@, Q as nat);
        assert(p.n * p.m0 <= p.n * p.m(q)) by (nonlinear_arith)
            requires
                p.n >= 0,
                p.m0 <= p.m(q),
        ;
    }
    let g_width: usize = params.gadget_width();
    let (sampled, between) = ZqMatrix::<Q>::sample_asking(n, m0, draws);
    let ghost a_0 = sampled;
    let ghost first = choose|first: Seq<(usize, Result<Vec<u8>, Error>)>| #[trigger]
        matrix::matrix_sampled(n, m0, first, sampled) && between.follows(draws, first);
    let matrix = match sampled {
        Ok(matrix) => matrix,
        Err(e) => {
            let ghost none: Seq<(usize, Result<Vec<u8>, Error>)> = Seq::empty();
            proof {
                assert(first + none =~= first);
                assert(journal::joins(first, none, first));
                assert(matrix::matrix_sampled(view.n as usize, view.m0 as usize, first, a_0));
            }
            let out = (Err(e), between);
            assert(generated_with::<Q>(view, first, out.0));
            return out;
        },
    };
    let ghost rows = matrix@.rows;
    assert(m0 * g_width == view.m0 * view.gadget_width(q));
    let (values, left) = sample_ternary_asking(m0 * g_width, between);
    let ghost trapdoor = values;
    let ghost rest = choose|rest: Seq<(usize, Result<Vec<u8>, Error>)>| #[trigger]
        ternary_with((m0 * g_width) as nat, 32, rest, values) && left.follows(between, rest);
    let ghost asked = first + rest;
    proof {
        journal::lemma_follows_on(draws, first, between, rest, left);
        assert(journal::joins(first, rest, asked));
        assert(matrix::matrix_sampled(view.n as usize, view.m0 as usize, first, a_0));
        assert(ternary_with(view.m0 * view.gadget_width(q), 32, rest, trapdoor));
    }
    let r_data = match values {
        Ok(r_data) => r_data,
        Err(e) => {
            let out = (Err(e), left);
            assert(generated_with::<Q>(view, asked, out.0));
            return out;
        },
    };
    let ghost listed = signed::ints_of(r_data@);
    let made = match ZMatrix::new(m0, g_width, r_data) {
        Ok(r) => {
            proof {
                assert forall|i: int, j: int| 0 <= i < m0 && 0 <= j < g_width implies -1
                    <= #[trigger] r@.rows[i][j] <= 1 by {
                    integers::lemma_row_index(listed, m0 as nat, g_width as nat, i, j);
                    assert(-1 <= listed[i * g_width + j] <= 1);
                }
            }
            keys_from(params, matrix, r)
        },
        Err(e) => Err(e),
    };
    assert(assembled::<Q>(view, rows, listed, made));
    let out = (made, left);
    assert(generated_with::<Q>(view, asked, out.0));
    out
}

/// Keys generated with answers of the random source are generated from it.
proof fn lemma_generated_with<const Q: u32, F: Fn(usize) -> Result<Vec<u8>, Error>>(
    rng: &F,
    params: ParamsView,
    asked: Seq<(usize, Result<Vec<u8>, Error>)>,
    keys: Result<(PublicKey<Q>, SecretKey<Q>), Error>,
)
    requires
        generated_with(params, asked, keys),
        journal::all_answered(*rng, asked),
        params.n <= usize::MAX,
        params.m0 <= usize::MAX,
        params.n * params.m0 <= usize::MAX,
    ensures
        generates(params, *rng, keys),
{
    let width = params.gadget_width(Q as nat);
    let (n, m0) = (params.n as usize, params.m0 as usize);
    let (first, rest, a_0) = choose|
        first: Seq<(usize, Result<Vec<u8>, Error>)>,
        rest: Seq<(usize, Result<Vec<u8>, Error>)>,
        a_0: Result<ZqMatrix<Q>, Error>,
    | #[trigger]
        matrix::matrix_sampled(n, m0, first, a_0) && #[trigger] journal::joins(first, rest, asked)
            && match a_0 {
            Err(e) => rest.len() == 0 && keys == Err::<(PublicKey<Q>, SecretKey<Q>), Error>(e),
            Ok(m) => exists|trapdoor: Result<Vec<i64>, Error>| #[trigger]
                ternary_with(params.m0 * width, 32, rest, trapdoor) && match trapdoor {
                    Err(e) => keys == Err::<(PublicKey<Q>, SecretKey<Q>), Error>(e),
                    Ok(values) => assembled(params, m@.rows, signed::ints_of(values@), keys),
                },
        };
    journal::lemma_answered_parts(rng, first, rest, asked);
    let listed = choose|listed: Result<Vec<Zq<Q>>, Error>| #[trigger]
        vector::entries_sampled((n * m0) as nat, first, listed) && match (listed, a_0) {
            (Ok(entries), Ok(m)) => matrix::is_listed(n, m0, entries@, m@),
            (Err(e), Err(f)) => e == f,
            _ => false,
        };
    vector::lemma_entries_sampled(rng, (n * m0) as nat, first, listed);
    if let Ok(m) = a_0 {
        let trapdoor = choose|trapdoor: Result<Vec<i64>, Error>| #[trigger]
            ternary_with(params.m0 * width, 32, rest, trapdoor) && match trapdoor {
                Err(e) => keys == Err::<(PublicKey<Q>, SecretKey<Q>), Error>(e),
                Ok(values) => assembled(params, m@.rows, signed::ints_of(values@), keys),
            };
        lemma_ternary_with(rng, params.m0 * width, 32, rest, trapdoor);
        if let Ok(values) = trapdoor {
            let entries = listed->Ok_0;
            assert(vector::all_sampled(
                *rng,
                vector::values_of(entries@),
                Q,
                params.n * params.m0,
            ));
            assert(ternary_sampled(
                *rng,
                params.m0 * width,
                32,
                Ok::<Vec<i64>, Error>(values),
            ));
        }
    }
}

/// Generated keys are made of the answers of the random source in the order in which
/// they came: the first `m0` columns of the public matrix hold the residues of the
/// answers asked for first, row by row, and the trapdoor holds the ternary values of
/// the answers asked for next, row by row.
pub proof fn lemma_keys_in_order<const Q: u32, F: Fn(usize) -> Result<Vec<u8>, Error>>(
    params: LhsParams<Q>,
    before: Draws<F>,
    pk: PublicKey<Q>,
    sk: SecretKey<Q>,
    after: Draws<F>,
)
    requires
        params@.n <= usize::MAX,
        params@.m0 <= usize::MAX,
        call_ensures(keygen_asking::<Q, F>, (params, before), (Ok((pk, sk)), after)),
    ensures
        exists|first: Seq<(usize, Result<Vec<u8>, Error>)>, rest: Seq<(usize, Result<Vec<u8>, Error>)>| #[trigger]
            after.follows(before, first + rest) && {
                let (n, m0) = (params@.n, params@.m0);
                let width = params@.gadget_width(Q as nat);
                &&& vector::residues(Q, first).len() == n * m0
                &&& pk@.a.rows.len() == n
                &&& forall|i: int, j: int|
                    0 <= i < n && 0 <= j < m0 ==> #[trigger] pk@.a.rows[i][j] == vector::residues(
                        Q,
                        first,
                    )[i * m0 + j]
                &&& gathered(rest).len() >= m0 * width
                &&& sk@.r.rows.len() == m0
                &&& forall|i: int, j: int|
                    0 <= i < m0 && 0 <= j < width ==> #[trigger] sk@.r.rows[i][j] == gathered(
                        rest,
                    )[i * width + j]
            },
{
    let asked = choose|asked: Seq<(usize, Result<Vec<u8>, Error>)>| #[trigger]
        generated_with(params@, asked, Ok((pk, sk))) && after.follows(before, asked);
    let (n, m0) = (params@.n as usize, params@.m0 as usize);
    let width = params@.gadget_width(Q as nat);
    let (first, rest, a_0) = choose|
        first: Seq<(usize, Result<Vec<u8>, Error>)>,
        rest: Seq<(usize, Result<Vec<u8>, Error>)>,
        a_0: Result<ZqMatrix<Q>, Error>,
    | #[trigger]
        matrix::matrix_sampled(n, m0, first, a_0) && #[trigger] journal::joins(first, rest, asked)
            && match a_0 {
            Err(e) => false,
            Ok(m) => exists|trapdoor: Result<Vec<i64>, Error>| #[trigger]
                ternary_with(params@.m0 * width, 32, rest, trapdoor) && match trapdoor {
                    Err(e) => false,
                    Ok(values) => assembled(
                        params@,
                        m@.rows,
                        signed::ints_of(values@),
                        Ok((pk, sk)),
                    ),
                },
        };
    let m = a_0->Ok_0;
    let trapdoor = choose|trapdoor: Result<Vec<i64>, Error>| #[trigger]
        ternary_with(params@.m0 * width, 32, rest, trapdoor) && match trapdoor {
            Err(e) => false,
            Ok(values) => assembled(params@, m@.rows, signed::ints_of(values@), Ok((pk, sk))),
        };
    let values = signed::ints_of(trapdoor->Ok_0@);
    matrix::lemma_matrix_residues(n, m0, first, m);
    assert(after.follows(before, first + rest));
    assert forall|i: int, j: int| 0 <= i < n && 0 <= j < m0 implies #[trigger] pk@.a.rows[i][j]
        == vector::residues(Q, first)[i * m0 + j] by {
        assert(m@.rows[i].len() == m0);
        assert(m@.rows[i][j] == vector::residues(Q, first)[i * m0 + j]);
    }
    assert forall|i: int, j: int| 0 <= i < m0 && 0 <= j < width implies #[trigger] sk@.r.rows[i][j]
        == gathered(rest)[i * width + j] by {
        integers::lemma_row_index(values, params@.m0, width, i, j);
        integers::lemma_row_bounds(params@.m0, width, i);
    }
}

} // verus!
