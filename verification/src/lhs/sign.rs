//! Signing, and combining signatures.
//!
//! The signature on a hash target `h` is the integer vector `sigma = [R*w ; w]`,
//! where `w` is a short preimage of `h` under the gadget matrix: `G * w = h`
//! modulo `Q`.  The gadget trapdoor identity gives
//!
//! ```text
//! A * sigma = A_0*(R*w) + A_1*w
//!           = A_0*R*w + (G - A_0*R)*w
//!           = G*w = h   (mod Q).
//! ```
//!
//! `w` is produced in two stages:
//!
//! 1. Compute the deterministic bit-decomposition `w_0 = bits(h)`, which
//!    satisfies `G * w_0 = h`.
//! 2. For each gadget block, ask a sampler for an offset in the gadget kernel
//!    close to `-w_0`, and set the block to `w_0` plus the offset.  Adding a
//!    kernel element preserves `G * w = h` modulo `Q`, whatever the sampler
//!    answers; a Gaussian sampler makes the draw close to the discrete Gaussian
//!    on the coset of the kernel.
//!
//! Linear homomorphism follows: a linear combination of signatures over `Z/QZ`
//! (lifted to `Z` via the balanced signed representative) is itself a valid
//! signature on the matching combination of hash targets, and the composition
//! is performed by [`combine`] without the secret key.
use super::gadget::{self, gadget_preimage};
use super::keys::{self, PublicKey, PublicKeyView, SecretKey};
use super::params::{self, LhsParams, ParamsView};
use crate::effect;
use crate::error::Error;
use crate::journal::{self, PairJournal};
use crate::lattice::integers;
use crate::lattice::signed;
use crate::lattice::vector;
use crate::lattice::zq;
use crate::lattice::{ZMatrix, ZVec, Zq, ZqVec};
use vstd::arithmetic::div_mod::*;
use vstd::prelude::*;

verus! {

/// A signature: an integer vector whose length is `m` for a well-formed key.
///
/// Signatures live over `Z`, not `Z/QZ`: the norm bound that the verifier checks
/// is measured in the integer interpretation, so a fresh signature remains short
/// while a "signature" made from a lattice vector modulo `Q` can be arbitrarily
/// long.
#[derive(Debug, PartialEq, Eq)]
#[must_use]
pub struct Signature {
    pub(crate) sigma: ZVec,
}

impl View for Signature {
    type V = Seq<int>;

    open(crate) spec fn view(&self) -> Seq<int> {
        self.sigma@
    }
}

impl Clone for Signature {
    fn clone(&self) -> (r: Self)
        ensures
            r@ == self@,
    {
        Self { sigma: self.sigma.clone() }
    }
}

/// The views of a sequence of signatures.
pub open spec fn views_of(signatures: Seq<Signature>) -> Seq<Seq<int>> {
    Seq::new(signatures.len(), |i: int| signatures[i]@)
}

impl Signature {
    /// Wrap an owned integer vector as a signature.
    pub fn new(sigma: ZVec) -> (r: Self)
        ensures
            r@ == sigma@,
    {
        Self { sigma }
    }

    /// Borrow of the underlying integer vector.
    pub fn sigma(&self) -> (r: &ZVec)
        ensures
            r@ == self@,
    {
        &self.sigma
    }

    /// The length of the vector.
    #[must_use]
    pub fn len(&self) -> (r: usize)
        ensures
            r == self@.len(),
    {
        self.sigma.len()
    }

    /// Whether the underlying vector has zero length.
    #[must_use]
    pub fn is_empty(&self) -> (r: bool)
        ensures
            r == (self@.len() == 0),
    {
        self.sigma.is_empty()
    }

    /// Squared L2 norm.
    #[must_use]
    pub fn squared_l2_norm(&self) -> (r: u128)
        ensures
            r == signed::saturated(integers::squared_norm(self@)),
    {
        self.sigma.squared_l2_norm()
    }
}

/// The negated elements.
pub open spec fn negated(b: Seq<int>) -> Seq<int> {
    Seq::new(b.len(), |t: int| -b[t])
}

/// The element of the gadget kernel over `Z/qZ` with the given coefficients on
/// its basis.
pub open spec fn kernel_element(q: nat, zs: Seq<int>) -> Seq<int> {
    integers::combination(zs, gadget::kernel_basis(q).rows, params::gadget_bits(q))
}

/// The sampler can give coefficients that turn the block `b` into `w`.
pub open spec fn block_drawn<G: Fn(Vec<i64>, u64) -> Result<ZVec, Error>>(
    q: nat,
    sampler: G,
    width: u64,
    b: Seq<int>,
    w: Seq<int>,
) -> bool {
    exists|center: Vec<i64>, zs: ZVec| #[trigger]
        sampler.ensures((center, width), Ok::<ZVec, Error>(zs)) && signed::ints_of(center@)
            == negated(b) && w == integers::sum(b, kernel_element(q, zs@))
}

/// The sampler can fail with `e` on the block `b`.
pub open spec fn block_fails<G: Fn(Vec<i64>, u64) -> Result<ZVec, Error>>(
    sampler: G,
    width: u64,
    b: Seq<int>,
    e: Error,
) -> bool {
    exists|center: Vec<i64>| #[trigger]
        sampler.ensures((center, width), Err::<ZVec, Error>(e)) && signed::ints_of(center@)
            == negated(b)
}

/// The sampler can turn each of the `n` blocks of `w_0` into that of `w`.
pub open spec fn preimage_drawn<G: Fn(Vec<i64>, u64) -> Result<ZVec, Error>>(
    q: nat,
    sampler: G,
    width: u64,
    n: nat,
    w_0: Seq<int>,
    w: Seq<int>,
) -> bool {
    let k = params::gadget_bits(q);
    &&& w.len() == n * k
    &&& forall|i: int|
        0 <= i < n ==> block_drawn(
            q,
            sampler,
            width,
            gadget::block(w_0, k, i),
            #[trigger] gadget::block(w, k, i),
        )
}

/// A journal of a sampler: centers and widths, and the coefficients it gave.
pub type Samples<G> = PairJournal<Vec<i64>, u64, Result<ZVec, Error>, G>;

/// The sampler was asked about the block `b`: its negated elements are the center.
pub open spec fn asks_about(
    width: u64,
    b: Seq<int>,
    entry: ((Vec<i64>, u64), Result<ZVec, Error>),
) -> bool {
    entry.0.1 == width && signed::ints_of(entry.0.0@) == negated(b)
}

/// `o` is the block that the answer of the sampler turns `b` into, or its error.
pub open spec fn block_with(
    q: nat,
    width: u64,
    b: Seq<int>,
    entry: ((Vec<i64>, u64), Result<ZVec, Error>),
    o: Result<Seq<int>, Error>,
) -> bool {
    &&& asks_about(width, b, entry)
    &&& match entry.1 {
        Ok(zs) => o == Ok::<Seq<int>, Error>(integers::sum(b, kernel_element(q, zs@))),
        Err(e) => o == Err::<Seq<int>, Error>(e),
    }
}

/// The answers of `asked`, one for each block in order, turn the blocks of `w_0`
/// into those of `w`.
pub open spec fn blocks_with(
    q: nat,
    width: u64,
    w_0: Seq<int>,
    asked: Seq<((Vec<i64>, u64), Result<ZVec, Error>)>,
    w: Seq<int>,
) -> bool {
    let k = params::gadget_bits(q);
    &&& w.len() == asked.len() * k
    &&& forall|i: int|
        0 <= i < asked.len() ==> block_with(
            q,
            width,
            gadget::block(w_0, k, i),
            #[trigger] asked[i],
            Ok(gadget::block(w, k, i)),
        )
}

/// `o` is the preimage that the answers of `asked` turn the `n` blocks of `w_0`
/// into, or the error of the last one.
pub open spec fn preimage_with(
    q: nat,
    width: u64,
    n: nat,
    w_0: Seq<int>,
    asked: Seq<((Vec<i64>, u64), Result<ZVec, Error>)>,
    o: Result<Seq<int>, Error>,
) -> bool {
    match o {
        Ok(w) => asked.len() == n && blocks_with(q, width, w_0, asked, w),
        Err(e) => {
            &&& 0 < asked.len() <= n
            &&& exists|w: Seq<int>| #[trigger] blocks_with(q, width, w_0, asked.drop_last(), w)
            &&& block_with(
                q,
                width,
                gadget::block(w_0, params::gadget_bits(q), asked.len() - 1),
                asked.last(),
                Err(e),
            )
        },
    }
}

/// `r` is what signing `target` gives when the sampler is asked `asked`.
pub open spec fn signed_with<const Q: u32>(
    public: PublicKeyView,
    trapdoor: integers::MatrixView,
    target: Seq<int>,
    asked: Seq<((Vec<i64>, u64), Result<ZVec, Error>)>,
    r: Result<Signature, Error>,
) -> bool {
    let q = Q as nat;
    let k = params::gadget_bits(q);
    let n = public.params.n;
    if target.len() != n {
        asked.len() == 0 && r == Err::<Signature, Error>(
            Error::DimensionMismatch { expected: n as usize, actual: target.len() as usize },
        )
    } else {
        exists|o: Result<Seq<int>, Error>| #[trigger]
            preimage_with(
                q,
                public.params.sigma_g,
                n,
                gadget::preimage(target, k),
                asked,
                o,
            ) && match o {
                Ok(w) => if w.len() == trapdoor.cols {
                    r matches Ok(signature) && signature@ == keys::lifted(trapdoor.rows, w)
                } else {
                    r == Err::<Signature, Error>(
                        Error::DimensionMismatch {
                            expected: trapdoor.cols as usize,
                            actual: w.len() as usize,
                        },
                    )
                },
                Err(e) => r == Err::<Signature, Error>(e),
            }
    }
}

/// `r` is what signing gives with a sampler that was not asked before.
pub open spec fn signs_asking<const Q: u32, G: Fn(Vec<i64>, u64) -> Result<ZVec, Error>>(
    pk: PublicKey<Q>,
    sk: SecretKey<Q>,
    target: ZqVec<Q>,
    sampler: G,
    r: Result<Signature, Error>,
) -> bool {
    exists|before: Samples<&G>, after: Samples<&G>|
        before.is_fresh(&sampler) && #[trigger] call_ensures(
            sign_asking::<Q, &G>,
            (&pk, &sk, &target, before),
            (r, after),
        )
}

/// `sigma` is a signature that signing `target` gives with a sampler that was not
/// asked before.
pub open spec fn signed_asking<const Q: u32, G: Fn(Vec<i64>, u64) -> Result<ZVec, Error>>(
    pk: PublicKey<Q>,
    sk: SecretKey<Q>,
    target: Seq<int>,
    sampler: G,
    sigma: Seq<int>,
) -> bool {
    exists|vector: ZqVec<Q>, signature: Signature|
        vector@ == target && signature@ == sigma && #[trigger] signs_asking(
            pk,
            sk,
            vector,
            sampler,
            Ok(signature),
        )
}

/// A negated block of bits.
pub open spec fn is_center(q: nat, center: Seq<i64>) -> bool {
    &&& center.len() == params::gadget_bits(q)
    &&& forall|t: int| 0 <= t < center.len() ==> -1 <= #[trigger] center[t] <= 0
}

/// The sampler takes every negated block of bits, and answers with as many
/// coefficients; adding the kernel element to the block stays within `i64`.
pub open spec fn sampler_valid<G: Fn(Vec<i64>, u64) -> Result<ZVec, Error>>(
    q: nat,
    sampler: G,
    width: u64,
) -> bool {
    let k = params::gadget_bits(q);
    &&& forall|center: Vec<i64>|
        is_center(q, center@) ==> #[trigger] sampler.requires((center, width))
    &&& forall|center: Vec<i64>, zs: ZVec| #[trigger]
        sampler.ensures((center, width), Ok::<ZVec, Error>(zs)) && is_center(q, center@)
            ==> zs@.len() == k && signed::combination_fits(
            zs@,
            gadget::kernel_basis(q).rows,
        ) && (forall|t: int|
            0 <= t < k ==> integers::fits(
                #[trigger] kernel_element(q, zs@)[t] - center@[t],
            ))
}

/// Every preimage of a target that the sampler can lead to has a product with the
/// trapdoor within `i64`.
pub open spec fn products_fit<G: Fn(Vec<i64>, u64) -> Result<ZVec, Error>>(
    q: nat,
    sampler: G,
    width: u64,
    n: nat,
    r: Seq<Seq<int>>,
    target: Seq<int>,
) -> bool {
    forall|w: Seq<int>| #[trigger]
        preimage_drawn(
            q,
            sampler,
            width,
            n,
            gadget::preimage(target, params::gadget_bits(q)),
            w,
        ) ==> signed::product_fits(r, w)
}

/// `r` is what signing `target` can give.
pub open spec fn signs<const Q: u32, G: Fn(Vec<i64>, u64) -> Result<ZVec, Error>>(
    public: PublicKeyView,
    trapdoor: integers::MatrixView,
    target: Seq<int>,
    sampler: G,
    r: Result<Signature, Error>,
) -> bool {
    let q = Q as nat;
    let k = params::gadget_bits(q);
    let n = public.params.n;
    let w_0 = gadget::preimage(target, k);
    match r {
        Ok(signature) => {
            &&& target.len() == n
            &&& trapdoor.cols == n * k
            &&& exists|w: Seq<int>| #[trigger]
                preimage_drawn(q, sampler, public.params.sigma_g, n, w_0, w) && signature@
                    == keys::lifted(trapdoor.rows, w)
        },
        Err(e) => if target.len() != n {
            e == Error::DimensionMismatch { expected: n as usize, actual: target.len() as usize }
        } else {
            ||| exists|i: int|
                0 <= i < n && block_fails(
                    sampler,
                    public.params.sigma_g,
                    #[trigger] gadget::block(w_0, k, i),
                    e,
                )
            ||| trapdoor.cols != n * k && e == Error::DimensionMismatch {
                expected: trapdoor.cols as usize,
                actual: (n * k) as usize,
            }
        },
    }
}

/// `sigma` is a signature that signing `target` can give.
pub open spec fn signed_as<const Q: u32, G: Fn(Vec<i64>, u64) -> Result<ZVec, Error>>(
    public: PublicKeyView,
    trapdoor: integers::MatrixView,
    target: Seq<int>,
    sampler: G,
    sigma: Seq<int>,
) -> bool {
    exists|signature: Signature|
        signature@ == sigma && #[trigger] signs::<Q, G>(
            public,
            trapdoor,
            target,
            sampler,
            Ok(signature),
        )
}

/// The negated block of the bits of a vector is one of bits.
proof fn lemma_center(q: nat, target: Seq<int>, i: int, center: Seq<i64>)
    requires
        0 <= i < target.len(),
        signed::ints_of(center) == negated(
            gadget::block(
                gadget::preimage(target, params::gadget_bits(q)),
                params::gadget_bits(q),
                i,
            ),
        ),
    ensures
        is_center(q, center),
{
    let k = params::gadget_bits(q);
    let b = gadget::bits(target[i], k);
    gadget::lemma_preimage_block(target, k, i);
    let ints = signed::ints_of(center);
    assert(ints.len() == center.len());
    assert(negated(b).len() == k);
    assert forall|t: int| 0 <= t < center.len() implies -1 <= #[trigger] center[t] <= 0 by {
        assert(ints[t] == negated(b)[t]);
        assert(0 <= b[t] < 2);
    }
}

/// Adding kernel elements to the blocks of the bits of a target keeps its product
/// with the gadget matrix.
pub proof fn lemma_drawn_preimage<G: Fn(Vec<i64>, u64) -> Result<ZVec, Error>>(
    q: u32,
    sampler: &G,
    width: u64,
    target: Seq<int>,
    w: Seq<int>,
)
    requires
        q >= 2,
        forall|i: int| 0 <= i < target.len() ==> 0 <= #[trigger] target[i] < q,
        sampler_valid(q as nat, *sampler, width),
        preimage_drawn(
            q as nat,
            *sampler,
            width,
            target.len(),
            gadget::preimage(target, params::gadget_bits(q as nat)),
            w,
        ),
    ensures
        gadget::applied(q as nat, target.len(), w) == target,
{
    let (qi, qn) = (q as int, q as nat);
    let k = params::gadget_bits(qn);
    let n = target.len();
    let w_0 = gadget::preimage(target, k);
    let p = gadget::powers(k);
    gadget::lemma_preimage_applied(q, target);
    assert forall|i: int| 0 <= i < n implies gadget::applied(qn, n, w)[i] == target[i] by {
        let (b, c) = (gadget::block(w_0, k, i), gadget::block(w, k, i));
        assert(block_drawn(qn, *sampler, width, b, c));
        let (center, zs) = choose|center: Vec<i64>, zs: ZVec| #[trigger]
            sampler.ensures((center, width), Ok::<ZVec, Error>(zs)) && signed::ints_of(center@)
                == negated(b) && c == integers::sum(b, kernel_element(qn, zs@));
        let v = kernel_element(qn, zs@);
        lemma_center(qn, target, i, center@);
        lemma_kernel_element(q, zs@);
        assert(c =~= integers::sum(b, integers::scaled(1, v)));
        integers::lemma_dot_linear(p, b, 1, v);
        let (x, y) = (integers::dot(p, b), integers::dot(p, v));
        lemma_small_mod(0nat, qn);
        integers::lemma_add_congruent(x, x, y, 0, qi);
        assert(gadget::applied(qn, n, w_0)[i] == target[i]);
    }
    assert(gadget::applied(qn, n, w) =~= target);
}

/// The weights of a block map every kernel element to zero modulo `q`.
pub proof fn lemma_kernel_element(q: u32, zs: Seq<int>)
    requires
        q >= 2,
        zs.len() == params::gadget_bits(q as nat),
    ensures
        integers::dot(
            gadget::powers(params::gadget_bits(q as nat)),
            kernel_element(q as nat, zs),
        ) % q as int == 0,
{
    let (qi, qn) = (q as int, q as nat);
    let k = params::gadget_bits(qn);
    let p = gadget::powers(k);
    let rows = gadget::kernel_basis(qn).rows;
    let v = kernel_element(qn, zs);
    assert forall|i: int| 0 <= i < rows.len() implies (#[trigger] rows[i]).len() == k by {
        gadget::lemma_kernel_row(q, i);
    }
    integers::lemma_dot_associates(zs, rows, p);
    integers::lemma_dot_commutes(v, p);
    let products = integers::apply(rows, p);
    let zero = integers::zeros(k);
    lemma_small_mod(0nat, qn);
    assert forall|i: int| 0 <= i < k implies #[trigger] products[i] % qi == zero[i] % qi by {
        gadget::lemma_kernel_row(q, i);
        integers::lemma_dot_commutes(rows[i], p);
    }
    integers::lemma_reduced_congruent(zs, qi);
    integers::lemma_dot_congruent(zs, zs, products, zero, qi);
    integers::lemma_dot_zeros(zs, zero);
}

/// The sampler takes every negated block of bits, and answers with as many
/// coefficients, of magnitude at most `bound`.
pub open spec fn sampler_bounded<G: Fn(Vec<i64>, u64) -> Result<ZVec, Error>>(
    q: nat,
    sampler: G,
    width: u64,
    bound: int,
) -> bool {
    &&& forall|center: Vec<i64>|
        is_center(q, center@) ==> #[trigger] sampler.requires((center, width))
    &&& forall|center: Vec<i64>, zs: ZVec| #[trigger]
        sampler.ensures((center, width), Ok::<ZVec, Error>(zs)) && is_center(q, center@)
            ==> zs@.len() == params::gadget_bits(q) && integers::bounded(zs@, bound)
}

/// The magnitude of the entries of a preimage drawn by a sampler whose
/// coefficients are bounded.
pub open spec fn preimage_bound(q: nat, bound: int) -> int {
    1 + params::gadget_bits(q) * (bound * 2)
}

/// The entries of a kernel element are bounded by the coefficients.
proof fn lemma_kernel_element_bounded(q: u32, zs: Seq<int>, bound: int)
    requires
        q >= 2,
        zs.len() == params::gadget_bits(q as nat),
        integers::bounded(zs, bound),
        bound >= 0,
        preimage_bound(q as nat, bound) <= i64::MAX,
    ensures
        signed::combination_fits(zs, gadget::kernel_basis(q as nat).rows),
        integers::bounded(
            kernel_element(q as nat, zs),
            preimage_bound(q as nat, bound) - 1,
        ),
{
    let qn = q as nat;
    let k = params::gadget_bits(qn);
    let rows = gadget::kernel_basis(qn).rows;
    params::lemma_gadget_bits(q);
    assert forall|j: int| 0 <= j < k implies integers::bounded(
        #[trigger] integers::column(rows, j),
        2,
    ) by {}
    assert forall|j: int| 0 <= j < k implies integers::dot_fits(
        zs,
        #[trigger] integers::column(rows, j),
    ) by {
        integers::lemma_dot_fits(zs, integers::column(rows, j), bound, 2);
    }
    assert(rows[0].len() == k);
    let v = kernel_element(qn, zs);
    let limit = preimage_bound(qn, bound) - 1;
    assert forall|j: int| 0 <= j < v.len() implies -limit <= #[trigger] v[j] <= limit by {
        integers::lemma_dot_bounded(zs, integers::column(rows, j), bound, 2);
    }
}

/// A sampler whose coefficients are bounded is valid, if the bound leaves room.
pub proof fn lemma_bounded_sampler_valid<G: Fn(Vec<i64>, u64) -> Result<ZVec, Error>>(
    q: u32,
    sampler: &G,
    width: u64,
    bound: int,
)
    requires
        q >= 2,
        bound >= 0,
        sampler_bounded(q as nat, *sampler, width, bound),
        preimage_bound(q as nat, bound) <= i64::MAX,
    ensures
        sampler_valid(q as nat, *sampler, width),
{
    let qn = q as nat;
    let k = params::gadget_bits(qn);
    assert forall|center: Vec<i64>, zs: ZVec| #[trigger]
        sampler.ensures((center, width), Ok::<ZVec, Error>(zs)) && is_center(
            qn,
            center@,
        ) implies zs@.len() == k && signed::combination_fits(
        zs@,
        gadget::kernel_basis(qn).rows,
    ) && (forall|t: int|
        0 <= t < k ==> integers::fits(#[trigger] kernel_element(qn, zs@)[t] - center@[t])) by {
        lemma_kernel_element_bounded(q, zs@, bound);
        let v = kernel_element(qn, zs@);
        assert forall|t: int| 0 <= t < k implies integers::fits(
            #[trigger] v[t] - center@[t],
        ) by {
            assert(-1 <= center@[t] <= 0);
            assert(-(preimage_bound(qn, bound) - 1) <= v[t] <= preimage_bound(qn, bound) - 1);
        }
    }
}

/// A preimage drawn by a sampler whose coefficients are bounded is short.
pub proof fn lemma_drawn_preimage_bounded<G: Fn(Vec<i64>, u64) -> Result<ZVec, Error>>(
    q: u32,
    sampler: &G,
    width: u64,
    bound: int,
    target: Seq<int>,
    w: Seq<int>,
)
    requires
        q >= 2,
        bound >= 0,
        sampler_bounded(q as nat, *sampler, width, bound),
        preimage_bound(q as nat, bound) <= i64::MAX,
        preimage_drawn(
            q as nat,
            *sampler,
            width,
            target.len(),
            gadget::preimage(target, params::gadget_bits(q as nat)),
            w,
        ),
    ensures
        integers::bounded(w, preimage_bound(q as nat, bound)),
{
    let qn = q as nat;
    let k = params::gadget_bits(qn);
    let n = target.len();
    let w_0 = gadget::preimage(target, k);
    let limit = preimage_bound(qn, bound);
    params::lemma_gadget_bits(q);
    assert forall|s: int| 0 <= s < w.len() implies -limit <= #[trigger] w[s] <= limit by {
        let (i, t) = (s / k as int, s % k as int);
        lemma_fundamental_div_mod(s, k as int);
        vstd::arithmetic::mul::lemma_mul_is_commutative(i, k as int);
        assert(0 <= i < n) by (nonlinear_arith)
            requires
                s == i * k + t,
                0 <= t < k,
                0 <= s < n * k,
        ;
        let (b, c) = (gadget::block(w_0, k, i), gadget::block(w, k, i));
        assert(block_drawn(qn, *sampler, width, b, c));
        let (center, zs) = choose|center: Vec<i64>, zs: ZVec| #[trigger]
            sampler.ensures((center, width), Ok::<ZVec, Error>(zs)) && signed::ints_of(center@)
                == negated(b) && c == integers::sum(b, kernel_element(qn, zs@));
        gadget::lemma_preimage_block(target, k, i);
        lemma_center(qn, target, i, center@);
        lemma_kernel_element_bounded(q, zs@, bound);
        let v = kernel_element(qn, zs@);
        assert(w[s] == c[t]);
        assert(c[t] == b[t] + v[t]);
        assert(0 <= b[t] <= 1);
        assert(-(limit - 1) <= v[t] <= limit - 1);
    }
}

/// With a ternary trapdoor, a sampler whose coefficients are bounded keeps every
/// product with the trapdoor within `i64`, if the bound leaves room.
pub proof fn lemma_bounded_products_fit<G: Fn(Vec<i64>, u64) -> Result<ZVec, Error>>(
    q: u32,
    sampler: &G,
    width: u64,
    bound: int,
    r: Seq<Seq<int>>,
    target: Seq<int>,
)
    requires
        q >= 2,
        bound >= 0,
        sampler_bounded(q as nat, *sampler, width, bound),
        preimage_bound(q as nat, bound) <= i64::MAX,
        integers::has_width(r, target.len() * params::gadget_bits(q as nat)),
        forall|i: int| 0 <= i < r.len() ==> integers::bounded(#[trigger] r[i], 1),
        target.len() * params::gadget_bits(q as nat) * preimage_bound(q as nat, bound)
            <= i64::MAX,
    ensures
        products_fit(q as nat, *sampler, width, target.len(), r, target),
{
    let qn = q as nat;
    let w_0 = gadget::preimage(target, params::gadget_bits(qn));
    let limit = preimage_bound(qn, bound);
    params::lemma_gadget_bits(q);
    assert(limit >= 0) by {
        let k = params::gadget_bits(qn);
        assert(k * (bound * 2) >= 0) by (nonlinear_arith)
            requires
                k >= 0,
                bound >= 0,
        ;
    }
    assert forall|w: Seq<int>| #[trigger]
        preimage_drawn(qn, *sampler, width, target.len(), w_0, w) implies signed::product_fits(
        r,
        w,
    ) by {
        lemma_drawn_preimage_bounded(q, sampler, width, bound, target, w);
        assert forall|i: int| 0 <= i < r.len() implies integers::dot_fits(
            #[trigger] r[i],
            w,
        ) by {
            assert(r[i].len() == w.len());
            assert(1 * limit == limit);
            integers::lemma_dot_fits(r[i], w, 1, limit);
        }
    }
}

/// A fresh signature is short: with a ternary trapdoor, a preimage whose entries
/// are bounded lifts to a vector whose squared norm is bounded by the bound and
/// the dimensions.
pub proof fn lemma_lifted_short(r: Seq<Seq<int>>, w: Seq<int>, bound: int)
    requires
        bound >= 0,
        integers::has_width(r, w.len()),
        forall|i: int| 0 <= i < r.len() ==> integers::bounded(#[trigger] r[i], 1),
        integers::bounded(w, bound),
    ensures
        ({
            let reach = w.len() * bound;
            integers::squared_norm(keys::lifted(r, w)) <= r.len() * (reach * reach) + w.len()
                * (bound * bound)
        }),
{
    let reach = w.len() * bound;
    let product = integers::apply(r, w);
    assert(1 * bound == bound);
    assert(reach >= 0) by (nonlinear_arith)
        requires
            reach == w.len() * bound,
            bound >= 0,
    ;
    assert forall|i: int| 0 <= i < product.len() implies -reach <= #[trigger] product[i]
        <= reach by {
        assert(r[i].len() == w.len());
        integers::lemma_dot_bounded(r[i], w, 1, bound);
    }
    integers::lemma_dot_bounded(product, product, reach, reach);
    integers::lemma_dot_bounded(w, w, bound, bound);
    integers::lemma_dot_concat(product, w, product, w);
}

/// Compute the lattice point `sum(zs[i] * basis[i])` over `Z`.  The rows of
/// `basis` are the lattice generators, so this is a left multiplication of the
/// row vector `zs` by the matrix.
pub fn lattice_point(zs: &[i64], basis: &ZMatrix) -> (v: Vec<i64>)
    requires
        zs@.len() == basis@.rows.len(),
        signed::combination_fits(signed::ints_of(zs@), basis@.rows),
    ensures
        signed::ints_of(v@) == integers::combination(
            signed::ints_of(zs@),
            basis@.rows,
            basis@.cols,
        ),
{
    let ghost cs = signed::ints_of(zs@);
    let ghost rows = basis@.rows;
    let height: usize = basis.rows();
    let width: usize = basis.cols();
    let mut point: Vec<i64> = Vec::with_capacity(width);
    let mut c: usize = 0;
    while c < width
        invariant
            cs == signed::ints_of(zs@),
            rows == basis@.rows,
            zs@.len() == rows.len(),
            height == rows.len(),
            width == basis@.cols,
            basis@.rectangular(),
            signed::combination_fits(cs, rows),
            c <= width,
            point@.len() == c,
            forall|t: int|
                0 <= t < c ==> #[trigger] point@[t] == integers::dot(
                    cs,
                    integers::column(rows, t),
                ),
        decreases width - c,
    {
        let ghost column = integers::column(rows, c as int);
        let mut acc: i64 = 0;
        let mut i: usize = 0;
        assert(cs.take(0).len() == 0);
        while i < height
            invariant
                cs == signed::ints_of(zs@),
                rows == basis@.rows,
                zs@.len() == rows.len(),
                height == rows.len(),
                width == basis@.cols,
                basis@.rectangular(),
                signed::combination_fits(cs, rows),
                c < width,
                column == integers::column(rows, c as int),
                i <= height,
                acc == integers::dot(cs.take(i as int), column.take(i as int)),
            decreases height - i,
        {
            let b: i64 = match basis.entry(i, c) {
                Some(b) => b,
                None => 0,
            };
            proof {
                assert(rows[0].len() == width);
                integers::lemma_dot_step(cs, column, i as int);
                assert(integers::dot_fits(cs, column));
                assert(integers::fits(cs[i as int] * column[i as int]));
            }
            acc = acc + zs[i] * b;
            i += 1;
        }
        proof {
            assert(cs.take(i as int) =~= cs);
            assert(column.take(i as int) =~= column);
        }
        point.push(acc);
        c += 1;
    }
    assert(signed::ints_of(point@) =~= integers::combination(cs, rows, basis@.cols));
    point
}

/// The block `b` plus the lattice point with the given coefficients.
pub fn shift_block(b: &Vec<i64>, zs: &ZVec, basis: &ZMatrix) -> (w: Vec<i64>)
    requires
        zs@.len() == basis@.rows.len(),
        b@.len() == basis@.cols,
        signed::combination_fits(zs@, basis@.rows),
        forall|t: int|
            0 <= t < b@.len() ==> integers::fits(
                #[trigger] integers::combination(zs@, basis@.rows, basis@.cols)[t] + b@[t],
            ),
    ensures
        signed::ints_of(w@) == integers::sum(
            signed::ints_of(b@),
            integers::combination(zs@, basis@.rows, basis@.cols),
        ),
{
    let ghost offset = integers::combination(zs@, basis@.rows, basis@.cols);
    let zs_entries = zs.entries();
    assert(signed::ints_of(zs_entries@).len() == zs_entries@.len());
    let v = lattice_point(zs_entries, basis);
    assert(signed::ints_of(v@).len() == v@.len());
    let mut w: Vec<i64> = Vec::with_capacity(b.len());
    let mut t: usize = 0;
    while t < b.len()
        invariant
            t <= b@.len(),
            signed::ints_of(v@) == offset,
            v@.len() == b@.len(),
            offset.len() == b@.len(),
            forall|t: int| 0 <= t < b@.len() ==> integers::fits(#[trigger] offset[t] + b@[t]),
            w@.len() == t,
            forall|s: int| 0 <= s < t ==> #[trigger] w@[s] == b@[s] + offset[s],
        decreases b@.len() - t,
    {
        assert(offset[t as int] == v@[t as int]);
        w.push(b[t] + v[t]);
        t += 1;
    }
    assert(signed::ints_of(w@) =~= integers::sum(signed::ints_of(b@), offset));
    w
}

/// Ask the sampler for an offset in the kernel close to the negated block, and
/// add it to the block.
fn randomize_block<const Q: u32, G>(
    b: &Vec<i64>,
    basis: &ZMatrix,
    sigma_g: u64,
    samples: Samples<G>,
) -> (out: (Result<Vec<i64>, Error>, Samples<G>)) where
    G: Fn(Vec<i64>, u64) -> Result<ZVec, Error>,

    requires
        Q >= 2,
        b@.len() == params::gadget_bits(Q as nat),
        forall|t: int| 0 <= t < b@.len() ==> 0 <= #[trigger] b@[t] <= 1,
        basis@ == gadget::kernel_basis(Q as nat),
        sampler_valid(Q as nat, samples.source(), sigma_g),
    ensures
        exists|entry: ((Vec<i64>, u64), Result<ZVec, Error>)| #[trigger]
            block_with(
                Q as nat,
                sigma_g,
                signed::ints_of(b@),
                entry,
                block_of(out.0),
            ) && out.1.follows(samples, seq![entry]),
{
    let mut center: Vec<i64> = Vec::with_capacity(b.len());
    let mut t: usize = 0;
    while t < b.len()
        invariant
            t <= b@.len(),
            forall|t: int| 0 <= t < b@.len() ==> 0 <= #[trigger] b@[t] <= 1,
            center@.len() == t,
            forall|s: int| 0 <= s < t ==> #[trigger] center@[s] == -b@[s],
        decreases b@.len() - t,
    {
        center.push(-b[t]);
        t += 1;
    }
    let ghost asked = center;
    assert(signed::ints_of(asked@) =~= negated(signed::ints_of(b@)));
    assert(is_center(Q as nat, asked@));
    let (answer, left) = samples.ask(center, sigma_g);
    let ghost entry = ((asked, sigma_g), answer);
    assert(seq![entry][0] == entry);
    assert(samples.source().ensures((asked, sigma_g), answer));
    let r = match answer {
        Ok(zs) => {
            proof {
                let offset = kernel_element(Q as nat, zs@);
                assert forall|t: int| 0 <= t < b@.len() implies integers::fits(
                    #[trigger] integers::combination(zs@, basis@.rows, basis@.cols)[t] + b@[t],
                ) by {
                    assert(integers::fits(offset[t] - asked@[t]));
                }
            }
            Ok(shift_block(b, &zs, basis))
        },
        Err(e) => Err(e),
    };
    let out = (r, left);
    assert(block_with(Q as nat, sigma_g, signed::ints_of(b@), entry, block_of(out.0)));
    out
}

/// The integers of a block, or the error in its place.
pub open spec fn block_of(r: Result<Vec<i64>, Error>) -> Result<Seq<int>, Error> {
    match r {
        Ok(w) => Ok(signed::ints_of(w@)),
        Err(e) => Err(e),
    }
}

/// Randomize each of the `n` blocks of the bit-decomposition `w_0`.  The gadget
/// kernel is the `n`-fold direct sum of the kernel of a block, so one shared
/// basis suffices and each block is drawn independently.
fn randomized_preimage<const Q: u32, G>(
    w_0: &Vec<i64>,
    basis: &ZMatrix,
    sigma_g: u64,
    n: usize,
    k: usize,
    samples: Samples<G>,
) -> (out: (Result<Vec<i64>, Error>, Samples<G>)) where
    G: Fn(Vec<i64>, u64) -> Result<ZVec, Error>,

    requires
        Q >= 2,
        k == params::gadget_bits(Q as nat),
        w_0@.len() == n * k,
        forall|t: int| 0 <= t < w_0@.len() ==> 0 <= #[trigger] w_0@[t] <= 1,
        basis@ == gadget::kernel_basis(Q as nat),
        sampler_valid(Q as nat, samples.source(), sigma_g),
    ensures
        exists|asked: Seq<((Vec<i64>, u64), Result<ZVec, Error>)>| #[trigger]
            preimage_with(
                Q as nat,
                sigma_g,
                n as nat,
                signed::ints_of(w_0@),
                asked,
                block_of(out.0),
            ) && out.1.follows(samples, asked),
{
    let ghost q = Q as nat;
    let ghost kn = k as nat;
    let ghost start = signed::ints_of(w_0@);
    let ghost mut asked: Seq<((Vec<i64>, u64), Result<ZVec, Error>)> = Seq::empty();
    let mut left = samples;
    let mut w: Vec<i64> = Vec::new();
    let mut i: usize = 0;
    proof {
        journal::lemma_pairs_follow_themselves(samples);
    }
    assert(0 * k == 0);
    while i < n
        invariant
            Q >= 2,
            q == Q as nat,
            kn == k,
            k == params::gadget_bits(q),
            start == signed::ints_of(w_0@),
            w_0@.len() == n * k,
            forall|t: int| 0 <= t < w_0@.len() ==> 0 <= #[trigger] w_0@[t] <= 1,
            basis@ == gadget::kernel_basis(q),
            sampler_valid(q, samples.source(), sigma_g),
            i <= n,
            asked.len() == i,
            w@.len() == i * k,
            left.follows(samples, asked),
            blocks_with(q, sigma_g, start, asked, signed::ints_of(w@)),
        decreases n - i,
    {
        proof {
            integers::lemma_row_bounds(n as nat, kn, i as int);
        }
        assert(w_0.len() == n * k);
        let from: usize = i * k;
        let mut b: Vec<i64> = Vec::with_capacity(k);
        let mut t: usize = 0;
        while t < k
            invariant
                from == i * k,
                from + k <= w_0@.len(),
                forall|t: int| 0 <= t < w_0@.len() ==> 0 <= #[trigger] w_0@[t] <= 1,
                t <= k,
                b@.len() == t,
                forall|s: int| 0 <= s < t ==> #[trigger] b@[s] == w_0@[from + s],
            decreases k - t,
        {
            assert(from + k <= w_0.len());
            b.push(w_0[from + t]);
            t += 1;
        }
        assert(signed::ints_of(b@) =~= gadget::block(start, kn, i as int));
        let ghost prior = left;
        let (r, rest) = randomize_block::<Q, G>(&b, basis, sigma_g, left);
        let ghost first = asked;
        let ghost entry = choose|entry: ((Vec<i64>, u64), Result<ZVec, Error>)| #[trigger]
            block_with(q, sigma_g, signed::ints_of(b@), entry, block_of(r)) && rest.follows(
                prior,
                seq![entry],
            );
        proof {
            journal::lemma_pairs_follow_on(samples, first, prior, seq![entry], rest);
            asked = first + seq![entry];
            assert(asked.last() == entry);
            assert(asked.drop_last() =~= first);
        }
        left = rest;
        match r {
            Ok(drawn) => {
                let ghost before = signed::ints_of(w@);
                let ghost block = signed::ints_of(drawn@);
                let mut drawn = drawn;
                w.append(&mut drawn);
                proof {
                    let after = signed::ints_of(w@);
                    assert(block.len() == k) by {
                        assert(gadget::block(start, kn, i as int).len() == k);
                    }
                    assert(after =~= before + block);
                    assert(i * k + k == (i + 1) * k) by (nonlinear_arith);
                    assert forall|s: int| 0 <= s < i + 1 implies block_with(
                        q,
                        sigma_g,
                        gadget::block(start, kn, s),
                        #[trigger] asked[s],
                        Ok(gadget::block(after, kn, s)),
                    ) by {
                        integers::lemma_row_bounds((i + 1) as nat, kn, s);
                        if s < i {
                            integers::lemma_row_bounds(i as nat, kn, s);
                            assert(asked[s] == first[s]);
                            assert(gadget::block(after, kn, s) =~= gadget::block(before, kn, s));
                        } else {
                            assert(gadget::block(after, kn, s) =~= block);
                        }
                    }
                }
            },
            Err(e) => {
                let out = (Err(e), left);
                assert(blocks_with(q, sigma_g, start, asked.drop_last(), signed::ints_of(w@)));
                assert(preimage_with(q, sigma_g, n as nat, start, asked, block_of(out.0)));
                return out;
            },
        }
        i += 1;
    }
    let out = (Ok(w), left);
    assert(preimage_with(q, sigma_g, n as nat, start, asked, block_of(out.0)));
    out
}

/// A preimage with answers of the sampler is one that it can give.
proof fn lemma_preimage_with<G: Fn(Vec<i64>, u64) -> Result<ZVec, Error>>(
    q: nat,
    sampler: &G,
    width: u64,
    n: nat,
    w_0: Seq<int>,
    asked: Seq<((Vec<i64>, u64), Result<ZVec, Error>)>,
    o: Result<Seq<int>, Error>,
)
    requires
        preimage_with(q, width, n, w_0, asked, o),
        journal::all_pairs_answered(*sampler, asked),
    ensures
        match o {
            Ok(w) => preimage_drawn(q, *sampler, width, n, w_0, w),
            Err(e) => exists|i: int|
                0 <= i < n && block_fails(
                    *sampler,
                    width,
                    #[trigger] gadget::block(w_0, params::gadget_bits(q), i),
                    e,
                ),
        },
{
    let k = params::gadget_bits(q);
    match o {
        Ok(w) => {
            assert forall|i: int| 0 <= i < n implies block_drawn(
                q,
                *sampler,
                width,
                gadget::block(w_0, k, i),
                #[trigger] gadget::block(w, k, i),
            ) by {
                let entry = asked[i];
                assert(sampler.ensures((entry.0.0, width), Ok::<ZVec, Error>(entry.1->Ok_0)));
            }
        },
        Err(e) => {
            let entry = asked[asked.len() - 1];
            assert(sampler.ensures((entry.0.0, width), Err::<ZVec, Error>(e)));
            let b = gadget::block(w_0, k, asked.len() - 1);
            assert(block_fails(*sampler, width, b, e));
        },
    }
}

/// The signature `[R*w ; w]`, or [`Error::DimensionMismatch`] if the length of
/// `w` is not the gadget width of the key.
pub fn signature_from<const Q: u32>(sk: &SecretKey<Q>, w: Vec<i64>) -> (r: Result<
    Signature,
    Error,
>)
    requires
        w@.len() == sk@.r.cols ==> signed::product_fits(sk@.r.rows, signed::ints_of(w@)),
    ensures
        if w@.len() == sk@.r.cols {
            r matches Ok(signature) && signature@ == keys::lifted(
                sk@.r.rows,
                signed::ints_of(w@),
            )
        } else {
            r == Err::<Signature, Error>(
                Error::DimensionMismatch {
                    expected: sk@.r.cols as usize,
                    actual: w@.len() as usize,
                },
            )
        },
{
    let trapdoor = sk.r();
    let w = ZVec::new(w);
    match trapdoor.mul_vec(&w) {
        Ok(product) => {
            let ghost (x, y) = (product@, w@);
            let mut entries: Vec<i64> = product.entries;
            let mut rest: Vec<i64> = w.entries;
            let ghost (a, b) = (entries@, rest@);
            entries.append(&mut rest);
            assert(signed::ints_of(entries@) =~= signed::ints_of(a) + signed::ints_of(b));
            Ok(Signature::new(ZVec::new(entries)))
        },
        Err(e) => Err(e),
    }
}

/// What a borrowed sampler can give, the sampler can.
proof fn lemma_borrowed_preimage<G: Fn(Vec<i64>, u64) -> Result<ZVec, Error>>(
    q: nat,
    sampler: &G,
    width: u64,
    n: nat,
    w_0: Seq<int>,
    w: Seq<int>,
)
    requires
        preimage_drawn::<&G>(q, sampler, width, n, w_0, w),
    ensures
        preimage_drawn::<G>(q, *sampler, width, n, w_0, w),
{
    let k = params::gadget_bits(q);
    assert forall|i: int| 0 <= i < n implies block_drawn::<G>(
        q,
        *sampler,
        width,
        gadget::block(w_0, k, i),
        #[trigger] gadget::block(w, k, i),
    ) by {
        let b = gadget::block(w_0, k, i);
        let c = gadget::block(w, k, i);
        assert(block_drawn::<&G>(q, sampler, width, b, c));
        let (center, zs) = choose|center: Vec<i64>, zs: ZVec| #[trigger]
            sampler.ensures((center, width), Ok::<ZVec, Error>(zs)) && signed::ints_of(center@)
                == negated(b) && c == integers::sum(b, kernel_element(q, zs@));
        assert((*sampler).ensures((center, width), Ok::<ZVec, Error>(zs)));
    }
}

/// A borrowed sampler takes what the sampler takes.
proof fn lemma_borrowed_valid<G: Fn(Vec<i64>, u64) -> Result<ZVec, Error>>(
    q: nat,
    sampler: &G,
    width: u64,
)
    requires
        sampler_valid::<G>(q, *sampler, width),
    ensures
        sampler_valid::<&G>(q, sampler, width),
{
}

/// Products that fit with the sampler fit with the borrowed one.
proof fn lemma_borrowed_products<G: Fn(Vec<i64>, u64) -> Result<ZVec, Error>>(
    q: nat,
    sampler: &G,
    width: u64,
    n: nat,
    r: Seq<Seq<int>>,
    target: Seq<int>,
)
    requires
        products_fit::<G>(q, *sampler, width, n, r, target),
    ensures
        products_fit::<&G>(q, sampler, width, n, r, target),
{
    let w_0 = gadget::preimage(target, params::gadget_bits(q));
    assert forall|w: Seq<int>| #[trigger]
        preimage_drawn::<&G>(q, sampler, width, n, w_0, w) implies signed::product_fits(r, w) by {
        lemma_borrowed_preimage(q, sampler, width, n, w_0, w);
    }
}

/// A signature that a borrowed sampler leads to is one that the sampler does.
proof fn lemma_borrowed_signs<const Q: u32, G: Fn(Vec<i64>, u64) -> Result<ZVec, Error>>(
    public: PublicKeyView,
    trapdoor: integers::MatrixView,
    target: Seq<int>,
    sampler: &G,
    r: Result<Signature, Error>,
)
    requires
        signs::<Q, &G>(public, trapdoor, target, sampler, r),
    ensures
        signs::<Q, G>(public, trapdoor, target, *sampler, r),
{
    let q = Q as nat;
    let k = params::gadget_bits(q);
    let n = public.params.n;
    let width = public.params.sigma_g;
    let w_0 = gadget::preimage(target, k);
    match r {
        Ok(signature) => {
            let w = choose|w: Seq<int>| #[trigger]
                preimage_drawn::<&G>(q, sampler, width, n, w_0, w) && signature@ == keys::lifted(
                    trapdoor.rows,
                    w,
                );
            lemma_borrowed_preimage(q, sampler, width, n, w_0, w);
        },
        Err(e) => {
            if target.len() == n && exists|i: int|
                0 <= i < n && block_fails::<&G>(
                    sampler,
                    width,
                    #[trigger] gadget::block(w_0, k, i),
                    e,
                ) {
                let i = choose|i: int|
                    0 <= i < n && block_fails::<&G>(
                        sampler,
                        width,
                        #[trigger] gadget::block(w_0, k, i),
                        e,
                    );
                let b = gadget::block(w_0, k, i);
                let center = choose|center: Vec<i64>| #[trigger]
                    sampler.ensures((center, width), Err::<ZVec, Error>(e)) && signed::ints_of(
                        center@,
                    ) == negated(b);
                assert((*sampler).ensures((center, width), Err::<ZVec, Error>(e)));
                assert(block_fails::<G>(*sampler, width, b, e));
            }
        },
    }
}

/// Sign the hash target `target`.
///
/// Produces `sigma = [R*w ; w]` where `w = w_0 + v`, `w_0` is the deterministic
/// bit-decomposition preimage under `G`, and each block of `v` is the element of
/// the gadget kernel whose coefficients the sampler gives.  The sampler is
/// handed the negated block of `w_0` as the center and the Gaussian width of the
/// parameters; it answers with coefficients on the kernel basis of the secret
/// key.  The resulting `w` remains in the coset of `w_0`, so `G * w = target`
/// modulo `Q`; shortness is inherited from that of the draws together with the
/// ternary structure of `R`.
///
/// Fails with [`Error::DimensionMismatch`] if the target length is not `n`, or
/// if the trapdoor matrix does not match the gadget width (impossible for keys
/// of the same key generation), and with the error of the sampler.
pub fn sign<const Q: u32, G>(
    pk: &PublicKey<Q>,
    sk: &SecretKey<Q>,
    target: &ZqVec<Q>,
    sampler: &G,
) -> (r: Result<Signature, Error>) where G: Fn(Vec<i64>, u64) -> Result<ZVec, Error>
    requires
        sampler_valid(Q as nat, *sampler, pk@.params.sigma_g),
        target@.len() == pk@.params.n ==> products_fit(
            Q as nat,
            *sampler,
            pk@.params.sigma_g,
            pk@.params.n,
            sk@.r.rows,
            target@,
        ),
    ensures
        signs::<Q, G>(pk@, sk@.r, target@, *sampler, r),
        signs_asking(*pk, *sk, *target, *sampler, r),
        keys::are_related(Q as nat, pk@, sk@) ==> (r matches Ok(signature) ==> signature@.len()
            == pk@.params.m(Q as nat) && integers::reduced(
            integers::apply(pk@.a.rows, signature@),
            Q as int,
        ) == target@),
{
    let samples: Samples<&G> = Samples::new(sampler);
    let ghost before = samples;
    proof {
        let width = pk@.params.sigma_g;
        lemma_borrowed_valid(Q as nat, sampler, width);
        if target@.len() == pk@.params.n {
            lemma_borrowed_products(
                Q as nat,
                sampler,
                width,
                pk@.params.n,
                sk@.r.rows,
                target@,
            );
        }
    }
    let (r, left) = effect::call_four(sign_asking::<Q, &G>, pk, sk, target, samples);
    proof {
        assert(call_ensures(sign_asking::<Q, &G>, (pk, sk, target, before), (r, left)));
        lemma_borrowed_signs::<Q, G>(pk@, sk@.r, target@, sampler, r);
    }
    r
}

/// Sign the hash target `target` with the next answers of the sampler, one for
/// each block.
pub fn sign_asking<const Q: u32, G>(
    pk: &PublicKey<Q>,
    sk: &SecretKey<Q>,
    target: &ZqVec<Q>,
    samples: Samples<G>,
) -> (out: (Result<Signature, Error>, Samples<G>)) where
    G: Fn(Vec<i64>, u64) -> Result<ZVec, Error>,

    requires
        sampler_valid(Q as nat, samples.source(), pk@.params.sigma_g),
        target@.len() == pk@.params.n ==> products_fit(
            Q as nat,
            samples.source(),
            pk@.params.sigma_g,
            pk@.params.n,
            sk@.r.rows,
            target@,
        ),
    ensures
        exists|asked: Seq<((Vec<i64>, u64), Result<ZVec, Error>)>| #[trigger]
            signed_with::<Q>(pk@, sk@.r, target@, asked, out.0) && out.1.follows(samples, asked),
        signs::<Q, G>(pk@, sk@.r, target@, samples.source(), out.0),
        keys::are_related(Q as nat, pk@, sk@) ==> (out.0 matches Ok(signature)
            ==> signature@.len() == pk@.params.m(Q as nat) && integers::reduced(
            integers::apply(pk@.a.rows, signature@),
            Q as int,
        ) == target@),
{
    let n: usize = pk.params().n();
    let columns: usize = pk.a().cols();
    let k: usize = LhsParams::<Q>::k_gadget();
    let sigma_g: u64 = pk.params().sigma_g();
    if target.len() != n {
        proof {
            journal::lemma_pairs_follow_themselves(samples);
        }
        let out = (Err(Error::DimensionMismatch { expected: n, actual: target.len() }), samples);
        assert(signed_with::<Q>(pk@, sk@.r, target@, Seq::empty(), out.0));
        return out;
    }
    let w_0 = gadget_preimage(target);
    let ghost start = signed::ints_of(w_0@);
    proof {
        assert(start == gadget::preimage(target@, k as nat));
        assert(w_0@.len() == start.len());
        assert forall|t: int| 0 <= t < w_0@.len() implies 0 <= #[trigger] w_0@[t] <= 1 by {
            assert(w_0@[t] == start[t]);
        }
    }
    let (drawn, left) = randomized_preimage::<Q, G>(
        &w_0,
        sk.gadget_kernel(),
        sigma_g,
        n,
        k,
        samples,
    );
    let ghost o = block_of(drawn);
    let ghost asked = choose|asked: Seq<((Vec<i64>, u64), Result<ZVec, Error>)>| #[trigger]
        preimage_with(Q as nat, sigma_g, n as nat, start, asked, o) && left.follows(
            samples,
            asked,
        );
    proof {
        lemma_preimage_with(
            Q as nat,
            &samples.source(),
            sigma_g,
            n as nat,
            start,
            asked,
            o,
        );
    }
    let w = match drawn {
        Ok(w) => w,
        Err(e) => {
            let out = (Err(e), left);
            assert(signed_with::<Q>(pk@, sk@.r, target@, asked, out.0));
            return out;
        },
    };
    let ghost drawn = signed::ints_of(w@);
    proof {
        assert(w@.len() == drawn.len());
        assert(signed::product_fits(sk@.r.rows, drawn));
        lemma_drawn_preimage(Q, &samples.source(), sigma_g, target@, drawn);
        if keys::are_related(Q as nat, pk@, sk@) {
            keys::lemma_trapdoor_identity(
                Q,
                n as nat,
                pk@.a.rows,
                sk@.r.rows,
                pk@.params.m0,
                drawn,
            );
        }
    }
    let out = (signature_from(sk, w), left);
    assert(signed_with::<Q>(pk@, sk@.r, target@, asked, out.0));
    out
}

/// A signature takes one answer of the sampler for each entry of the target, in
/// order, and no answer serves two.  The `i`-th answer is to the negated bits of
/// the `i`-th entry, and the `i`-th block of the signature is those bits with the
/// kernel element of that answer added.
pub proof fn lemma_signature_answers<
    const Q: u32,
    G: Fn(Vec<i64>, u64) -> Result<ZVec, Error>,
>(pk: PublicKey<Q>, sk: SecretKey<Q>, target: ZqVec<Q>, sampler: &G, signature: Signature)
    requires
        signs_asking(pk, sk, target, *sampler, Ok(signature)),
    ensures
        exists|asked: Seq<((Vec<i64>, u64), Result<ZVec, Error>)>| #[trigger]
            journal::all_pairs_answered(*sampler, asked) && {
                let (q, k) = (Q as nat, params::gadget_bits(Q as nat));
                let w = signature@.skip(sk@.r.rows.len() as int);
                &&& asked.len() == target@.len()
                &&& w.len() == target@.len() * k
                &&& forall|i: int|
                    0 <= i < asked.len() ==> {
                        let b = gadget::bits(target@[i], k);
                        &&& signed::ints_of((#[trigger] asked[i]).0.0@) == negated(b)
                        &&& asked[i].0.1 == pk@.params.sigma_g
                        &&& asked[i].1 matches Ok(zs) && gadget::block(w, k, i) == integers::sum(
                            b,
                            kernel_element(q, zs@),
                        )
                    }
            },
{
    let (q, k) = (Q as nat, params::gadget_bits(Q as nat));
    let (before, after) = choose|before: Samples<&G>, after: Samples<&G>|
        before.is_fresh(sampler) && #[trigger] call_ensures(
            sign_asking::<Q, &G>,
            (&pk, &sk, &target, before),
            (Ok::<Signature, Error>(signature), after),
        );
    let asked = choose|asked: Seq<((Vec<i64>, u64), Result<ZVec, Error>)>| #[trigger]
        signed_with::<Q>(pk@, sk@.r, target@, asked, Ok(signature)) && after.follows(
            before,
            asked,
        );
    let o = choose|o: Result<Seq<int>, Error>| #[trigger]
        preimage_with(
            q,
            pk@.params.sigma_g,
            pk@.params.n,
            gadget::preimage(target@, k),
            asked,
            o,
        ) && o is Ok && signature@ == keys::lifted(sk@.r.rows, o->Ok_0);
    let w = o->Ok_0;
    assert(signature@.skip(sk@.r.rows.len() as int) =~= w);
    assert forall|i: int| 0 <= i < asked.len() implies {
        let b = gadget::bits(target@[i], k);
        &&& signed::ints_of((#[trigger] asked[i]).0.0@) == negated(b)
        &&& asked[i].0.1 == pk@.params.sigma_g
        &&& asked[i].1 matches Ok(zs) && gadget::block(w, k, i) == integers::sum(
            b,
            kernel_element(q, zs@),
        )
    } by {
        gadget::lemma_preimage_block(target@, k, i);
    }
    assert(journal::all_pairs_answered(*sampler, asked));
}

/// Whatever the sampler answers, a signature under the keys of one key generation
/// is `[R*w ; w]`, where `w` is its last entries, and the public matrix maps it,
/// reduced or not, to the target.  A target of another length than `n` is refused.
pub proof fn lemma_signature_maps_to_target<
    const Q: u32,
    F: Fn(usize) -> Result<Vec<u8>, Error>,
    G: Fn(Vec<i64>, u64) -> Result<ZVec, Error>,
>(
    params: ParamsView,
    rng: F,
    pk: PublicKey<Q>,
    sk: SecretKey<Q>,
    target: Seq<int>,
    sampler: G,
    r: Result<Signature, Error>,
)
    requires
        keys::generates(params, rng, Ok((pk, sk))),
        pk@.well_formed(Q as nat),
        sk@.well_formed(Q as nat),
        forall|i: int| 0 <= i < target.len() ==> 0 <= #[trigger] target[i] < Q,
        sampler_valid(Q as nat, sampler, params.sigma_g),
        signs::<Q, G>(pk@, sk@.r, target, sampler, r),
    ensures
        target.len() != params.n ==> r == Err::<Signature, Error>(
            Error::DimensionMismatch {
                expected: params.n as usize,
                actual: target.len() as usize,
            },
        ),
        r matches Ok(signature) ==> {
            &&& signature@.len() == params.m(Q as nat)
            &&& signature@ == keys::lifted(
                sk@.r.rows,
                signature@.skip(params.m0 as int),
            )
            &&& integers::reduced(integers::apply(pk@.a.rows, signature@), Q as int) == target
            &&& integers::reduced(
                integers::apply(pk@.a.rows, integers::reduced(signature@, Q as int)),
                Q as int,
            ) == target
        },
{
    let (q, qi) = (Q as nat, Q as int);
    if let Ok(signature) = r {
        let k = params::gadget_bits(q);
        let w = choose|w: Seq<int>| #[trigger]
            preimage_drawn(
                q,
                sampler,
                params.sigma_g,
                params.n,
                gadget::preimage(target, k),
                w,
            ) && signature@ == keys::lifted(sk@.r.rows, w);
        lemma_drawn_preimage(Q, &sampler, params.sigma_g, target, w);
        keys::lemma_trapdoor_identity(Q, params.n, pk@.a.rows, sk@.r.rows, params.m0, w);
        assert(signature@.skip(params.m0 as int) =~= w);
        let (rows, sigma) = (pk@.a.rows, signature@);
        let (x, y) = (
            integers::apply(rows, integers::reduced(sigma, qi)),
            integers::apply(rows, sigma),
        );
        integers::lemma_reduced_congruent(sigma, qi);
        assert forall|i: int| 0 <= i < rows.len() implies x[i] % qi == y[i] % qi by {
            assert(rows[i].len() == sigma.len());
            integers::lemma_reduced_congruent(rows[i], qi);
            integers::lemma_dot_congruent(
                rows[i],
                rows[i],
                integers::reduced(sigma, qi),
                sigma,
                qi,
            );
        }
        assert(integers::reduced(x, qi) =~= integers::reduced(y, qi));
    }
}

/// The coefficients of a sequence of pairs.
pub open spec fn coefficients_of<const Q: u32>(pairs: Seq<(Zq<Q>, Signature)>) -> Seq<int> {
    Seq::new(pairs.len(), |i: int| pairs[i].0@)
}

/// The signatures of a sequence of pairs.
pub open spec fn signatures_of<const Q: u32>(pairs: Seq<(Zq<Q>, Signature)>) -> Seq<Seq<int>> {
    Seq::new(pairs.len(), |i: int| pairs[i].1@)
}

/// The combination of signatures with the balanced signed representatives of the
/// coefficients.
pub open spec fn combined(q: int, coeffs: Seq<int>, sigmas: Seq<Seq<int>>) -> Seq<int> {
    integers::combination(vector::signed(coeffs, q), sigmas, integers::first_width(sigmas))
}

/// Combine existing signatures under coefficients in `Z/QZ`.
///
/// Given pairs of a coefficient and a signature, returns the sum of the
/// signatures multiplied with the coefficients, computed over `Z`, with each
/// coefficient lifted to its balanced signed representative in `(-Q/2, Q/2]`
/// before multiplication.  The combined signature signs the matching combination
/// of targets modulo `Q`; lifting to balanced representatives keeps the result
/// short without changing the identity modulo `Q`.
///
/// An empty input yields an empty signature.  Signatures of different lengths
/// give [`Error::DimensionMismatch`].
pub fn combine<const Q: u32>(pairs: &[(Zq<Q>, Signature)]) -> (r: Result<Signature, Error>)
    requires
        signed::combination_fits(
            vector::signed(coefficients_of(pairs@), Q as int),
            signatures_of(pairs@),
        ),
    ensures
        ({
            let sigmas = signatures_of(pairs@);
            if integers::has_width(sigmas, integers::first_width(sigmas)) {
                r matches Ok(signature) && signature@ == combined(
                    Q as int,
                    coefficients_of(pairs@),
                    sigmas,
                )
            } else {
                r matches Err(e) && integers::is_combination_error(pairs@.len(), sigmas, e)
            }
        }),
{
    let ghost coeffs = coefficients_of(pairs@);
    let ghost sigmas = signatures_of(pairs@);
    let mut scalars: Vec<i64> = Vec::with_capacity(pairs.len());
    let mut vecs: Vec<ZVec> = Vec::with_capacity(pairs.len());
    let mut i: usize = 0;
    while i < pairs.len()
        invariant
            i <= pairs@.len(),
            scalars@.len() == i,
            vecs@.len() == i,
            forall|t: int|
                0 <= t < i ==> #[trigger] scalars@[t] == zq::balanced(
                    pairs@[t].0@,
                    Q as int,
                ),
            forall|t: int| 0 <= t < i ==> (#[trigger] vecs@[t])@ == pairs@[t].1@,
        decreases pairs@.len() - i,
    {
        scalars.push(pairs[i].0.signed_repr());
        vecs.push(pairs[i].1.sigma().clone());
        i += 1;
    }
    assert(signed::ints_of(scalars@) =~= vector::signed(coeffs, Q as int));
    assert(signed::views_of(vecs@) =~= sigmas);
    match ZVec::linear_combine(scalars.as_slice(), vecs.as_slice()) {
        Ok(sigma) => Ok(Signature::new(sigma)),
        Err(e) => Err(e),
    }
}

/// The balanced signed representative is congruent to the element.
pub proof fn lemma_balanced_congruent(v: Seq<int>, q: int)
    requires
        q > 0,
    ensures
        integers::congruent(vector::signed(v, q), v, q),
{
    assert forall|i: int| 0 <= i < v.len() implies #[trigger] vector::signed(v, q)[i] % q == v[i]
        % q by {
        lemma_mod_sub_multiples_vanish(v[i], q);
    }
}

/// Linear homomorphism: if each signature is mapped by the matrix to its target
/// over `Z/qZ`, a combination of the signatures is mapped to the combination of
/// the targets.
pub proof fn lemma_combination_signs(
    q: u32,
    a: Seq<Seq<int>>,
    m: nat,
    coeffs: Seq<int>,
    sigmas: Seq<Seq<int>>,
    targets: Seq<Seq<int>>,
)
    requires
        q > 0,
        integers::has_width(a, m),
        sigmas.len() > 0,
        integers::has_width(sigmas, m),
        coeffs.len() == sigmas.len(),
        targets.len() == sigmas.len(),
        forall|i: int|
            0 <= i < sigmas.len() ==> integers::reduced(
                integers::apply(a, #[trigger] sigmas[i]),
                q as int,
            ) == targets[i],
    ensures
        combined(q as int, coeffs, sigmas).len() == m,
        integers::reduced(
            integers::apply(a, combined(q as int, coeffs, sigmas)),
            q as int,
        ) == integers::reduced(integers::combination(coeffs, targets, a.len()), q as int),
{
    let qi = q as int;
    assert(sigmas[0].len() == m);
    let s = vector::signed(coeffs, qi);
    let sigma = combined(qi, coeffs, sigmas);
    let left = integers::reduced(integers::apply(a, sigma), qi);
    let right = integers::reduced(integers::combination(coeffs, targets, a.len()), qi);
    lemma_balanced_congruent(coeffs, qi);
    assert forall|j: int| 0 <= j < a.len() implies left[j] == right[j] by {
        assert(a[j].len() == m);
        integers::lemma_dot_associates(s, sigmas, a[j]);
        integers::lemma_dot_commutes(a[j], sigma);
        let products = integers::apply(sigmas, a[j]);
        let column = integers::column(targets, j);
        assert forall|i: int| 0 <= i < products.len() implies #[trigger] products[i] % qi
            == column[i] % qi by {
            assert(sigmas[i].len() == m);
            integers::lemma_dot_commutes(sigmas[i], a[j]);
            let image = integers::apply(a, sigmas[i]);
            assert(integers::reduced(image, qi)[j] == image[j] % qi);
            assert(integers::reduced(image, qi) == targets[i]);
            lemma_mod_twice(image[j], qi);
        }
        integers::lemma_dot_congruent(s, coeffs, products, column, qi);
    }
    assert(left =~= right);
}

} // verus!
