//! Linearly homomorphic signature [`Authenticator`] for RLNC gossip.
//!
//! Wires the signature scheme into the gossip layer's [`Authenticator`]
//! interface.  The authenticator publishes
//!
//! - the public key,
//! - the generation metadata (for example, a hash of the original data),
//! - the per-piece signatures on hash targets derived from the piece index and
//!   the metadata,
//! - a BLAKE3 commitment fingerprint over all of these that identifies the
//!   generation.
//!
//! A tag for a coded piece is the linear combination of the per-piece signatures
//! with the coding vector, computed by [`combine`] in the lifted integer scheme.
//! The combination is *public*: any party holding the published values can tag
//! any coded piece without the secret key, so a recoding relay can authenticate
//! freshly mixed pieces.
//!
//! Verification recomputes the combination of the targets and delegates to
//! [`verify`], which enforces both the algebraic identity and the shortness
//! bound.  Cross-generation replay is blocked by comparing the wire commitment
//! against the one cached at construction.
//!
//! # Metadata binding
//!
//! Hash targets are derived from caller-supplied metadata via a BLAKE3-based
//! expansion with the domain tag `"lhs-v1.target"` and a counter to handle
//! rejection sampling.  Callers that want the commitment tied to specific
//! original data pass a hash of it as the metadata.
use super::keys::{self, PublicKey, PublicKeyView, SecretKey};
use super::sign::{self, combine, sign, Signature};
use super::verify::{self, verify};
use crate::auth::Authenticator;
use crate::bytes;
use crate::coding::piece::{CodedPiece, OriginalData, OriginalView, PieceView};
use crate::error::Error;
use crate::hash;
use crate::lattice::draw;
use crate::lattice::integers;
use crate::lattice::signed;
use crate::lattice::vector;
use crate::lattice::zq;
use crate::lattice::{ZVec, Zq, ZqMatrix, ZqVec};
use vstd::array::array_as_slice;
use vstd::arithmetic::div_mod::*;
use vstd::prelude::*;
use vstd::string::*;

verus! {

/// Per-generation commitment: a BLAKE3 fingerprint of the public key, the
/// metadata and the signatures.
///
/// Equality is constant-time, so verifiers can compare wire commitments against
/// the cached one without leaking a timing side channel.
#[derive(Clone, Copy, Debug)]
#[must_use]
pub struct Commitment(pub(crate) [u8; 32]);

impl View for Commitment {
    type V = Seq<u8>;

    open(crate) spec fn view(&self) -> Seq<u8> {
        self.0@
    }
}

impl From<[u8; 32]> for Commitment {
    fn from(bytes: [u8; 32]) -> (r: Self)
        ensures
            r@ == bytes@,
    {
        Commitment(bytes)
    }
}

impl vstd::std_specs::convert::FromSpecImpl<[u8; 32]> for Commitment {
    open spec fn obeys_from_spec() -> bool {
        true
    }

    open(crate) spec fn from_spec(bytes: [u8; 32]) -> Self {
        Commitment(bytes)
    }
}

impl From<Commitment> for [u8; 32] {
    fn from(c: Commitment) -> (r: Self)
        ensures
            r@ == c@,
    {
        c.0
    }
}

impl vstd::std_specs::convert::FromSpecImpl<Commitment> for [u8; 32] {
    open spec fn obeys_from_spec() -> bool {
        true
    }

    open(crate) spec fn from_spec(c: Commitment) -> Self {
        c.0
    }
}

impl Commitment {
    /// Borrow the commitment bytes.
    #[must_use]
    pub fn as_bytes(&self) -> (r: &[u8; 32])
        ensures
            r@ == self@,
    {
        &self.0
    }
}

impl PartialEq for Commitment {
    /// Constant-time equality.
    fn eq(&self, other: &Self) -> (r: bool) {
        hash::digests_equal(&self.0, &other.0)
    }
}

impl vstd::std_specs::cmp::PartialEqSpecImpl for Commitment {
    open spec fn obeys_eq_spec() -> bool {
        true
    }

    open spec fn eq_spec(&self, other: &Self) -> bool {
        self@ == other@
    }
}

impl Eq for Commitment {

}

/// The bytes that are hashed for the targets of piece `index`.
pub open spec fn target_payload(metadata: Seq<u8>, index: nat, counter: u64) -> Seq<u8> {
    "lhs-v1.target".spec_bytes() + bytes::le_bytes(index, 8) + bytes::le_bytes(counter as nat, 8)
        + metadata
}

/// The residues modulo `q` of the first `chunks` four-byte values of a digest
/// that lie below the largest multiple of `q`.
pub open spec fn residues_of(q: u32, digest: Seq<u8>, chunks: nat) -> Seq<int>
    decreases chunks,
{
    if chunks == 0 {
        Seq::empty()
    } else {
        let rest = residues_of(q, digest, (chunks - 1) as nat);
        let x = bytes::le_value(digest.subrange(4 * (chunks - 1), 4 * chunks as int)) as int;
        if x < zq::draw_limit(q) {
            rest.push(x % q as int)
        } else {
            rest
        }
    }
}

/// The residues that the digest for a counter contributes.
pub open spec fn contribution(q: u32, metadata: Seq<u8>, index: nat, counter: u64) -> Seq<int> {
    residues_of(q, hash::blake3_hash(target_payload(metadata, index, counter)), 8)
}

/// The counter of step `step`, which wraps around.
pub open spec fn counter_at(step: nat) -> u64 {
    (step % 0x1_0000_0000_0000_0000) as u64
}

/// The residues of the first `steps` digests.
pub open spec fn expansion(q: u32, metadata: Seq<u8>, index: nat, steps: nat) -> Seq<int>
    decreases steps,
{
    if steps == 0 {
        Seq::empty()
    } else {
        expansion(q, metadata, index, (steps - 1) as nat) + contribution(
            q,
            metadata,
            index,
            counter_at((steps - 1) as nat),
        )
    }
}

/// `target` holds the first `n` residues of the expansion.
pub open spec fn is_target(
    q: u32,
    metadata: Seq<u8>,
    index: nat,
    n: nat,
    target: Seq<int>,
) -> bool {
    exists|steps: nat|
        (#[trigger] expansion(q, metadata, index, steps)).len() >= n && target == expansion(
            q,
            metadata,
            index,
            steps,
        ).take(n as int)
}

/// No digest contributes a residue, so that the expansion stays empty.
pub open spec fn is_barren(q: u32, metadata: Seq<u8>, index: nat) -> bool {
    forall|counter: u64| (#[trigger] contribution(q, metadata, index, counter)).len() == 0
}

/// The targets of the first `count` pieces.
pub open spec fn are_targets(
    q: u32,
    metadata: Seq<u8>,
    count: nat,
    n: nat,
    targets: Seq<Seq<int>>,
) -> bool {
    &&& targets.len() == count
    &&& forall|i: int|
        0 <= i < count ==> is_target(q, metadata, i as nat, n, #[trigger] targets[i])
}

/// One of the first `count` pieces has an expansion that stays empty.
pub open spec fn some_barren(q: u32, metadata: Seq<u8>, count: nat) -> bool {
    exists|i: nat| i < count && #[trigger] is_barren(q, metadata, i)
}

/// A longer expansion extends a shorter one.
pub proof fn lemma_expansion_grows(q: u32, metadata: Seq<u8>, index: nat, a: nat, b: nat)
    requires
        a <= b,
    ensures
        expansion(q, metadata, index, a).len() <= expansion(q, metadata, index, b).len(),
        expansion(q, metadata, index, b).take(
            expansion(q, metadata, index, a).len() as int,
        ) == expansion(q, metadata, index, a),
    decreases b,
{
    let short = expansion(q, metadata, index, a);
    let long = expansion(q, metadata, index, b);
    if a < b {
        let m = (b - 1) as nat;
        lemma_expansion_grows(q, metadata, index, a, m);
        let middle = expansion(q, metadata, index, m);
        assert(long.take(short.len() as int) =~= middle.take(short.len() as int));
    } else {
        assert(long.take(short.len() as int) =~= short);
    }
}

/// The derivation of targets is deterministic: the same metadata gives the same
/// targets.
pub proof fn lemma_target_unique(
    q: u32,
    metadata: Seq<u8>,
    index: nat,
    n: nat,
    s: Seq<int>,
    t: Seq<int>,
)
    requires
        is_target(q, metadata, index, n, s),
        is_target(q, metadata, index, n, t),
    ensures
        s == t,
{
    let a = choose|steps: nat|
        (#[trigger] expansion(q, metadata, index, steps)).len() >= n && s == expansion(
            q,
            metadata,
            index,
            steps,
        ).take(n as int);
    let b = choose|steps: nat|
        (#[trigger] expansion(q, metadata, index, steps)).len() >= n && t == expansion(
            q,
            metadata,
            index,
            steps,
        ).take(n as int);
    let (low, high) = if a <= b {
        (a, b)
    } else {
        (b, a)
    };
    lemma_expansion_grows(q, metadata, index, low, high);
    let (short, long) = (
        expansion(q, metadata, index, low),
        expansion(q, metadata, index, high),
    );
    assert(short.take(n as int) =~= long.take(short.len() as int).take(n as int));
    assert(long.take(short.len() as int).take(n as int) =~= long.take(n as int));
}

/// An expansion that stays empty has no targets.
pub proof fn lemma_barren_targetless(
    q: u32,
    metadata: Seq<u8>,
    index: nat,
    n: nat,
    target: Seq<int>,
)
    requires
        is_barren(q, metadata, index),
        n > 0,
    ensures
        !is_target(q, metadata, index, n, target),
{
    assert forall|steps: nat| (#[trigger] expansion(q, metadata, index, steps)).len() == 0 by {
        lemma_barren_expansion(q, metadata, index, steps);
    }
}

proof fn lemma_barren_expansion(q: u32, metadata: Seq<u8>, index: nat, steps: nat)
    requires
        is_barren(q, metadata, index),
    ensures
        expansion(q, metadata, index, steps).len() == 0,
    decreases steps,
{
    if steps > 0 {
        lemma_barren_expansion(q, metadata, index, (steps - 1) as nat);
        assert(contribution(q, metadata, index, counter_at((steps - 1) as nat)).len() == 0);
    }
}

/// If no step of a whole cycle of counters contributes, none ever does.
proof fn lemma_idle_cycle(q: u32, metadata: Seq<u8>, index: nat, steps: nat)
    requires
        steps >= 0x1_0000_0000_0000_0000,
        forall|j: nat|
            steps - 0x1_0000_0000_0000_0000 <= j < steps ==> contribution(
                q,
                metadata,
                index,
                #[trigger] counter_at(j),
            ).len() == 0,
    ensures
        is_barren(q, metadata, index),
{
    let cycle = 0x1_0000_0000_0000_0000int;
    assert forall|counter: u64| (#[trigger] contribution(q, metadata, index, counter)).len()
        == 0 by {
        let start = steps - cycle;
        let gap = (counter as int - start) % cycle;
        let j = (start + gap) as nat;
        lemma_add_mod_noop_right(start, counter as int - start, cycle);
        lemma_small_mod(counter as nat, cycle as nat);
        assert(counter_at(j) == counter);
    }
}

/// The digest for the targets of piece `index` at `counter`.
fn hash_with_context(metadata: &[u8], index: usize, counter: u64) -> (digest: [u8; 32])
    ensures
        digest@ == hash::blake3_hash(target_payload(metadata@, index as nat, counter)),
{
    let mut payload: Vec<u8> = Vec::new();
    payload.extend_from_slice("lhs-v1.target".as_bytes());
    bytes::push_le_u64(&mut payload, index as u64);
    bytes::push_le_u64(&mut payload, counter);
    payload.extend_from_slice(metadata);
    assert(payload@ =~= target_payload(metadata@, index as nat, counter));
    hash::hash(payload.as_slice())
}

/// Append the residues of a digest to `acc`.
pub fn push_residues<const Q: u32>(acc: &mut Vec<Zq<Q>>, digest: &[u8; 32])
    requires
        Q > 0,
    ensures
        vector::values_of(final(acc)@) == vector::values_of(old(acc)@) + residues_of(
            Q,
            digest@,
            8,
        ),
{
    let ghost before = vector::values_of(acc@);
    let threshold: u32 = u32::MAX - (u32::MAX % Q);
    let bytes = array_as_slice(digest);
    let mut chunk: usize = 0;
    assert(vector::values_of(acc@) =~= before + residues_of(Q, digest@, 0));
    while chunk < 8
        invariant
            Q > 0,
            threshold == zq::draw_limit(Q),
            bytes@ == digest@,
            bytes@.len() == 32,
            chunk <= 8,
            vector::values_of(acc@) == before + residues_of(Q, digest@, chunk as nat),
        decreases 8 - chunk,
    {
        let ghost prior = acc@;
        let ghost so_far = residues_of(Q, digest@, chunk as nat);
        let x: u32 = bytes::read_le_u32(bytes, 4 * chunk);
        if x < threshold {
            let z: Zq<Q> = Zq::new(x);
            acc.push(z);
            assert(vector::values_of(acc@) =~= vector::values_of(prior).push(z@));
            assert((before + so_far).push(z@) =~= before + so_far.push(z@));
        }
        chunk += 1;
    }
}

/// Expand the metadata and the piece index into `n` uniform elements of `Z/QZ`
/// via rejection sampling on the four-byte chunks of BLAKE3 digests, with a
/// counter that is bumped until `n` of them have been accepted.
///
/// `None` if a whole cycle of the counter gives no element.
pub fn derive_single_target<const Q: u32>(metadata: &[u8], index: usize, n: usize) -> (r: Option<
    ZqVec<Q>,
>)
    requires
        Q > 0,
        n > 0,
    ensures
        match r {
            Some(target) => is_target(Q, metadata@, index as nat, n as nat, target@)
                && !is_barren(Q, metadata@, index as nat),
            None => is_barren(Q, metadata@, index as nat),
        },
{
    let ghost m = metadata@;
    let ghost at = index as nat;
    let mut acc: Vec<Zq<Q>> = Vec::new();
    let mut counter: u64 = 0;
    let mut idle: u128 = 0;
    let ghost mut steps: nat = 0;
    assert(vector::values_of(acc@) =~= expansion(Q, m, at, 0));
    while acc.len() < n
        invariant
            Q > 0,
            n > 0,
            m == metadata@,
            at == index as nat,
            counter == counter_at(steps),
            vector::values_of(acc@) == expansion(Q, m, at, steps),
            idle <= steps,
            idle < 0x1_0000_0000_0000_0000,
            forall|j: nat|
                steps - idle <= j < steps ==> contribution(Q, m, at, #[trigger] counter_at(j)).len()
                    == 0,
        decreases if acc@.len() < n { n - acc@.len() } else { 0 }, 0x1_0000_0000_0000_0000 - idle,
    {
        let ghost before = acc@;
        let count: usize = acc.len();
        let digest = hash_with_context(metadata, index, counter);
        push_residues(&mut acc, &digest);
        proof {
            assert(vector::values_of(before).len() == before.len());
            assert(vector::values_of(acc@).len() == acc@.len());
            assert(counter_at(steps) == counter);
            lemma_next_counter(steps);
            steps = steps + 1;
        }
        counter = counter.wrapping_add(1);
        if acc.len() == count {
            idle = idle + 1;
            if idle == 0x1_0000_0000_0000_0000 {
                proof {
                    lemma_idle_cycle(Q, m, at, steps);
                }
                return None;
            }
        } else {
            idle = 0;
        }
    }
    let ghost all = acc@;
    proof {
        assert(vector::values_of(all).len() == all.len());
    }
    acc.truncate(n);
    let target = ZqVec::new(acc);
    proof {
        assert(target@ =~= expansion(Q, m, at, steps).take(n as int));
        assert(is_target(Q, m, at, n as nat, target@));
        if is_barren(Q, m, at) {
            lemma_barren_targetless(Q, m, at, n as nat, target@);
        }
    }
    Some(target)
}

proof fn lemma_next_counter(steps: nat)
    ensures
        counter_at(steps + 1) == vstd::wrapping::u64_specs::wrapping_add(counter_at(steps), 1),
{
}

/// Derive the hash targets of the first `k` pieces, of length `n` each.  The
/// derivation is deterministic: two authenticators constructed with the same
/// metadata see the same hash targets.
pub fn derive_hash_targets<const Q: u32>(metadata: &[u8], k: usize, n: usize) -> (r: Option<
    Vec<ZqVec<Q>>,
>)
    requires
        Q > 0,
        n > 0,
    ensures
        match r {
            Some(targets) => are_targets(
                Q,
                metadata@,
                k as nat,
                n as nat,
                vector::views_of(targets@),
            ) && !some_barren(Q, metadata@, k as nat),
            None => some_barren(Q, metadata@, k as nat),
        },
{
    let mut targets: Vec<ZqVec<Q>> = Vec::new();
    let mut i: usize = 0;
    while i < k
        invariant
            Q > 0,
            n > 0,
            i <= k,
            targets@.len() == i,
            forall|t: int|
                0 <= t < i ==> is_target(
                    Q,
                    metadata@,
                    t as nat,
                    n as nat,
                    (#[trigger] targets@[t])@,
                ),
            forall|t: nat| t < i ==> !#[trigger] is_barren(Q, metadata@, t),
        decreases k - i,
    {
        match derive_single_target::<Q>(metadata, i, n) {
            Some(target) => {
                targets.push(target);
            },
            None => {
                assert(is_barren(Q, metadata@, i as nat));
                return None;
            },
        }
        i += 1;
    }
    Some(targets)
}

/// The four-byte encodings of the entries of a row.
pub open spec fn row_bytes(row: Seq<int>) -> Seq<u8>
    decreases row.len(),
{
    if row.len() == 0 {
        Seq::empty()
    } else {
        row_bytes(row.drop_last()) + bytes::le_bytes(row.last() as nat, 4)
    }
}

/// The encodings of the entries of a matrix, row by row.
pub open spec fn matrix_bytes(rows: Seq<Seq<int>>) -> Seq<u8>
    decreases rows.len(),
{
    if rows.len() == 0 {
        Seq::empty()
    } else {
        matrix_bytes(rows.drop_last()) + row_bytes(rows.last())
    }
}

/// The eight-byte encodings of the entries of a signature.
pub open spec fn signature_bytes(sigma: Seq<int>) -> Seq<u8>
    decreases sigma.len(),
{
    if sigma.len() == 0 {
        Seq::empty()
    } else {
        signature_bytes(sigma.drop_last()) + bytes::le_bytes(
            bytes::twos_complement(sigma.last()),
            8,
        )
    }
}

/// The encodings of signatures, one after the other.
pub open spec fn signatures_bytes(sigmas: Seq<Seq<int>>) -> Seq<u8>
    decreases sigmas.len(),
{
    if sigmas.len() == 0 {
        Seq::empty()
    } else {
        signatures_bytes(sigmas.drop_last()) + signature_bytes(sigmas.last())
    }
}

/// The bytes that are hashed for the commitment.
pub open spec fn commitment_payload(
    a: Seq<Seq<int>>,
    metadata: Seq<u8>,
    sigmas: Seq<Seq<int>>,
) -> Seq<u8> {
    "lhs-v1.commit".spec_bytes() + matrix_bytes(a) + bytes::le_bytes(metadata.len(), 8) + metadata
        + signatures_bytes(sigmas)
}

/// Append the encoding of a matrix to `out`.
fn push_matrix<const Q: u32>(out: &mut Vec<u8>, a: &ZqMatrix<Q>)
    ensures
        final(out)@ == old(out)@ + matrix_bytes(a@.rows),
{
    let ghost before = out@;
    let rows: usize = a.rows();
    let cols: usize = a.cols();
    let mut i: usize = 0;
    assert(a@.rows.take(0) =~= Seq::empty());
    assert(out@ =~= before + matrix_bytes(a@.rows.take(0)));
    while i < rows
        invariant
            rows == a@.rows.len(),
            cols == a@.cols,
            a@.rectangular(),
            i <= rows,
            out@ == before + matrix_bytes(a@.rows.take(i as int)),
        decreases rows - i,
    {
        let ghost row = a@.rows[i as int];
        let ghost start = out@;
        let mut j: usize = 0;
        assert(row.take(0) =~= Seq::empty());
        assert(out@ =~= start + row_bytes(row.take(0)));
        while j < cols
            invariant
                rows == a@.rows.len(),
                cols == a@.cols,
                i < rows,
                row == a@.rows[i as int],
                row.len() == cols,
                j <= cols,
                out@ == start + row_bytes(row.take(j as int)),
            decreases cols - j,
        {
            let e: Zq<Q> = match a.entry(i, j) {
                Some(e) => e,
                None => Zq::zero(),
            };
            let ghost so_far = row_bytes(row.take(j as int));
            bytes::push_le_u32(out, e.value());
            proof {
                let code = bytes::le_bytes(e@ as nat, 4);
                assert(row.take(j + 1).drop_last() =~= row.take(j as int));
                assert((start + so_far) + code =~= start + (so_far + code));
            }
            j += 1;
        }
        proof {
            let so_far = matrix_bytes(a@.rows.take(i as int));
            assert(row.take(j as int) =~= row);
            assert(a@.rows.take(i + 1).drop_last() =~= a@.rows.take(i as int));
            assert((before + so_far) + row_bytes(row) =~= before + (so_far + row_bytes(row)));
        }
        i += 1;
    }
    assert(a@.rows.take(i as int) =~= a@.rows);
}

/// Append the encodings of signatures to `out`.
fn push_signatures(out: &mut Vec<u8>, sigs: &[Signature])
    ensures
        final(out)@ == old(out)@ + signatures_bytes(sign::views_of(sigs@)),
{
    let ghost before = out@;
    let ghost views = sign::views_of(sigs@);
    let mut i: usize = 0;
    assert(views.take(0) =~= Seq::empty());
    assert(out@ =~= before + signatures_bytes(views.take(0)));
    while i < sigs.len()
        invariant
            views == sign::views_of(sigs@),
            i <= sigs@.len(),
            out@ == before + signatures_bytes(views.take(i as int)),
        decreases sigs@.len() - i,
    {
        let ghost sigma = views[i as int];
        let ghost start = out@;
        let entries = sigs[i].sigma().entries();
        let mut j: usize = 0;
        assert(signed::ints_of(entries@) == sigma);
        assert(signed::ints_of(entries@).len() == entries@.len());
        assert(sigma.take(0) =~= Seq::empty());
        assert(out@ =~= start + signature_bytes(sigma.take(0)));
        while j < entries.len()
            invariant
                signed::ints_of(entries@) == sigma,
                j <= entries@.len(),
                out@ == start + signature_bytes(sigma.take(j as int)),
            decreases entries@.len() - j,
        {
            let x: i64 = entries[j];
            let ghost so_far = signature_bytes(sigma.take(j as int));
            bytes::push_le_i64(out, x);
            proof {
                let code = bytes::le_bytes(bytes::twos_complement(x as int), 8);
                assert(sigma[j as int] == x);
                assert(sigma.take(j + 1).drop_last() =~= sigma.take(j as int));
                assert((start + so_far) + code =~= start + (so_far + code));
            }
            j += 1;
        }
        proof {
            let so_far = signatures_bytes(views.take(i as int));
            assert(sigma.take(j as int) =~= sigma);
            assert(views.take(i + 1).drop_last() =~= views.take(i as int));
            assert((before + so_far) + signature_bytes(sigma) =~= before + (so_far
                + signature_bytes(sigma)));
        }
        i += 1;
    }
    assert(views.take(i as int) =~= views);
}

/// The commitment to the public key, the metadata and the signatures.
fn derive_commitment<const Q: u32>(
    pk: &PublicKey<Q>,
    metadata: &[u8],
    signed_originals: &[Signature],
) -> (commitment: Commitment)
    ensures
        commitment@ == hash::blake3_hash(
            commitment_payload(pk@.a.rows, metadata@, sign::views_of(signed_originals@)),
        ),
{
    let mut payload: Vec<u8> = Vec::new();
    payload.extend_from_slice("lhs-v1.commit".as_bytes());
    push_matrix(&mut payload, pk.a());
    bytes::push_le_u64(&mut payload, metadata.len() as u64);
    payload.extend_from_slice(metadata);
    push_signatures(&mut payload, signed_originals);
    assert(payload@ =~= commitment_payload(
        pk@.a.rows,
        metadata@,
        sign::views_of(signed_originals@),
    ));
    Commitment(hash::hash(payload.as_slice()))
}

/// Linearly homomorphic signature [`Authenticator`] over `Z/QZ`.
///
/// Holds the public artifacts of one generation: the public key, the derived
/// hash targets, the per-target signatures, and the commitment fingerprint that
/// binds them together.  All four are needed to tag and verify coded pieces.
///
/// - [`Self::new`] at the source side derives the targets from the metadata and
///   signs every one.
/// - [`Self::from_public_artifacts`] at relay and verifier sides rebuilds from
///   the broadcast values without access to the secret key.
#[derive(Debug)]
#[must_use]
pub struct LatticeHomomorphicAuthenticator<const Q: u32> {
    pub(crate) pk: PublicKey<Q>,
    pub(crate) hash_targets: Vec<ZqVec<Q>>,
    pub(crate) signed_originals: Vec<Signature>,
    pub(crate) commitment: Commitment,
}

/// The public artifacts of one generation.
pub struct GenerationView {
    pub public: PublicKeyView,
    pub targets: Seq<Seq<int>>,
    pub signatures: Seq<Seq<int>>,
    pub commitment: Seq<u8>,
}

impl GenerationView {
    /// The key is well-formed, and every piece has a target and a signature.
    pub open spec fn well_formed(self, q: nat) -> bool {
        &&& self.public.well_formed(q)
        &&& self.targets.len() == self.public.params.k_pieces
        &&& self.signatures.len() == self.public.params.k_pieces
        &&& integers::has_width(self.targets, self.public.params.n)
    }

    /// Every signature is mapped by the public matrix to its target.
    pub open spec fn genuine(self, q: nat) -> bool {
        &&& integers::has_width(self.signatures, self.public.params.m(q))
        &&& forall|i: int|
            0 <= i < self.signatures.len() ==> integers::reduced(
                integers::apply(self.public.a.rows, #[trigger] self.signatures[i]),
                q as int,
            ) == self.targets[i]
    }

    /// What is built from a public key, metadata and signatures.
    pub open spec fn is_built(
        self,
        q: u32,
        public: PublicKeyView,
        metadata: Seq<u8>,
        signatures: Seq<Seq<int>>,
    ) -> bool {
        &&& self.public == public
        &&& self.signatures == signatures
        &&& are_targets(q, metadata, public.params.k_pieces, public.params.n, self.targets)
        &&& self.commitment == hash::blake3_hash(
            commitment_payload(public.a.rows, metadata, signatures),
        )
    }

    /// The tag of a piece with the given coefficients: the combination of the
    /// signatures, or the empty signature if there is none.
    pub open spec fn expected_tag(self, q: nat, coeffs: Seq<u8>) -> Seq<int> {
        if coeffs.len() == self.signatures.len() && integers::has_width(
            self.signatures,
            integers::first_width(self.signatures),
        ) {
            sign::combined(q as int, elements_of(q, coeffs), self.signatures)
        } else {
            Seq::empty()
        }
    }

    /// The target of a piece with the given coefficients.
    pub open spec fn combined_target(self, q: nat, coeffs: Seq<u8>) -> Seq<int> {
        integers::reduced(
            integers::combination(elements_of(q, coeffs), self.targets, self.public.params.n),
            q as int,
        )
    }
}

/// The coefficients of a coding vector as elements of `Z/qZ`.
pub open spec fn elements_of(q: nat, coeffs: Seq<u8>) -> Seq<int> {
    Seq::new(coeffs.len(), |i: int| coeffs[i] as int % q as int)
}

impl<const Q: u32> View for LatticeHomomorphicAuthenticator<Q> {
    type V = GenerationView;

    open(crate) spec fn view(&self) -> GenerationView {
        GenerationView {
            public: self.pk@,
            targets: vector::views_of(self.hash_targets@),
            signatures: sign::views_of(self.signed_originals@),
            commitment: self.commitment@,
        }
    }
}

impl<const Q: u32> Clone for LatticeHomomorphicAuthenticator<Q> {
    fn clone(&self) -> (r: Self)
        ensures
            r@ == self@,
    {
        proof {
            use_type_invariant(self);
        }
        let hash_targets = self.hash_targets.clone();
        let signed_originals = self.signed_originals.clone();
        proof {
            assert(vector::views_of(hash_targets@) =~= vector::views_of(self.hash_targets@));
            assert(sign::views_of(signed_originals@) =~= sign::views_of(
                self.signed_originals@,
            ));
        }
        Self { pk: self.pk.clone(), hash_targets, signed_originals, commitment: self.commitment }
    }
}

/// The failure for metadata with an expansion that stays empty.
pub open spec fn is_exhausted(e: Error) -> bool {
    draw::is_failure(e, "hash expansion exhausted"@)
}

/// The authenticator of a public key, metadata and one signature per piece.
fn assemble<const Q: u32>(
    pk: PublicKey<Q>,
    hash_targets: Vec<ZqVec<Q>>,
    metadata: &[u8],
    signed_originals: Vec<Signature>,
) -> (r: LatticeHomomorphicAuthenticator<Q>)
    requires
        signed_originals@.len() == pk@.params.k_pieces,
        are_targets(
            Q,
            metadata@,
            pk@.params.k_pieces,
            pk@.params.n,
            vector::views_of(hash_targets@),
        ),
    ensures
        r@.is_built(Q, pk@, metadata@, sign::views_of(signed_originals@)),
        r@.targets == vector::views_of(hash_targets@),
        r@.well_formed(Q as nat),
{
    let commitment = derive_commitment(&pk, metadata, signed_originals.as_slice());
    proof {
        use_type_invariant(&pk);
        let targets = vector::views_of(hash_targets@);
        assert forall|i: int| 0 <= i < targets.len() implies (#[trigger] targets[i]).len()
            == pk@.params.n by {
            assert(is_target(Q, metadata@, i as nat, pk@.params.n, targets[i]));
        }
    }
    LatticeHomomorphicAuthenticator { pk, hash_targets, signed_originals, commitment }
}

/// `r` is what building from the public broadcast values gives: the authenticator,
/// or the error for another number of signatures than `k_pieces`, or for metadata
/// whose expansion gives no target.
pub open spec fn rebuilds<const Q: u32>(
    public: PublicKeyView,
    metadata: Seq<u8>,
    signatures: Seq<Seq<int>>,
    r: Result<LatticeHomomorphicAuthenticator<Q>, Error>,
) -> bool {
    if signatures.len() != public.params.k_pieces {
        r == Err::<LatticeHomomorphicAuthenticator<Q>, Error>(
            Error::DimensionMismatch {
                expected: public.params.k_pieces as usize,
                actual: signatures.len() as usize,
            },
        )
    } else if some_barren(Q, metadata, public.params.k_pieces) {
        r matches Err(e) && is_exhausted(e)
    } else {
        r matches Ok(auth) && auth@.is_built(Q, public, metadata, signatures) && auth@.well_formed(
            Q as nat,
        )
    }
}

impl<const Q: u32> LatticeHomomorphicAuthenticator<Q> {
    #[verifier::type_invariant]
    pub(crate) open(crate) spec fn consistent(&self) -> bool {
        self@.well_formed(Q as nat)
    }

    /// Build an authenticator at the source side.
    ///
    /// Derives `k_pieces` hash targets from the metadata, signs each of them
    /// with `sk` and the coefficients of the sampler, and caches the resulting
    /// signatures.  After this call, tagging and verification use only the
    /// public values.
    ///
    /// Fails with any error of [`sign`], or with
    /// [`Error::RandomGenerationFailed`] for metadata whose expansion gives no
    /// target.
    pub fn new<G>(
        pk: PublicKey<Q>,
        sk: &SecretKey<Q>,
        metadata: &[u8],
        sampler: &G,
    ) -> (r: Result<Self, Error>) where G: Fn(Vec<i64>, u64) -> Result<ZVec, Error>
        requires
            sign::sampler_valid(Q as nat, *sampler, pk@.params.sigma_g),
            forall|target: Seq<int>|
                target.len() == pk@.params.n ==> #[trigger] sign::products_fit(
                    Q as nat,
                    *sampler,
                    pk@.params.sigma_g,
                    pk@.params.n,
                    sk@.r.rows,
                    target,
                ),
        ensures
            match r {
                Ok(auth) => {
                    &&& auth@.is_built(Q, pk@, metadata@, auth@.signatures)
                    &&& auth@.well_formed(Q as nat)
                    &&& forall|i: int|
                        0 <= i < auth@.targets.len() ==> sign::signed_as::<Q, G>(
                            pk@,
                            sk@.r,
                            #[trigger] auth@.targets[i],
                            *sampler,
                            auth@.signatures[i],
                        )
                    &&& forall|i: int|
                        0 <= i < auth@.targets.len() ==> sign::signed_asking(
                            pk,
                            *sk,
                            #[trigger] auth@.targets[i],
                            *sampler,
                            auth@.signatures[i],
                        )
                    &&& keys::are_related(Q as nat, pk@, sk@) ==> auth@.genuine(Q as nat)
                },
                Err(e) => {
                    ||| some_barren(Q, metadata@, pk@.params.k_pieces) && is_exhausted(e)
                    ||| !some_barren(Q, metadata@, pk@.params.k_pieces) && exists|
                        i: nat,
                        target: Seq<int>,
                    |
                        i < pk@.params.k_pieces && #[trigger] is_target(
                            Q,
                            metadata@,
                            i,
                            pk@.params.n,
                            target,
                        ) && sign::signs::<Q, G>(pk@, sk@.r, target, *sampler, Err(e))
                },
            },
    {
        let k: usize = pk.params().k_pieces();
        let n: usize = pk.params().n();
        let hash_targets = match derive_hash_targets::<Q>(metadata, k, n) {
            Some(targets) => targets,
            None => {
                return Err(
                    Error::RandomGenerationFailed(String::from_str("hash expansion exhausted")),
                );
            },
        };
        let ghost targets = vector::views_of(hash_targets@);
        let ghost q = Q as nat;
        let mut signed_originals: Vec<Signature> = Vec::new();
        let mut i: usize = 0;
        while i < hash_targets.len()
            invariant
                q == Q as nat,
                k == pk@.params.k_pieces,
                n == pk@.params.n,
                targets == vector::views_of(hash_targets@),
                are_targets(Q, metadata@, k as nat, n as nat, targets),
                !some_barren(Q, metadata@, k as nat),
                sign::sampler_valid(q, *sampler, pk@.params.sigma_g),
                forall|target: Seq<int>|
                    target.len() == pk@.params.n ==> #[trigger] sign::products_fit(
                        q,
                        *sampler,
                        pk@.params.sigma_g,
                        pk@.params.n,
                        sk@.r.rows,
                        target,
                    ),
                i <= hash_targets@.len(),
                signed_originals@.len() == i,
                forall|t: int|
                    0 <= t < i ==> #[trigger] sign::signs::<Q, G>(
                        pk@,
                        sk@.r,
                        targets[t],
                        *sampler,
                        Ok(signed_originals@[t]),
                    ),
                forall|t: int|
                    0 <= t < i ==> sign::signs_asking(
                        pk,
                        *sk,
                        hash_targets@[t],
                        *sampler,
                        Ok(#[trigger] signed_originals@[t]),
                    ),
                keys::are_related(q, pk@, sk@) ==> forall|t: int|
                    0 <= t < i ==> (#[trigger] signed_originals@[t])@.len() == pk@.params.m(q)
                        && integers::reduced(
                        integers::apply(pk@.a.rows, signed_originals@[t]@),
                        Q as int,
                    ) == targets[t],
            decreases hash_targets@.len() - i,
        {
            assert(is_target(Q, metadata@, i as nat, n as nat, targets[i as int]));
            match sign(&pk, sk, &hash_targets[i], sampler) {
                Ok(signature) => {
                    signed_originals.push(signature);
                },
                Err(e) => {
                    return Err(e);
                },
            }
            i += 1;
        }
        let ghost signatures = signed_originals@;
        let ghost (key, vectors) = (pk, hash_targets@);
        let auth = assemble(pk, hash_targets, metadata, signed_originals);
        proof {
            assert forall|i: int| 0 <= i < auth@.targets.len() implies sign::signed_as::<Q, G>(
                pk@,
                sk@.r,
                #[trigger] auth@.targets[i],
                *sampler,
                auth@.signatures[i],
            ) by {
                assert(sign::signs::<Q, G>(
                    pk@,
                    sk@.r,
                    targets[i],
                    *sampler,
                    Ok(signatures[i]),
                ));
            }
            assert forall|i: int| 0 <= i < auth@.targets.len() implies sign::signed_asking(
                key,
                *sk,
                #[trigger] auth@.targets[i],
                *sampler,
                auth@.signatures[i],
            ) by {
                assert(vectors[i]@ == targets[i]);
                assert(sign::signs_asking(key, *sk, vectors[i], *sampler, Ok(signatures[i])));
            }
            if keys::are_related(q, pk@, sk@) {
                assert forall|t: int| 0 <= t < auth@.signatures.len() implies (
                #[trigger] auth@.signatures[t]).len() == pk@.params.m(q) && integers::reduced(
                    integers::apply(auth@.public.a.rows, auth@.signatures[t]),
                    q as int,
                ) == auth@.targets[t] by {
                    assert(signatures[t]@ == auth@.signatures[t]);
                }
            }
        }
        Ok(auth)
    }

    /// Build an authenticator from the public broadcast values.
    ///
    /// Relays and verifiers use this constructor: they hold no secret key, and
    /// can still tag and verify pieces because the homomorphic combination is a
    /// public computation.
    ///
    /// Fails with [`Error::DimensionMismatch`] if the number of signatures is
    /// not `k_pieces`, or with [`Error::RandomGenerationFailed`] for metadata
    /// whose expansion gives no target.
    pub fn from_public_artifacts(
        pk: PublicKey<Q>,
        metadata: &[u8],
        signed_originals: Vec<Signature>,
    ) -> (r: Result<Self, Error>)
        ensures
            rebuilds(pk@, metadata@, sign::views_of(signed_originals@), r),
    {
        let k: usize = pk.params().k_pieces();
        let n: usize = pk.params().n();
        if signed_originals.len() != k {
            return Err(
                Error::DimensionMismatch { expected: k, actual: signed_originals.len() },
            );
        }
        match derive_hash_targets::<Q>(metadata, k, n) {
            Some(hash_targets) => Ok(assemble(pk, hash_targets, metadata, signed_originals)),
            None => Err(
                Error::RandomGenerationFailed(String::from_str("hash expansion exhausted")),
            ),
        }
    }

    /// Borrow the public key.
    pub fn public_key(&self) -> (r: &PublicKey<Q>)
        ensures
            r@ == self@.public,
            self@.well_formed(Q as nat),
    {
        proof {
            use_type_invariant(self);
        }
        &self.pk
    }

    /// Borrow the derived hash targets.
    pub fn hash_targets(&self) -> (r: &[ZqVec<Q>])
        ensures
            vector::views_of(r@) == self@.targets,
    {
        self.hash_targets.as_slice()
    }

    /// Borrow the signed originals.
    pub fn signed_originals(&self) -> (r: &[Signature])
        ensures
            sign::views_of(r@) == self@.signatures,
    {
        self.signed_originals.as_slice()
    }

    /// Borrow the commitment fingerprint.
    pub fn commitment(&self) -> (r: &Commitment)
        ensures
            r@ == self@.commitment,
    {
        &self.commitment
    }
}

/// The coefficients of a coding vector as elements of `Z/QZ`.
fn lift<const Q: u32>(coeffs: &Vec<u8>) -> (r: Vec<Zq<Q>>)
    requires
        Q > 0,
    ensures
        vector::values_of(r@) == elements_of(Q as nat, coeffs@),
{
    let mut elements: Vec<Zq<Q>> = Vec::with_capacity(coeffs.len());
    let mut i: usize = 0;
    while i < coeffs.len()
        invariant
            Q > 0,
            i <= coeffs@.len(),
            elements@.len() == i,
            forall|t: int|
                0 <= t < i ==> (#[trigger] elements@[t])@ == coeffs@[t] as int % Q as int,
        decreases coeffs@.len() - i,
    {
        elements.push(Zq::new(coeffs[i] as u32));
        i += 1;
    }
    assert(vector::values_of(elements@) =~= elements_of(Q as nat, coeffs@));
    elements
}

/// The signatures paired with the coefficients of a piece, or `None` if their
/// numbers differ.
fn lifted_pairs<const Q: u32>(piece: &CodedPiece, signed_originals: &[Signature]) -> (r: Option<
    Vec<(Zq<Q>, Signature)>,
>)
    requires
        Q > 0,
    ensures
        match r {
            Some(pairs) => {
                &&& piece@.coeffs.len() == signed_originals@.len()
                &&& sign::coefficients_of(pairs@) == elements_of(Q as nat, piece@.coeffs)
                &&& sign::signatures_of(pairs@) == sign::views_of(signed_originals@)
            },
            None => piece@.coeffs.len() != signed_originals@.len(),
        },
{
    let cv_bytes = piece.coding_vector().as_vec().to_bytes();
    if cv_bytes.len() != signed_originals.len() {
        return None;
    }
    let elements: Vec<Zq<Q>> = lift(&cv_bytes);
    let ghost values = vector::values_of(elements@);
    assert(values.len() == elements@.len());
    let mut pairs: Vec<(Zq<Q>, Signature)> = Vec::with_capacity(cv_bytes.len());
    let mut i: usize = 0;
    while i < signed_originals.len()
        invariant
            i <= signed_originals@.len(),
            elements@.len() == signed_originals@.len(),
            pairs@.len() == i,
            forall|t: int|
                0 <= t < i ==> (#[trigger] pairs@[t]).0@ == elements@[t]@ && pairs@[t].1@
                    == signed_originals@[t]@,
        decreases signed_originals@.len() - i,
    {
        pairs.push((elements[i], signed_originals[i].clone()));
        i += 1;
    }
    proof {
        assert(sign::coefficients_of(pairs@) =~= values);
        assert(sign::signatures_of(pairs@) =~= sign::views_of(signed_originals@));
    }
    Some(pairs)
}

/// The combination of the targets with the coefficients of a piece, or the
/// inconsistency of lengths as [`Error::DimensionMismatch`].
fn derive_target<const Q: u32>(piece: &CodedPiece, hash_targets: &[ZqVec<Q>]) -> (r: Result<
    ZqVec<Q>,
    Error,
>)
    requires
        Q > 0,
    ensures
        ({
            let targets = vector::views_of(hash_targets@);
            if integers::combinable(piece@.coeffs.len(), targets) {
                r matches Ok(target) && target@ == integers::reduced(
                    integers::combination(
                        elements_of(Q as nat, piece@.coeffs),
                        targets,
                        integers::first_width(targets),
                    ),
                    Q as int,
                )
            } else {
                r is Err
            }
        }),
{
    let cv_bytes = piece.coding_vector().as_vec().to_bytes();
    if cv_bytes.len() != hash_targets.len() {
        return Err(
            Error::DimensionMismatch { expected: hash_targets.len(), actual: cv_bytes.len() },
        );
    }
    let scalars: Vec<Zq<Q>> = lift(&cv_bytes);
    assert(vector::values_of(scalars@).len() == scalars@.len());
    ZqVec::linear_combine(scalars.as_slice(), hash_targets)
}

impl<const Q: u32> Authenticator for LatticeHomomorphicAuthenticator<Q> {
    type Commitment = Commitment;

    type Tag = Signature;

    open spec fn commits(&self, original: OriginalView, commitment: Commitment) -> bool {
        commitment@ == self@.commitment
    }

    open spec fn can_tag(&self, commitment: Commitment, piece: PieceView) -> bool {
        piece.coeffs.len() == self@.signatures.len() ==> signed::combination_fits(
            vector::signed(elements_of(Q as nat, piece.coeffs), Q as int),
            self@.signatures,
        )
    }

    open spec fn tags(&self, commitment: Commitment, piece: PieceView, tag: Signature) -> bool {
        tag@ == self@.expected_tag(Q as nat, piece.coeffs)
    }

    open spec fn accepts(&self, commitment: Commitment, piece: PieceView, tag: Signature) -> bool {
        &&& commitment@ == self@.commitment
        &&& piece.coeffs.len() == self@.targets.len()
        &&& verify::accepted(
            Q as nat,
            self@.public,
            tag@,
            self@.combined_target(Q as nat, piece.coeffs),
        )
    }

    fn commit(&self, _original: &OriginalData) -> (commitment: Commitment) {
        self.commitment
    }

    fn tag(&self, _commitment: &Commitment, piece: &CodedPiece) -> (tag: Signature) {
        proof {
            use_type_invariant(self);
        }
        match lifted_pairs::<Q>(piece, self.signed_originals.as_slice()) {
            Some(pairs) => match combine(pairs.as_slice()) {
                Ok(signature) => {
                    return signature;
                },
                Err(_) => {},
            },
            None => {},
        }
        let empty = Signature::new(ZVec::new(Vec::new()));
        assert(empty@ =~= Seq::empty());
        empty
    }

    fn verify(&self, commitment: &Commitment, piece: &CodedPiece, tag: &Signature) -> (r: Result<
        (),
        Error,
    >) {
        proof {
            use_type_invariant(self);
        }
        if *commitment != self.commitment {
            return Err(Error::AuthenticatorRejected);
        }
        assert(self@.targets[0].len() == self@.public.params.n);
        match derive_target(piece, self.hash_targets.as_slice()) {
            Ok(target) => verify(&self.pk, tag, &target),
            Err(_) => Err(Error::AuthenticatorRejected),
        }
    }
}

/// Two authenticators built from the same public key, metadata and signatures
/// have the same targets and the same commitment: a relay that rebuilds from the
/// broadcast values tags and verifies as the source does.
pub proof fn lemma_rebuilt_equal(
    q: u32,
    public: PublicKeyView,
    metadata: Seq<u8>,
    signatures: Seq<Seq<int>>,
    a: GenerationView,
    b: GenerationView,
)
    requires
        a.is_built(q, public, metadata, signatures),
        b.is_built(q, public, metadata, signatures),
    ensures
        a == b,
{
    assert forall|i: int| 0 <= i < a.targets.len() implies a.targets[i] == b.targets[i] by {
        assert(is_target(q, metadata, i as nat, public.params.n, a.targets[i]));
        assert(is_target(q, metadata, i as nat, public.params.n, b.targets[i]));
        lemma_target_unique(
            q,
            metadata,
            i as nat,
            public.params.n,
            a.targets[i],
            b.targets[i],
        );
    }
    assert(a.targets =~= b.targets);
}

/// Building from the values that a source broadcasts succeeds, without its secret
/// key, and gives the targets and the commitment of the source, and with them its
/// tags and its verdicts on every piece.
pub proof fn lemma_rebuilt_from_source<const Q: u32>(
    source: LatticeHomomorphicAuthenticator<Q>,
    metadata: Seq<u8>,
    r: Result<LatticeHomomorphicAuthenticator<Q>, Error>,
)
    requires
        source@.well_formed(Q as nat),
        source@.is_built(Q, source@.public, metadata, source@.signatures),
        rebuilds(source@.public, metadata, source@.signatures, r),
    ensures
        r matches Ok(auth) && {
            &&& auth@ == source@
            &&& forall|c: Commitment, p: PieceView, t: Signature| #[trigger]
                auth.tags(c, p, t) == source.tags(c, p, t)
            &&& forall|c: Commitment, p: PieceView, t: Signature| #[trigger]
                auth.accepts(c, p, t) == source.accepts(c, p, t)
        },
{
    let (public, targets) = (source@.public, source@.targets);
    if some_barren(Q, metadata, public.params.k_pieces) {
        let i = choose|i: nat| i < public.params.k_pieces && #[trigger] is_barren(Q, metadata, i);
        assert(is_target(Q, metadata, i, public.params.n, targets[i as int]));
        lemma_barren_targetless(Q, metadata, i, public.params.n, targets[i as int]);
    }
    if let Ok(auth) = r {
        lemma_rebuilt_equal(Q, public, metadata, source@.signatures, auth@, source@);
    }
}

/// Authenticators with the same artifacts make the same tags and accept the same
/// pieces.
pub proof fn lemma_same_artifacts<const Q: u32>(
    a: LatticeHomomorphicAuthenticator<Q>,
    b: LatticeHomomorphicAuthenticator<Q>,
    commitment: Commitment,
    piece: PieceView,
    tag: Signature,
)
    requires
        a@ == b@,
    ensures
        a.tags(commitment, piece, tag) == b.tags(commitment, piece, tag),
        a.accepts(commitment, piece, tag) == b.accepts(commitment, piece, tag),
{
}

/// A tag made from genuine signatures is mapped to the combined target of the
/// piece.  It is accepted under the generation's commitment exactly if it is
/// short.
pub proof fn lemma_tag_accepted<const Q: u32>(
    auth: LatticeHomomorphicAuthenticator<Q>,
    commitment: Commitment,
    piece: PieceView,
    tag: Signature,
)
    requires
        auth@.well_formed(Q as nat),
        auth@.genuine(Q as nat),
        commitment@ == auth@.commitment,
        piece.coeffs.len() == auth@.public.params.k_pieces,
        auth.tags(commitment, piece, tag),
    ensures
        auth.accepts(commitment, piece, tag) <==> integers::squared_norm(tag@)
            <= auth@.public.params.sig_norm_bound_sq,
{
    let q = Q as nat;
    let view = auth@;
    let coeffs = elements_of(q, piece.coeffs);
    assert(view.signatures[0].len() == view.public.params.m(q));
    sign::lemma_combination_signs(
        Q,
        view.public.a.rows,
        view.public.params.m(q),
        coeffs,
        view.signatures,
        view.targets,
    );
}

/// The magnitude of the entries of a tag: that of the balanced coefficients times
/// that of the entries of the signatures, for each piece.
pub open spec fn tag_bound(q: nat, k_pieces: nat, bound: int) -> int {
    k_pieces * ((q as int / 2) * bound)
}

/// With short genuine signatures and a norm bound to match, every piece can be
/// tagged, and every tag is accepted under the generation's commitment.
pub proof fn lemma_short_generation<const Q: u32>(
    auth: LatticeHomomorphicAuthenticator<Q>,
    bound: int,
)
    requires
        auth@.well_formed(Q as nat),
        auth@.genuine(Q as nat),
        bound >= 0,
        forall|i: int|
            0 <= i < auth@.signatures.len() ==> integers::bounded(
                #[trigger] auth@.signatures[i],
                bound,
            ),
        ({
            let reach = tag_bound(Q as nat, auth@.public.params.k_pieces, bound);
            reach <= i64::MAX && auth@.public.params.m(Q as nat) * (reach * reach)
                <= auth@.public.params.sig_norm_bound_sq
        }),
    ensures
        forall|commitment: Commitment, piece: PieceView| #[trigger]
            auth.can_tag(commitment, piece),
        forall|commitment: Commitment, piece: PieceView, tag: Signature|
            commitment@ == auth@.commitment && piece.coeffs.len()
                == auth@.public.params.k_pieces && #[trigger] auth.tags(commitment, piece, tag)
                ==> auth.accepts(commitment, piece, tag),
{
    let q = Q as nat;
    let view = auth@;
    let k = view.public.params.k_pieces;
    let half = Q as int / 2;
    let reach = tag_bound(q, k, bound);
    let m = view.public.params.m(q);
    assert(reach >= 0) by {
        assert(half * bound >= 0) by (nonlinear_arith)
            requires
                half >= 0,
                bound >= 0,
        ;
        assert(k * (half * bound) >= 0) by (nonlinear_arith)
            requires
                k >= 0,
                half * bound >= 0,
        ;
    }
    assert(view.signatures[0].len() == m);
    assert forall|coeffs: Seq<u8>, j: int|
        coeffs.len() == k && 0 <= j < m implies integers::bounded(
        vector::signed(#[trigger] elements_of(q, coeffs), Q as int),
        half,
    ) && integers::bounded(#[trigger] integers::column(view.signatures, j), bound) by {
        let column = integers::column(view.signatures, j);
        assert forall|i: int| 0 <= i < column.len() implies -bound <= #[trigger] column[i]
            <= bound by {
            assert(integers::bounded(view.signatures[i], bound));
            assert(view.signatures[i].len() == m);
            assert(-bound <= view.signatures[i][j] <= bound);
        }
    }
    assert forall|commitment: Commitment, piece: PieceView| #[trigger]
        auth.can_tag(commitment, piece) by {
        if piece.coeffs.len() == view.signatures.len() {
            let coeffs = vector::signed(elements_of(q, piece.coeffs), Q as int);
            assert forall|j: int| 0 <= j < m implies integers::dot_fits(
                coeffs,
                #[trigger] integers::column(view.signatures, j),
            ) by {
                integers::lemma_dot_fits(
                    coeffs,
                    integers::column(view.signatures, j),
                    half,
                    bound,
                );
            }
        }
    }
    assert forall|commitment: Commitment, piece: PieceView, tag: Signature|
        commitment@ == view.commitment && piece.coeffs.len() == k && #[trigger] auth.tags(
            commitment,
            piece,
            tag,
        ) implies auth.accepts(commitment, piece, tag) by {
        let coeffs = vector::signed(elements_of(q, piece.coeffs), Q as int);
        assert(tag@.len() == m);
        assert forall|j: int| 0 <= j < tag@.len() implies -reach <= #[trigger] tag@[j]
            <= reach by {
            integers::lemma_dot_bounded(
                coeffs,
                integers::column(view.signatures, j),
                half,
                bound,
            );
        }
        integers::lemma_dot_bounded(tag@, tag@, reach, reach);
        lemma_tag_accepted(auth, commitment, piece, tag);
    }
}

/// A piece that carries another commitment is rejected: tags do not carry over
/// from one generation to another.
pub proof fn lemma_replay_rejected<const Q: u32>(
    auth: LatticeHomomorphicAuthenticator<Q>,
    commitment: Commitment,
    piece: PieceView,
    tag: Signature,
)
    requires
        commitment@ != auth@.commitment,
    ensures
        !auth.accepts(commitment, piece, tag),
{
}

/// Tags compose: if two tags are mapped to the targets of their pieces, a
/// combination of the tags over the integers is mapped to the same combination
/// of the targets over `Z/QZ`.
pub proof fn lemma_tags_compose(
    q: u32,
    public: PublicKeyView,
    scalars: Seq<int>,
    tags: Seq<Seq<int>>,
    targets: Seq<Seq<int>>,
)
    requires
        public.well_formed(q as nat),
        tags.len() > 0,
        scalars.len() == tags.len(),
        targets.len() == tags.len(),
        forall|i: int|
            0 <= i < tags.len() ==> verify::accepted(
                q as nat,
                public,
                #[trigger] tags[i],
                targets[i],
            ),
    ensures
        ({
            let tag = sign::combined(q as int, scalars, tags);
            let target = integers::reduced(
                integers::combination(scalars, targets, public.params.n),
                q as int,
            );
            verify::accepted(q as nat, public, tag, target) <==> integers::squared_norm(tag)
                <= public.params.sig_norm_bound_sq
        }),
{
    let m = public.params.m(q as nat);
    assert forall|i: int| 0 <= i < tags.len() implies (#[trigger] tags[i]).len() == m by {
        assert(verify::accepted(q as nat, public, tags[i], targets[i]));
    }
    sign::lemma_combination_signs(q, public.a.rows, m, scalars, tags, targets);
}

} // verus!
