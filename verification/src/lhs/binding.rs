//! What the hashes of a generation bind: the byte strings that are hashed tell
//! commitments and targets of different inputs apart.
use super::authenticator::{self, GenerationView};
use super::keys::PublicKeyView;
use crate::bytes;
use crate::hash;
use crate::lattice::integers;
use vstd::prelude::*;
use vstd::string::*;

verus! {

/// Encodings of one length tell the numbers that fit in them apart.
proof fn lemma_le_apart(x: nat, y: nat, n: nat)
    requires
        x < vstd::arithmetic::power::pow(256, n),
        y < vstd::arithmetic::power::pow(256, n),
        bytes::le_bytes(x, n) == bytes::le_bytes(y, n),
    ensures
        x == y,
{
    bytes::lemma_le_roundtrip(x, n);
    bytes::lemma_le_roundtrip(y, n);
}

proof fn lemma_powers()
    ensures
        vstd::arithmetic::power::pow(256, 4) == 0x1_0000_0000,
        vstd::arithmetic::power::pow(256, 8) == 0x1_0000_0000_0000_0000,
{
    reveal_with_fuel(vstd::arithmetic::power::pow, 9);
}

proof fn lemma_le_len(x: nat, n: nat)
    ensures
        bytes::le_bytes(x, n).len() == n,
    decreases n,
{
    if n > 0 {
        lemma_le_len(x / 256, (n - 1) as nat);
    }
}

/// Every entry fits in four bytes.
pub open spec fn is_word_row(row: Seq<int>) -> bool {
    forall|i: int| 0 <= i < row.len() ==> 0 <= #[trigger] row[i] < 0x1_0000_0000
}

/// Every entry fits in a signed number of eight bytes.
pub open spec fn is_long_row(row: Seq<int>) -> bool {
    forall|i: int| 0 <= i < row.len() ==> i64::MIN <= #[trigger] row[i] <= i64::MAX
}

proof fn lemma_row_apart(a: Seq<int>, b: Seq<int>)
    requires
        a.len() == b.len(),
        is_word_row(a),
        is_word_row(b),
    ensures
        authenticator::row_bytes(a).len() == 4 * a.len(),
        authenticator::row_bytes(a) == authenticator::row_bytes(b) ==> a == b,
    decreases a.len(),
{
    if a.len() > 0 {
        let (x, y) = (a.drop_last(), b.drop_last());
        let n = a.len() - 1;
        assert forall|i: int| 0 <= i < x.len() implies 0 <= #[trigger] x[i] < 0x1_0000_0000 by {
            assert(0 <= a[i] < 0x1_0000_0000);
        }
        assert forall|i: int| 0 <= i < y.len() implies 0 <= #[trigger] y[i] < 0x1_0000_0000 by {
            assert(0 <= b[i] < 0x1_0000_0000);
        }
        lemma_row_apart(x, y);
        lemma_row_apart(y, x);
        assert(0 <= a[n] < 0x1_0000_0000 && 0 <= b[n] < 0x1_0000_0000);
        lemma_le_len(a[n] as nat, 4);
        lemma_le_len(b[n] as nat, 4);
        let (s, t) = (authenticator::row_bytes(a), authenticator::row_bytes(b));
        if s == t {
            let k = 4 * n;
            assert(s.take(k) =~= authenticator::row_bytes(x));
            assert(t.take(k) =~= authenticator::row_bytes(y));
            assert(s.skip(k) =~= bytes::le_bytes(a[n] as nat, 4));
            assert(t.skip(k) =~= bytes::le_bytes(b[n] as nat, 4));
            lemma_powers();
            lemma_le_apart(a[n] as nat, b[n] as nat, 4);
            assert(a =~= x.push(a[n]));
            assert(b =~= y.push(b[n]));
        }
    } else {
        assert(a =~= b);
    }
}

proof fn lemma_matrix_apart(a: Seq<Seq<int>>, b: Seq<Seq<int>>, width: nat)
    requires
        a.len() == b.len(),
        integers::has_width(a, width),
        integers::has_width(b, width),
        forall|i: int| 0 <= i < a.len() ==> is_word_row(#[trigger] a[i]),
        forall|i: int| 0 <= i < b.len() ==> is_word_row(#[trigger] b[i]),
    ensures
        authenticator::matrix_bytes(a).len() == 4 * width * a.len(),
        authenticator::matrix_bytes(a) == authenticator::matrix_bytes(b) ==> a == b,
    decreases a.len(),
{
    if a.len() > 0 {
        let (x, y) = (a.drop_last(), b.drop_last());
        let n = a.len() - 1;
        assert forall|i: int| 0 <= i < x.len() implies (#[trigger] x[i]).len() == width
            && is_word_row(x[i]) by {
            assert(a[i].len() == width);
        }
        assert forall|i: int| 0 <= i < y.len() implies (#[trigger] y[i]).len() == width
            && is_word_row(y[i]) by {
            assert(b[i].len() == width);
        }
        lemma_matrix_apart(x, y, width);
        lemma_matrix_apart(y, x, width);
        assert(a[n].len() == width && b[n].len() == width);
        assert(is_word_row(a[n]) && is_word_row(b[n]));
        lemma_row_apart(a[n], b[n]);
        lemma_row_apart(b[n], a[n]);
        assert(4 * width * n + 4 * width == 4 * width * (n + 1)) by (nonlinear_arith);
        let (s, t) = (authenticator::matrix_bytes(a), authenticator::matrix_bytes(b));
        if s == t {
            let k = authenticator::matrix_bytes(x).len() as int;
            assert(s.take(k) =~= authenticator::matrix_bytes(x));
            assert(t.take(k) =~= authenticator::matrix_bytes(y));
            assert(s.skip(k) =~= authenticator::row_bytes(a[n]));
            assert(t.skip(k) =~= authenticator::row_bytes(b[n]));
            assert(a =~= x.push(a[n]));
            assert(b =~= y.push(b[n]));
        }
    } else {
        assert(4 * width * a.len() == 0) by (nonlinear_arith)
            requires
                a.len() == 0,
        ;
        assert(a =~= b);
    }
}

proof fn lemma_signature_apart(a: Seq<int>, b: Seq<int>)
    requires
        a.len() == b.len(),
        is_long_row(a),
        is_long_row(b),
    ensures
        authenticator::signature_bytes(a).len() == 8 * a.len(),
        authenticator::signature_bytes(a) == authenticator::signature_bytes(b) ==> a == b,
    decreases a.len(),
{
    if a.len() > 0 {
        let (x, y) = (a.drop_last(), b.drop_last());
        let n = a.len() - 1;
        assert forall|i: int| 0 <= i < x.len() implies i64::MIN <= #[trigger] x[i]
            <= i64::MAX by {
            assert(i64::MIN <= a[i] <= i64::MAX);
        }
        assert forall|i: int| 0 <= i < y.len() implies i64::MIN <= #[trigger] y[i]
            <= i64::MAX by {
            assert(i64::MIN <= b[i] <= i64::MAX);
        }
        lemma_signature_apart(x, y);
        lemma_signature_apart(y, x);
        assert(i64::MIN <= a[n] <= i64::MAX && i64::MIN <= b[n] <= i64::MAX);
        let (p, q) = (bytes::twos_complement(a[n]), bytes::twos_complement(b[n]));
        lemma_le_len(p, 8);
        lemma_le_len(q, 8);
        let (s, t) = (authenticator::signature_bytes(a), authenticator::signature_bytes(b));
        if s == t {
            let k = 8 * n;
            assert(s.take(k) =~= authenticator::signature_bytes(x));
            assert(t.take(k) =~= authenticator::signature_bytes(y));
            assert(s.skip(k) =~= bytes::le_bytes(p, 8));
            assert(t.skip(k) =~= bytes::le_bytes(q, 8));
            lemma_powers();
            lemma_le_apart(p, q, 8);
            assert(a =~= x.push(a[n]));
            assert(b =~= y.push(b[n]));
        }
    } else {
        assert(a =~= b);
    }
}

proof fn lemma_signatures_apart(a: Seq<Seq<int>>, b: Seq<Seq<int>>, width: nat)
    requires
        a.len() == b.len(),
        integers::has_width(a, width),
        integers::has_width(b, width),
        forall|i: int| 0 <= i < a.len() ==> is_long_row(#[trigger] a[i]),
        forall|i: int| 0 <= i < b.len() ==> is_long_row(#[trigger] b[i]),
    ensures
        authenticator::signatures_bytes(a).len() == 8 * width * a.len(),
        authenticator::signatures_bytes(a) == authenticator::signatures_bytes(b) ==> a == b,
    decreases a.len(),
{
    if a.len() > 0 {
        let (x, y) = (a.drop_last(), b.drop_last());
        let n = a.len() - 1;
        assert forall|i: int| 0 <= i < x.len() implies (#[trigger] x[i]).len() == width
            && is_long_row(x[i]) by {
            assert(a[i].len() == width);
        }
        assert forall|i: int| 0 <= i < y.len() implies (#[trigger] y[i]).len() == width
            && is_long_row(y[i]) by {
            assert(b[i].len() == width);
        }
        lemma_signatures_apart(x, y, width);
        lemma_signatures_apart(y, x, width);
        assert(a[n].len() == width && b[n].len() == width);
        assert(is_long_row(a[n]) && is_long_row(b[n]));
        lemma_signature_apart(a[n], b[n]);
        lemma_signature_apart(b[n], a[n]);
        assert(8 * width * n + 8 * width == 8 * width * (n + 1)) by (nonlinear_arith);
        let (s, t) = (authenticator::signatures_bytes(a), authenticator::signatures_bytes(b));
        if s == t {
            let k = authenticator::signatures_bytes(x).len() as int;
            assert(s.take(k) =~= authenticator::signatures_bytes(x));
            assert(t.take(k) =~= authenticator::signatures_bytes(y));
            assert(s.skip(k) =~= authenticator::signature_bytes(a[n]));
            assert(t.skip(k) =~= authenticator::signature_bytes(b[n]));
            assert(a =~= x.push(a[n]));
            assert(b =~= y.push(b[n]));
        }
    } else {
        assert(8 * width * a.len() == 0) by (nonlinear_arith)
            requires
                a.len() == 0,
        ;
        assert(a =~= b);
    }
}

/// A matrix over `Z/qZ` with as many rows and columns as given.
pub open spec fn is_word_matrix(rows: Seq<Seq<int>>, count: nat, width: nat) -> bool {
    &&& rows.len() == count
    &&& integers::has_width(rows, width)
    &&& forall|i: int| 0 <= i < rows.len() ==> is_word_row(#[trigger] rows[i])
}

/// As many signatures as given, each of the given length.
pub open spec fn are_long_rows(sigmas: Seq<Seq<int>>, count: nat, width: nat) -> bool {
    &&& sigmas.len() == count
    &&& integers::has_width(sigmas, width)
    &&& forall|i: int| 0 <= i < sigmas.len() ==> is_long_row(#[trigger] sigmas[i])
}

proof fn lemma_payload_apart(
    n: nat,
    m: nat,
    k: nat,
    a: Seq<Seq<int>>,
    metadata: Seq<u8>,
    sigmas: Seq<Seq<int>>,
    b: Seq<Seq<int>>,
    other: Seq<u8>,
    others: Seq<Seq<int>>,
)
    requires
        is_word_matrix(a, n, m),
        is_word_matrix(b, n, m),
        are_long_rows(sigmas, k, m),
        are_long_rows(others, k, m),
        metadata.len() <= u64::MAX,
        other.len() <= u64::MAX,
        authenticator::commitment_payload(a, metadata, sigmas)
            == authenticator::commitment_payload(b, other, others),
    ensures
        a == b,
        metadata == other,
        sigmas == others,
{
    let (s, t) = (
        authenticator::commitment_payload(a, metadata, sigmas),
        authenticator::commitment_payload(b, other, others),
    );
    let head = "lhs-v1.commit".spec_bytes();
    lemma_matrix_apart(a, b, m);
    lemma_matrix_apart(b, a, m);
    lemma_signatures_apart(sigmas, others, m);
    lemma_signatures_apart(others, sigmas, m);
    lemma_le_len(metadata.len(), 8);
    lemma_le_len(other.len(), 8);
    let h = head.len() as int;
    let c = h + authenticator::matrix_bytes(a).len();
    assert(s.subrange(h, c) =~= authenticator::matrix_bytes(a));
    assert(t.subrange(h, c) =~= authenticator::matrix_bytes(b));
    assert(s.subrange(c, c + 8) =~= bytes::le_bytes(metadata.len(), 8));
    assert(t.subrange(c, c + 8) =~= bytes::le_bytes(other.len(), 8));
    lemma_powers();
    lemma_le_apart(metadata.len(), other.len(), 8);
    let d = c + 8 + metadata.len();
    assert(s.subrange(c + 8, d) =~= metadata);
    assert(t.subrange(c + 8, d) =~= other);
    assert(s.skip(d) =~= authenticator::signatures_bytes(sigmas));
    assert(t.skip(d) =~= authenticator::signatures_bytes(others));
}

/// The two byte strings differ, and one hashes to `a` and the other to `b`.
pub open spec fn hashed_apart(x: Seq<u8>, y: Seq<u8>, a: Seq<u8>, b: Seq<u8>) -> bool {
    x != y && a == hash::blake3_hash(x) && b == hash::blake3_hash(y)
}

/// A commitment binds the public matrix, all of the metadata and every entry of every
/// signature: the commitments of two generations of the same dimensions that differ in
/// any of these are hashes of different byte strings.
pub proof fn lemma_commitment_binds(
    q: u32,
    a: GenerationView,
    public: PublicKeyView,
    metadata: Seq<u8>,
    signatures: Seq<Seq<int>>,
    b: GenerationView,
    other_public: PublicKeyView,
    other_metadata: Seq<u8>,
    other_signatures: Seq<Seq<int>>,
    n: nat,
    m: nat,
    k: nat,
)
    requires
        a.is_built(q, public, metadata, signatures),
        b.is_built(q, other_public, other_metadata, other_signatures),
        is_word_matrix(public.a.rows, n, m),
        is_word_matrix(other_public.a.rows, n, m),
        are_long_rows(signatures, k, m),
        are_long_rows(other_signatures, k, m),
        metadata.len() <= u64::MAX,
        other_metadata.len() <= u64::MAX,
        public.a.rows != other_public.a.rows || metadata != other_metadata || signatures
            != other_signatures,
    ensures
        exists|x: Seq<u8>, y: Seq<u8>| #[trigger]
            hashed_apart(x, y, a.commitment, b.commitment),
{
    let x = authenticator::commitment_payload(public.a.rows, metadata, signatures);
    let y = authenticator::commitment_payload(
        other_public.a.rows,
        other_metadata,
        other_signatures,
    );
    if x == y {
        lemma_payload_apart(
            n,
            m,
            k,
            public.a.rows,
            metadata,
            signatures,
            other_public.a.rows,
            other_metadata,
            other_signatures,
        );
    }
    assert(hashed_apart(x, y, a.commitment, b.commitment));
}

/// What is hashed for a target binds the metadata, the place of the piece and the
/// counter: it differs where any of these does.
pub proof fn lemma_target_payload_apart(
    metadata: Seq<u8>,
    index: nat,
    counter: u64,
    other: Seq<u8>,
    other_index: nat,
    other_counter: u64,
)
    requires
        index <= u64::MAX,
        other_index <= u64::MAX,
        authenticator::target_payload(metadata, index, counter) == authenticator::target_payload(
            other,
            other_index,
            other_counter,
        ),
    ensures
        metadata == other,
        index == other_index,
        counter == other_counter,
{
    let (s, t) = (
        authenticator::target_payload(metadata, index, counter),
        authenticator::target_payload(other, other_index, other_counter),
    );
    let h = "lhs-v1.target".spec_bytes().len() as int;
    lemma_powers();
    lemma_le_len(index, 8);
    lemma_le_len(other_index, 8);
    lemma_le_len(counter as nat, 8);
    lemma_le_len(other_counter as nat, 8);
    assert(s.subrange(h, h + 8) =~= bytes::le_bytes(index, 8));
    assert(t.subrange(h, h + 8) =~= bytes::le_bytes(other_index, 8));
    lemma_le_apart(index, other_index, 8);
    assert(s.subrange(h + 8, h + 16) =~= bytes::le_bytes(counter as nat, 8));
    assert(t.subrange(h + 8, h + 16) =~= bytes::le_bytes(other_counter as nat, 8));
    lemma_le_apart(counter as nat, other_counter as nat, 8);
    assert(s.skip(h + 16) =~= metadata);
    assert(t.skip(h + 16) =~= other);
}

} // verus!
