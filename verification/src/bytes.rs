//! Little-endian byte encodings of integers.
use vstd::prelude::*;

verus! {

/// The `n` lowest base-256 digits of `x`, the least significant first.
pub open spec fn le_bytes(x: nat, n: nat) -> Seq<u8>
    decreases n,
{
    if n == 0 {
        Seq::empty()
    } else {
        seq![(x % 256) as u8] + le_bytes(x / 256, (n - 1) as nat)
    }
}

/// The number with the given base-256 digits, the least significant first.
pub open spec fn le_value(bytes: Seq<u8>) -> nat
    decreases bytes.len(),
{
    if bytes.len() == 0 {
        0
    } else {
        bytes[0] as nat + 256 * le_value(bytes.skip(1))
    }
}

/// Reading back the bytes of a number that fits in them gives the number.
pub proof fn lemma_le_roundtrip(x: nat, n: nat)
    requires
        x < vstd::arithmetic::power::pow(256, n),
    ensures
        le_bytes(x, n).len() == n,
        le_value(le_bytes(x, n)) == x,
    decreases n,
{
    reveal(vstd::arithmetic::power::pow);
    if n > 0 {
        let m = (n - 1) as nat;
        assert(vstd::arithmetic::power::pow(256, n) == 256 * vstd::arithmetic::power::pow(256, m));
        lemma_le_roundtrip(x / 256, m);
        assert(le_bytes(x, n).skip(1) =~= le_bytes(x / 256, m));
    }
}

/// Appends the eight little-endian bytes of `x` to `out`.
pub fn push_le_u64(out: &mut Vec<u8>, x: u64)
    ensures
        final(out)@ == old(out)@ + le_bytes(x as nat, 8),
{
    push_digits(out, x, 8);
}

/// Appends the four little-endian bytes of `x` to `out`.
pub fn push_le_u32(out: &mut Vec<u8>, x: u32)
    ensures
        final(out)@ == old(out)@ + le_bytes(x as nat, 4),
{
    push_digits(out, x as u64, 4);
}

/// The residue of `x` modulo `2^64`: its two's complement bits.
pub open spec fn twos_complement(x: int) -> nat {
    (if x < 0 {
        x + 0x1_0000_0000_0000_0000
    } else {
        x
    }) as nat
}

/// Appends the eight little-endian bytes of the two's complement of `x` to `out`.
pub fn push_le_i64(out: &mut Vec<u8>, x: i64)
    ensures
        final(out)@ == old(out)@ + le_bytes(twos_complement(x as int), 8),
{
    let bits: u64 = if x < 0 {
        (x as i128 + 0x1_0000_0000_0000_0000) as u64
    } else {
        x as u64
    };
    push_digits(out, bits, 8);
}

/// Appends the `n` lowest base-256 digits of `x` to `out`.
fn push_digits(out: &mut Vec<u8>, x: u64, n: usize)
    ensures
        final(out)@ == old(out)@ + le_bytes(x as nat, n as nat),
{
    let ghost before = out@;
    let mut rest: u64 = x;
    let mut left: usize = n;
    assert(before + le_bytes(x as nat, n as nat) =~= out@ + le_bytes(rest as nat, left as nat));
    while left > 0
        invariant
            out@ + le_bytes(rest as nat, left as nat) == before + le_bytes(x as nat, n as nat),
        decreases left,
    {
        let ghost tail = le_bytes((rest / 256) as nat, (left - 1) as nat);
        assert((out@ + seq![(rest % 256) as u8]) + tail =~= out@ + (seq![(rest % 256) as u8]
            + tail));
        out.push((rest % 256) as u8);
        rest = rest / 256;
        left -= 1;
    }
    assert(out@ + le_bytes(rest as nat, 0) =~= out@);
}

/// Reads four little-endian bytes from `at`.
pub fn read_le_u32(bytes: &[u8], at: usize) -> (x: u32)
    requires
        at + 4 <= bytes@.len(),
    ensures
        x as nat == le_value(bytes@.subrange(at as int, at + 4)),
{
    proof {
        let s = bytes@.subrange(at as int, at + 4);
        reveal_with_fuel(le_value, 5);
        assert(s.skip(1).skip(1) =~= s.skip(2));
        assert(s.skip(1).skip(1).skip(1) =~= s.skip(3));
        assert(s.skip(1).skip(1).skip(1).skip(1) =~= s.skip(4));
    }
    bytes[at] as u32 + 0x100 * (bytes[at + 1] as u32) + 0x1_0000 * (bytes[at + 2] as u32)
        + 0x100_0000 * (bytes[at + 3] as u32)
}

/// Reads eight little-endian bytes from `at`.
pub fn read_le_u64(bytes: &[u8], at: usize) -> (x: u64)
    requires
        at + 8 <= bytes@.len(),
    ensures
        x as nat == le_value(bytes@.subrange(at as int, at + 8)),
{
    assert(at + 8 <= bytes.len());
    let low: u32 = read_le_u32(bytes, at);
    let high: u32 = read_le_u32(bytes, at + 4);
    proof {
        let s = bytes@.subrange(at as int, at + 8);
        let (a, b) = (
            bytes@.subrange(at as int, at + 4),
            bytes@.subrange(at + 4, at + 8),
        );
        reveal_with_fuel(le_value, 5);
        assert(s.skip(1).skip(1).skip(1).skip(1) =~= b);
        assert(a.skip(1).skip(1).skip(1).skip(1) =~= Seq::empty());
    }
    low as u64 + 0x1_0000_0000 * (high as u64)
}

} // verus!
