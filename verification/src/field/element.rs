//! The Galois field element GF(2^8).
//!
//! [`Gf256`] is a newtype over `u8` representing an element of GF(2^8) with
//! irreducible polynomial x^8 + x^4 + x^3 + x + 1.
//!
//! Addition and subtraction are both XOR (characteristic 2).  Multiplication
//! uses log/exp table lookup.  Division is provided via
//! [`Gf256::checked_div`] since division by zero cannot be expressed through
//! `core::ops::Div`.
use super::math;
use super::tables::{self, EXP_TABLE, LOG_TABLE};
use crate::error::Error;
use crate::text;
use core::fmt::{Debug, Formatter};
use core::ops::{Add, Mul, Neg, Sub};
use vstd::prelude::*;
use vstd::std_specs::ops::{AddSpecImpl, MulSpecImpl, NegSpecImpl, SubSpecImpl};
use vstd::string::*;

verus! {

/// An element of the Galois field GF(2^8).  Its view is its byte.
#[derive(Clone, Copy, PartialEq, Eq, Hash, Structural)]
#[must_use]
pub struct Gf256(pub(crate) u8);

impl View for Gf256 {
    type V = u8;

    open(crate) spec fn view(&self) -> u8 {
        self.0
    }
}

impl Gf256 {
    /// Create a field element from a raw byte.
    pub fn new(val: u8) -> (r: Self)
        ensures
            r@ == val,
    {
        Self(val)
    }

    /// The additive identity (zero).
    pub fn zero() -> (r: Self)
        ensures
            r@ == 0,
    {
        Self(0)
    }

    /// The multiplicative identity (one).
    pub fn one() -> (r: Self)
        ensures
            r@ == 1,
    {
        Self(1)
    }

    /// The raw byte value of this element.
    #[must_use]
    pub fn value(self) -> (r: u8)
        ensures
            r == self@,
    {
        self.0
    }

    /// Whether this element is the additive identity.
    #[must_use]
    pub fn is_zero(self) -> (r: bool)
        ensures
            r == (self@ == 0),
    {
        self.0 == 0
    }

    /// Multiplicative inverse: the element whose product with `self` is one, or
    /// [`Error::DivisionByZero`] on zero, which has none.
    pub fn inv(self) -> (r: Result<Self, Error>)
        ensures
            self@ == 0 ==> r == Err::<Self, Error>(Error::DivisionByZero),
            self@ != 0 ==> (r matches Ok(inverse) && math::gf_mul(self@, inverse@) == 1
                && inverse@ == math::gf_inv(self@)),
    {
        if self.is_zero() {
            Err(Error::DivisionByZero)
        } else {
            let log_a: usize = LOG_TABLE[self.0 as usize] as usize;
            proof {
                tables::lemma_log_table(self.0);
                tables::lemma_exp_table((255 - log_a) as nat);
                tables::lemma_powers_multiply(log_a as nat, (255 - log_a) as nat);
                tables::lemma_power_cycle();
                math::lemma_inverse_unique(self.0, EXP_TABLE[255 - log_a]);
            }
            Ok(Self(EXP_TABLE[255 - log_a]))
        }
    }

    /// Checked division in GF(2^8): the element whose product with `rhs` is
    /// `self`, or [`Error::DivisionByZero`] when dividing by zero.
    pub fn checked_div(self, rhs: Self) -> (r: Result<Self, Error>)
        ensures
            rhs@ == 0 ==> r == Err::<Self, Error>(Error::DivisionByZero),
            rhs@ != 0 ==> (r matches Ok(quotient) && math::gf_mul(quotient@, rhs@) == self@
                && quotient@ == math::gf_mul(self@, math::gf_inv(rhs@))),
    {
        match rhs.inv() {
            Ok(rhs_inv) => {
                proof {
                    math::lemma_mul_associates(self@, rhs_inv@, rhs@);
                    math::lemma_mul_commutes(rhs@, rhs_inv@);
                    math::lemma_mul_units(self@);
                }
                Ok(self * rhs_inv)
            },
            Err(e) => Err(e),
        }
    }

    /// The element in hexadecimal: `0x` and two upper-case digits.
    pub open spec fn hex(self) -> Seq<char> {
        "0x"@ + text::digit(self@ as int / 16) + text::digit(self@ as int % 16)
    }

    /// The element in hexadecimal: `0x` and two upper-case digits.
    pub fn to_hex(self) -> (s: String)
        ensures
            s@ == self.hex(),
    {
        String::from_str("0x").concat(text::digit_str(self.0 / 16)).concat(
            text::digit_str(self.0 % 16),
        )
    }
}

/// The rendering is `0x` with a digit for each half of the byte behind it, so that
/// it tells the elements apart.
pub proof fn lemma_hex_apart(a: Gf256, b: Gf256)
    ensures
        a.hex().len() == 4,
        a.hex().take(2) == "0x"@,
        a.hex().subrange(2, 3) == text::digit(a@ as int / 16),
        a.hex().subrange(3, 4) == text::digit(a@ as int % 16),
        a.hex() == b.hex() ==> a@ == b@,
{
    reveal_strlit("0x");
    let (s, t) = (a.hex(), b.hex());
    let (x, y) = (a@ as int, b@ as int);
    text::lemma_digit(x / 16);
    text::lemma_digit(x % 16);
    text::lemma_digit(y / 16);
    text::lemma_digit(y % 16);
    assert(s.take(2) =~= "0x"@);
    assert(s.subrange(2, 3) =~= text::digit(x / 16));
    assert(s.subrange(3, 4) =~= text::digit(x % 16));
    assert(t.subrange(2, 3) =~= text::digit(y / 16));
    assert(t.subrange(3, 4) =~= text::digit(y % 16));
    if s == t {
        assert(text::digit(x / 16)[0] == text::digit(y / 16)[0]);
        assert(text::digit(x % 16)[0] == text::digit(y % 16)[0]);
    }
}

impl Debug for Gf256 {
    /// Writes the element in hexadecimal behind the name of its type.
    fn fmt(&self, f: &mut Formatter<'_>) -> (r: Result<(), core::fmt::Error>)
        ensures
            exists|g: &mut Formatter<'_>, data: &str|
                *g == *old(f) && *final(g) == *final(f) && data@ == "Gf256("@ + self.hex() + ")"@
                    && #[trigger] call_ensures(Formatter::write_str, (g, data), r),
    {
        let rendered = String::from_str("Gf256(").concat(self.to_hex().as_str()).concat(")");
        text::write(f, rendered.as_str())
    }
}

impl Add for Gf256 {
    type Output = Self;

    fn add(self, rhs: Self) -> (r: Self)
        ensures
            r@ == self@ ^ rhs@,
    {
        Self(self.0 ^ rhs.0)
    }
}

impl AddSpecImpl for Gf256 {
    open spec fn obeys_add_spec() -> bool {
        true
    }

    open spec fn add_req(self, rhs: Self) -> bool {
        true
    }

    open(crate) spec fn add_spec(self, rhs: Self) -> Self {
        Gf256(self@ ^ rhs@)
    }
}

impl Sub for Gf256 {
    type Output = Self;

    /// Subtraction in GF(2^8) is identical to addition (characteristic 2).
    fn sub(self, rhs: Self) -> (r: Self)
        ensures
            r@ == self@ ^ rhs@,
    {
        Self(self.0 ^ rhs.0)
    }
}

impl SubSpecImpl for Gf256 {
    open spec fn obeys_sub_spec() -> bool {
        true
    }

    open spec fn sub_req(self, rhs: Self) -> bool {
        true
    }

    open(crate) spec fn sub_spec(self, rhs: Self) -> Self {
        Gf256(self@ ^ rhs@)
    }
}

impl Mul for Gf256 {
    type Output = Self;

    fn mul(self, rhs: Self) -> (r: Self)
        ensures
            r@ == math::gf_mul(self@, rhs@),
    {
        proof {
            math::lemma_mul_units(self.0);
            math::lemma_mul_units(rhs.0);
            math::lemma_mul_commutes(self.0, rhs.0);
        }
        if self.is_zero() || rhs.is_zero() {
            Self::zero()
        } else {
            let log_a: usize = LOG_TABLE[self.0 as usize] as usize;
            let log_b: usize = LOG_TABLE[rhs.0 as usize] as usize;
            proof {
                tables::lemma_log_table(self.0);
                tables::lemma_log_table(rhs.0);
                tables::lemma_exp_table((log_a + log_b) as nat);
                tables::lemma_powers_multiply(log_a as nat, log_b as nat);
            }
            Self(EXP_TABLE[log_a + log_b])
        }
    }
}

impl MulSpecImpl for Gf256 {
    open spec fn obeys_mul_spec() -> bool {
        true
    }

    open spec fn mul_req(self, rhs: Self) -> bool {
        true
    }

    open(crate) spec fn mul_spec(self, rhs: Self) -> Self {
        Gf256(math::gf_mul(self@, rhs@))
    }
}

impl Neg for Gf256 {
    type Output = Self;

    /// Negation in GF(2^8) is identity (characteristic 2: -x = x).
    fn neg(self) -> (r: Self)
        ensures
            r@ == self@,
    {
        self
    }
}

impl NegSpecImpl for Gf256 {
    open spec fn obeys_neg_spec() -> bool {
        true
    }

    open spec fn neg_req(self) -> bool {
        true
    }

    open(crate) spec fn neg_spec(self) -> Self {
        self
    }
}

/// The bytes of a sequence of field elements.
pub open spec fn bytes_of(elements: Seq<Gf256>) -> Seq<u8> {
    Seq::new(elements.len(), |i: int| elements[i]@)
}

} // verus!
