//! The fixed-width unsigned integer: exactly 256 base-256 digits, least
//! significant first, covering `[0, 256^256 - 1]`. Arithmetic carries and
//! borrows digit by digit; decimal rendering and parsing go through the
//! decimal-string layer.

use vstd::prelude::*;
use crate::digits::base_val;
use crate::digits::digits_below;
use crate::digits::pow_nat;
use crate::decimal::dec_valid;
use crate::decimal::dec_value;
use crate::decimal::dec_canonical;

verus! {

/// How an operation on the fixed-width integer can fail.
#[derive(Clone, Copy, Debug, PartialEq, Eq, Structural)]
pub enum LargeNumberError {
    /// The decimal text is empty, holds a non-digit character, or denotes
    /// a value of 256 or more base-256 digits.
    InvalidInput,
    /// The sum needs a 257th base-256 digit.
    Overflow,
    /// The subtrahend exceeds the minuend.
    Underflow,
}

/// An unsigned integer of exactly 256 base-256 digits.
#[derive(Clone, Copy, Debug)]
pub struct LargeNumber {
    bytes: [u8; 256],
}

impl View for LargeNumber {
    type V = Seq<u8>;

    closed spec fn view(&self) -> Seq<u8> {
        self.bytes@
    }
}

impl LargeNumber {
    /// The natural number this fixed-width integer denotes.
    pub open spec fn value(&self) -> nat {
        base_val(256, self@)
    }

    /// One more than the largest representable value.
    pub open spec fn limit() -> nat {
        pow_nat(256, 256)
    }

    /// The zero value: all 256 digits zero.
    pub fn new() -> (r: Self)
        ensures
            r@.len() == 256,
            forall|i: int| 0 <= i < 256 ==> r@[i] == 0,
            r.value() == 0,
    {
        let r = LargeNumber { bytes: [0; 256] };
        proof {
            crate::digits::lemma_base_val_all_zero(256, r@);
        }
        r
    }

    /// The base-256 digit at position `i` (position 0 least significant).
    pub fn get_digit(&self, i: usize) -> (d: u8)
        requires
            i < 256,
        ensures
            d == self@[i as int],
    {
        self.bytes[i]
    }

    /// Replaces the base-256 digit at position `i`.
    pub fn set_digit(&mut self, i: usize, d: u8)
        requires
            i < 256,
        ensures
            final(self)@ == old(self)@.update(i as int, d),
    {
        self.bytes[i] = d;
    }

    /// The value of a native 128-bit integer: its 16 base-256 digits fill
    /// the low positions and the rest stay zero.
    pub fn from_native128(n: u128) -> (r: Self)
        ensures
            r.value() == n as nat,
            forall|i: int| 16 <= i < 256 ==> r@[i] == 0,
    {
        let mut r = Self::new();
        let mut m = n;
        let mut i: usize = 0;
        proof {
            assert(r@.take(0) =~= Seq::<u8>::empty());
            assert(pow_nat(256, 0) == 1);
            assert(1 * (n as nat) == n as nat);
        }
        while i < 16
            invariant
                i <= 16,
                r@.len() == 256,
                forall|j: int| i <= j < 256 ==> r@[j] == 0,
                n as nat == base_val(256, r@.take(i as int))
                    + pow_nat(256, i as nat) * m as nat,
            decreases 16 - i,
        {
            let d = (m % 256) as u8;
            let ghost prev = r@;
            let ghost m0 = m as nat;
            r.bytes[i] = d;
            m = m / 256;
            proof {
                assert(r@.take(i + 1) =~= prev.take(i as int).push(d));
                assert(r@.take(i as int) =~= prev.take(i as int));
                crate::digits::lemma_base_val_snoc(256, prev.take(i as int), d);
                let p = pow_nat(256, i as nat);
                assert(pow_nat(256, (i + 1) as nat) == 256 * p);
                assert(p * m0 == (m0 % 256) * p + (256 * p) * (m0 / 256)) by (nonlinear_arith)
                    requires m0 == 256 * (m0 / 256) + m0 % 256;
            }
            i += 1;
        }
        proof {
            let p = pow_nat(256, 16);
            crate::digits::lemma_pow256_16();
            assert(m as nat == 0) by (nonlinear_arith)
                requires
                    p * (m as nat) <= (n as nat),
                    (n as nat) < p,
                    p >= 1;
            assert(p * 0 == 0);
            crate::digits::lemma_base_val_split(256, r@, 16);
            crate::digits::lemma_base_val_all_zero(256, r@.skip(16));
            assert(pow_nat(256, 16) * base_val(256, r@.skip(16)) == 0);
        }
        r
    }

    /// Digit-wise addition with carry. `Ok` exactly when the true sum
    /// still fits in 256 base-256 digits; otherwise the overflow fault.
    pub fn checked_add(&self, other: &Self) -> (r: Result<Self, LargeNumberError>)
        ensures
            r is Ok <==> self.value() + other.value() < Self::limit(),
            r matches Ok(v) ==> v.value() == self.value() + other.value(),
            r matches Err(e) ==> e == LargeNumberError::Overflow,
    {
        let mut out = Self::new();
        let mut carry: u16 = 0;
        let mut i: usize = 0;
        proof {
            assert(out@.take(0) =~= Seq::<u8>::empty());
            assert(self@.take(0) =~= Seq::<u8>::empty());
            assert(other@.take(0) =~= Seq::<u8>::empty());
        }
        while i < 256
            invariant
                i <= 256,
                carry <= 1,
                out@.len() == 256,
                base_val(256, out@.take(i as int)) + (carry as nat) * pow_nat(256, i as nat)
                    == base_val(256, self@.take(i as int))
                        + base_val(256, other@.take(i as int)),
            decreases 256 - i,
        {
            let sum: u16 = self.bytes[i] as u16 + other.bytes[i] as u16 + carry;
            let ghost prev = out@;
            let ghost c0 = carry as nat;
            out.bytes[i] = (sum % 256) as u8;
            carry = sum / 256;
            proof {
                assert(out@.take(i + 1) =~= prev.take(i as int).push((sum % 256) as u8));
                assert(out@.take(i as int) =~= prev.take(i as int));
                assert(self@.take(i + 1) =~= self@.take(i as int).push(self@[i as int]));
                assert(other@.take(i + 1) =~= other@.take(i as int).push(other@[i as int]));
                crate::digits::lemma_base_val_snoc(256, prev.take(i as int), (sum % 256) as u8);
                crate::digits::lemma_base_val_snoc(256, self@.take(i as int), self@[i as int]);
                crate::digits::lemma_base_val_snoc(256, other@.take(i as int), other@[i as int]);
                let p = pow_nat(256, i as nat);
                assert(pow_nat(256, (i + 1) as nat) == 256 * p);
                assert((sum % 256) as nat * p + (sum / 256) as nat * (256 * p)
                    == (self@[i as int] + other@[i as int]) as nat * p + c0 * p)
                    by (nonlinear_arith)
                    requires sum == self@[i as int] + other@[i as int] + c0;
                assert((self@[i as int] + other@[i as int]) as nat * p
                    == self@[i as int] as nat * p + other@[i as int] as nat * p)
                    by (nonlinear_arith);
            }
            i += 1;
        }
        proof {
            assert(out@.take(256) =~= out@);
            assert(self@.take(256) =~= self@);
            assert(other@.take(256) =~= other@);
            assert(digits_below(256, out@));
            crate::digits::lemma_base_val_bound(256, out@);
        }
        if carry > 0 {
            Err(LargeNumberError::Overflow)
        } else {
            proof {
                assert(0 * pow_nat(256, 256) == 0);
            }
            Ok(out)
        }
    }

    /// Addition, for sums known to stay in range; overflowing inputs are
    /// ruled out up front. Use `checked_add` when the range of the sum is
    /// not known.
    pub fn add(&self, other: &Self) -> (r: Self)
        requires
            self.value() + other.value() < Self::limit(),
        ensures
            r.value() == self.value() + other.value(),
    {
        match self.checked_add(other) {
            Ok(v) => v,
            Err(_) => vstd::pervasive::unreached(),
        }
    }

    /// Digit-wise subtraction with borrow. `Ok` exactly when the minuend
    /// is at least the subtrahend; otherwise the underflow fault.
    pub fn checked_sub(&self, other: &Self) -> (r: Result<Self, LargeNumberError>)
        ensures
            r is Ok <==> self.value() >= other.value(),
            r matches Ok(v) ==> v.value() == self.value() - other.value(),
            r matches Err(e) ==> e == LargeNumberError::Underflow,
    {
        let mut out = Self::new();
        let mut borrow: u8 = 0;
        let mut i: usize = 0;
        proof {
            assert(out@.take(0) =~= Seq::<u8>::empty());
            assert(self@.take(0) =~= Seq::<u8>::empty());
            assert(other@.take(0) =~= Seq::<u8>::empty());
        }
        while i < 256
            invariant
                i <= 256,
                borrow <= 1,
                out@.len() == 256,
                base_val(256, out@.take(i as int)) as int
                    == base_val(256, self@.take(i as int)) as int
                        - base_val(256, other@.take(i as int)) as int
                        + (borrow as int) * (pow_nat(256, i as nat) as int),
            decreases 256 - i,
        {
            let diff: i16 = self.bytes[i] as i16 - other.bytes[i] as i16 - borrow as i16;
            let ghost prev = out@;
            let ghost b0 = borrow as int;
            let d: u8;
            if diff < 0 {
                d = (diff + 256) as u8;
                borrow = 1;
            } else {
                d = diff as u8;
                borrow = 0;
            }
            out.bytes[i] = d;
            proof {
                assert(out@.take(i + 1) =~= prev.take(i as int).push(d));
                assert(out@.take(i as int) =~= prev.take(i as int));
                assert(self@.take(i + 1) =~= self@.take(i as int).push(self@[i as int]));
                assert(other@.take(i + 1) =~= other@.take(i as int).push(other@[i as int]));
                crate::digits::lemma_base_val_snoc(256, prev.take(i as int), d);
                crate::digits::lemma_base_val_snoc(256, self@.take(i as int), self@[i as int]);
                crate::digits::lemma_base_val_snoc(256, other@.take(i as int), other@[i as int]);
                let p = pow_nat(256, i as nat) as int;
                assert(pow_nat(256, (i + 1) as nat) == 256 * pow_nat(256, i as nat));
                assert(d as int == self@[i as int] - other@[i as int] - b0
                    + (borrow as int) * 256);
                assert((d as int) * p == (self@[i as int] - other@[i as int] - b0) * p
                    + (borrow as int) * (256 * p)) by (nonlinear_arith)
                    requires d as int == self@[i as int] - other@[i as int] - b0
                        + (borrow as int) * 256;
                assert((self@[i as int] - other@[i as int] - b0) * p
                    == (self@[i as int] as int) * p - (other@[i as int] as int) * p - b0 * p)
                    by (nonlinear_arith);
            }
            i += 1;
        }
        proof {
            assert(out@.take(256) =~= out@);
            assert(self@.take(256) =~= self@);
            assert(other@.take(256) =~= other@);
            assert(digits_below(256, out@));
            crate::digits::lemma_base_val_bound(256, out@);
            assert(digits_below(256, self@));
            crate::digits::lemma_base_val_bound(256, self@);
        }
        if borrow > 0 {
            Err(LargeNumberError::Underflow)
        } else {
            proof {
                assert(0 * (pow_nat(256, 256) as int) == 0);
            }
            Ok(out)
        }
    }

    /// Subtraction, for differences known not to go below zero;
    /// underflowing inputs are ruled out up front. Use `checked_sub` when
    /// the order of the operands is not known.
    pub fn sub(&self, other: &Self) -> (r: Self)
        requires
            self.value() >= other.value(),
        ensures
            r.value() == self.value() - other.value(),
    {
        match self.checked_sub(other) {
            Ok(v) => v,
            Err(_) => vstd::pervasive::unreached(),
        }
    }

    /// The canonical decimal spelling of this value: Horner evaluation
    /// from the highest non-zero digit down, multiplying the accumulator
    /// text by 256 and adding each digit, all in decimal-string arithmetic.
    pub fn to_decimal_text(&self) -> (r: String)
        ensures
            dec_valid(r@),
            dec_canonical(r@),
            dec_value(r@) == self.value(),
    {
        let mut top: usize = 255;
        while top > 0 && self.bytes[top] == 0
            invariant
                top <= 255,
                forall|j: int| top < j < 256 ==> self@[j] == 0,
            decreases top,
        {
            top -= 1;
        }
        if self.bytes[top] == 0 {
            proof {
                crate::digits::lemma_base_val_all_zero(256, self@);
            }
            let zero_text = crate::decimal::byte_decimal(0);
            return zero_text;
        }
        let mut acc = crate::decimal::byte_decimal(self.bytes[top]);
        proof {
            crate::digits::lemma_base_val_skip_succ(256, self@, top as int);
            crate::digits::lemma_base_val_all_zero(256, self@.skip(top + 1));
            assert(256 * base_val(256, self@.skip(top + 1)) == 0);
        }
        let mut j = top;
        while j > 0
            invariant
                j <= top < 256,
                dec_valid(acc@),
                dec_canonical(acc@),
                dec_value(acc@) == base_val(256, self@.skip(j as int)),
                dec_value(acc@) > 0,
            decreases j,
        {
            j -= 1;
            let scaled = crate::decimal::multiply_256_to_string_num(acc);
            acc = crate::decimal::add_string_num_to_string_num(
                scaled,
                crate::decimal::byte_decimal(self.bytes[j]),
            );
            proof {
                crate::digits::lemma_base_val_skip_succ(256, self@, j as int);
            }
        }
        proof {
            assert(self@.skip(0) =~= self@);
        }
        acc
    }

    /// The value a decimal text denotes, found by repeated division of the
    /// text by 256, each remainder filling the next base-256 digit. `Ok`
    /// exactly when the text is non-empty, all decimal digits, and denotes
    /// a value below `256^256`; anything else is rejected as invalid
    /// input.
    pub fn from_decimal_text(s: &str) -> (r: Result<Self, LargeNumberError>)
        ensures
            r is Ok <==> s@.len() > 0 && dec_valid(s@) && dec_value(s@) < Self::limit(),
            r matches Ok(v) ==> v.value() == dec_value(s@),
            r matches Err(e) ==> e == LargeNumberError::InvalidInput,
    {
        let n = s.unicode_len();
        if n == 0 {
            return Err(LargeNumberError::InvalidInput);
        }
        let mut i: usize = 0;
        while i < n
            invariant
                n == s@.len(),
                i <= n,
                forall|j: int| 0 <= j < i ==> crate::decimal::is_dec_digit(#[trigger] s@[j]),
            decreases n - i,
        {
            let c = s.get_char(i);
            let u = c as u32;
            if u < 48 || u > 57 {
                return Err(LargeNumberError::InvalidInput);
            }
            i += 1;
        }
        let mut cur = crate::decimal::parse_digits(s);
        proof {
            crate::decimal::lemma_dec_valid_digits_below(s@);
            assert(pow_nat(256, 0) == 1);
        }
        let mut out = Self::new();
        let mut k: usize = 0;
        let mut cur_zero = crate::decimal::digits_all_zero(&cur);
        proof {
            assert(out@.take(0) =~= Seq::<u8>::empty());
            assert(1 * base_val(10, cur@) == base_val(10, cur@));
        }
        while k < 256 && !cur_zero
            invariant
                k <= 256,
                out@.len() == 256,
                digits_below(10, cur@),
                cur_zero == (base_val(10, cur@) == 0),
                forall|j: int| k <= j < 256 ==> out@[j] == 0,
                dec_value(s@) == base_val(256, out@.take(k as int))
                    + pow_nat(256, k as nat) * base_val(10, cur@),
            decreases 256 - k,
        {
            let (q, rem) = crate::decimal::digits_div256(&cur);
            let ghost prev = out@;
            let ghost qv = base_val(10, q@);
            out.bytes[k] = rem;
            proof {
                assert(out@.take(k + 1) =~= prev.take(k as int).push(rem));
                assert(out@.take(k as int) =~= prev.take(k as int));
                crate::digits::lemma_base_val_snoc(256, prev.take(k as int), rem);
                let p = pow_nat(256, k as nat);
                assert(pow_nat(256, (k + 1) as nat) == 256 * p);
                assert(p * (256 * qv + rem as nat) == (rem as nat) * p + (256 * p) * qv)
                    by (nonlinear_arith);
            }
            cur = q;
            k += 1;
            cur_zero = crate::decimal::digits_all_zero(&cur);
        }
        if !cur_zero {
            proof {
                let p = pow_nat(256, 256);
                crate::digits::lemma_pow_nat_pos(256, 256);
                assert(p * base_val(10, cur@) >= p) by (nonlinear_arith)
                    requires base_val(10, cur@) >= 1, p >= 0;
            }
            return Err(LargeNumberError::InvalidInput);
        }
        proof {
            let p = pow_nat(256, k as nat);
            assert(p * base_val(10, cur@) == 0);
            crate::digits::lemma_base_val_split(256, out@, k as int);
            crate::digits::lemma_base_val_all_zero(256, out@.skip(k as int));
            assert(pow_nat(256, k as nat) * base_val(256, out@.skip(k as int)) == 0);
            assert(digits_below(256, out@));
            crate::digits::lemma_base_val_bound(256, out@);
        }
        Ok(out)
    }

    /// Numeric order, decided from the most significant digit down.
    pub fn less_than(&self, other: &Self) -> (r: bool)
        ensures
            r == (self.value() < other.value()),
    {
        let mut i: usize = 256;
        while i > 0
            invariant
                i <= 256,
                forall|j: int| i <= j < 256 ==> self@[j] == other@[j],
            decreases i,
        {
            i -= 1;
            if self.bytes[i] < other.bytes[i] {
                proof {
                    assert(digits_below(256, self@));
                    crate::digits::lemma_lex_lt(256, self@, other@, i as int);
                }
                return true;
            }
            if self.bytes[i] > other.bytes[i] {
                proof {
                    assert(digits_below(256, other@));
                    crate::digits::lemma_lex_lt(256, other@, self@, i as int);
                }
                return false;
            }
        }
        proof {
            assert(self@ =~= other@);
        }
        false
    }
}

/// The representation is faithful: two fixed-width integers denoting the
/// same number hold the same 256 digits. This is what makes
/// `from_decimal_text(to_decimal_text(v))` digit-wise equal to `v`: both
/// sides denote `v.value()`.
pub proof fn lemma_value_determines_digits(a: LargeNumber, b: LargeNumber)
    requires
        a.value() == b.value(),
    ensures
        a@ == b@,
{
    assert(digits_below(256, a@));
    assert(digits_below(256, b@));
    crate::digits::lemma_base_val_inj(256, a@, b@);
}

/// Parsing and rendering round-trip on text: a canonical decimal string
/// `s` in range, a value `v` that parses from it (`v.value() ==
/// dec_value(s)`), and a rendering `t` of that value (`dec_value(t) ==
/// v.value()`, canonical) give back `t == s`.
pub proof fn lemma_decimal_round_trip(s: Seq<char>, v: LargeNumber, t: Seq<char>)
    requires
        dec_valid(s),
        dec_canonical(s),
        v.value() == dec_value(s),
        dec_valid(t),
        dec_canonical(t),
        dec_value(t) == v.value(),
    ensures
        t == s,
{
    crate::decimal::lemma_dec_canonical_unique(s, t);
}

/// Adding zero changes nothing: a sum of `v` and a zero value has the
/// digits of `v` itself.
pub proof fn lemma_add_zero_identity(v: LargeNumber, z: LargeNumber, r: LargeNumber)
    requires
        z.value() == 0,
        r.value() == v.value() + z.value(),
    ensures
        r@ == v@,
{
    lemma_value_determines_digits(r, v);
}

/// Addition is commutative: the sums taken in either order hold the same
/// digits.
pub proof fn lemma_add_commutes(
    a: LargeNumber,
    b: LargeNumber,
    r1: LargeNumber,
    r2: LargeNumber,
)
    requires
        r1.value() == a.value() + b.value(),
        r2.value() == b.value() + a.value(),
    ensures
        r1@ == r2@,
{
    lemma_value_determines_digits(r1, r2);
}

/// Subtraction undoes addition: when the sum of `a` and `b` fits, taking
/// `b` away from it gives back the digits of `a`.
pub proof fn lemma_add_then_subtract(
    a: LargeNumber,
    b: LargeNumber,
    s: LargeNumber,
    d: LargeNumber,
)
    requires
        s.value() == a.value() + b.value(),
        d.value() == s.value() - b.value(),
    ensures
        d@ == a@,
{
    lemma_value_determines_digits(d, a);
}

impl PartialEq for LargeNumber {
    /// Digit-wise equality, which coincides with numeric equality.
    fn eq(&self, other: &Self) -> (r: bool) {
        let mut i: usize = 0;
        while i < 256
            invariant
                i <= 256,
                forall|j: int| 0 <= j < i ==> self@[j] == other@[j],
            decreases 256 - i,
        {
            if self.bytes[i] != other.bytes[i] {
                return false;
            }
            i += 1;
        }
        proof {
            assert(self@ =~= other@);
        }
        true
    }
}

impl vstd::std_specs::cmp::PartialEqSpecImpl for LargeNumber {
    open spec fn obeys_eq_spec() -> bool {
        true
    }

    open spec fn eq_spec(&self, other: &Self) -> bool {
        self@ == other@
    }
}

} // verus!
