//! Decimal digit strings: the textual base-10 form used to render and
//! parse the fixed-width integer. A string is modelled by the little-endian
//! sequence of its digit values, and its meaning is `base_val` in base 10.

use vstd::prelude::*;
use crate::digits::base_val;
use crate::digits::digits_below;
use crate::digits::no_high_zero;
use crate::digits::pow_nat;

verus! {

/// `c` is an ASCII decimal digit.
pub open spec fn is_dec_digit(c: char) -> bool {
    '0' as u32 <= c as u32 && c as u32 <= '9' as u32
}

/// The numeric value of a decimal digit character.
pub open spec fn char_val(c: char) -> nat {
    (c as u32 - '0' as u32) as nat
}

/// The decimal digit character with value `d`.
pub open spec fn digit_char(d: nat) -> char {
    if d == 0 { '0' }
    else if d == 1 { '1' }
    else if d == 2 { '2' }
    else if d == 3 { '3' }
    else if d == 4 { '4' }
    else if d == 5 { '5' }
    else if d == 6 { '6' }
    else if d == 7 { '7' }
    else if d == 8 { '8' }
    else { '9' }
}

/// Every character of `s` is a decimal digit.
pub open spec fn dec_valid(s: Seq<char>) -> bool {
    forall|i: int| 0 <= i < s.len() ==> is_dec_digit(#[trigger] s[i])
}

/// The digit values of `s`, least significant first (`s` itself is written
/// most significant first).
pub open spec fn digits_of(s: Seq<char>) -> Seq<u8> {
    Seq::new(s.len(), |i: int| char_val(s[s.len() - 1 - i]) as u8)
}

/// The number a decimal digit string denotes.
pub open spec fn dec_value(s: Seq<char>) -> nat {
    base_val(10, digits_of(s))
}

/// `s` is the canonical decimal spelling of its value: non-empty, and with
/// no leading zero except for `"0"` itself.
pub open spec fn dec_canonical(s: Seq<char>) -> bool {
    s.len() > 0 && (s.len() == 1 || s[0] != '0')
}

/// A digit character is recovered from its value.
pub proof fn lemma_digit_char_id(c: char)
    requires
        is_dec_digit(c),
    ensures
        char_val(c) < 10,
        digit_char(char_val(c)) == c,
{
}

/// The value of a digit character, and that only `'0'` has value zero.
pub proof fn lemma_char_val_digit_char(d: nat)
    requires
        d < 10,
    ensures
        char_val(digit_char(d)) == d,
        is_dec_digit(digit_char(d)),
        d > 0 ==> digit_char(d) != '0',
{
}

/// The digit values of a valid string are digits below ten.
pub proof fn lemma_dec_valid_digits_below(s: Seq<char>)
    requires
        dec_valid(s),
    ensures
        digits_below(10, digits_of(s)),
{
    assert forall|i: int| 0 <= i < digits_of(s).len()
        implies (#[trigger] digits_of(s)[i]) < 10 by {
        assert(is_dec_digit(s[s.len() - 1 - i]));
    }
}

/// A valid string is canonical exactly when its digit sequence carries no
/// zero in the most significant place.
pub proof fn lemma_dec_canonical_no_high_zero(s: Seq<char>)
    requires
        dec_valid(s),
    ensures
        dec_canonical(s) <==> no_high_zero(digits_of(s)),
{
    if s.len() > 1 {
        assert(is_dec_digit(s[0]));
        assert(digits_of(s)[s.len() - 1] == char_val(s[0]) as u8);
        lemma_digit_char_id(s[0]);
    }
}

/// A valid string is recovered from its digit values.
pub proof fn lemma_digits_of_inj(s: Seq<char>, t: Seq<char>)
    requires
        dec_valid(s),
        dec_valid(t),
        digits_of(s) == digits_of(t),
    ensures
        s == t,
{
    assert(digits_of(s).len() == s.len());
    assert(digits_of(t).len() == t.len());
    assert(s.len() == t.len());
    assert forall|i: int| 0 <= i < s.len() implies s[i] == t[i] by {
        assert(digits_of(s)[s.len() - 1 - i] == char_val(s[i]) as u8);
        assert(digits_of(t)[t.len() - 1 - i] == char_val(t[i]) as u8);
        lemma_digit_char_id(s[i]);
        lemma_digit_char_id(t[i]);
    }
    assert(s =~= t);
}

/// Canonical decimal spellings are unique: two valid canonical strings
/// with the same value are the same string.
pub proof fn lemma_dec_canonical_unique(s: Seq<char>, t: Seq<char>)
    requires
        dec_valid(s),
        dec_valid(t),
        dec_canonical(s),
        dec_canonical(t),
        dec_value(s) == dec_value(t),
    ensures
        s == t,
{
    lemma_dec_valid_digits_below(s);
    lemma_dec_valid_digits_below(t);
    lemma_dec_canonical_no_high_zero(s);
    lemma_dec_canonical_no_high_zero(t);
    crate::digits::lemma_canonical_unique(10, digits_of(s), digits_of(t));
    lemma_digits_of_inj(s, t);
}

/// The numeric value of one digit character.
fn char_to_digit(c: char) -> (d: u8)
    requires
        is_dec_digit(c),
    ensures
        d as nat == char_val(c),
        d < 10,
{
    (c as u32 - 48) as u8
}

/// The one-character string for a digit value.
fn digit_to_str(d: u8) -> (s: &'static str)
    requires
        d < 10,
    ensures
        s@.len() == 1,
        s@[0] == digit_char(d as nat),
{
    proof {
        reveal_strlit("0");
        reveal_strlit("1");
        reveal_strlit("2");
        reveal_strlit("3");
        reveal_strlit("4");
        reveal_strlit("5");
        reveal_strlit("6");
        reveal_strlit("7");
        reveal_strlit("8");
        reveal_strlit("9");
    }
    if d == 0 { "0" }
    else if d == 1 { "1" }
    else if d == 2 { "2" }
    else if d == 3 { "3" }
    else if d == 4 { "4" }
    else if d == 5 { "5" }
    else if d == 6 { "6" }
    else if d == 7 { "7" }
    else if d == 8 { "8" }
    else { "9" }
}

/// The little-endian digit values of a valid decimal string.
pub(crate) fn parse_digits(s: &str) -> (v: Vec<u8>)
    requires
        dec_valid(s@),
    ensures
        v@ == digits_of(s@),
{
    let n = s.unicode_len();
    let mut v: Vec<u8> = Vec::new();
    let mut i: usize = 0;
    while i < n
        invariant
            dec_valid(s@),
            n == s@.len(),
            i <= n,
            v@.len() == i,
            forall|j: int| 0 <= j < i ==> v@[j] == digits_of(s@)[j],
        decreases n - i,
    {
        let c = s.get_char(n - 1 - i);
        v.push(char_to_digit(c));
        i += 1;
    }
    proof {
        assert(v@ =~= digits_of(s@));
    }
    v
}

/// The decimal string spelling the little-endian digit values `v`, most
/// significant digit first.
fn render_digits(v: &Vec<u8>) -> (s: String)
    requires
        digits_below(10, v@),
    ensures
        s@.len() == v@.len(),
        dec_valid(s@),
        digits_of(s@) == v@,
        dec_value(s@) == base_val(10, v@),
        no_high_zero(v@) ==> dec_canonical(s@),
{
    let n = v.len();
    let mut s = String::new();
    let mut i: usize = 0;
    while i < n
        invariant
            digits_below(10, v@),
            n == v@.len(),
            i <= n,
            s@.len() == i,
            forall|j: int| 0 <= j < i ==> s@[j] == digit_char(v@[n - 1 - j] as nat),
        decreases n - i,
    {
        let d = v[n - 1 - i];
        assert(d < 10);
        s.append(digit_to_str(d));
        i += 1;
    }
    proof {
        assert forall|j: int| 0 <= j < s@.len() implies is_dec_digit(#[trigger] s@[j]) by {
            lemma_char_val_digit_char(v@[n - 1 - j] as nat);
        }
        assert forall|j: int| 0 <= j < v@.len()
            implies (#[trigger] digits_of(s@)[j]) == v@[j] by {
            lemma_char_val_digit_char(v@[j] as nat);
            assert(digits_of(s@)[j] == char_val(s@[s@.len() - 1 - j]) as u8);
        }
        assert(digits_of(s@) =~= v@);
        if no_high_zero(v@) {
            lemma_dec_canonical_no_high_zero(s@);
        }
    }
    s
}

/// The first `n` digits of `d`, reading missing high digits as zero.
spec fn take_pad(d: Seq<u8>, n: int) -> Seq<u8> {
    Seq::new(n as nat, |i: int| if i < d.len() { d[i] } else { 0u8 })
}

/// Padding with high zeros does not change the value.
proof fn lemma_take_pad_full(b: nat, d: Seq<u8>, n: int)
    requires
        n >= d.len(),
    ensures
        base_val(b, take_pad(d, n)) == base_val(b, d),
{
    let p = take_pad(d, n);
    assert(p.take(d.len() as int) =~= d);
    crate::digits::lemma_base_val_split(b, p, d.len() as int);
    crate::digits::lemma_base_val_all_zero(b, p.skip(d.len() as int));
    assert(pow_nat(b, d.len()) * 0 == 0);
}

/// Digit-wise addition of two little-endian digit vectors, with carry.
fn digits_add(a: &Vec<u8>, b: &Vec<u8>) -> (r: Vec<u8>)
    requires
        digits_below(10, a@),
        digits_below(10, b@),
    ensures
        digits_below(10, r@),
        base_val(10, r@) == base_val(10, a@) + base_val(10, b@),
        r@.len() >= a@.len() && r@.len() >= b@.len(),
        r@.len() <= a@.len() + 1 || r@.len() <= b@.len() + 1,
        no_high_zero(a@) && no_high_zero(b@) ==> no_high_zero(r@),
{
    let n = if a.len() > b.len() { a.len() } else { b.len() };
    let mut r: Vec<u8> = Vec::new();
    let mut carry: u8 = 0;
    let mut i: usize = 0;
    while i < n
        invariant
            digits_below(10, a@),
            digits_below(10, b@),
            n == if a@.len() > b@.len() { a@.len() } else { b@.len() },
            n <= usize::MAX,
            i <= n,
            r@.len() == i,
            carry <= 1,
            digits_below(10, r@),
            base_val(10, r@) + carry as nat * pow_nat(10, i as nat)
                == base_val(10, take_pad(a@, i as int)) + base_val(10, take_pad(b@, i as int)),
        decreases n - i,
    {
        let da = if i < a.len() { a[i] } else { 0 };
        let db = if i < b.len() { b[i] } else { 0 };
        let sum = da + db + carry;
        let ghost r0 = r@;
        let ghost c0 = carry as nat;
        r.push(sum % 10);
        carry = sum / 10;
        proof {
            let p = pow_nat(10, i as nat);
            crate::digits::lemma_base_val_snoc(10, r0, sum % 10);
            assert(take_pad(a@, i + 1) =~= take_pad(a@, i as int).push(da));
            assert(take_pad(b@, i + 1) =~= take_pad(b@, i as int).push(db));
            crate::digits::lemma_base_val_snoc(10, take_pad(a@, i as int), da);
            crate::digits::lemma_base_val_snoc(10, take_pad(b@, i as int), db);
            assert(pow_nat(10, (i + 1) as nat) == 10 * p);
            assert((sum % 10) as nat * p + (sum / 10) as nat * (10 * p)
                == (da + db) as nat * p + c0 * p) by (nonlinear_arith)
                requires sum == da + db + c0, sum < 256;
            assert((da + db) as nat * p == da as nat * p + db as nat * p) by (nonlinear_arith);
        }
        i += 1;
    }
    proof {
        lemma_take_pad_full(10, a@, n as int);
        lemma_take_pad_full(10, b@, n as int);
    }
    if carry > 0 {
        let ghost r0 = r@;
        r.push(carry);
        proof {
            crate::digits::lemma_base_val_snoc(10, r0, 1);
        }
    }
    proof {
        if no_high_zero(a@) && no_high_zero(b@) {
            if r@.len() == n && n >= 2 {
                if a@.len() == n {
                    crate::digits::lemma_canonical_low_bound(10, a@);
                } else {
                    crate::digits::lemma_canonical_low_bound(10, b@);
                }
                crate::digits::lemma_pow_nat_mono(10, (n - 1) as nat, (r@.len() - 1) as nat);
                crate::digits::lemma_no_high_zero_from_bound(10, r@);
            } else {
                crate::digits::lemma_no_high_zero_from_bound(10, r@);
            }
        }
    }
    r
}

/// Multiplication of a little-endian digit vector by a single decimal
/// digit, with carry.
fn digits_mul_small(a: &Vec<u8>, k: u8) -> (r: Vec<u8>)
    requires
        digits_below(10, a@),
        k < 10,
    ensures
        digits_below(10, r@),
        base_val(10, r@) == k as nat * base_val(10, a@),
        a@.len() <= r@.len() <= a@.len() + 1,
        no_high_zero(a@) && k >= 1 ==> no_high_zero(r@),
{
    let n = a.len();
    let mut r: Vec<u8> = Vec::new();
    let mut carry: u8 = 0;
    let mut i: usize = 0;
    proof {
        assert(a@.take(0) =~= Seq::<u8>::empty());
        assert(k as nat * 0 == 0);
    }
    while i < n
        invariant
            digits_below(10, a@),
            k < 10,
            n == a@.len(),
            i <= n,
            r@.len() == i,
            carry <= 8,
            digits_below(10, r@),
            base_val(10, r@) + carry as nat * pow_nat(10, i as nat)
                == k as nat * base_val(10, a@.take(i as int)),
        decreases n - i,
    {
        proof {
            assert(a@[i as int] < 10);
            assert(a@[i as int] * k <= 81) by (nonlinear_arith)
                requires a@[i as int] < 10, k < 10;
        }
        let product = a[i] * k + carry;
        let ghost r0 = r@;
        let ghost c0 = carry as nat;
        r.push(product % 10);
        carry = product / 10;
        proof {
            let p = pow_nat(10, i as nat);
            crate::digits::lemma_base_val_snoc(10, r0, product % 10);
            crate::digits::lemma_base_val_take_succ(10, a@, i as int);
            assert(pow_nat(10, (i + 1) as nat) == 10 * p);
            assert((product % 10) as nat * p + (product / 10) as nat * (10 * p)
                == product as nat * p) by (nonlinear_arith)
                requires product < 256;
            assert(product as nat * p == k as nat * (a@[i as int] as nat * p) + c0 * p)
                by (nonlinear_arith)
                requires product == a@[i as int] * k + c0;
            assert(k as nat * (base_val(10, a@.take(i as int)) + a@[i as int] as nat * p)
                == k as nat * base_val(10, a@.take(i as int))
                    + k as nat * (a@[i as int] as nat * p)) by (nonlinear_arith);
        }
        i += 1;
    }
    proof {
        assert(a@.take(n as int) =~= a@);
    }
    if carry > 0 {
        let ghost r0 = r@;
        r.push(carry);
        proof {
            crate::digits::lemma_base_val_snoc(10, r0, carry);
            assert(carry as nat * pow_nat(10, r0.len()) >= pow_nat(10, r0.len()))
                by (nonlinear_arith)
                requires carry >= 1, pow_nat(10, r0.len()) >= 0;
            assert(base_val(10, r@) >= pow_nat(10, (r@.len() - 1) as nat));
        }
    }
    proof {
        if no_high_zero(a@) && k >= 1 {
            if r@.len() == n && n >= 2 {
                crate::digits::lemma_canonical_low_bound(10, a@);
                assert(k as nat * base_val(10, a@) >= base_val(10, a@)) by (nonlinear_arith)
                    requires k >= 1, base_val(10, a@) >= 0;
                crate::digits::lemma_no_high_zero_from_bound(10, r@);
            } else {
                crate::digits::lemma_no_high_zero_from_bound(10, r@);
            }
        }
    }
    r
}

/// Shifting a digit vector up by `k` places multiplies its value by
/// `10^k`.
fn digits_shift(a: &Vec<u8>, k: usize) -> (r: Vec<u8>)
    requires
        digits_below(10, a@),
    ensures
        digits_below(10, r@),
        r@.len() == a@.len() + k,
        base_val(10, r@) == pow_nat(10, k as nat) * base_val(10, a@),
        no_high_zero(a@) && base_val(10, a@) > 0 ==> no_high_zero(r@),
{
    let mut r: Vec<u8> = Vec::new();
    let mut i: usize = 0;
    while i < k
        invariant
            i <= k,
            r@.len() == i,
            forall|j: int| 0 <= j < i ==> (#[trigger] r@[j]) == 0,
        decreases k - i,
    {
        r.push(0);
        i += 1;
    }
    let mut j: usize = 0;
    while j < a.len()
        invariant
            digits_below(10, a@),
            j <= a@.len(),
            r@.len() == k + j,
            forall|m: int| 0 <= m < k ==> (#[trigger] r@[m]) == 0,
            forall|m: int| 0 <= m < j ==> (#[trigger] r@[k + m]) == a@[m],
        decreases a@.len() - j,
    {
        r.push(a[j]);
        j += 1;
    }
    proof {
        assert forall|t: int| 0 <= t < r@.len() implies (#[trigger] r@[t]) < 10 by {
            if t >= k {
                assert(r@[k + (t - k)] == a@[t - k]);
            }
        }
        assert forall|t: int| 0 <= t < a@.len()
            implies r@.skip(k as int)[t] == a@[t] by {
            assert(r@[k + t] == a@[t]);
        }
        assert(r@.take(k as int) =~= Seq::new(k as nat, |m: int| 0u8));
        assert(r@.skip(k as int) =~= a@);
        crate::digits::lemma_base_val_split(10, r@, k as int);
        crate::digits::lemma_base_val_all_zero(10, r@.take(k as int));
        if no_high_zero(a@) && base_val(10, a@) > 0 {
            if a@.len() == 1 {
                assert(base_val(10, a@) == a@[0] as nat + 10 * base_val(10, a@.drop_first()));
                crate::digits::lemma_base_val_all_zero(10, a@.drop_first());
                assert(10 * base_val(10, a@.drop_first()) == 0);
                assert(a@[0] > 0);
            }
            assert(r@[k + (a@.len() - 1)] == a@[a@.len() - 1]);
            assert(r@[r@.len() - 1] == a@[a@.len() - 1]);
        }
    }
    r
}

/// Long division of a little-endian digit vector by 256: the canonical
/// quotient digits and the remainder.
pub(crate) fn digits_div256(a: &Vec<u8>) -> (res: (Vec<u8>, u8))
    requires
        digits_below(10, a@),
    ensures
        digits_below(10, res.0@),
        no_high_zero(res.0@),
        base_val(10, a@) == 256 * base_val(10, res.0@) + res.1 as nat,
{
    let n = a.len();
    let mut qm: Vec<u8> = Vec::new();
    let mut rem: u16 = 0;
    let mut i: usize = n;
    while i > 0
        invariant
            digits_below(10, a@),
            n == a@.len(),
            i <= n,
            rem < 256,
            qm@.len() == n - i,
            digits_below(10, qm@),
            base_val(10, a@.skip(i as int))
                == 256 * base_val(10, qm@.reverse()) + rem as nat,
        decreases i,
    {
        i -= 1;
        let cur: u16 = rem * 10 + a[i] as u16;
        let ghost qm0 = qm@;
        let ghost rem0 = rem as nat;
        qm.push((cur / 256) as u8);
        rem = cur % 256;
        proof {
            let q0 = base_val(10, qm0.reverse());
            let qd = (cur / 256) as nat;
            crate::digits::lemma_base_val_skip_succ(10, a@, i as int);
            assert(qm@.reverse().drop_first() =~= qm0.reverse());
            assert(qm@.reverse()[0] == cur / 256);
            assert(base_val(10, qm@.reverse()) == qd + 10 * q0);
            assert(cur as nat == 256 * qd + (cur % 256) as nat);
            assert(10 * (256 * q0 + rem0) == 256 * (10 * q0) + 10 * rem0)
                by (nonlinear_arith);
            assert(256 * (qd + 10 * q0) == 256 * qd + 256 * (10 * q0))
                by (nonlinear_arith);
        }
    }
    proof {
        assert(a@.skip(0) =~= a@);
    }
    let mut q: Vec<u8> = Vec::new();
    let m = qm.len();
    let mut j: usize = 0;
    while j < m
        invariant
            m == qm@.len(),
            j <= m,
            q@.len() == j,
            forall|t: int| 0 <= t < j ==> (#[trigger] q@[t]) == qm@[m - 1 - t],
        decreases m - j,
    {
        q.push(qm[m - 1 - j]);
        j += 1;
    }
    proof {
        assert(q@ =~= qm@.reverse());
    }
    if q.len() == 0 {
        q.push(0);
        proof {
            assert(q@.drop_first() =~= Seq::<u8>::empty());
        }
    }
    while q.len() > 1 && q[q.len() - 1] == 0
        invariant
            q@.len() >= 1,
            digits_below(10, q@),
            base_val(10, a@) == 256 * base_val(10, q@) + rem as nat,
        decreases q@.len(),
    {
        let ghost q0 = q@;
        q.pop();
        proof {
            assert(q0 =~= q@.push(0));
            crate::digits::lemma_base_val_snoc(10, q@, 0);
            assert(0 * pow_nat(10, q@.len()) == 0);
        }
    }
    (q, (rem as u8))
}

/// Whether the digit vector denotes zero.
pub(crate) fn digits_all_zero(v: &Vec<u8>) -> (z: bool)
    ensures
        z == (base_val(10, v@) == 0),
{
    let mut i: usize = 0;
    while i < v.len()
        invariant
            i <= v@.len(),
            forall|j: int| 0 <= j < i ==> (#[trigger] v@[j]) == 0,
        decreases v@.len() - i,
    {
        if v[i] > 0 {
            proof {
                crate::digits::lemma_base_val_pos(10, v@, i as int);
            }
            return false;
        }
        i += 1;
    }
    proof {
        crate::digits::lemma_base_val_all_zero(10, v@);
    }
    true
}

/// The canonical decimal spelling of one byte.
pub(crate) fn byte_decimal(b: u8) -> (s: String)
    ensures
        dec_valid(s@),
        dec_canonical(s@),
        dec_value(s@) == b as nat,
{
    let mut v: Vec<u8> = Vec::new();
    v.push(b % 10);
    if b >= 10 {
        v.push((b / 10) % 10);
    }
    if b >= 100 {
        v.push((b / 100) % 10);
    }
    proof {
        vstd::arithmetic::div_mod::lemma_fundamental_div_mod(b as int, 10);
        vstd::arithmetic::div_mod::lemma_fundamental_div_mod((b / 10) as int, 10);
        vstd::arithmetic::div_mod::lemma_div_denominator(b as int, 10, 10);
        let s1 = seq![b % 10];
        assert(s1.len() == 1 && s1[0] == b % 10);
        assert(s1.drop_first() =~= Seq::<u8>::empty());
        assert(base_val(10, s1.drop_first()) == 0);
        assert(10 * base_val(10, s1.drop_first()) == 0);
        assert(base_val(10, s1) == (b % 10) as nat);
        assert(pow_nat(10, 0) == 1);
        assert(pow_nat(10, 1) == 10);
        assert(pow_nat(10, 2) == 100);
        if b < 10 {
            assert(v@ =~= s1);
            assert(b % 10 == b) by (nonlinear_arith) requires b < 10;
            assert(base_val(10, v@) == b as nat);
        } else if b < 100 {
            assert(v@ =~= s1.push((b / 10) % 10));
            crate::digits::lemma_base_val_snoc(10, s1, (b / 10) % 10);
            assert(b / 10 < 10 && b / 10 >= 1) by (nonlinear_arith)
                requires 10 <= b < 100;
            assert((b / 10) % 10 == b / 10) by (nonlinear_arith) requires b / 10 < 10;
            assert(((b / 10) % 10) as nat * pow_nat(10, 1) == (b / 10) as nat * 10);
            assert(base_val(10, v@) == b as nat);
        } else {
            assert(v@ =~= s1.push((b / 10) % 10).push((b / 100) % 10));
            crate::digits::lemma_base_val_snoc(10, s1, (b / 10) % 10);
            crate::digits::lemma_base_val_snoc(10, s1.push((b / 10) % 10), (b / 100) % 10);
            assert(b / 100 >= 1 && b / 100 < 10) by (nonlinear_arith)
                requires 100 <= b < 256;
            assert((b / 100) % 10 == b / 100) by (nonlinear_arith) requires b / 100 < 10;
            assert(((b / 10) % 10) as nat * pow_nat(10, 1) == ((b / 10) % 10) as nat * 10);
            assert(((b / 100) % 10) as nat * pow_nat(10, 2) == (b / 100) as nat * 100);
            assert((b / 10) / 10 == b / 100);
            assert(b / 10 == 10 * ((b / 10) / 10) + (b / 10) % 10);
            assert(b == 10 * (b / 10) + b % 10);
            assert(base_val(10, v@) == b as nat);
        }
    }
    render_digits(&v)
}

/// Adds two decimal digit strings of arbitrary length, least significant
/// digits last, carrying as in long addition.
pub fn add_string_num_to_string_num(s1: String, s2: String) -> (r: String)
    requires
        dec_valid(s1@),
        dec_valid(s2@),
    ensures
        dec_valid(r@),
        dec_value(r@) == dec_value(s1@) + dec_value(s2@),
        r@.len() >= s1@.len() && r@.len() >= s2@.len(),
        r@.len() <= s1@.len() + 1 || r@.len() <= s2@.len() + 1,
        dec_canonical(s1@) && dec_canonical(s2@) ==> dec_canonical(r@),
{
    let v1 = parse_digits(s1.as_str());
    let v2 = parse_digits(s2.as_str());
    proof {
        lemma_dec_valid_digits_below(s1@);
        lemma_dec_valid_digits_below(s2@);
        if dec_canonical(s1@) && dec_canonical(s2@) {
            lemma_dec_canonical_no_high_zero(s1@);
            lemma_dec_canonical_no_high_zero(s2@);
        }
    }
    let sum = digits_add(&v1, &v2);
    render_digits(&sum)
}

/// Multiplies a decimal digit string by 256, as long multiplication by the
/// digits 2, 5 and 6 with positional shifts, summed with decimal addition.
pub fn multiply_256_to_string_num(s: String) -> (r: String)
    requires
        dec_valid(s@),
    ensures
        dec_valid(r@),
        dec_value(r@) == 256 * dec_value(s@),
        dec_canonical(s@) && dec_value(s@) > 0 ==> dec_canonical(r@),
{
    let v = parse_digits(s.as_str());
    proof {
        lemma_dec_valid_digits_below(s@);
        if dec_canonical(s@) {
            lemma_dec_canonical_no_high_zero(s@);
        }
    }
    let p6 = digits_mul_small(&v, 6);
    let p5 = digits_mul_small(&v, 5);
    let p2 = digits_mul_small(&v, 2);
    let p5s = digits_shift(&p5, 1);
    let p2s = digits_shift(&p2, 2);
    let t = digits_add(&p6, &p5s);
    let w = digits_add(&t, &p2s);
    proof {
        assert(pow_nat(10, 0) == 1);
        assert(pow_nat(10, 1) == 10);
        assert(pow_nat(10, 2) == 100);
    }
    render_digits(&w)
}

/// Divides a decimal digit string by 256 by long division, returning the
/// canonical quotient string and the remainder byte.
pub fn divide_string_num_by_256(s: String) -> (res: (String, u8))
    requires
        dec_valid(s@),
    ensures
        dec_valid(res.0@),
        dec_canonical(res.0@),
        dec_value(s@) == 256 * dec_value(res.0@) + res.1 as nat,
{
    let v = parse_digits(s.as_str());
    proof {
        lemma_dec_valid_digits_below(s@);
    }
    let (q, rem) = digits_div256(&v);
    let qs = render_digits(&q);
    (qs, rem)
}

} // verus!
