//! The positional-number model shared by the decimal-string layer and the
//! base-256 fixed-width integer: a number is a little-endian sequence of
//! digits in some base, and `base_val` says which natural number it denotes.

use vstd::prelude::*;

verus! {

/// `b` raised to the power `e`.
pub open spec fn pow_nat(b: nat, e: nat) -> nat
    decreases e,
{
    if e == 0 {
        1
    } else {
        b * pow_nat(b, (e - 1) as nat)
    }
}

/// The value denoted by the little-endian digit sequence `d` in base `b`:
/// digit `d[i]` carries weight `b^i`.
pub open spec fn base_val(b: nat, d: Seq<u8>) -> nat
    decreases d.len(),
{
    if d.len() == 0 {
        0
    } else {
        d[0] as nat + b * base_val(b, d.drop_first())
    }
}

/// Every digit of `d` is below the base `b`.
pub open spec fn digits_below(b: nat, d: Seq<u8>) -> bool {
    forall|i: int| 0 <= i < d.len() ==> (#[trigger] d[i]) < b
}

/// The most significant digit is not zero, except for the one-digit
/// representation of zero itself: the canonical shape of a rendering.
pub open spec fn no_high_zero(d: Seq<u8>) -> bool {
    d.len() > 0 && (d.len() == 1 || d[d.len() - 1] != 0)
}

pub proof fn lemma_pow_nat_pos(b: nat, e: nat)
    requires
        b >= 1,
    ensures
        pow_nat(b, e) >= 1,
    decreases e,
{
    if e > 0 {
        lemma_pow_nat_pos(b, (e - 1) as nat);
        assert(b * pow_nat(b, (e - 1) as nat) >= 1 * pow_nat(b, (e - 1) as nat))
            by (nonlinear_arith)
            requires b >= 1, pow_nat(b, (e - 1) as nat) >= 1;
    }
}

/// Appending a digit at the most significant end adds its weighted value.
pub proof fn lemma_base_val_snoc(b: nat, d: Seq<u8>, x: u8)
    ensures
        base_val(b, d.push(x)) == base_val(b, d) + x * pow_nat(b, d.len()),
    decreases d.len(),
{
    if d.len() == 0 {
        assert(d.push(x).drop_first() =~= Seq::<u8>::empty());
        assert(b * base_val(b, Seq::<u8>::empty()) == 0) by (nonlinear_arith)
            requires base_val(b, Seq::<u8>::empty()) == 0;
        assert(x as nat * pow_nat(b, 0) == x as nat) by (nonlinear_arith)
            requires pow_nat(b, 0) == 1;
    } else {
        assert(d.push(x).drop_first() =~= d.drop_first().push(x));
        lemma_base_val_snoc(b, d.drop_first(), x);
        let bv = base_val(b, d.drop_first());
        let p = pow_nat(b, (d.len() - 1) as nat);
        assert(base_val(b, d.push(x)) == d[0] as nat + b * (bv + x as nat * p));
        assert(b * (bv + x as nat * p) == b * bv + x as nat * (b * p)) by (nonlinear_arith);
        assert(pow_nat(b, d.len()) == b * p);
    }
}

/// A digit sequence with digits below the base denotes a value below
/// `b^len`.
pub proof fn lemma_base_val_bound(b: nat, d: Seq<u8>)
    requires
        digits_below(b, d),
    ensures
        base_val(b, d) < pow_nat(b, d.len()),
    decreases d.len(),
{
    if d.len() == 0 {
    } else {
        lemma_base_val_bound(b, d.drop_first());
        assert(d[0] < b);
        assert(d[0] + b * base_val(b, d.drop_first()) < b * pow_nat(b, (d.len() - 1) as nat))
            by (nonlinear_arith)
            requires
                d[0] < b,
                base_val(b, d.drop_first()) + 1 <= pow_nat(b, (d.len() - 1) as nat);
    }
}

/// `b^m <= b^n` whenever `m <= n` (for a positive base).
pub proof fn lemma_pow_nat_mono(b: nat, m: nat, n: nat)
    requires
        b >= 1,
        m <= n,
    ensures
        pow_nat(b, m) <= pow_nat(b, n),
    decreases n,
{
    if m < n {
        lemma_pow_nat_mono(b, m, (n - 1) as nat);
        let p = pow_nat(b, (n - 1) as nat);
        assert(b * p >= 1 * p) by (nonlinear_arith)
            requires b >= 1, p >= 0;
    }
}

/// Extending a prefix by one digit adds that digit's weighted value.
pub proof fn lemma_base_val_take_succ(b: nat, d: Seq<u8>, i: int)
    requires
        0 <= i < d.len(),
    ensures
        base_val(b, d.take(i + 1)) == base_val(b, d.take(i)) + d[i] * pow_nat(b, i as nat),
{
    assert(d.take(i + 1) =~= d.take(i).push(d[i]));
    lemma_base_val_snoc(b, d.take(i), d[i]);
}

/// A digit sequence splits at any point into its low part and its high
/// part scaled by the weight of the split position.
pub proof fn lemma_base_val_split(b: nat, d: Seq<u8>, i: int)
    requires
        0 <= i <= d.len(),
    ensures
        base_val(b, d) == base_val(b, d.take(i)) + pow_nat(b, i as nat) * base_val(b, d.skip(i)),
    decreases i,
{
    if i == 0 {
        assert(d.take(0) =~= Seq::<u8>::empty());
        assert(d.skip(0) =~= d);
        assert(1 * base_val(b, d) == base_val(b, d)) by (nonlinear_arith);
    } else {
        lemma_base_val_split(b, d, i - 1);
        lemma_base_val_take_succ(b, d, i - 1);
        let p = pow_nat(b, (i - 1) as nat);
        let hi = base_val(b, d.skip(i - 1));
        let hi2 = base_val(b, d.skip(i));
        assert(d.skip(i - 1).drop_first() =~= d.skip(i));
        assert(d.skip(i - 1).len() > 0);
        assert(hi == d[i - 1] as nat + b * hi2);
        assert(p * (d[i - 1] as nat + b * hi2) == d[i - 1] as nat * p + (b * p) * hi2)
            by (nonlinear_arith);
        assert(pow_nat(b, i as nat) == b * p);
    }
}

/// Dropping the leading digit: the high part beyond position `i` is the
/// digit at `i` plus the base times the part beyond `i + 1`.
pub proof fn lemma_base_val_skip_succ(b: nat, d: Seq<u8>, i: int)
    requires
        0 <= i < d.len(),
    ensures
        base_val(b, d.skip(i)) == d[i] as nat + b * base_val(b, d.skip(i + 1)),
{
    assert(d.skip(i).drop_first() =~= d.skip(i + 1));
    assert(d.skip(i).len() > 0);
}

/// Two digit sequences of the same length, with digits below the base,
/// denoting the same value are equal: the representation is unique.
pub proof fn lemma_base_val_inj(b: nat, d: Seq<u8>, e: Seq<u8>)
    requires
        b >= 1,
        d.len() == e.len(),
        digits_below(b, d),
        digits_below(b, e),
        base_val(b, d) == base_val(b, e),
    ensures
        d == e,
    decreases d.len(),
{
    if d.len() == 0 {
        assert(d =~= e);
    } else {
        let v = base_val(b, d) as int;
        let r1 = base_val(b, d.drop_first()) as int;
        let r2 = base_val(b, e.drop_first()) as int;
        assert(v == r1 * (b as int) + d[0]) by (nonlinear_arith)
            requires v == d[0] + (b as int) * r1;
        assert(v == r2 * (b as int) + e[0]) by (nonlinear_arith)
            requires v == e[0] + (b as int) * r2;
        vstd::arithmetic::div_mod::lemma_fundamental_div_mod_converse(
            v, b as int, r1, d[0] as int);
        vstd::arithmetic::div_mod::lemma_fundamental_div_mod_converse(
            v, b as int, r2, e[0] as int);
        assert(d[0] == v % (b as int) && e[0] == v % (b as int));
        assert(r1 == v / (b as int) && r2 == v / (b as int));
        lemma_base_val_inj(b, d.drop_first(), e.drop_first());
        assert forall|i: int| 0 <= i < d.len() implies d[i] == e[i] by {
            if i > 0 {
                assert(d[i] == d.drop_first()[i - 1]);
                assert(e[i] == e.drop_first()[i - 1]);
            }
        }
        assert(d =~= e);
    }
}

/// A canonical representation of at least two digits denotes a value at
/// least as large as the weight of its top digit.
pub proof fn lemma_canonical_low_bound(b: nat, d: Seq<u8>)
    requires
        b >= 1,
        no_high_zero(d),
        d.len() >= 2,
    ensures
        base_val(b, d) >= pow_nat(b, (d.len() - 1) as nat),
{
    assert(d =~= d.drop_last().push(d.last()));
    lemma_base_val_snoc(b, d.drop_last(), d.last());
    let p = pow_nat(b, (d.len() - 1) as nat);
    lemma_pow_nat_pos(b, (d.len() - 1) as nat);
    assert(d.last() as nat * p >= 1 * p) by (nonlinear_arith)
        requires d.last() >= 1, p >= 0;
}

/// A representation whose value reaches the weight of its top digit has
/// no zero in that top digit: it is canonical.
pub proof fn lemma_no_high_zero_from_bound(b: nat, d: Seq<u8>)
    requires
        digits_below(b, d),
        d.len() >= 1,
        d.len() == 1 || base_val(b, d) >= pow_nat(b, (d.len() - 1) as nat),
    ensures
        no_high_zero(d),
{
    if d.len() >= 2 && d.last() == 0 {
        assert(d =~= d.drop_last().push(d.last()));
        lemma_base_val_snoc(b, d.drop_last(), d.last());
        assert(0 * pow_nat(b, (d.len() - 1) as nat) == 0) by (nonlinear_arith);
        assert(base_val(b, d) == base_val(b, d.drop_last()));
        assert(digits_below(b, d.drop_last()));
        lemma_base_val_bound(b, d.drop_last());
        assert(false);
    }
}

/// Canonical representations are unique outright: equal values in the
/// same base give equal digit sequences, whatever their lengths.
pub proof fn lemma_canonical_unique(b: nat, d: Seq<u8>, e: Seq<u8>)
    requires
        b >= 1,
        digits_below(b, d),
        digits_below(b, e),
        no_high_zero(d),
        no_high_zero(e),
        base_val(b, d) == base_val(b, e),
    ensures
        d == e,
{
    if d.len() < e.len() {
        lemma_base_val_bound(b, d);
        lemma_canonical_low_bound(b, e);
        lemma_pow_nat_mono(b, d.len(), (e.len() - 1) as nat);
        assert(false);
    }
    if e.len() < d.len() {
        lemma_base_val_bound(b, e);
        lemma_canonical_low_bound(b, d);
        lemma_pow_nat_mono(b, e.len(), (d.len() - 1) as nat);
        assert(false);
    }
    lemma_base_val_inj(b, d, e);
}

/// `256^16` written out: one more than the largest 128-bit integer.
pub proof fn lemma_pow256_16()
    ensures
        pow_nat(256, 16) == 0x1_0000_0000_0000_0000_0000_0000_0000_0000,
{
    assert(pow_nat(256, 0) == 1);
    assert(pow_nat(256, 1) == 0x100);
    assert(pow_nat(256, 2) == 0x1_0000);
    assert(pow_nat(256, 3) == 0x100_0000);
    assert(pow_nat(256, 4) == 0x1_0000_0000);
    assert(pow_nat(256, 5) == 0x100_0000_0000);
    assert(pow_nat(256, 6) == 0x1_0000_0000_0000);
    assert(pow_nat(256, 7) == 0x100_0000_0000_0000);
    assert(pow_nat(256, 8) == 0x1_0000_0000_0000_0000);
    assert(pow_nat(256, 9) == 0x100_0000_0000_0000_0000);
    assert(pow_nat(256, 10) == 0x1_0000_0000_0000_0000_0000);
    assert(pow_nat(256, 11) == 0x100_0000_0000_0000_0000_0000);
    assert(pow_nat(256, 12) == 0x1_0000_0000_0000_0000_0000_0000);
    assert(pow_nat(256, 13) == 0x100_0000_0000_0000_0000_0000_0000);
    assert(pow_nat(256, 14) == 0x1_0000_0000_0000_0000_0000_0000_0000);
    assert(pow_nat(256, 15) == 0x100_0000_0000_0000_0000_0000_0000_0000);
}

/// A digit sequence with a non-zero digit somewhere denotes a positive
/// value.
pub proof fn lemma_base_val_pos(b: nat, d: Seq<u8>, i: int)
    requires
        b >= 1,
        0 <= i < d.len(),
        d[i] > 0,
    ensures
        base_val(b, d) > 0,
{
    lemma_base_val_split(b, d, i);
    lemma_base_val_skip_succ(b, d, i);
    lemma_pow_nat_pos(b, i as nat);
    assert(pow_nat(b, i as nat) * base_val(b, d.skip(i)) >= 1) by (nonlinear_arith)
        requires pow_nat(b, i as nat) >= 1, base_val(b, d.skip(i)) >= 1;
}

/// Comparing digit sequences from the most significant end decides the
/// order of the values: equal high digits, then a smaller digit, means a
/// smaller value.
pub proof fn lemma_lex_lt(b: nat, d: Seq<u8>, e: Seq<u8>, i: int)
    requires
        b >= 1,
        d.len() == e.len(),
        0 <= i < d.len(),
        digits_below(b, d),
        d[i] < e[i],
        forall|j: int| i < j < d.len() ==> d[j] == e[j],
    ensures
        base_val(b, d) < base_val(b, e),
{
    lemma_base_val_split(b, d, i);
    lemma_base_val_split(b, e, i);
    lemma_base_val_skip_succ(b, d, i);
    lemma_base_val_skip_succ(b, e, i);
    assert(d.skip(i + 1) =~= e.skip(i + 1));
    let p = pow_nat(b, i as nat);
    let hd = base_val(b, d.skip(i));
    let he = base_val(b, e.skip(i));
    assert(hd + 1 <= he);
    assert(digits_below(b, d.take(i)));
    lemma_base_val_bound(b, d.take(i));
    assert(base_val(b, d.take(i)) < p);
    assert(p * hd + p <= p * he) by (nonlinear_arith)
        requires hd + 1 <= he, p >= 0;
}

/// A sequence of zero digits denotes zero.
pub proof fn lemma_base_val_all_zero(b: nat, d: Seq<u8>)
    requires
        forall|i: int| 0 <= i < d.len() ==> (#[trigger] d[i]) == 0,
    ensures
        base_val(b, d) == 0,
    decreases d.len(),
{
    if d.len() > 0 {
        lemma_base_val_all_zero(b, d.drop_first());
        assert(b * base_val(b, d.drop_first()) == 0) by (nonlinear_arith)
            requires base_val(b, d.drop_first()) == 0;
        assert(d[0] == 0);
    }
}

} // verus!
