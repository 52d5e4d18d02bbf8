//! Rounding of exact decimal numbers to IEEE 754 binary64 (`f64`) values.
//!
//! `str::parse::<f64>` gives the binary64 value nearest to the decimal that
//! a text denotes, ties to even, with overflow to infinity and gradual
//! underflow to zero. Chapter numbers are compared as these values. Every
//! binary64 value is itself an exact decimal, so the rounded value is kept
//! as a [`NumberValue`] again and the comparisons on exact decimals apply.
//!
//! The rounding works on exact decimals written as little-endian digits `l`
//! and a scale `s` (the number `lval(l) × 10^s`), together with a binary
//! exponent `b`: the number being rounded is `lval(l) × 10^s × 2^b`. It is
//! scaled by two (doubling, or halving as `× 5` with `s - 1`) until its
//! integer part lies in `[2^52, 2^53)`, or the exponent reaches the bottom of
//! the subnormal range; the integer part is then rounded half to even on
//! the fraction.

use vstd::prelude::*;

use crate::number::{
    DecimalNumber, NumberKind, NumberValue, is_normal_finite, lemma_normalise_normal,
    lemma_read_number_normal, normalise, normalise_digits, read_number,
};

verus! {

/// `2^52`: the smallest mantissa of a normal binary64 value.
pub const TWO_52: u64 = 0x10_0000_0000_0000u64;

/// `2^53`: one more than the largest mantissa.
pub const TWO_53: u64 = 0x20_0000_0000_0000u64;

/// The smallest binary exponent: the unit of the subnormal values.
pub const MIN_EXPONENT: i128 = -1074i128;

/// The largest binary exponent of a finite value.
pub const MAX_EXPONENT: i128 = 971i128;

// ---------------------------------------------------------------------------
// Little-endian decimal digits
// ---------------------------------------------------------------------------

/// The number that little-endian decimal digits denote.
pub open spec fn lval(l: Seq<u8>) -> nat
    decreases l.len(),
{
    if l.len() == 0 {
        0
    } else {
        l[0] as nat + 10 * lval(l.drop_first())
    }
}

pub open spec fn all_decimal(l: Seq<u8>) -> bool {
    forall|i: int| 0 <= i < l.len() ==> #[trigger] l[i] < 10
}

/// `c × lval(l) + carry`, as little-endian digits.
pub open spec fn times(l: Seq<u8>, c: nat, carry: nat) -> Seq<u8>
    decreases l.len(),
{
    if l.len() == 0 {
        if carry == 0 {
            Seq::empty()
        } else {
            seq![(carry % 10) as u8]
        }
    } else {
        let t = (l[0] as nat) * c + carry;
        seq![(t % 10) as u8] + times(l.drop_first(), c, t / 10)
    }
}

/// `times` applied `k` times with the factor `c`.
pub open spec fn times_n(l: Seq<u8>, c: nat, k: nat) -> Seq<u8>
    decreases k,
{
    if k == 0 {
        l
    } else {
        times_n(times(l, c, 0), c, (k - 1) as nat)
    }
}

/// The little-endian digits of `m`, without leading zeros.
pub open spec fn lsb_digits(m: nat) -> Seq<u8>
    decreases m,
{
    if m == 0 {
        Seq::empty()
    } else {
        seq![(m % 10) as u8] + lsb_digits(m / 10)
    }
}

/// `n` zero digits.
pub open spec fn zeros(n: nat) -> Seq<u8> {
    Seq::new(n, |i: int| 0u8)
}

/// The digits of the integer part of `lval(l) × 10^s`.
pub open spec fn int_digits(l: Seq<u8>, s: int) -> Seq<u8> {
    if s >= 0 {
        zeros(s as nat) + l
    } else if -s >= l.len() {
        Seq::empty()
    } else {
        l.skip(-s)
    }
}

/// The integer part of `lval(l) × 10^s`.
pub open spec fn int_part(l: Seq<u8>, s: int) -> nat {
    lval(int_digits(l, s))
}

/// The digit at position `i` (zero past the end).
pub open spec fn digit_at(l: Seq<u8>, i: int) -> u8 {
    if 0 <= i < l.len() {
        l[i]
    } else {
        0
    }
}

/// How the fraction of `lval(l) × 10^s` compares with one half: `-1`, `0`
/// or `1`. The fraction is the digits below position `-s`; it is one half
/// exactly when its first digit is `5` and every later digit is `0`.
pub open spec fn half_order(l: Seq<u8>, s: int) -> int {
    if s >= 0 {
        -1
    } else {
        let top = digit_at(l, -s - 1);
        if top > 5 {
            1
        } else if top < 5 {
            -1
        } else if forall|i: int| 0 <= i < -s - 1 ==> #[trigger] digit_at(l, i) == 0 {
            0
        } else {
            1
        }
    }
}

// ---------------------------------------------------------------------------
// Rounding
// ---------------------------------------------------------------------------

/// Halves (`× 5`, one decimal place down) while the integer part is at
/// least `2^53`; `None` once the value is past the largest exponent.
pub open spec fn halve_phase(l: Seq<u8>, s: int, b: int) -> Option<(Seq<u8>, int, int)>
    decreases 971 - b,
{
    if int_part(l, s) >= TWO_53 {
        if b >= 971 {
            None
        } else {
            halve_phase(times(l, 5, 0), s - 1, b + 1)
        }
    } else {
        Some((l, s, b))
    }
}

/// Doubles while the integer part is below `2^52` and the exponent is above
/// the subnormal unit.
pub open spec fn double_phase(l: Seq<u8>, s: int, b: int) -> (Seq<u8>, int, int)
    decreases b + 1074,
{
    if int_part(l, s) < TWO_52 && b > -1074 {
        double_phase(times(l, 2, 0), s, b - 1)
    } else {
        (l, s, b)
    }
}

/// The integer part rounded half to even on the fraction, as a mantissa and
/// exponent; `None` when rounding up carries past the largest exponent.
pub open spec fn round_scaled(l: Seq<u8>, s: int, b: int) -> Option<(nat, int)> {
    let m = int_part(l, s);
    let h = half_order(l, s);
    let up = h > 0 || (h == 0 && m % 2 == 1);
    let m2 = if up {
        m + 1
    } else {
        m
    };
    if m2 == TWO_53 {
        if b + 1 > 971 {
            None
        } else {
            Some((TWO_52 as nat, b + 1))
        }
    } else {
        Some((m2, b))
    }
}

/// The binary64 value nearest to the positive decimal `0.d × 10^e`
/// (`d` most significant first, its first digit not zero), as `m × 2^b`;
/// `None` is infinity. Decimals from `10^310` up overflow and decimals below
/// `10^-400` round to zero without scaling.
pub open spec fn binary64_magnitude(d: Seq<u8>, e: int) -> Option<(nat, int)> {
    if e > 310 {
        None
    } else if e < -400 {
        Some((0, -1074))
    } else {
        match halve_phase(d.reverse(), e - d.len(), 0) {
            None => None,
            Some((l1, s1, b1)) => {
                let (l2, s2, b2) = double_phase(l1, s1, b1);
                round_scaled(l2, s2, b2)
            },
        }
    }
}

/// `m × 2^b` as a normalised decimal: digits and exponent.
pub open spec fn decimal_of(m: nat, b: int) -> (Seq<u8>, int) {
    if b >= 0 {
        normalise(times_n(lsb_digits(m), 2, b as nat).reverse(), 0)
    } else {
        normalise(times_n(lsb_digits(m), 5, (-b) as nat).reverse(), b)
    }
}

/// The binary64 value that `str::parse::<f64>` gives for a number read
/// exactly: finite non-zero numbers are rounded, the others are kept.
pub open spec fn binary64_value(v: NumberValue) -> NumberValue {
    if v.kind == NumberKind::Finite && v.digits.len() > 0 {
        match binary64_magnitude(v.digits, v.exponent) {
            None => NumberValue {
                negative: v.negative,
                kind: NumberKind::Infinite,
                digits: Seq::empty(),
                exponent: 0,
            },
            Some((m, b)) => NumberValue {
                negative: v.negative,
                kind: NumberKind::Finite,
                digits: decimal_of(m, b).0,
                exponent: decimal_of(m, b).1,
            },
        }
    } else {
        v
    }
}

/// What `str::parse::<f64>` gives for a text, as an exact decimal: the
/// number the text reads as, rounded to binary64.
pub open spec fn read_binary64(s: Seq<char>) -> Option<NumberValue> {
    match read_number(s) {
        Some(v) => Some(binary64_value(v)),
        None => None,
    }
}

// ---------------------------------------------------------------------------
// Laws of the digit arithmetic
// ---------------------------------------------------------------------------

/// `times` computes `c × lval(l) + carry`.
pub proof fn lemma_times_value(l: Seq<u8>, c: nat, carry: nat)
    requires
        all_decimal(l),
        c <= 9,
        carry < 10,
    ensures
        lval(times(l, c, carry)) == c * lval(l) + carry,
        all_decimal(times(l, c, carry)),
    decreases l.len(),
{
    if l.len() == 0 {
        assert(lval(l) == 0);
        assert(c * 0 == 0);
        if carry != 0 {
            let r = seq![(carry % 10) as u8];
            assert(r.drop_first() =~= Seq::<u8>::empty());
            assert(lval(r) == r[0] as nat + 10 * lval(r.drop_first()));
            assert(lval(r) == carry);
        }
    } else {
        let t = (l[0] as nat) * c + carry;
        assert(t <= 90) by (nonlinear_arith)
            requires
                l[0] < 10,
                c <= 9,
                carry < 10,
                t == (l[0] as nat) * c + carry,
        ;
        let rest = l.drop_first();
        assert forall|i: int| 0 <= i < rest.len() implies #[trigger] rest[i] < 10 by {
            assert(rest[i] == l[i + 1]);
        }
        lemma_times_value(rest, c, t / 10);
        let r = times(l, c, carry);
        assert(r.drop_first() =~= times(rest, c, t / 10));
        assert(c * lval(l) == c * (l[0] as nat) + 10 * (c * lval(rest))) by (nonlinear_arith)
            requires
                lval(l) == l[0] as nat + 10 * lval(rest),
        ;
        assert forall|i: int| 0 <= i < r.len() implies #[trigger] r[i] < 10 by {
            if i > 0 {
                assert(r[i] == times(rest, c, t / 10)[i - 1]);
            }
        }
        assert(r[0] == (t % 10) as u8);
        assert(lval(r) == r[0] as nat + 10 * lval(r.drop_first()));
        assert((t % 10) + 10 * (t / 10) == t);
        assert(lval(l) == l[0] as nat + 10 * lval(rest));
        let v = lval(rest);
        let x = l[0] as nat;
        assert(lval(r) == c * lval(l) + carry) by (nonlinear_arith)
            requires
                lval(r) == (t % 10) + 10 * (c * v + t / 10),
                (t % 10) + 10 * (t / 10) == t,
                t == x * c + carry,
                lval(l) == x + 10 * v,
        ;
    }
}

// ---------------------------------------------------------------------------
// Implementation
// ---------------------------------------------------------------------------

fn times_exec(l: &Vec<u8>, c: u8) -> (r: Vec<u8>)
    requires
        all_decimal(l@),
        c <= 9,
    ensures
        r@ == times(l@, c as nat, 0),
        all_decimal(r@),
{
    let mut out: Vec<u8> = Vec::new();
    let mut carry: u8 = 0;
    let mut i: usize = 0;
    assert(l@.skip(0) =~= l@);
    while i < l.len()
        invariant
            i <= l@.len(),
            all_decimal(l@),
            c <= 9,
            carry < 10,
            all_decimal(out@),
            out@ + times(l@.skip(i as int), c as nat, carry as nat) == times(l@, c as nat, 0),
        decreases l@.len() - i,
    {
        let d = l[i];
        assert(d < 10);
        assert((d as nat) * (c as nat) <= 81) by (nonlinear_arith)
            requires
                d < 10,
                c <= 9,
        ;
        let t: u8 = d * c + carry;
        let ghost rest = l@.skip(i as int);
        assert(rest.drop_first() =~= l@.skip(i + 1));
        assert(rest[0] == d);
        assert(times(rest, c as nat, carry as nat) =~= seq![(t % 10) as u8] + times(
            l@.skip(i + 1),
            c as nat,
            (t / 10) as nat,
        ));
        out.push(t % 10);
        carry = t / 10;
        assert(out@ + times(l@.skip(i + 1), c as nat, carry as nat) =~= times(l@, c as nat, 0));
        i += 1;
    }
    assert(l@.skip(i as int) =~= Seq::<u8>::empty());
    if carry > 0 {
        out.push(carry);
        assert(out@ =~= times(l@, c as nat, 0));
    } else {
        assert(out@ =~= times(l@, c as nat, 0));
    }
    proof {
        lemma_times_value(l@, c as nat, 0);
    }
    out
}

fn lsb_digits_exec(m: u64) -> (r: Vec<u8>)
    ensures
        r@ == lsb_digits(m as nat),
        all_decimal(r@),
{
    let mut out: Vec<u8> = Vec::new();
    let mut k: u64 = m;
    while k > 0
        invariant
            out@ + lsb_digits(k as nat) == lsb_digits(m as nat),
            all_decimal(out@),
        decreases k,
    {
        let d: u8 = (k % 10) as u8;
        assert(lsb_digits(k as nat) =~= seq![d] + lsb_digits((k / 10) as nat));
        out.push(d);
        k = k / 10;
        assert(out@ + lsb_digits(k as nat) =~= lsb_digits(m as nat));
    }
    assert(out@ =~= lsb_digits(m as nat));
    out
}

/// The integer part of `lval(l) × 10^s`, capped at `2^53`.
fn capped_int_part(l: &Vec<u8>, s: i128) -> (r: u64)
    requires
        all_decimal(l@),
        -0x1_0000_0000_0000_0000_0000i128 <= s <= 400,
    ensures
        r == if int_part(l@, s as int) < TWO_53 {
            int_part(l@, s as int)
        } else {
            TWO_53 as nat
        },
{
    let mut digits: Vec<u8> = Vec::new();
    if s >= 0 {
        let mut z: i128 = 0;
        while z < s
            invariant
                0 <= z <= s,
                digits@ == zeros(z as nat),
            decreases s - z,
        {
            digits.push(0);
            assert(digits@ =~= zeros((z + 1) as nat));
            z += 1;
        }
        let mut i: usize = 0;
        while i < l.len()
            invariant
                i <= l@.len(),
                digits@ == zeros(s as nat) + l@.take(i as int),
            decreases l@.len() - i,
        {
            digits.push(l[i]);
            assert(digits@ =~= zeros(s as nat) + l@.take(i + 1));
            i += 1;
        }
        assert(l@.take(l@.len() as int) =~= l@);
    } else if l.len() as i128 > -s {
        let start: usize = (-s) as usize;
        let mut i: usize = start;
        while i < l.len()
            invariant
                start <= i <= l@.len(),
                digits@ == l@.subrange(start as int, i as int),
            decreases l@.len() - i,
        {
            assert(l@.subrange(start as int, i + 1) =~= l@.subrange(start as int, i as int).push(
                l@[i as int],
            ));
            digits.push(l[i]);
            i += 1;
        }
        assert(digits@ =~= l@.skip(-s as int));
    }
    assert(digits@ =~= int_digits(l@, s as int));
    assert(all_decimal(digits@)) by {
        assert forall|k: int| 0 <= k < digits@.len() implies #[trigger] digits@[k] < 10 by {
            if s >= 0 {
                if k >= s {
                    assert(digits@[k] == l@[k - s]);
                }
            } else {
                assert(digits@[k] == l@[k - s]);
            }
        }
    }
    capped_value(&digits)
}

/// The value of little-endian digits, capped at `2^53`.
pub open spec fn capped(l: Seq<u8>) -> nat
    decreases l.len(),
{
    if l.len() == 0 {
        0
    } else {
        let v = l[0] as nat + 10 * capped(l.drop_first());
        if v < TWO_53 {
            v
        } else {
            TWO_53 as nat
        }
    }
}

proof fn lemma_capped(l: Seq<u8>)
    ensures
        capped(l) == if lval(l) < TWO_53 {
            lval(l)
        } else {
            TWO_53 as nat
        },
    decreases l.len(),
{
    if l.len() > 0 {
        lemma_capped(l.drop_first());
    }
}

fn capped_value(l: &Vec<u8>) -> (r: u64)
    requires
        all_decimal(l@),
    ensures
        r == if lval(l@) < TWO_53 {
            lval(l@)
        } else {
            TWO_53 as nat
        },
{
    let mut acc: u64 = 0;
    let mut i: usize = l.len();
    assert(l@.skip(l@.len() as int) =~= Seq::<u8>::empty());
    while i > 0
        invariant
            i <= l@.len(),
            all_decimal(l@),
            acc as nat == capped(l@.skip(i as int)),
            acc <= TWO_53,
        decreases i,
    {
        let d = l[i - 1];
        assert(l@.skip(i - 1).drop_first() =~= l@.skip(i as int));
        assert(l@.skip(i - 1)[0] == d);
        let v: u64 = d as u64 + 10 * acc;
        acc = if v < TWO_53 {
            v
        } else {
            TWO_53
        };
        i -= 1;
    }
    assert(l@.skip(0) =~= l@);
    proof {
        lemma_capped(l@);
    }
    acc
}

fn half_order_exec(l: &Vec<u8>, s: i128) -> (r: i8)
    requires
        -0x1_0000_0000_0000_0000_0000i128 <= s,
    ensures
        r as int == half_order(l@, s as int),
{
    if s >= 0 {
        return -1;
    }
    let k: i128 = -s - 1;
    let top: u8 = if k < l.len() as i128 {
        l[k as usize]
    } else {
        0
    };
    assert(top == digit_at(l@, k as int));
    if top > 5 {
        1
    } else if top < 5 {
        -1
    } else {
        let bound: usize = if k < l.len() as i128 {
            k as usize
        } else {
            l.len()
        };
        let mut i: usize = 0;
        while i < bound
            invariant
                i <= bound <= l@.len(),
                k == -s - 1,
                top == 5,
                top == digit_at(l@, -s - 1),
                s < 0,
                bound <= k,
                bound == l@.len() || bound == k,
                forall|j: int| 0 <= j < i ==> #[trigger] digit_at(l@, j) == 0,
            decreases bound - i,
        {
            if l[i] != 0 {
                assert(digit_at(l@, i as int) != 0);
                assert(!(forall|j: int| 0 <= j < -s - 1 ==> #[trigger] digit_at(l@, j) == 0));
                return 1;
            }
            i += 1;
        }
        assert forall|j: int| 0 <= j < k implies #[trigger] digit_at(l@, j) == 0 by {
            if j >= bound {
                assert(j >= l@.len());
            }
        }
        0
    }
}

fn reverse_digits(l: &Vec<u8>) -> (r: Vec<u8>)
    requires
        all_decimal(l@),
    ensures
        r@ == l@.reverse(),
        all_decimal(r@),
{
    let mut out: Vec<u8> = Vec::new();
    let n = l.len();
    let mut i: usize = 0;
    while i < n
        invariant
            n == l@.len(),
            i <= n,
            all_decimal(l@),
            out@.len() == i,
            forall|j: int| 0 <= j < i ==> #[trigger] out@[j] == l@[n - 1 - j],
            all_decimal(out@),
        decreases n - i,
    {
        out.push(l[n - 1 - i]);
        i += 1;
    }
    assert(out@ =~= l@.reverse());
    out
}

/// The binary64 magnitude of a positive decimal `0.d × 10^e`.
fn magnitude_exec(d: &Vec<u8>, e: i128) -> (r: Option<(u64, i128)>)
    requires
        all_decimal(d@),
        d@.len() > 0,
    ensures
        match binary64_magnitude(d@, e as int) {
            None => r is None,
            Some((m, b)) => r matches Some((m2, b2)) && m2 as nat == m && b2 as int == b
                && m < TWO_53 && -1074 <= b <= 971,
        },
{
    if e > 310 {
        return None;
    }
    if e < -400 {
        return Some((0, MIN_EXPONENT));
    }
    let n = d.len();
    let mut l = reverse_digits(d);
    let mut s: i128 = e - n as i128;
    let mut b: i128 = 0;
    let ghost l0 = l@;
    let ghost s0 = s as int;
    assert(binary64_magnitude(d@, e as int) == match halve_phase(l0, s0, 0) {
        None => None,
        Some((l1, s1, b1)) => {
            let (l2, s2, b2) = double_phase(l1, s1, b1);
            round_scaled(l2, s2, b2)
        },
    });
    // Halving.
    loop
        invariant
            all_decimal(l@),
            s0 - b <= s <= 310,
            s0 == e - n,
            n == d@.len(),
            l0 == d@.reverse(),
            -400 <= e <= 310,
            0 <= b <= 971,
            halve_phase(l@, s as int, b as int) == halve_phase(l0, s0, 0),
        ensures
            all_decimal(l@),
            s0 - 971 <= s <= 310,
            0 <= b <= 971,
            halve_phase(l0, s0, 0) == Some((l@, s as int, b as int)),
        decreases 971 - b,
    {
        let ip = capped_int_part(&l, s);
        if ip < TWO_53 {
            break;
        }
        if b >= MAX_EXPONENT {
            assert(halve_phase(l@, s as int, b as int) is None);
            return None;
        }
        l = times_exec(&l, 5);
        s = s - 1;
        b = b + 1;
    }
    // Doubling.
    let ghost l1 = l@;
    let ghost s1 = s as int;
    let ghost b1 = b as int;
    assert(halve_phase(l0, s0, 0) == Some((l1, s1, b1)));
    loop
        invariant
            all_decimal(l@),
            s0 - 971 <= s <= 310,
            s0 == e - n,
            -400 <= e <= 310,
            -1074 <= b <= 971,
            double_phase(l@, s as int, b as int) == double_phase(l1, s1, b1),
        ensures
            all_decimal(l@),
            s0 - 971 <= s <= 310,
            -1074 <= b <= 971,
            double_phase(l1, s1, b1) == (l@, s as int, b as int),
        decreases b + 1074,
    {
        let ip = capped_int_part(&l, s);
        if !(ip < TWO_52 && b > MIN_EXPONENT) {
            break;
        }
        l = times_exec(&l, 2);
        b = b - 1;
    }
    assert(double_phase(l1, s1, b1) == (l@, s as int, b as int));
    // Rounding.
    let m = capped_int_part(&l, s);
    let h = half_order_exec(&l, s);
    proof {
        lemma_halve_phase_below(l0, s0, 0);
        lemma_double_phase_below(l1, s1, b1);
    }
    assert(m < TWO_53);
    let up = h > 0 || (h == 0 && m % 2 == 1);
    let m2: u64 = if up {
        m + 1
    } else {
        m
    };
    if m2 == TWO_53 {
        if b + 1 > MAX_EXPONENT {
            None
        } else {
            Some((TWO_52, b + 1))
        }
    } else {
        Some((m2, b))
    }
}

fn times_n_exec(l: Vec<u8>, c: u8, k: u64) -> (r: Vec<u8>)
    requires
        all_decimal(l@),
        c <= 9,
    ensures
        r@ == times_n(l@, c as nat, k as nat),
        all_decimal(r@),
{
    let mut cur = l;
    let mut i: u64 = 0;
    while i < k
        invariant
            i <= k,
            c <= 9,
            all_decimal(cur@),
            times_n(cur@, c as nat, (k - i) as nat) == times_n(l@, c as nat, k as nat),
        decreases k - i,
    {
        assert(times_n(cur@, c as nat, (k - i) as nat) == times_n(
            times(cur@, c as nat, 0),
            c as nat,
            (k - i - 1) as nat,
        ));
        cur = times_exec(&cur, c);
        i += 1;
    }
    cur
}

/// The value that `str::parse::<f64>` gives for a number read exactly, as
/// an exact decimal: finite non-zero numbers are rounded to the nearest
/// binary64 value (ties to even), overflowing to infinity and underflowing
/// to a zero of the same sign; the other numbers are kept.
pub fn round_to_binary64(n: &DecimalNumber) -> (r: DecimalNumber)
    requires
        forall|i: int| 0 <= i < n.digits@.len() ==> #[trigger] n.digits@[i] < 10,
    ensures
        r@ == binary64_value(n@),
        forall|i: int| 0 <= i < r.digits@.len() ==> #[trigger] r.digits@[i] < 10,
{
    if n.kind == NumberKind::Finite && n.digits.len() > 0 {
        match magnitude_exec(&n.digits, n.exponent) {
            None => DecimalNumber {
                negative: n.negative,
                kind: NumberKind::Infinite,
                digits: Vec::new(),
                exponent: 0,
            },
            Some((m, b)) => {
                let l = lsb_digits_exec(m);
                let scaled = if b >= 0 {
                    times_n_exec(l, 2, b as u64)
                } else {
                    times_n_exec(l, 5, (-b) as u64)
                };
                let shift: i128 = if b >= 0 {
                    0
                } else {
                    b
                };
                let d = reverse_digits(&scaled);
                let (digits, exponent) = normalise_digits(d.as_slice(), shift);
                DecimalNumber { negative: n.negative, kind: NumberKind::Finite, digits, exponent }
            },
        }
    } else {
        let mut digits: Vec<u8> = Vec::new();
        let mut i: usize = 0;
        while i < n.digits.len()
            invariant
                i <= n.digits@.len(),
                digits@ == n.digits@.take(i as int),
            decreases n.digits@.len() - i,
        {
            digits.push(n.digits[i]);
            assert(digits@ =~= n.digits@.take(i + 1));
            i += 1;
        }
        assert(digits@ =~= n.digits@);
        DecimalNumber { negative: n.negative, kind: n.kind, digits, exponent: n.exponent }
    }
}

proof fn lemma_lsb_digits_decimal(m: nat)
    ensures
        all_decimal(lsb_digits(m)),
    decreases m,
{
    if m > 0 {
        lemma_lsb_digits_decimal(m / 10);
        let l = lsb_digits(m);
        assert forall|i: int| 0 <= i < l.len() implies #[trigger] l[i] < 10 by {
            if i > 0 {
                assert(l[i] == lsb_digits(m / 10)[i - 1]);
            }
        }
    }
}

proof fn lemma_times_n_decimal(l: Seq<u8>, c: nat, k: nat)
    requires
        all_decimal(l),
        c <= 9,
    ensures
        all_decimal(times_n(l, c, k)),
    decreases k,
{
    if k > 0 {
        lemma_times_value(l, c, 0);
        lemma_times_n_decimal(times(l, c, 0), c, (k - 1) as nat);
    }
}

/// Rounding to binary64 keeps numbers in normal form: a finite result has
/// decimal digits without a leading or a trailing zero.
pub proof fn lemma_binary64_normal(v: NumberValue)
    requires
        v.kind == NumberKind::Finite ==> is_normal_finite(v),
    ensures
        binary64_value(v).kind == NumberKind::Finite ==> is_normal_finite(binary64_value(v)),
{
    if v.kind == NumberKind::Finite && v.digits.len() > 0 {
        if let Some((m, b)) = binary64_magnitude(v.digits, v.exponent) {
            lemma_lsb_digits_decimal(m);
            let c: nat = if b >= 0 {
                2
            } else {
                5
            };
            let k: nat = if b >= 0 {
                b as nat
            } else {
                (-b) as nat
            };
            lemma_times_n_decimal(lsb_digits(m), c, k);
            let t = times_n(lsb_digits(m), c, k);
            let rt = t.reverse();
            assert forall|i: int| 0 <= i < rt.len() implies #[trigger] rt[i] < 10 by {
                assert(rt[i] == t[t.len() - 1 - i]);
            }
            let shift: int = if b >= 0 {
                0
            } else {
                b
            };
            lemma_normalise_normal(rt, shift);
        }
    }
}

/// A finite number that a text parses to as `f64` is in normal form.
pub proof fn lemma_read_binary64_normal(s: Seq<char>)
    ensures
        read_binary64(s) matches Some(v) ==> (v.kind == NumberKind::Finite ==> is_normal_finite(v)),
{
    lemma_read_number_normal(s);
    if let Some(v) = read_number(s) {
        lemma_binary64_normal(v);
    }
}

/// Halving stops with the integer part below `2^53`.
proof fn lemma_halve_phase_below(l: Seq<u8>, s: int, b: int)
    ensures
        halve_phase(l, s, b) matches Some((l1, s1, b1)) ==> int_part(l1, s1) < TWO_53,
    decreases 971 - b,
{
    if int_part(l, s) >= TWO_53 && b < 971 {
        lemma_halve_phase_below(times(l, 5, 0), s - 1, b + 1);
    }
}

/// Doubling keeps the integer part below `2^53` when it starts below it.
proof fn lemma_double_phase_below(l: Seq<u8>, s: int, b: int)
    requires
        all_decimal(l),
        int_part(l, s) < TWO_53,
    ensures
        int_part(double_phase(l, s, b).0, double_phase(l, s, b).1) < TWO_53,
    decreases b + 1074,
{
    if int_part(l, s) < TWO_52 && b > -1074 {
        lemma_times_value(l, 2, 0);
        lemma_int_part_double(l, s);
        lemma_double_phase_below(times(l, 2, 0), s, b - 1);
    }
}

pub open spec fn pow10(k: nat) -> nat
    decreases k,
{
    if k == 0 {
        1
    } else {
        10 * pow10((k - 1) as nat)
    }
}

pub(crate) proof fn lemma_pow10_monotonic(j: nat, k: nat)
    requires
        j <= k,
    ensures
        1 <= pow10(j) <= pow10(k),
    decreases k,
{
    if k > 0 {
        if j < k {
            lemma_pow10_monotonic(j, (k - 1) as nat);
        } else {
            lemma_pow10_monotonic((k - 1) as nat, (k - 1) as nat);
        }
    }
}

/// The low `k` digits and the rest: `lval(l) = lval(low) + 10^k × lval(high)`
/// with `lval(low) < 10^k`.
proof fn lemma_split(l: Seq<u8>, k: nat)
    requires
        all_decimal(l),
        k <= l.len(),
    ensures
        lval(l) == lval(l.take(k as int)) + pow10(k) * lval(l.skip(k as int)),
        lval(l.take(k as int)) < pow10(k),
    decreases k,
{
    if k == 0 {
        assert(l.take(0) =~= Seq::<u8>::empty());
        assert(l.skip(0) =~= l);
        assert(lval(Seq::<u8>::empty()) == 0);
        assert(pow10(0) == 1);
        assert(1 * lval(l) == lval(l));
    } else {
        let rest = l.drop_first();
        assert forall|i: int| 0 <= i < rest.len() implies #[trigger] rest[i] < 10 by {
            assert(rest[i] == l[i + 1]);
        }
        lemma_split(rest, (k - 1) as nat);
        let lo = l.take(k as int);
        assert(lo.drop_first() =~= rest.take(k - 1));
        assert(l.skip(k as int) =~= rest.skip(k - 1));
        let a = lval(rest.take(k - 1));
        let b = lval(rest.skip(k - 1));
        let p = pow10((k - 1) as nat);
        assert(lval(l) == l[0] as nat + 10 * lval(rest));
        assert(lval(lo) == l[0] as nat + 10 * a);
        assert(l[0] < 10);
        assert(10 * (a + p * b) == 10 * a + (10 * p) * b) by (nonlinear_arith);
        assert(lval(rest) == a + p * b);
        assert(pow10(k) == 10 * p);
        assert(lval(l.skip(k as int)) == b);
        assert(l[0] as nat + 10 * a < 10 * p) by (nonlinear_arith)
            requires
                a < p,
                l[0] < 10,
        ;
    }
}

proof fn lemma_zeros_value(z: nat, l: Seq<u8>)
    ensures
        lval(zeros(z) + l) == pow10(z) * lval(l),
    decreases z,
{
    let s = zeros(z) + l;
    if z == 0 {
        assert(s =~= l);
        assert(pow10(0) == 1);
        assert(1 * lval(l) == lval(l));
    } else {
        lemma_zeros_value((z - 1) as nat, l);
        assert(s.drop_first() =~= zeros((z - 1) as nat) + l);
        assert(s[0] == 0);
        assert(lval(s) == s[0] as nat + 10 * lval(s.drop_first()));
        assert(pow10(z) == 10 * pow10((z - 1) as nat));
        assert(lval(s.drop_first()) == pow10((z - 1) as nat) * lval(l));
        assert(lval(s) == 10 * (pow10((z - 1) as nat) * lval(l)));
        let p = pow10((z - 1) as nat);
        let v = lval(l);
        assert(10 * (p * v) == (10 * p) * v) by (nonlinear_arith);
    }
}

/// The integer part of `lval(l) × 10^s`, for `s < 0`, is the floor of
/// `lval(l) / 10^-s`.
proof fn lemma_int_part_floor(l: Seq<u8>, s: int)
    requires
        all_decimal(l),
        s < 0,
    ensures
        pow10((-s) as nat) * int_part(l, s) <= lval(l),
        lval(l) < pow10((-s) as nat) * (int_part(l, s) + 1),
{
    let k = (-s) as nat;
    if k >= l.len() {
        lemma_split(l, l.len());
        assert(l.skip(l.len() as int) =~= Seq::<u8>::empty());
        assert(l.take(l.len() as int) =~= l);
        lemma_pow10_monotonic(l.len(), k);
        assert(int_digits(l, s) =~= Seq::<u8>::empty());
        assert(lval(Seq::<u8>::empty()) == 0);
        assert(int_part(l, s) == 0);
        assert(lval(l) == lval(l.take(l.len() as int)));
        let p = pow10(k);
        assert(p * 0 == 0 && p * (0 + 1) == p) by (nonlinear_arith);
    } else {
        lemma_split(l, k);
        let q = lval(l.skip(k as int));
        assert(int_digits(l, s) == l.skip(k as int));
        assert(int_part(l, s) == q);
        let p = pow10(k);
        assert(p * (q + 1) == p * q + p) by (nonlinear_arith);
    }
}

/// Doubling a number at most doubles its integer part, plus one.
proof fn lemma_int_part_double(l: Seq<u8>, s: int)
    requires
        all_decimal(l),
    ensures
        int_part(times(l, 2, 0), s) <= 2 * int_part(l, s) + 1,
{
    lemma_times_value(l, 2, 0);
    let l2 = times(l, 2, 0);
    if s >= 0 {
        lemma_zeros_value(s as nat, l);
        lemma_zeros_value(s as nat, l2);
        let p = pow10(s as nat);
        assert(p * (2 * lval(l)) == 2 * (p * lval(l))) by (nonlinear_arith);
    } else {
        lemma_int_part_floor(l, s);
        lemma_int_part_floor(l2, s);
        let p = pow10((-s) as nat);
        let q = int_part(l, s);
        let q2 = int_part(l2, s);
        lemma_pow10_monotonic(0, (-s) as nat);
        assert(q2 <= 2 * q + 1) by (nonlinear_arith)
            requires
                p >= 1,
                p * q2 <= lval(l2),
                lval(l2) == 2 * lval(l),
                lval(l) < p * (q + 1),
        ;
    }
}

} // verus!
