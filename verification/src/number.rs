//! Chapter numbers read as decimal numbers.
//!
//! Chapter numbers such as `133`, `0.01` or `1e2` are compared by the numbers
//! they denote. A text is read with the grammar of float literals that
//! `str::parse::<f64>` documents (an optional sign, then `inf`, `infinity`,
//! `nan` or digits with an optional point and exponent, letters in any case),
//! and its value is kept exactly, as a normalised decimal: the sign, the
//! significant digits and the exponent, with `value = 0.d1d2d3... × 10^exponent`.
//!
//! The comparisons here work on exact values, in the order (and with the
//! treatment of NaN and signed zeros) that floats use. Chapter numbers are
//! first rounded to the `f64` values their texts parse to (see `binary64`).

use vstd::prelude::*;

use crate::binary64::{lemma_pow10_monotonic, pow10};
use crate::text::{
    ascii_lower, chars_of, copy_chars, find_char, first_index, is_ascii_digit, is_ascii_digit_spec,
    lemma_first_index, lower_chars, push_all, same_chars, slice_chars, dec_text, digit_char,
};

verus! {

/// The largest exponent magnitude that is kept exactly; written exponents
/// beyond it are read as this bound.
pub const EXPONENT_LIMIT: u128 = 1_000_000_000_000_000_000u128;

/// What kind of number a text denotes.
#[derive(Clone, Copy, Debug, PartialEq, Eq, Structural)]
pub enum NumberKind {
    /// `nan`.
    NotANumber,
    /// `inf` or `infinity`.
    Infinite,
    /// A finite decimal number.
    Finite,
}

/// A decimal number in normalised form.
pub struct DecimalNumber {
    /// Whether the text carried a minus sign.
    pub negative: bool,
    /// NaN, infinity or a finite number.
    pub kind: NumberKind,
    /// Significant digits (each `0..=9`) of a finite number, without leading
    /// or trailing zeros; empty for zero and for the other kinds.
    pub digits: Vec<u8>,
    /// Exponent of a finite number: `value = 0.digits × 10^exponent`; zero for
    /// zero and for the other kinds.
    pub exponent: i128,
}

/// The mathematical content of a [`DecimalNumber`].
pub struct NumberValue {
    pub negative: bool,
    pub kind: NumberKind,
    pub digits: Seq<u8>,
    pub exponent: int,
}

impl View for DecimalNumber {
    type V = NumberValue;

    open spec fn view(&self) -> NumberValue {
        NumberValue {
            negative: self.negative,
            kind: self.kind,
            digits: self.digits@,
            exponent: self.exponent as int,
        }
    }
}

// ---------------------------------------------------------------------------
// Reading
// ---------------------------------------------------------------------------

pub open spec fn all_digits(s: Seq<char>) -> bool {
    forall|i: int| 0 <= i < s.len() ==> is_ascii_digit_spec(#[trigger] s[i])
}

pub open spec fn digit_of(c: char) -> u8 {
    ((c as u32) - 48) as u8
}

pub open spec fn digit_values(s: Seq<char>) -> Seq<u8> {
    s.map_values(|c: char| digit_of(c))
}

/// The number that a sequence of decimal digits denotes.
pub open spec fn digits_value(s: Seq<char>) -> nat
    decreases s.len(),
{
    if s.len() == 0 {
        0
    } else {
        digits_value(s.drop_last()) * 10 + (digit_of(s.last()) as nat)
    }
}

pub open spec fn clamp_exponent(v: nat) -> nat {
    if v > EXPONENT_LIMIT {
        EXPONENT_LIMIT as nat
    } else {
        v
    }
}

/// The exponent part after the `e`: an optional sign, then at least one digit.
pub open spec fn read_exponent(s: Seq<char>) -> Option<int> {
    let signed = s.len() > 0 && (s[0] == '+' || s[0] == '-');
    let ds = if signed {
        s.drop_first()
    } else {
        s
    };
    if ds.len() >= 1 && all_digits(ds) {
        let m = clamp_exponent(digits_value(ds)) as int;
        Some(
            if signed && s[0] == '-' {
                -m
            } else {
                m
            },
        )
    } else {
        None
    }
}

pub open spec fn strip_leading_zeros(d: Seq<u8>) -> Seq<u8>
    decreases d.len(),
{
    if d.len() > 0 && d[0] == 0 {
        strip_leading_zeros(d.drop_first())
    } else {
        d
    }
}

pub open spec fn strip_trailing_zeros(d: Seq<u8>) -> Seq<u8>
    decreases d.len(),
{
    if d.len() > 0 && d.last() == 0 {
        strip_trailing_zeros(d.drop_last())
    } else {
        d
    }
}

/// The normalised form of `N(d) × 10^shift`, where `N(d)` is the number the
/// digit values `d` denote.
pub open spec fn normalise(d: Seq<u8>, shift: int) -> (Seq<u8>, int) {
    let d1 = strip_leading_zeros(d);
    if d1.len() == 0 {
        (Seq::empty(), 0)
    } else {
        (strip_trailing_zeros(d1), d1.len() + shift)
    }
}

/// A finite number: digits with an optional point (at least one digit in all),
/// then an optional exponent. `b` is already lower-cased.
pub open spec fn read_finite(b: Seq<char>) -> Option<(Seq<u8>, int)> {
    let k = first_index(b, 'e');
    let mant = b.take(k);
    let p = first_index(mant, '.');
    let int_part = mant.take(p);
    let frac = if p < mant.len() {
        mant.skip(p + 1)
    } else {
        Seq::empty()
    };
    let exp = if k < b.len() {
        read_exponent(b.skip(k + 1))
    } else {
        Some(0int)
    };
    if all_digits(int_part) && all_digits(frac) && int_part.len() + frac.len() >= 1
        && exp is Some {
        Some(normalise(digit_values(int_part + frac), exp->0 - frac.len()))
    } else {
        None
    }
}

pub open spec fn word_inf() -> Seq<char> {
    seq!['i', 'n', 'f']
}

pub open spec fn word_infinity() -> Seq<char> {
    seq!['i', 'n', 'f', 'i', 'n', 'i', 't', 'y']
}

pub open spec fn word_nan() -> Seq<char> {
    seq!['n', 'a', 'n']
}

/// What `str::parse::<f64>` accepts, read as an exact decimal number.
pub open spec fn read_number(s: Seq<char>) -> Option<NumberValue> {
    let signed = s.len() > 0 && (s[0] == '+' || s[0] == '-');
    let negative = signed && s[0] == '-';
    let body = if signed {
        s.drop_first()
    } else {
        s
    };
    let b = ascii_lower(body);
    if b == word_inf() || b == word_infinity() {
        Some(
            NumberValue {
                negative,
                kind: NumberKind::Infinite,
                digits: Seq::empty(),
                exponent: 0,
            },
        )
    } else if b == word_nan() {
        Some(
            NumberValue {
                negative,
                kind: NumberKind::NotANumber,
                digits: Seq::empty(),
                exponent: 0,
            },
        )
    } else {
        match read_finite(b) {
            Some((d, e)) => Some(
                NumberValue { negative, kind: NumberKind::Finite, digits: d, exponent: e },
            ),
            None => None,
        }
    }
}

proof fn lemma_strip_leading_skip(d: Seq<u8>, i: int)
    requires
        0 <= i <= d.len(),
        forall|k: int| 0 <= k < i ==> #[trigger] d[k] == 0,
    ensures
        strip_leading_zeros(d) == strip_leading_zeros(d.skip(i)),
    decreases i,
{
    if i > 0 {
        let t = d.drop_first();
        assert forall|k: int| 0 <= k < i - 1 implies #[trigger] t[k] == 0 by {
            assert(t[k] == d[k + 1]);
        }
        lemma_strip_leading_skip(t, i - 1);
        assert(t.skip(i - 1) =~= d.skip(i));
    } else {
        assert(d.skip(0) =~= d);
    }
}

proof fn lemma_strip_trailing_take(d: Seq<u8>, j: int)
    requires
        0 <= j <= d.len(),
        forall|k: int| j <= k < d.len() ==> #[trigger] d[k] == 0,
    ensures
        strip_trailing_zeros(d) == strip_trailing_zeros(d.take(j)),
    decreases d.len() - j,
{
    if j < d.len() {
        let t = d.drop_last();
        lemma_strip_trailing_take(t, j);
        assert(t.take(j) =~= d.take(j));
    } else {
        assert(d.take(j) =~= d);
    }
}

fn all_digit_chars(s: &[char]) -> (r: bool)
    ensures
        r == all_digits(s@),
{
    let mut i: usize = 0;
    while i < s.len()
        invariant
            i <= s@.len(),
            forall|k: int| 0 <= k < i ==> is_ascii_digit_spec(#[trigger] s@[k]),
        decreases s@.len() - i,
    {
        if !is_ascii_digit(s[i]) {
            return false;
        }
        i += 1;
    }
    true
}

proof fn lemma_clamp_step(v: nat, d: nat)
    requires
        d < 10,
    ensures
        clamp_exponent(clamp_exponent(v) * 10 + d) == clamp_exponent(v * 10 + d),
{
}

/// The clamped value of a non-empty run of digits.
fn clamped_digits_value(ds: &[char]) -> (r: u128)
    requires
        all_digits(ds@),
    ensures
        r as nat == clamp_exponent(digits_value(ds@)),
        r <= EXPONENT_LIMIT,
{
    let mut acc: u128 = 0;
    let mut i: usize = 0;
    while i < ds.len()
        invariant
            i <= ds@.len(),
            all_digits(ds@),
            acc <= EXPONENT_LIMIT,
            acc as nat == clamp_exponent(digits_value(ds@.take(i as int))),
        decreases ds@.len() - i,
    {
        let c = ds[i];
        assert(is_ascii_digit_spec(ds@[i as int]));
        let d: u128 = ((c as u32) - 48) as u128;
        let next = acc * 10 + d;
        acc = if next > EXPONENT_LIMIT {
            EXPONENT_LIMIT
        } else {
            next
        };
        proof {
            let pre = ds@.take(i as int);
            let post = ds@.take(i + 1);
            assert(post.drop_last() =~= pre);
            assert(post.last() == c);
            assert(digit_of(c) as nat == d as nat);
            lemma_clamp_step(digits_value(pre), d as nat);
        }
        i += 1;
    }
    assert(ds@.take(ds@.len() as int) =~= ds@);
    acc
}

fn read_exponent_chars(s: &[char]) -> (r: Option<i128>)
    ensures
        r matches Some(e) ==> read_exponent(s@) == Some(e as int),
        r is None ==> read_exponent(s@) is None,
        r matches Some(e) ==> -(EXPONENT_LIMIT as int) <= e <= EXPONENT_LIMIT,
{
    let signed = s.len() > 0 && (s[0] == '+' || s[0] == '-');
    let ds = if signed {
        slice_chars(s, 1, s.len())
    } else {
        copy_chars(s)
    };
    proof {
        if signed {
            assert(ds@ =~= s@.drop_first());
        }
    }
    if ds.len() >= 1 && all_digit_chars(ds.as_slice()) {
        let m = clamped_digits_value(ds.as_slice()) as i128;
        if signed && s[0] == '-' {
            Some(-m)
        } else {
            Some(m)
        }
    } else {
        None
    }
}

fn digit_values_of(s: &[char]) -> (r: Vec<u8>)
    requires
        all_digits(s@),
    ensures
        r@ == digit_values(s@),
        forall|i: int| 0 <= i < r@.len() ==> #[trigger] r@[i] < 10,
{
    let mut r: Vec<u8> = Vec::new();
    let mut i: usize = 0;
    while i < s.len()
        invariant
            i <= s@.len(),
            all_digits(s@),
            r@ == digit_values(s@.take(i as int)),
            forall|k: int| 0 <= k < r@.len() ==> #[trigger] r@[k] < 10,
        decreases s@.len() - i,
    {
        assert(is_ascii_digit_spec(s@[i as int]));
        r.push(((s[i] as u32) - 48) as u8);
        assert(digit_values(s@.take(i + 1)) =~= digit_values(s@.take(i as int)).push(
            digit_of(s@[i as int]),
        ));
        i += 1;
    }
    assert(s@.take(s@.len() as int) =~= s@);
    r
}

pub(crate) fn normalise_digits(d: &[u8], shift: i128) -> (r: (Vec<u8>, i128))
    requires
        forall|i: int| 0 <= i < d@.len() ==> #[trigger] d@[i] < 10,
        -(EXPONENT_LIMIT as int) - 0x1_0000_0000_0000_0000int <= shift <= EXPONENT_LIMIT,
    ensures
        (r.0@, r.1 as int) == normalise(d@, shift as int),
        forall|i: int| 0 <= i < r.0@.len() ==> #[trigger] r.0@[i] < 10,
{
    let n = d.len();
    let mut i: usize = 0;
    while i < n && d[i] == 0
        invariant
            n == d@.len(),
            i <= n,
            forall|k: int| 0 <= k < i ==> #[trigger] d@[k] == 0,
        decreases n - i,
    {
        i += 1;
    }
    proof {
        lemma_strip_leading_skip(d@, i as int);
    }
    if i == n {
        proof {
            assert(d@.skip(i as int).len() == 0);
        }
        return (Vec::new(), 0);
    }
    let mut j: usize = n;
    while j > i && d[j - 1] == 0
        invariant
            n == d@.len(),
            i < n,
            d@[i as int] != 0,
            i < j <= n,
            forall|k: int| j <= k < n ==> #[trigger] d@[k] == 0,
        decreases j,
    {
        j -= 1;
    }
    let mut out: Vec<u8> = Vec::new();
    let mut k: usize = i;
    while k < j
        invariant
            i <= k <= j <= n,
            n == d@.len(),
            out@ == d@.subrange(i as int, k as int),
            forall|m: int| 0 <= m < d@.len() ==> #[trigger] d@[m] < 10,
        decreases j - k,
    {
        out.push(d[k]);
        assert(d@.subrange(i as int, k as int).push(d@[k as int]) =~= d@.subrange(
            i as int,
            k + 1,
        ));
        k += 1;
    }
    proof {
        let d1 = d@.skip(i as int);
        assert(strip_leading_zeros(d1) == d1);
        assert forall|m: int| j - i <= m < d1.len() implies #[trigger] d1[m] == 0 by {
            assert(d1[m] == d@[m + i]);
        }
        lemma_strip_trailing_take(d1, j - i);
        assert(d1.take(j - i) =~= d@.subrange(i as int, j as int));
        assert(d@.subrange(i as int, j as int).last() == d@[j - 1]);
    }
    let e: i128 = (n - i) as i128 + shift;
    (out, e)
}

/// Reads a text with the float-literal grammar, keeping its value exactly.
pub fn read_number_chars(s: &[char]) -> (r: Option<DecimalNumber>)
    ensures
        r matches Some(n) ==> read_number(s@) == Some(n@),
        r is None ==> read_number(s@) is None,
        r matches Some(n) ==> forall|i: int| 0 <= i < n.digits@.len() ==> #[trigger] n.digits@[i]
            < 10,
{
    let signed = s.len() > 0 && (s[0] == '+' || s[0] == '-');
    let negative = signed && s[0] == '-';
    let body = if signed {
        slice_chars(s, 1, s.len())
    } else {
        copy_chars(s)
    };
    proof {
        if signed {
            assert(body@ =~= s@.drop_first());
        }
    }
    let b = lower_chars(body.as_slice());
    let inf = chars_of("inf");
    let infinity = chars_of("infinity");
    let nan = chars_of("nan");
    proof {
        reveal_strlit("inf");
        reveal_strlit("infinity");
        reveal_strlit("nan");
        assert(inf@ =~= word_inf());
        assert(infinity@ =~= word_infinity());
        assert(nan@ =~= word_nan());
    }
    if same_chars(b.as_slice(), inf.as_slice()) || same_chars(b.as_slice(), infinity.as_slice()) {
        return Some(
            DecimalNumber {
                negative,
                kind: NumberKind::Infinite,
                digits: Vec::new(),
                exponent: 0,
            },
        );
    }
    if same_chars(b.as_slice(), nan.as_slice()) {
        return Some(
            DecimalNumber {
                negative,
                kind: NumberKind::NotANumber,
                digits: Vec::new(),
                exponent: 0,
            },
        );
    }
    let k = find_char(b.as_slice(), 'e');
    proof {
        lemma_first_index(b@, 'e');
    }
    let mant = slice_chars(b.as_slice(), 0, k);
    assert(mant@ =~= b@.take(k as int));
    let p = find_char(mant.as_slice(), '.');
    proof {
        lemma_first_index(mant@, '.');
    }
    let int_part = slice_chars(mant.as_slice(), 0, p);
    assert(int_part@ =~= mant@.take(p as int));
    let frac = if p < mant.len() {
        slice_chars(mant.as_slice(), p + 1, mant.len())
    } else {
        Vec::new()
    };
    assert(p < mant@.len() ==> frac@ =~= mant@.skip(p + 1));
    let exp = if k < b.len() {
        let rest = slice_chars(b.as_slice(), k + 1, b.len());
        assert(rest@ =~= b@.skip(k + 1));
        read_exponent_chars(rest.as_slice())
    } else {
        Some(0)
    };
    if !(all_digit_chars(int_part.as_slice()) && all_digit_chars(frac.as_slice())) {
        return None;
    }
    if int_part.len() + frac.len() < 1 {
        return None;
    }
    match exp {
        None => None,
        Some(e) => {
            let mut all = copy_chars(int_part.as_slice());
            push_all(&mut all, frac.as_slice());
            assert(all_digits(all@));
            let dv = digit_values_of(all.as_slice());
            let shift: i128 = e - frac.len() as i128;
            let (digits, exponent) = normalise_digits(dv.as_slice(), shift);
            Some(DecimalNumber { negative, kind: NumberKind::Finite, digits, exponent })
        },
    }
}

// ---------------------------------------------------------------------------
// Order
// ---------------------------------------------------------------------------

/// Lexicographic comparison of digit sequences (a proper prefix is smaller):
/// `-1`, `0` or `1`.
pub open spec fn order_digit_seqs(a: Seq<u8>, b: Seq<u8>) -> int
    decreases a.len(),
{
    if a.len() == 0 {
        if b.len() == 0 {
            0
        } else {
            -1
        }
    } else if b.len() == 0 {
        1
    } else if a[0] < b[0] {
        -1
    } else if a[0] > b[0] {
        1
    } else {
        order_digit_seqs(a.drop_first(), b.drop_first())
    }
}

pub open spec fn is_zero(a: NumberValue) -> bool {
    a.kind == NumberKind::Finite && a.digits.len() == 0
}

/// Comparison of the absolute values of two numbers that are not NaN.
pub open spec fn order_magnitude(a: NumberValue, b: NumberValue) -> int {
    if a.kind == NumberKind::Infinite {
        if b.kind == NumberKind::Infinite {
            0
        } else {
            1
        }
    } else if b.kind == NumberKind::Infinite {
        -1
    } else if a.digits.len() == 0 {
        if b.digits.len() == 0 {
            0
        } else {
            -1
        }
    } else if b.digits.len() == 0 {
        1
    } else if a.exponent < b.exponent {
        -1
    } else if a.exponent > b.exponent {
        1
    } else {
        order_digit_seqs(a.digits, b.digits)
    }
}

pub open spec fn signum(a: NumberValue) -> int {
    if is_zero(a) {
        0
    } else if a.negative {
        -1
    } else {
        1
    }
}

/// Comparison of two numbers that are not NaN, by value (both zeros are equal).
pub open spec fn order_values(a: NumberValue, b: NumberValue) -> int {
    let sa = signum(a);
    let sb = signum(b);
    if sa < sb {
        -1
    } else if sa > sb {
        1
    } else if sa == 0 {
        0
    } else if sa > 0 {
        order_magnitude(a, b)
    } else {
        order_magnitude(b, a)
    }
}

/// `a <= b` on exact values, with the NaN rule of floats: false whenever
/// either side is NaN; `-0 <= 0` and `0 <= -0`.
pub open spec fn number_le(a: NumberValue, b: NumberValue) -> bool {
    a.kind != NumberKind::NotANumber && b.kind != NumberKind::NotANumber && order_values(a, b) <= 0
}

/// The class of a number in the order that `f64::total_cmp` uses:
/// negative NaN, negative numbers, negative zero, positive zero, positive
/// numbers, positive NaN.
pub open spec fn total_class(a: NumberValue) -> int {
    if a.kind == NumberKind::NotANumber {
        if a.negative {
            0
        } else {
            5
        }
    } else if is_zero(a) {
        if a.negative {
            2
        } else {
            3
        }
    } else if a.negative {
        1
    } else {
        4
    }
}

/// The order of `f64::total_cmp`, applied to exact values: `-1`, `0` or `1`.
pub open spec fn order_total(a: NumberValue, b: NumberValue) -> int {
    let ca = total_class(a);
    let cb = total_class(b);
    if ca < cb {
        -1
    } else if ca > cb {
        1
    } else if ca == 4 {
        order_magnitude(a, b)
    } else if ca == 1 {
        order_magnitude(b, a)
    } else {
        0
    }
}

// ---------------------------------------------------------------------------
// Order and numeric value
// ---------------------------------------------------------------------------

/// The integer `0.a × 10^l`: the digits `a` (most significant first)
/// followed by `l - a.len()` zeros.
pub open spec fn scaled_digits(a: Seq<u8>, l: nat) -> nat
    decreases a.len(),
{
    if a.len() == 0 || l == 0 {
        0
    } else {
        (a[0] as nat) * pow10((l - 1) as nat) + scaled_digits(a.drop_first(), (l - 1) as nat)
    }
}

/// The value of a finite number times `10^k`, an integer when
/// `exponent + k >= digits.len()`.
pub open spec fn value_times_pow10(x: NumberValue, k: int) -> nat {
    scaled_digits(x.digits, (x.exponent + k) as nat)
}

/// A finite number in normal form: decimal digits, no leading and no
/// trailing zero (what reading a number gives).
pub open spec fn is_normal_finite(x: NumberValue) -> bool {
    &&& x.kind == NumberKind::Finite
    &&& forall|i: int| 0 <= i < x.digits.len() ==> #[trigger] x.digits[i] < 10
    &&& x.digits.len() > 0 ==> x.digits[0] != 0 && x.digits.last() != 0
}

pub open spec fn decimal_digits(a: Seq<u8>) -> bool {
    forall|i: int| 0 <= i < a.len() ==> #[trigger] a[i] < 10
}

proof fn lemma_decimal_digits_rest(a: Seq<u8>)
    requires
        decimal_digits(a),
        a.len() > 0,
    ensures
        decimal_digits(a.drop_first()),
        a[0] < 10,
{
    assert forall|i: int| 0 <= i < a.drop_first().len() implies #[trigger] a.drop_first()[i] < 10 by {
        assert(a.drop_first()[i] == a[i + 1]);
    }
}

proof fn lemma_scaled_upper(a: Seq<u8>, l: nat)
    requires
        decimal_digits(a),
        a.len() <= l,
    ensures
        scaled_digits(a, l) < pow10(l),
    decreases a.len(),
{
    lemma_pow10_monotonic(0, l);
    if a.len() > 0 {
        lemma_decimal_digits_rest(a);
        lemma_scaled_upper(a.drop_first(), (l - 1) as nat);
        let p = pow10((l - 1) as nat);
        let r = scaled_digits(a.drop_first(), (l - 1) as nat);
        assert(pow10(l) == 10 * p);
        assert((a[0] as nat) * p + r < 10 * p) by (nonlinear_arith)
            requires
                a[0] < 10,
                r < p,
        ;
    }
}

proof fn lemma_scaled_lower(a: Seq<u8>, l: nat)
    requires
        a.len() > 0,
        a[0] >= 1,
        a.len() <= l,
    ensures
        scaled_digits(a, l) >= pow10((l - 1) as nat),
{
    let p = pow10((l - 1) as nat);
    assert((a[0] as nat) * p >= p) by (nonlinear_arith)
        requires
            a[0] >= 1,
    ;
}

proof fn lemma_scaled_positive(a: Seq<u8>, l: nat)
    requires
        a.len() > 0,
        a.last() != 0,
        a.len() <= l,
    ensures
        scaled_digits(a, l) > 0,
    decreases a.len(),
{
    lemma_pow10_monotonic(0, (l - 1) as nat);
    if a[0] >= 1 {
        lemma_scaled_lower(a, l);
    } else {
        assert(a.len() >= 2);
        assert(a.drop_first().last() == a.last());
        lemma_scaled_positive(a.drop_first(), (l - 1) as nat);
        assert((a[0] as nat) * pow10((l - 1) as nat) == 0);
    }
}

/// Digit sequences without trailing zeros, read as `0.a` and `0.b`, are
/// ordered by `order_digit_seqs` as their values are.
pub proof fn lemma_order_digit_seqs_values(a: Seq<u8>, b: Seq<u8>, l: nat)
    requires
        decimal_digits(a),
        decimal_digits(b),
        a.len() <= l,
        b.len() <= l,
        a.len() > 0 ==> a.last() != 0,
        b.len() > 0 ==> b.last() != 0,
    ensures
        order_digit_seqs(a, b) == -1 <==> scaled_digits(a, l) < scaled_digits(b, l),
        order_digit_seqs(a, b) == 0 <==> scaled_digits(a, l) == scaled_digits(b, l),
        order_digit_seqs(a, b) == 1 <==> scaled_digits(a, l) > scaled_digits(b, l),
    decreases a.len(),
{
    if a.len() == 0 {
        if b.len() > 0 {
            lemma_scaled_positive(b, l);
        }
    } else if b.len() == 0 {
        lemma_scaled_positive(a, l);
    } else {
        lemma_decimal_digits_rest(a);
        lemma_decimal_digits_rest(b);
        let p = pow10((l - 1) as nat);
        let ra = scaled_digits(a.drop_first(), (l - 1) as nat);
        let rb = scaled_digits(b.drop_first(), (l - 1) as nat);
        lemma_scaled_upper(a.drop_first(), (l - 1) as nat);
        lemma_scaled_upper(b.drop_first(), (l - 1) as nat);
        let x = a[0] as nat;
        let y = b[0] as nat;
        if x < y {
            assert(x * p + ra < y * p + rb) by (nonlinear_arith)
                requires
                    x < y,
                    ra < p,
            ;
        } else if x > y {
            assert(x * p + ra > y * p + rb) by (nonlinear_arith)
                requires
                    x > y,
                    rb < p,
            ;
        } else {
            if a.len() > 1 {
                assert(a.drop_first().last() == a.last());
            }
            if b.len() > 1 {
                assert(b.drop_first().last() == b.last());
            }
            lemma_order_digit_seqs_values(a.drop_first(), b.drop_first(), (l - 1) as nat);
        }
    }
}

/// Non-negative finite numbers are ordered by their values: with `k`
/// large enough that `x × 10^k` and `y × 10^k` are integers, `order_total`
/// (the order chapter keys are sorted by, and the base of range checks) is
/// `-1`, `0` or `1` exactly as `x × 10^k` is below, equal to or above
/// `y × 10^k`. So `10` comes before `10.5`, which comes before `11`.
pub proof fn lemma_order_total_follows_values(x: NumberValue, y: NumberValue, k: int)
    requires
        is_normal_finite(x),
        is_normal_finite(y),
        !x.negative,
        !y.negative,
        x.exponent + k >= x.digits.len(),
        y.exponent + k >= y.digits.len(),
    ensures
        value_times_pow10(x, k) < value_times_pow10(y, k) <==> order_total(x, y) == -1,
        value_times_pow10(x, k) == value_times_pow10(y, k) <==> order_total(x, y) == 0,
        value_times_pow10(x, k) > value_times_pow10(y, k) <==> order_total(x, y) == 1,
{
    let lx = (x.exponent + k) as nat;
    let ly = (y.exponent + k) as nat;
    let vx = value_times_pow10(x, k);
    let vy = value_times_pow10(y, k);
    if x.digits.len() == 0 && y.digits.len() == 0 {
    } else if x.digits.len() == 0 {
        lemma_scaled_positive(y.digits, ly);
    } else if y.digits.len() == 0 {
        lemma_scaled_positive(x.digits, lx);
    } else if x.exponent < y.exponent {
        lemma_scaled_upper(x.digits, lx);
        lemma_scaled_lower(y.digits, ly);
        lemma_pow10_monotonic(lx, (ly - 1) as nat);
    } else if x.exponent > y.exponent {
        lemma_scaled_upper(y.digits, ly);
        lemma_scaled_lower(x.digits, lx);
        lemma_pow10_monotonic(ly, (lx - 1) as nat);
    } else {
        lemma_order_digit_seqs_values(x.digits, y.digits, lx);
    }
}

/// For non-negative finite numbers in normal form, `number_le` (the range
/// check of chapter numbers) is `<=` on their values, taken as integers
/// after scaling both by `10^k`.
pub proof fn lemma_number_le_follows_values(x: NumberValue, y: NumberValue, k: int)
    requires
        is_normal_finite(x),
        is_normal_finite(y),
        !x.negative,
        !y.negative,
        x.exponent + k >= x.digits.len(),
        y.exponent + k >= y.digits.len(),
    ensures
        number_le(x, y) <==> value_times_pow10(x, k) <= value_times_pow10(y, k),
{
    lemma_order_total_follows_values(x, y, k);
    assert(order_values(x, y) == order_total(x, y));
}

proof fn lemma_strip_leading_shape(d: Seq<u8>)
    ensures
        strip_leading_zeros(d).len() > 0 ==> strip_leading_zeros(d)[0] != 0,
        decimal_digits(d) ==> decimal_digits(strip_leading_zeros(d)),
        strip_leading_zeros(d).len() <= d.len(),
    decreases d.len(),
{
    if d.len() > 0 && d[0] == 0 {
        if decimal_digits(d) {
            lemma_decimal_digits_rest(d);
        }
        lemma_strip_leading_shape(d.drop_first());
    }
}

proof fn lemma_strip_trailing_shape(d: Seq<u8>)
    requires
        d.len() > 0,
        d[0] != 0,
        decimal_digits(d),
    ensures
        strip_trailing_zeros(d).len() > 0,
        strip_trailing_zeros(d)[0] != 0,
        strip_trailing_zeros(d).last() != 0,
        decimal_digits(strip_trailing_zeros(d)),
    decreases d.len(),
{
    if d.last() == 0 {
        assert(d.len() >= 2);
        let t = d.drop_last();
        assert(t[0] == d[0]);
        assert forall|i: int| 0 <= i < t.len() implies #[trigger] t[i] < 10 by {
            assert(t[i] == d[i]);
        }
        lemma_strip_trailing_shape(t);
    }
}

/// `normalise` gives digits without a leading or a trailing zero.
pub proof fn lemma_normalise_normal(d: Seq<u8>, shift: int)
    requires
        decimal_digits(d),
    ensures
        decimal_digits(normalise(d, shift).0),
        normalise(d, shift).0.len() > 0 ==> normalise(d, shift).0[0] != 0
            && normalise(d, shift).0.last() != 0,
{
    lemma_strip_leading_shape(d);
    let d1 = strip_leading_zeros(d);
    if d1.len() > 0 {
        lemma_strip_trailing_shape(d1);
    }
}

/// Every finite number that a text reads as is in normal form.
pub proof fn lemma_read_number_normal(s: Seq<char>)
    ensures
        read_number(s) matches Some(v) ==> (v.kind == NumberKind::Finite ==> is_normal_finite(v)),
{
    let signed = s.len() > 0 && (s[0] == '+' || s[0] == '-');
    let body = if signed {
        s.drop_first()
    } else {
        s
    };
    let b = ascii_lower(body);
    let k = first_index(b, 'e');
    let mant = b.take(k);
    let p = first_index(mant, '.');
    let int_part = mant.take(p);
    let frac = if p < mant.len() {
        mant.skip(p + 1)
    } else {
        Seq::empty()
    };
    let all = int_part + frac;
    if all_digits(int_part) && all_digits(frac) {
        let dv = digit_values(all);
        assert forall|i: int| 0 <= i < dv.len() implies #[trigger] dv[i] < 10 by {
            if i < int_part.len() {
                assert(all[i] == int_part[i]);
                assert(is_ascii_digit_spec(int_part[i]));
            } else {
                assert(all[i] == frac[i - int_part.len()]);
                assert(is_ascii_digit_spec(frac[i - int_part.len()]));
            }
        }
        let exp = if k < b.len() {
            read_exponent(b.skip(k + 1))
        } else {
            Some(0int)
        };
        if exp is Some {
            lemma_normalise_normal(dv, exp->0 - frac.len());
        }
    }
}

pub proof fn lemma_order_digit_seqs_antisymmetric(a: Seq<u8>, b: Seq<u8>)
    ensures
        order_digit_seqs(a, b) == -order_digit_seqs(b, a),
        -1 <= order_digit_seqs(a, b) <= 1,
        order_digit_seqs(a, b) == 0 ==> a == b,
        order_digit_seqs(a, a) == 0,
    decreases a.len(),
{
    if a.len() > 0 && b.len() > 0 && a[0] == b[0] {
        lemma_order_digit_seqs_antisymmetric(a.drop_first(), b.drop_first());
        if order_digit_seqs(a, b) == 0 {
            assert(a =~= seq![a[0]] + a.drop_first());
            assert(b =~= seq![b[0]] + b.drop_first());
        }
    }
    if a.len() > 0 {
        lemma_order_digit_seqs_antisymmetric(a.drop_first(), a.drop_first());
    }
}

pub proof fn lemma_order_digit_seqs_transitive(a: Seq<u8>, b: Seq<u8>, c: Seq<u8>)
    requires
        order_digit_seqs(a, b) <= 0,
        order_digit_seqs(b, c) <= 0,
    ensures
        order_digit_seqs(a, c) <= 0,
    decreases a.len(),
{
    if a.len() > 0 && b.len() > 0 && c.len() > 0 && a[0] == b[0] && b[0] == c[0] {
        lemma_order_digit_seqs_transitive(a.drop_first(), b.drop_first(), c.drop_first());
    }
}

pub proof fn lemma_order_magnitude_antisymmetric(a: NumberValue, b: NumberValue)
    ensures
        order_magnitude(a, b) == -order_magnitude(b, a),
        -1 <= order_magnitude(a, b) <= 1,
{
    lemma_order_digit_seqs_antisymmetric(a.digits, b.digits);
}

pub proof fn lemma_order_magnitude_transitive(a: NumberValue, b: NumberValue, c: NumberValue)
    requires
        order_magnitude(a, b) <= 0,
        order_magnitude(b, c) <= 0,
    ensures
        order_magnitude(a, c) <= 0,
{
    if a.kind != NumberKind::Infinite && b.kind != NumberKind::Infinite && c.kind
        != NumberKind::Infinite && a.digits.len() > 0 && b.digits.len() > 0 && c.digits.len()
        > 0 && a.exponent == b.exponent && b.exponent == c.exponent {
        lemma_order_digit_seqs_transitive(a.digits, b.digits, c.digits);
    }
}

/// The total order of chapter numbers is antisymmetric: swapping the sides
/// negates the comparison, and it only yields `-1`, `0` or `1`.
pub proof fn lemma_order_total_antisymmetric(a: NumberValue, b: NumberValue)
    ensures
        order_total(a, b) == -order_total(b, a),
        -1 <= order_total(a, b) <= 1,
{
    lemma_order_magnitude_antisymmetric(a, b);
}

/// The total order of chapter numbers is transitive.
pub proof fn lemma_order_total_transitive(a: NumberValue, b: NumberValue, c: NumberValue)
    requires
        order_total(a, b) <= 0,
        order_total(b, c) <= 0,
    ensures
        order_total(a, c) <= 0,
{
    if total_class(a) == total_class(b) && total_class(b) == total_class(c) {
        if total_class(a) == 4 {
            lemma_order_magnitude_transitive(a, b, c);
        } else if total_class(a) == 1 {
            lemma_order_magnitude_transitive(c, b, a);
        }
    }
}

/// Comparing by value is transitive: `a <= b` and `b <= c` give `a <= c`.
pub proof fn lemma_number_le_transitive(a: NumberValue, b: NumberValue, c: NumberValue)
    requires
        number_le(a, b),
        number_le(b, c),
    ensures
        number_le(a, c),
{
    if signum(a) == signum(b) && signum(b) == signum(c) {
        if signum(a) > 0 {
            lemma_order_magnitude_transitive(a, b, c);
        } else if signum(a) < 0 {
            lemma_order_magnitude_transitive(c, b, a);
        }
    }
}

fn order_digit_vecs(a: &[u8], b: &[u8]) -> (r: i8)
    ensures
        r as int == order_digit_seqs(a@, b@),
{
    let mut i: usize = 0;
    assert(a@.skip(0) =~= a@);
    assert(b@.skip(0) =~= b@);
    while i < a.len() && i < b.len() && a[i] == b[i]
        invariant
            i <= a@.len(),
            i <= b@.len(),
            order_digit_seqs(a@, b@) == order_digit_seqs(a@.skip(i as int), b@.skip(i as int)),
        decreases a@.len() - i,
    {
        assert(a@.skip(i as int).drop_first() =~= a@.skip(i + 1));
        assert(b@.skip(i as int).drop_first() =~= b@.skip(i + 1));
        i += 1;
    }
    if i == a.len() {
        if i == b.len() {
            0
        } else {
            -1
        }
    } else if i == b.len() {
        1
    } else if a[i] < b[i] {
        -1
    } else {
        1
    }
}

fn order_magnitude_exec(a: &DecimalNumber, b: &DecimalNumber) -> (r: i8)
    ensures
        r as int == order_magnitude(a@, b@),
{
    if a.kind == NumberKind::Infinite {
        if b.kind == NumberKind::Infinite {
            0
        } else {
            1
        }
    } else if b.kind == NumberKind::Infinite {
        -1
    } else if a.digits.len() == 0 {
        if b.digits.len() == 0 {
            0
        } else {
            -1
        }
    } else if b.digits.len() == 0 {
        1
    } else if a.exponent < b.exponent {
        -1
    } else if a.exponent > b.exponent {
        1
    } else {
        order_digit_vecs(a.digits.as_slice(), b.digits.as_slice())
    }
}

fn signum_exec(a: &DecimalNumber) -> (r: i8)
    ensures
        r as int == signum(a@),
{
    if a.kind == NumberKind::Finite && a.digits.len() == 0 {
        0
    } else if a.negative {
        -1
    } else {
        1
    }
}

/// `a <= b` on exact values, with the NaN rule of floats: false whenever
/// either side is NaN; `-0 <= 0` and `0 <= -0`.
pub fn number_le_exec(a: &DecimalNumber, b: &DecimalNumber) -> (r: bool)
    ensures
        r == number_le(a@, b@),
{
    if a.kind == NumberKind::NotANumber || b.kind == NumberKind::NotANumber {
        return false;
    }
    let sa = signum_exec(a);
    let sb = signum_exec(b);
    let c: i8 = if sa < sb {
        -1
    } else if sa > sb {
        1
    } else if sa == 0 {
        0
    } else if sa > 0 {
        order_magnitude_exec(a, b)
    } else {
        order_magnitude_exec(b, a)
    };
    c <= 0
}

fn total_class_exec(a: &DecimalNumber) -> (r: i8)
    ensures
        r as int == total_class(a@),
{
    if a.kind == NumberKind::NotANumber {
        if a.negative {
            0
        } else {
            5
        }
    } else if a.kind == NumberKind::Finite && a.digits.len() == 0 {
        if a.negative {
            2
        } else {
            3
        }
    } else if a.negative {
        1
    } else {
        4
    }
}

/// The order of `f64::total_cmp`, applied to exact values: `-1`, `0` or `1`.
pub fn order_total_exec(a: &DecimalNumber, b: &DecimalNumber) -> (r: i8)
    ensures
        r as int == order_total(a@, b@),
{
    let ca = total_class_exec(a);
    let cb = total_class_exec(b);
    if ca < cb {
        -1
    } else if ca > cb {
        1
    } else if ca == 4 {
        order_magnitude_exec(a, b)
    } else if ca == 1 {
        order_magnitude_exec(b, a)
    } else {
        0
    }
}

} // verus!

verus! {

// ---------------------------------------------------------------------------
// Unsigned integers
// ---------------------------------------------------------------------------

/// What `str::parse` of an unsigned integer type reads: an optional `+`, then
/// at least one decimal digit, and nothing else (before the range check).
pub open spec fn unsigned_text_value(s: Seq<char>) -> Option<nat> {
    let ds = if s.len() > 0 && s[0] == '+' {
        s.drop_first()
    } else {
        s
    };
    if ds.len() >= 1 && all_digits(ds) {
        Some(digits_value(ds))
    } else {
        None
    }
}

/// The decimal text of a number reads back as that number.
pub proof fn lemma_dec_text_value(n: nat)
    ensures
        unsigned_text_value(dec_text(n)) == Some(n),
        all_digits(dec_text(n)),
        dec_text(n).len() >= 1,
    decreases n,
{
    let t = dec_text(n);
    let c = digit_char(n % 10);
    assert(digit_of(c) == n % 10);
    assert(t.last() == c);
    if n < 10 {
        assert(t.drop_last() =~= Seq::<char>::empty());
        assert(digits_value(t) == digits_value(t.drop_last()) * 10 + (digit_of(c) as nat));
        assert(digits_value(t) == n);
    } else {
        lemma_dec_text_value(n / 10);
        assert(t.drop_last() =~= dec_text(n / 10));
        assert(digits_value(t) == digits_value(t.drop_last()) * 10 + (digit_of(c) as nat));
        assert(digits_value(t) == n);
        assert forall|i: int| 0 <= i < t.len() implies is_ascii_digit_spec(#[trigger] t[i]) by {
            if i < t.len() - 1 {
                assert(t[i] == dec_text(n / 10)[i]);
            }
        }
    }
    assert(t[0] != '+');
}

/// `str::parse::<usize>` from std: an optional `+` followed by decimal digits,
/// whose value fits in `usize`; anything else is a `ParseIntError`.
#[verifier::external_body]
pub(crate) fn parse_usize(s: &str) -> (r: Result<usize, std::num::ParseIntError>)
    ensures
        r is Ok <==> (unsigned_text_value(s@) matches Some(v) && v <= usize::MAX),
        r matches Ok(n) ==> unsigned_text_value(s@) == Some(n as nat),
{
    s.parse::<usize>()
}

/// `str::parse::<u64>` from std: an optional `+` followed by decimal digits,
/// whose value fits in `u64`; anything else is a `ParseIntError`.
#[verifier::external_body]
pub(crate) fn parse_u64(s: &str) -> (r: Result<u64, std::num::ParseIntError>)
    ensures
        r is Ok <==> (unsigned_text_value(s@) matches Some(v) && v <= u64::MAX),
        r matches Ok(n) ==> unsigned_text_value(s@) == Some(n as nat),
{
    s.parse::<u64>()
}

} // verus!
