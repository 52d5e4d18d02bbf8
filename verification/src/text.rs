//! Character-level text handling shared by the parsers and name builders.
//!
//! Texts are modelled as `Seq<char>`; the executable side works on
//! `Vec<char>` and turns the result into a `String` at the end.

use vstd::prelude::*;

verus! {

// ---------------------------------------------------------------------------
// Character classes
// ---------------------------------------------------------------------------

/// Unicode `White_Space` characters, as `char::is_whitespace` recognises them.
pub open spec fn is_ws(c: char) -> bool {
    ||| '\u{9}' <= c <= '\u{d}'
    ||| c == ' '
    ||| c == '\u{85}'
    ||| c == '\u{a0}'
    ||| c == '\u{1680}'
    ||| '\u{2000}' <= c <= '\u{200a}'
    ||| c == '\u{2028}'
    ||| c == '\u{2029}'
    ||| c == '\u{202f}'
    ||| c == '\u{205f}'
    ||| c == '\u{3000}'
}

/// Control characters (general category `Cc`), as `char::is_control` recognises them.
pub open spec fn is_cc(c: char) -> bool {
    c <= '\u{1f}' || ('\u{7f}' <= c && c <= '\u{9f}')
}

pub open spec fn is_ascii_digit_spec(c: char) -> bool {
    '0' <= c <= '9'
}

pub open spec fn is_ascii_alnum_spec(c: char) -> bool {
    ||| '0' <= c <= '9'
    ||| 'a' <= c <= 'z'
    ||| 'A' <= c <= 'Z'
}

pub open spec fn lower_char(c: char) -> char {
    if 'A' <= c <= 'Z' {
        ((c as u32) + 32) as char
    } else {
        c
    }
}

pub open spec fn upper_char(c: char) -> char {
    if 'a' <= c <= 'z' {
        ((c as u32) - 32) as char
    } else {
        c
    }
}

pub open spec fn ascii_lower(s: Seq<char>) -> Seq<char> {
    s.map_values(|c: char| lower_char(c))
}

pub open spec fn ascii_upper(s: Seq<char>) -> Seq<char> {
    s.map_values(|c: char| upper_char(c))
}

pub fn is_whitespace(c: char) -> (r: bool)
    ensures
        r == is_ws(c),
{
    ('\u{9}' <= c && c <= '\u{d}') || c == ' ' || c == '\u{85}' || c == '\u{a0}' || c
        == '\u{1680}' || ('\u{2000}' <= c && c <= '\u{200a}') || c == '\u{2028}' || c
        == '\u{2029}' || c == '\u{202f}' || c == '\u{205f}' || c == '\u{3000}'
}

pub fn is_control(c: char) -> (r: bool)
    ensures
        r == is_cc(c),
{
    c <= '\u{1f}' || ('\u{7f}' <= c && c <= '\u{9f}')
}

pub fn is_ascii_digit(c: char) -> (r: bool)
    ensures
        r == is_ascii_digit_spec(c),
{
    '0' <= c && c <= '9'
}

pub fn is_ascii_alphanumeric(c: char) -> (r: bool)
    ensures
        r == is_ascii_alnum_spec(c),
{
    ('0' <= c && c <= '9') || ('a' <= c && c <= 'z') || ('A' <= c && c <= 'Z')
}

pub fn to_lower_char(c: char) -> (r: char)
    ensures
        r == lower_char(c),
{
    if 'A' <= c && c <= 'Z' {
        let code: u32 = (c as u32) + 32;
        assert(code <= 0x7a);
        char_from_ascii(code)
    } else {
        c
    }
}

pub fn to_upper_char(c: char) -> (r: char)
    ensures
        r == upper_char(c),
{
    if 'a' <= c && c <= 'z' {
        let code: u32 = (c as u32) - 32;
        char_from_ascii(code)
    } else {
        c
    }
}

/// The character of an ASCII code point.
fn char_from_ascii(code: u32) -> (c: char)
    requires
        code < 0x80,
    ensures
        c == code as char,
{
    let b: u8 = code as u8;
    b as char
}

// ---------------------------------------------------------------------------
// Conversions between `str`, `String` and `Vec<char>`
// ---------------------------------------------------------------------------

/// The characters of a string slice, in order.
pub fn chars_of(s: &str) -> (v: Vec<char>)
    ensures
        v@ == s@,
{
    let mut v: Vec<char> = Vec::new();
    for c in it: s.chars()
        invariant
            v@ == it.seq().take(it.index() as int),
            it.seq() == s@,
    {
        v.push(c);
    }
    v
}

/// `String::push` from std: appends one character.
#[verifier::external_body]
fn push_char(s: &mut String, c: char)
    ensures
        final(s)@ == old(s)@.push(c),
{
    s.push(c);
}

/// Builds a string from a sequence of characters.
pub fn string_from_chars(v: &[char]) -> (s: String)
    ensures
        s@ == v@,
{
    let mut s = String::new();
    let mut i: usize = 0;
    while i < v.len()
        invariant
            i <= v@.len(),
            s@ == v@.take(i as int),
        decreases v@.len() - i,
    {
        push_char(&mut s, v[i]);
        assert(v@.take(i as int).push(v@[i as int]) =~= v@.take(i + 1));
        i += 1;
    }
    assert(v@.take(v@.len() as int) =~= v@);
    s
}

/// Appends all characters of `t` to `v`.
pub fn push_all(v: &mut Vec<char>, t: &[char])
    ensures
        final(v)@ == old(v)@ + t@,
{
    let mut i: usize = 0;
    while i < t.len()
        invariant
            i <= t@.len(),
            v@ == old(v)@ + t@.take(i as int),
        decreases t@.len() - i,
    {
        v.push(t[i]);
        assert(t@.take(i as int).push(t@[i as int]) =~= t@.take(i + 1));
        assert((old(v)@ + t@.take(i as int)).push(t@[i as int]) =~= old(v)@ + t@.take(i + 1));
        i += 1;
    }
    assert(t@.take(t@.len() as int) =~= t@);
}

/// Appends all characters of the string slice `t` to `v`.
pub fn push_str(v: &mut Vec<char>, t: &str)
    ensures
        final(v)@ == old(v)@ + t@,
{
    let cs = chars_of(t);
    push_all(v, cs.as_slice());
}

/// A copy of a slice of characters.
pub fn copy_chars(t: &[char]) -> (v: Vec<char>)
    ensures
        v@ == t@,
{
    let mut v: Vec<char> = Vec::new();
    push_all(&mut v, t);
    assert(Seq::<char>::empty() + t@ =~= t@);
    v
}

/// The characters from position `from` up to (not including) `to`.
pub fn slice_chars(t: &[char], from: usize, to: usize) -> (v: Vec<char>)
    requires
        from <= to <= t@.len(),
    ensures
        v@ == t@.subrange(from as int, to as int),
{
    let mut v: Vec<char> = Vec::new();
    let mut i: usize = from;
    while i < to
        invariant
            from <= i <= to <= t@.len(),
            v@ == t@.subrange(from as int, i as int),
        decreases to - i,
    {
        v.push(t[i]);
        assert(t@.subrange(from as int, i as int).push(t@[i as int]) =~= t@.subrange(
            from as int,
            i + 1,
        ));
        i += 1;
    }
    v
}

/// Whether two character sequences are equal.
pub fn same_chars(a: &[char], b: &[char]) -> (r: bool)
    ensures
        r == (a@ == b@),
{
    if a.len() != b.len() {
        return false;
    }
    let mut i: usize = 0;
    while i < a.len()
        invariant
            a@.len() == b@.len(),
            i <= a@.len(),
            forall|k: int| 0 <= k < i ==> a@[k] == b@[k],
        decreases a@.len() - i,
    {
        if a[i] != b[i] {
            return false;
        }
        i += 1;
    }
    assert(a@ =~= b@);
    true
}

/// Whether a character sequence equals a string slice.
pub fn chars_eq_str(a: &[char], b: &str) -> (r: bool)
    ensures
        r == (a@ == b@),
{
    let bc = chars_of(b);
    same_chars(a, bc.as_slice())
}

// ---------------------------------------------------------------------------
// Searching
// ---------------------------------------------------------------------------

/// Index of the first occurrence of `c` in `s`, or `s.len()` when there is none.
pub open spec fn first_index(s: Seq<char>, c: char) -> int
    decreases s.len(),
{
    if s.len() == 0 {
        0
    } else if s[0] == c {
        0
    } else {
        1 + first_index(s.drop_first(), c)
    }
}

/// Index of the last occurrence of `c` in `s`, if any.
pub open spec fn last_index(s: Seq<char>, c: char) -> Option<int>
    decreases s.len(),
{
    if s.len() == 0 {
        None
    } else if s.last() == c {
        Some(s.len() - 1)
    } else {
        last_index(s.drop_last(), c)
    }
}

pub proof fn lemma_first_index(s: Seq<char>, c: char)
    ensures
        0 <= first_index(s, c) <= s.len(),
        forall|k: int| 0 <= k < first_index(s, c) ==> s[k] != c,
        first_index(s, c) < s.len() ==> s[first_index(s, c)] == c,
        first_index(s, c) == s.len() <==> !s.contains(c),
    decreases s.len(),
{
    if s.len() > 0 && s[0] != c {
        lemma_first_index(s.drop_first(), c);
        assert forall|k: int| 0 <= k < first_index(s, c) implies s[k] != c by {
            if k > 0 {
                assert(s[k] == s.drop_first()[k - 1]);
            }
        }
        if s.contains(c) {
            let j = choose|j: int| 0 <= j < s.len() && s[j] == c;
            assert(s.drop_first()[j - 1] == c);
        }
        if first_index(s, c) < s.len() {
            assert(s.drop_first().contains(c));
        }
    }
    if s.len() > 0 && s[0] == c {
        assert(s.contains(c));
    }
}

pub proof fn lemma_last_index(s: Seq<char>, c: char)
    ensures
        last_index(s, c) is Some <==> s.contains(c),
        last_index(s, c) matches Some(i) ==> 0 <= i < s.len() && s[i] == c && forall|k: int|
            i < k < s.len() ==> s[k] != c,
    decreases s.len(),
{
    if s.len() > 0 && s.last() != c {
        lemma_last_index(s.drop_last(), c);
        if let Some(i) = last_index(s, c) {
            assert(s[i] == s.drop_last()[i]);
            assert forall|k: int| i < k < s.len() implies s[k] != c by {
                if k < s.len() - 1 {
                    assert(s[k] == s.drop_last()[k]);
                }
            }
        }
        if s.contains(c) {
            let j = choose|j: int| 0 <= j < s.len() && s[j] == c;
            assert(s.drop_last()[j] == c);
        }
        if s.drop_last().contains(c) {
            let j = choose|j: int| 0 <= j < s.drop_last().len() && s.drop_last()[j] == c;
            assert(s[j] == c);
        }
    }
    if s.len() > 0 && s.last() == c {
        assert(s[s.len() - 1] == c);
    }
}

/// Position of the first `c` in `s`, or `s.len()`.
pub fn find_char(s: &[char], c: char) -> (r: usize)
    ensures
        r == first_index(s@, c),
{
    proof {
        lemma_first_index(s@, c);
    }
    let mut i: usize = 0;
    while i < s.len()
        invariant
            i <= s@.len(),
            forall|k: int| 0 <= k < i ==> s@[k] != c,
            0 <= first_index(s@, c) <= s@.len(),
            forall|k: int| 0 <= k < first_index(s@, c) ==> s@[k] != c,
            first_index(s@, c) < s@.len() ==> s@[first_index(s@, c)] == c,
        decreases s@.len() - i,
    {
        if s[i] == c {
            return i;
        }
        i += 1;
    }
    i
}

/// Position of the last `c` in `s`, if any.
pub fn rfind_char(s: &[char], c: char) -> (r: Option<usize>)
    ensures
        r matches Some(i) ==> last_index(s@, c) == Some(i as int) && i < s@.len(),
        r is None ==> last_index(s@, c) is None,
{
    proof {
        lemma_last_index(s@, c);
    }
    let mut i: usize = s.len();
    while i > 0
        invariant
            i <= s@.len(),
            forall|k: int| i <= k < s@.len() ==> s@[k] != c,
        decreases i,
    {
        if s[i - 1] == c {
            proof {
                lemma_last_index(s@, c);
                match last_index(s@, c) {
                    Some(j) => {
                        if j != i - 1 {
                            assert(s@[j] == c);
                        }
                    },
                    None => {
                        assert(s@.contains(c));
                    },
                }
            }
            return Some(i - 1);
        }
        i -= 1;
    }
    proof {
        if s@.contains(c) {
            let j = choose|j: int| 0 <= j < s@.len() && s@[j] == c;
            assert(s@[j] != c);
        }
    }
    None
}

/// Whether `c` occurs in `s`.
pub fn contains_char(s: &[char], c: char) -> (r: bool)
    ensures
        r == s@.contains(c),
{
    proof {
        lemma_first_index(s@, c);
    }
    find_char(s, c) < s.len()
}

// ---------------------------------------------------------------------------
// Trimming
// ---------------------------------------------------------------------------

/// The character classes that names are trimmed by.
#[derive(Clone, Copy, Debug, PartialEq, Eq, Structural)]
pub enum CharClass {
    /// Unicode white space, as `str::trim` strips it.
    Whitespace,
    /// A space or a full stop, as `trim_matches([' ', '.'])` strips them.
    SpaceOrDot,
    /// A slash, as `trim_end_matches('/')` strips it.
    Slash,
}

pub open spec fn in_class(cls: CharClass, c: char) -> bool {
    match cls {
        CharClass::Whitespace => is_ws(c),
        CharClass::SpaceOrDot => c == ' ' || c == '.',
        CharClass::Slash => c == '/',
    }
}

pub fn is_in_class(cls: CharClass, c: char) -> (r: bool)
    ensures
        r == in_class(cls, c),
{
    match cls {
        CharClass::Whitespace => is_whitespace(c),
        CharClass::SpaceOrDot => c == ' ' || c == '.',
        CharClass::Slash => c == '/',
    }
}

/// `s` without its leading characters of class `cls`.
pub open spec fn strip_start(s: Seq<char>, cls: CharClass) -> Seq<char>
    decreases s.len(),
{
    if s.len() > 0 && in_class(cls, s[0]) {
        strip_start(s.drop_first(), cls)
    } else {
        s
    }
}

/// `s` without its trailing characters of class `cls`.
pub open spec fn strip_end(s: Seq<char>, cls: CharClass) -> Seq<char>
    decreases s.len(),
{
    if s.len() > 0 && in_class(cls, s.last()) {
        strip_end(s.drop_last(), cls)
    } else {
        s
    }
}

/// `s` without leading and trailing characters of class `cls`.
pub open spec fn strip(s: Seq<char>, cls: CharClass) -> Seq<char> {
    strip_end(strip_start(s, cls), cls)
}

/// `str::trim`: `s` without leading and trailing white space.
pub open spec fn trim(s: Seq<char>) -> Seq<char> {
    strip(s, CharClass::Whitespace)
}

pub proof fn lemma_strip_start_skip(s: Seq<char>, cls: CharClass, i: int)
    requires
        0 <= i <= s.len(),
        forall|k: int| 0 <= k < i ==> in_class(cls, #[trigger] s[k]),
    ensures
        strip_start(s, cls) == strip_start(s.skip(i), cls),
    decreases i,
{
    if i > 0 {
        assert(in_class(cls, s[0]));
        let t = s.drop_first();
        assert forall|k: int| 0 <= k < i - 1 implies in_class(cls, #[trigger] t[k]) by {
            assert(t[k] == s[k + 1]);
        }
        lemma_strip_start_skip(t, cls, i - 1);
        assert(t.skip(i - 1) =~= s.skip(i));
    } else {
        assert(s.skip(0) =~= s);
    }
}

pub proof fn lemma_strip_end_take(s: Seq<char>, cls: CharClass, j: int)
    requires
        0 <= j <= s.len(),
        forall|k: int| j <= k < s.len() ==> in_class(cls, #[trigger] s[k]),
    ensures
        strip_end(s, cls) == strip_end(s.take(j), cls),
    decreases s.len() - j,
{
    if j < s.len() {
        assert(in_class(cls, s.last()));
        let t = s.drop_last();
        lemma_strip_end_take(t, cls, j);
        assert(t.take(j) =~= s.take(j));
    } else {
        assert(s.take(j) =~= s);
    }
}

pub proof fn lemma_strip_start_shape(s: Seq<char>, cls: CharClass)
    ensures
        strip_start(s, cls).len() == 0 || !in_class(cls, strip_start(s, cls)[0]),
        strip_start(s, cls).is_suffix_of(s),
    decreases s.len(),
{
    if s.len() > 0 && in_class(cls, s[0]) {
        lemma_strip_start_shape(s.drop_first(), cls);
        let r = strip_start(s, cls);
        assert forall|k: int| 0 <= k < r.len() implies r[k] == s[s.len() - r.len() + k] by {
            assert(s.drop_first()[s.drop_first().len() - r.len() + k] == s[s.len() - r.len()
                + k]);
        }
    }
}

pub proof fn lemma_strip_end_shape(s: Seq<char>, cls: CharClass)
    ensures
        strip_end(s, cls).len() == 0 || !in_class(cls, strip_end(s, cls).last()),
        strip_end(s, cls).is_prefix_of(s),
    decreases s.len(),
{
    if s.len() > 0 && in_class(cls, s.last()) {
        lemma_strip_end_shape(s.drop_last(), cls);
    }
}

/// Every character of `strip(s, cls)` is a character of `s`.
pub proof fn lemma_strip_chars_from(s: Seq<char>, cls: CharClass)
    ensures
        forall|i: int|
            0 <= i < strip(s, cls).len() ==> s.contains(#[trigger] strip(s, cls)[i]),
{
    let t = strip_start(s, cls);
    lemma_strip_start_shape(s, cls);
    lemma_strip_end_shape(t, cls);
    assert forall|i: int| 0 <= i < strip(s, cls).len() implies s.contains(
        #[trigger] strip(s, cls)[i],
    ) by {
        let r = strip(s, cls);
        assert(r[i] == t[i]);
        assert(t[i] == s[s.len() - t.len() + i]);
    }
}

/// A text that neither starts nor ends with white space is its own trim.
pub proof fn lemma_trim_unchanged(s: Seq<char>)
    requires
        s.len() > 0 ==> !is_ws(s[0]) && !is_ws(s.last()),
    ensures
        trim(s) == s,
{
    assert(strip_start(s, CharClass::Whitespace) == s);
}

/// White space around a text that neither starts nor ends with white space
/// is what `trim` removes.
pub proof fn lemma_trim_padded(left: Seq<char>, x: Seq<char>, right: Seq<char>)
    requires
        x.len() > 0,
        !is_ws(x[0]),
        !is_ws(x.last()),
        forall|i: int| 0 <= i < left.len() ==> is_ws(#[trigger] left[i]),
        forall|i: int| 0 <= i < right.len() ==> is_ws(#[trigger] right[i]),
    ensures
        trim(left + x + right) == x,
{
    let s = left + x + right;
    let cls = CharClass::Whitespace;
    assert forall|k: int| 0 <= k < left.len() implies in_class(cls, #[trigger] s[k]) by {
        assert(s[k] == left[k]);
    }
    lemma_strip_start_skip(s, cls, left.len() as int);
    let xr = x + right;
    assert(s.skip(left.len() as int) =~= xr);
    assert(xr[0] == x[0]);
    assert(strip_start(xr, cls) == xr);
    assert forall|k: int| x.len() <= k < xr.len() implies in_class(cls, #[trigger] xr[k]) by {
        assert(xr[k] == right[k - x.len()]);
    }
    lemma_strip_end_take(xr, cls, x.len() as int);
    assert(xr.take(x.len() as int) =~= x);
}

/// `s` without leading and trailing characters of class `cls`.
pub fn strip_chars(s: &[char], cls: CharClass) -> (r: Vec<char>)
    ensures
        r@ == strip(s@, cls),
{
    let n = s.len();
    let mut i: usize = 0;
    while i < n && is_in_class(cls, s[i])
        invariant
            n == s@.len(),
            i <= n,
            forall|k: int| 0 <= k < i ==> in_class(cls, #[trigger] s@[k]),
        decreases n - i,
    {
        i += 1;
    }
    proof {
        lemma_strip_start_skip(s@, cls, i as int);
        assert(strip_start(s@.skip(i as int), cls) == s@.skip(i as int));
    }
    let mut j: usize = n;
    while j > i && is_in_class(cls, s[j - 1])
        invariant
            n == s@.len(),
            i <= j <= n,
            forall|k: int| j <= k < n ==> in_class(cls, #[trigger] s@[k]),
        decreases j,
    {
        j -= 1;
    }
    proof {
        let t = s@.skip(i as int);
        assert forall|k: int| j - i <= k < t.len() implies in_class(cls, #[trigger] t[k]) by {
            assert(t[k] == s@[k + i]);
        }
        lemma_strip_end_take(t, cls, j - i);
        assert(t.take(j - i) =~= s@.subrange(i as int, j as int));
        if j > i {
            assert(s@.subrange(i as int, j as int).last() == s@[j - 1]);
        }
    }
    slice_chars(s, i, j)
}

/// `s` without its trailing characters of class `cls` (`trim_end_matches`).
pub fn strip_end_chars(s: &[char], cls: CharClass) -> (r: Vec<char>)
    ensures
        r@ == strip_end(s@, cls),
{
    let n = s.len();
    let mut j: usize = n;
    while j > 0 && is_in_class(cls, s[j - 1])
        invariant
            n == s@.len(),
            j <= n,
            forall|k: int| j <= k < n ==> in_class(cls, #[trigger] s@[k]),
        decreases j,
    {
        j -= 1;
    }
    proof {
        lemma_strip_end_take(s@, cls, j as int);
        if j > 0 {
            assert(s@.take(j as int).last() == s@[j - 1]);
        }
    }
    slice_chars(s, 0, j)
}

/// `str::trim` on a sequence of characters.
pub fn trim_chars(s: &[char]) -> (r: Vec<char>)
    ensures
        r@ == trim(s@),
{
    strip_chars(s, CharClass::Whitespace)
}

/// `str::trim` on a string slice, as characters.
pub fn trim_str(s: &str) -> (r: Vec<char>)
    ensures
        r@ == trim(s@),
{
    let cs = chars_of(s);
    trim_chars(cs.as_slice())
}

// ---------------------------------------------------------------------------
// Case mapping
// ---------------------------------------------------------------------------

/// `to_ascii_lowercase` on a sequence of characters.
pub fn lower_chars(s: &[char]) -> (r: Vec<char>)
    ensures
        r@ == ascii_lower(s@),
{
    let mut r: Vec<char> = Vec::new();
    let mut i: usize = 0;
    while i < s.len()
        invariant
            i <= s@.len(),
            r@ == ascii_lower(s@.take(i as int)),
        decreases s@.len() - i,
    {
        r.push(to_lower_char(s[i]));
        assert(ascii_lower(s@.take(i + 1)) =~= ascii_lower(s@.take(i as int)).push(
            lower_char(s@[i as int]),
        ));
        i += 1;
    }
    assert(s@.take(s@.len() as int) =~= s@);
    r
}

/// `to_ascii_uppercase` on a sequence of characters.
pub fn upper_chars(s: &[char]) -> (r: Vec<char>)
    ensures
        r@ == ascii_upper(s@),
{
    let mut r: Vec<char> = Vec::new();
    let mut i: usize = 0;
    while i < s.len()
        invariant
            i <= s@.len(),
            r@ == ascii_upper(s@.take(i as int)),
        decreases s@.len() - i,
    {
        r.push(to_upper_char(s[i]));
        assert(ascii_upper(s@.take(i + 1)) =~= ascii_upper(s@.take(i as int)).push(
            upper_char(s@[i as int]),
        ));
        i += 1;
    }
    assert(s@.take(s@.len() as int) =~= s@);
    r
}

// ---------------------------------------------------------------------------
// Text order
// ---------------------------------------------------------------------------

/// Lexicographic order of texts by code point (the order of `String`):
/// `-1`, `0` or `1`.
pub open spec fn order_text(a: Seq<char>, b: Seq<char>) -> int
    decreases a.len(),
{
    if a.len() == 0 {
        if b.len() == 0 {
            0
        } else {
            -1
        }
    } else if b.len() == 0 {
        1
    } else if a[0] < b[0] {
        -1
    } else if a[0] > b[0] {
        1
    } else {
        order_text(a.drop_first(), b.drop_first())
    }
}

/// Swapping two texts negates their order.
pub proof fn lemma_order_text_antisymmetric(a: Seq<char>, b: Seq<char>)
    ensures
        order_text(a, b) == -order_text(b, a),
        -1 <= order_text(a, b) <= 1,
    decreases a.len(),
{
    if a.len() > 0 && b.len() > 0 && a[0] == b[0] {
        lemma_order_text_antisymmetric(a.drop_first(), b.drop_first());
    }
}

/// The order of texts is transitive.
pub proof fn lemma_order_text_transitive(a: Seq<char>, b: Seq<char>, c: Seq<char>)
    requires
        order_text(a, b) <= 0,
        order_text(b, c) <= 0,
    ensures
        order_text(a, c) <= 0,
    decreases a.len(),
{
    if a.len() > 0 && b.len() > 0 && c.len() > 0 && a[0] == b[0] && b[0] == c[0] {
        lemma_order_text_transitive(a.drop_first(), b.drop_first(), c.drop_first());
    }
}

/// A common prefix does not change the order of two texts.
pub proof fn lemma_order_text_common_prefix(p: Seq<char>, x: Seq<char>, y: Seq<char>)
    ensures
        order_text(p + x, p + y) == order_text(x, y),
    decreases p.len(),
{
    if p.len() > 0 {
        assert((p + x).drop_first() =~= p.drop_first() + x);
        assert((p + y).drop_first() =~= p.drop_first() + y);
        lemma_order_text_common_prefix(p.drop_first(), x, y);
    } else {
        assert(p + x =~= x);
        assert(p + y =~= y);
    }
}

/// Two texts of equal length keep their order whatever follows them.
pub proof fn lemma_order_text_extend(a: Seq<char>, b: Seq<char>, x: Seq<char>, y: Seq<char>)
    requires
        a.len() == b.len(),
        order_text(a, b) == -1,
    ensures
        order_text(a + x, b + y) == -1,
    decreases a.len(),
{
    if a.len() > 0 && a[0] == b[0] {
        assert((a + x).drop_first() =~= a.drop_first() + x);
        assert((b + y).drop_first() =~= b.drop_first() + y);
        lemma_order_text_extend(a.drop_first(), b.drop_first(), x, y);
    }
}

// ---------------------------------------------------------------------------
// Numbers as text
// ---------------------------------------------------------------------------

pub open spec fn digit_char(d: nat) -> char {
    ((d % 10) + 48) as char
}

/// Decimal representation of `n`, without leading zeros (`"0"` for zero).
pub open spec fn dec_text(n: nat) -> Seq<char>
    decreases n,
{
    if n < 10 {
        seq![digit_char(n)]
    } else {
        dec_text(n / 10).push(digit_char(n % 10))
    }
}

pub proof fn lemma_dec_text_len(n: nat)
    ensures
        dec_text(n).len() >= 1,
    decreases n,
{
    if n >= 10 {
        lemma_dec_text_len(n / 10);
    }
}

/// `char::from_digit` on a decimal digit.
fn digit_to_char(d: u64) -> (c: char)
    requires
        d < 10,
    ensures
        c == digit_char(d as nat),
{
    let code: u32 = (d as u32) + 48;
    char_from_ascii(code)
}

/// Decimal representation of `n`, as `n.to_string()` gives it.
pub fn u64_text(n: u64) -> (r: Vec<char>)
    ensures
        r@ == dec_text(n as nat),
    decreases n,
{
    if n < 10 {
        let mut r: Vec<char> = Vec::new();
        r.push(digit_to_char(n));
        assert(r@ =~= seq![digit_char(n as nat)]);
        r
    } else {
        let mut r = u64_text(n / 10);
        r.push(digit_to_char(n % 10));
        assert(digit_char((n % 10) as nat) == digit_char((n as nat) % 10));
        r
    }
}

/// Decimal representation of `n`, as `n.to_string()` gives it.
pub fn usize_text(n: usize) -> (r: Vec<char>)
    ensures
        r@ == dec_text(n as nat),
{
    u64_text(n as u64)
}

/// `n` as a decimal text, left-padded with `'0'` to at least `width` characters
/// (the `{n:0width$}` format).
pub open spec fn zero_padded(n: nat, width: nat) -> Seq<char> {
    let t = dec_text(n);
    if t.len() >= width {
        t
    } else {
        Seq::new((width - t.len()) as nat, |i: int| '0') + t
    }
}

/// The last `width` decimal digits of `n`, with leading zeros.
pub open spec fn fixed_digits(n: nat, width: nat) -> Seq<char>
    decreases width,
{
    if width == 0 {
        Seq::empty()
    } else {
        fixed_digits(n / 10, (width - 1) as nat).push(digit_char(n % 10))
    }
}

proof fn lemma_fixed_digits_len(n: nat, width: nat)
    ensures
        fixed_digits(n, width).len() == width,
    decreases width,
{
    if width > 0 {
        lemma_fixed_digits_len(n / 10, (width - 1) as nat);
    }
}

proof fn lemma_fixed_digits_zero(width: nat)
    ensures
        fixed_digits(0, width) == Seq::new(width, |i: int| '0'),
    decreases width,
{
    if width > 0 {
        lemma_fixed_digits_zero((width - 1) as nat);
        assert(fixed_digits(0, width) =~= Seq::new(width, |i: int| '0'));
    }
}

/// A number shorter than the width, zero-padded, is its fixed-width digits.
proof fn lemma_zero_padded_fixed(n: nat, width: nat)
    requires
        dec_text(n).len() <= width,
    ensures
        zero_padded(n, width) == fixed_digits(n, width),
    decreases n,
{
    lemma_dec_text_len(n);
    if n < 10 {
        lemma_fixed_digits_zero((width - 1) as nat);
        assert(zero_padded(n, width) =~= fixed_digits(n, width));
    } else {
        lemma_zero_padded_fixed(n / 10, (width - 1) as nat);
        lemma_dec_text_len(n / 10);
        assert(zero_padded(n, width) =~= fixed_digits(n, width));
    }
}

/// A larger number never has a shorter decimal text.
pub proof fn lemma_dec_text_len_monotonic(m: nat, n: nat)
    requires
        m <= n,
    ensures
        dec_text(m).len() <= dec_text(n).len(),
    decreases n,
{
    lemma_dec_text_len(n);
    if n >= 10 && m >= 10 {
        lemma_dec_text_len_monotonic(m / 10, n / 10);
    }
}

proof fn lemma_fixed_digits_order(m: nat, n: nat, width: nat)
    requires
        m < n,
        dec_text(n).len() <= width,
    ensures
        order_text(fixed_digits(m, width), fixed_digits(n, width)) == -1,
    decreases width,
{
    lemma_dec_text_len(n);
    let w1 = (width - 1) as nat;
    lemma_fixed_digits_len(m / 10, w1);
    lemma_fixed_digits_len(n / 10, w1);
    let dm = seq![digit_char(m % 10)];
    let dn = seq![digit_char(n % 10)];
    assert(fixed_digits(m, width) =~= fixed_digits(m / 10, w1) + dm);
    assert(fixed_digits(n, width) =~= fixed_digits(n / 10, w1) + dn);
    if m / 10 == n / 10 {
        lemma_order_text_common_prefix(fixed_digits(m / 10, w1), dm, dn);
        assert(dm.drop_first() =~= Seq::<char>::empty());
    } else {
        lemma_dec_text_len(n / 10);
        lemma_fixed_digits_order(m / 10, n / 10, w1);
        lemma_order_text_extend(fixed_digits(m / 10, w1), fixed_digits(n / 10, w1), dm, dn);
    }
}

/// Zero-padded to a common width that the larger fits in, the texts of two
/// numbers sort as the numbers do.
pub proof fn lemma_zero_padded_order(m: nat, n: nat, width: nat)
    requires
        m < n,
        dec_text(n).len() <= width,
    ensures
        zero_padded(m, width).len() == width,
        zero_padded(n, width).len() == width,
        order_text(zero_padded(m, width), zero_padded(n, width)) == -1,
{
    lemma_dec_text_len_monotonic(m, n);
    lemma_zero_padded_fixed(m, width);
    lemma_zero_padded_fixed(n, width);
    lemma_fixed_digits_len(m, width);
    lemma_fixed_digits_len(n, width);
    lemma_fixed_digits_order(m, n, width);
}

} // verus!

verus! {

// ---------------------------------------------------------------------------
// White space collapsing
// ---------------------------------------------------------------------------

/// The words of `s` (maximal runs of non-white-space characters) joined by a
/// single space: `s.split_whitespace().collect::<Vec<_>>().join(" ")`.
pub open spec fn collapse_ws(s: Seq<char>) -> Seq<char>
    decreases s.len(),
{
    if s.len() == 0 {
        Seq::empty()
    } else {
        let p = collapse_ws(s.drop_last());
        let c = s.last();
        if is_ws(c) {
            p
        } else if s.len() > 1 && !is_ws(s[s.len() - 2]) {
            p.push(c)
        } else if p.len() == 0 {
            p.push(c)
        } else {
            p.push(' ').push(c)
        }
    }
}

/// `split_whitespace` followed by `join(" ")`.
pub fn collapse_whitespace(s: &[char]) -> (r: Vec<char>)
    ensures
        r@ == collapse_ws(s@),
{
    let mut r: Vec<char> = Vec::new();
    let mut i: usize = 0;
    while i < s.len()
        invariant
            i <= s@.len(),
            r@ == collapse_ws(s@.take(i as int)),
        decreases s@.len() - i,
    {
        let c = s[i];
        let ghost t = s@.take(i + 1);
        assert(t.drop_last() =~= s@.take(i as int));
        assert(t.last() == c);
        if is_whitespace(c) {
        } else if i > 0 && !is_whitespace(s[i - 1]) {
            assert(t[t.len() - 2] == s@[i - 1]);
            r.push(c);
        } else if r.len() == 0 {
            r.push(c);
        } else {
            proof {
                if i > 0 {
                    assert(t[t.len() - 2] == s@[i - 1]);
                }
            }
            r.push(' ');
            r.push(c);
        }
        i += 1;
    }
    assert(s@.take(s@.len() as int) =~= s@);
    r
}

} // verus!
