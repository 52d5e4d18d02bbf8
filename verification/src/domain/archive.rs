//! Naming of the files a download writes.
//!
//! MangaDex gives page names and chapter metadata that are not safe to use as
//! paths. This module turns them into stable names that Windows and Linux
//! both accept.

use vstd::prelude::*;

use crate::infra::error::AppError;
use crate::text::{
    CharClass, ascii_lower, ascii_upper, chars_eq_str, chars_of, copy_chars, dec_text, find_char,
    first_index, is_ascii_alnum_spec, is_ascii_alphanumeric, is_cc, is_control, last_index,
    lemma_dec_text_len, lemma_first_index, lemma_strip_chars_from, lemma_last_index, lower_chars, push_all, push_str,
    rfind_char, slice_chars, strip, strip_chars, string_from_chars, trim, trim_chars, trim_str,
    upper_chars, usize_text, zero_padded, order_text, lemma_dec_text_len_monotonic,
    lemma_order_text_extend, lemma_zero_padded_order, upper_char, is_ws, lemma_trim_padded,
    lower_char,
};

verus! {

/// The format of the final name of each CBZ file.
#[derive(Clone, Copy, Debug, PartialEq, Eq, Structural)]
pub enum ChapterFileNameFormat {
    /// The chapter number and, when there is one, its title.
    ///
    /// Example: `Ch. 163 - A Sombra de uma Ideia (1).cbz`.
    ChapterTitle,
    /// Only the real chapter number that the API gives.
    ///
    /// Example: `163.cbz` or `0.01.cbz`.
    NumberOnly,
}

/// The code of a format on the command line.
pub open spec fn format_code(format: ChapterFileNameFormat) -> Seq<char> {
    match format {
        ChapterFileNameFormat::ChapterTitle => "chapter-title"@,
        ChapterFileNameFormat::NumberOnly => "number"@,
    }
}

impl ChapterFileNameFormat {
    /// Code used in command-line arguments and in parsing.
    pub fn code(self) -> (r: &'static str)
        ensures
            r@ == format_code(self),
    {
        match self {
            ChapterFileNameFormat::ChapterTitle => "chapter-title",
            ChapterFileNameFormat::NumberOnly => "number",
        }
    }

    /// Text shown in the interactive menu: an example file name, so that the
    /// user sees the effect of the option before downloading.
    pub fn label(self) -> (r: &'static str)
        ensures
            r@ == match self {
                ChapterFileNameFormat::ChapterTitle => "Ch. 163 - A Sombra de uma Ideia (1).cbz"@,
                ChapterFileNameFormat::NumberOnly => "163.cbz"@,
            },
    {
        match self {
            ChapterFileNameFormat::ChapterTitle => "Ch. 163 - A Sombra de uma Ideia (1).cbz",
            ChapterFileNameFormat::NumberOnly => "163.cbz",
        }
    }
}

/// The formats the application accepts, in menu order.
pub fn supported_chapter_file_name_formats() -> (r: Vec<ChapterFileNameFormat>)
    ensures
        r@ == seq![ChapterFileNameFormat::ChapterTitle, ChapterFileNameFormat::NumberOnly],
{
    let mut r: Vec<ChapterFileNameFormat> = Vec::new();
    r.push(ChapterFileNameFormat::ChapterTitle);
    r.push(ChapterFileNameFormat::NumberOnly);
    assert(r@ =~= seq![ChapterFileNameFormat::ChapterTitle, ChapterFileNameFormat::NumberOnly]);
    r
}

// ---------------------------------------------------------------------------
// Specification
// ---------------------------------------------------------------------------

/// The format that a (trimmed, lower-cased) name or alias stands for.
pub open spec fn format_named(n: Seq<char>) -> Option<ChapterFileNameFormat> {
    if n == "chapter-title"@ || n == "chapter_title"@ || n == "title"@ || n == "full"@ || n
        == "ch-title"@ || n == "ch"@ {
        Some(ChapterFileNameFormat::ChapterTitle)
    } else if n == "number"@ || n == "number-only"@ || n == "number_only"@ || n
        == "chapter-number"@ || n == "163"@ || n == "163.cbz"@ {
        Some(ChapterFileNameFormat::NumberOnly)
    } else {
        None
    }
}

/// Parsing the code of a format gives the format back, also upper-cased and
/// with white space around it.
pub proof fn lemma_format_code_round_trip(
    format: ChapterFileNameFormat,
    left: Seq<char>,
    right: Seq<char>,
    upper: bool,
)
    requires
        forall|i: int| 0 <= i < left.len() ==> is_ws(#[trigger] left[i]),
        forall|i: int| 0 <= i < right.len() ==> is_ws(#[trigger] right[i]),
    ensures
        format_named(
            ascii_lower(
                trim(
                    left + (if upper {
                        ascii_upper(format_code(format))
                    } else {
                        format_code(format)
                    }) + right,
                ),
            ),
        ) == Some(format),
{
    reveal_strlit("chapter-title");
    reveal_strlit("chapter_title");
    reveal_strlit("title");
    reveal_strlit("full");
    reveal_strlit("ch-title");
    reveal_strlit("ch");
    reveal_strlit("number");
    let c = format_code(format);
    let x = if upper {
        ascii_upper(c)
    } else {
        c
    };
    assert(x.len() == c.len());
    assert(x[0] == upper_char(c[0]) || x[0] == c[0]);
    assert(x.last() == upper_char(c.last()) || x.last() == c.last());
    lemma_trim_padded(left, x, right);
    assert(ascii_lower(x) =~= c);
    if format == ChapterFileNameFormat::NumberOnly {
        assert(c.len() == 6);
        assert(c[0] == 'n');
        assert(c != "chapter-title"@ && c != "chapter_title"@ && c != "title"@);
        assert(c != "full"@ && c != "ch-title"@ && c != "ch"@);
    }
}

pub open spec fn unsupported_format_message(input: Seq<char>) -> Seq<char> {
    "unsupported chapter file name format '"@ + input
        + "'. Supported formats: chapter-title, number"@
}

/// Characters that no local file name may hold: control characters and
/// `< > : " / \ | ? *`.
pub open spec fn is_invalid_name_char(c: char) -> bool {
    is_cc(c) || c == '<' || c == '>' || c == ':' || c == '"' || c == '/' || c == '\\' || c == '|'
        || c == '?' || c == '*'
}

/// Every invalid character replaced by `_`.
pub open spec fn replace_invalid(s: Seq<char>) -> Seq<char> {
    s.map_values(|c: char| if is_invalid_name_char(c) { '_' } else { c })
}

/// Whether an upper-cased base name is one of the names that Windows reserves:
/// `CON`, `PRN`, `AUX`, `NUL`, `COM1`-`COM9`, `LPT1`-`LPT9`.
pub open spec fn is_reserved_base(u: Seq<char>) -> bool {
    ||| u == seq!['C', 'O', 'N']
    ||| u == seq!['P', 'R', 'N']
    ||| u == seq!['A', 'U', 'X']
    ||| u == seq!['N', 'U', 'L']
    ||| (u.len() == 4 && (u.take(3) == seq!['C', 'O', 'M'] || u.take(3) == seq!['L', 'P', 'T'])
        && '1' <= u[3] <= '9')
}

/// Whether a name is reserved on Windows, with or without an extension: its
/// part before the first `.`, upper-cased, is a reserved base name.
pub open spec fn is_reserved_name(name: Seq<char>) -> bool {
    is_reserved_base(ascii_upper(name.take(first_index(name, '.'))))
}

/// The name with `_` put right after its part before the first `.`:
/// `CON` becomes `CON_` and `nul.txt` becomes `nul_.txt`.
pub open spec fn with_base_suffix(name: Seq<char>) -> Seq<char> {
    let k = first_index(name, '.');
    name.take(k).push('_') + name.skip(k)
}

/// A name that Windows reserves gets a `_` after its reserved part, so that
/// it no longer is reserved, with or without an extension; other names stay.
pub open spec fn protect_reserved(name: Seq<char>) -> Seq<char> {
    if is_reserved_name(name) {
        with_base_suffix(name)
    } else {
        name
    }
}

/// The sanitised stem of a file name (possibly empty).
pub open spec fn sanitized_stem(value: Seq<char>) -> Seq<char> {
    protect_reserved(strip(replace_invalid(trim(value)), CharClass::SpaceOrDot))
}

/// The stem of a chapter-title name, before sanitising.
pub open spec fn title_stem(number: Seq<char>, title: Option<Seq<char>>) -> Seq<char> {
    match title {
        Some(t) if trim(t).len() > 0 => "Ch. "@ + number + " - "@ + trim(t),
        _ => "Ch. "@ + number,
    }
}

/// The CBZ file name of a chapter, if it can have one.
pub open spec fn cbz_file_name(
    format: ChapterFileNameFormat,
    number: Option<Seq<char>>,
    title: Option<Seq<char>>,
) -> Option<Seq<char>> {
    match number {
        None => None,
        Some(n) => {
            let t = trim(n);
            if t.len() == 0 {
                None
            } else {
                let raw = match format {
                    ChapterFileNameFormat::ChapterTitle => title_stem(t, title),
                    ChapterFileNameFormat::NumberOnly => t,
                };
                let stem = sanitized_stem(raw);
                if stem.len() == 0 {
                    None
                } else {
                    Some(stem + ".cbz"@)
                }
            }
        },
    }
}

/// The part before the first `.` of `s + t`, when `t` starts with `.`, is
/// that of `s`.
proof fn lemma_base_of_dotted_suffix(s: Seq<char>, t: Seq<char>)
    requires
        t.len() > 0,
        t[0] == '.',
    ensures
        first_index(s + t, '.') == first_index(s, '.'),
        (s + t).take(first_index(s, '.')) == s.take(first_index(s, '.')),
{
    let r = s + t;
    lemma_first_index(s, '.');
    lemma_first_index(r, '.');
    let k = first_index(s, '.');
    let f = first_index(r, '.');
    if k < s.len() {
        assert(r[k] == '.');
    } else {
        assert(r[s.len() as int] == '.');
    }
    if f < k {
        assert(r[f] == s[f]);
    }
    assert(f == k);
    assert(r.take(k) =~= s.take(k));
}

/// `with_base_suffix` never gives a reserved name.
proof fn lemma_base_suffix_not_reserved(name: Seq<char>)
    ensures
        !is_reserved_name(with_base_suffix(name)),
        with_base_suffix(name).len() == name.len() + 1,
{
    let k = first_index(name, '.');
    lemma_first_index(name, '.');
    let b = name.take(k).push('_');
    let r = b + name.skip(k);
    lemma_first_index(r, '.');
    let f = first_index(r, '.');
    if f < k {
        assert(r[f] == name[f]);
    }
    if f == k {
        assert(r[k] == '_');
    }
    if f > k + 1 {
        assert(r[k + 1] == name[k]);
    }
    assert(f == k + 1);
    assert(r.take(f) =~= b);
    let u = ascii_upper(b);
    assert(u[u.len() - 1] == upper_char('_'));
}

/// The first `n` characters of a name that is not reserved are not reserved
/// either, once `n` is longer than any reserved part.
pub(crate) proof fn lemma_prefix_not_reserved(name: Seq<char>, n: int)
    requires
        !is_reserved_name(name),
        5 <= n <= name.len(),
    ensures
        !is_reserved_name(name.take(n)),
{
    let t = name.take(n);
    lemma_first_index(name, '.');
    lemma_first_index(t, '.');
    let k = first_index(name, '.');
    let f = first_index(t, '.');
    if f < k && f < n {
        assert(t[f] == name[f]);
    }
    if k < n {
        if f > k {
            assert(t[k] == name[k]);
        }
        assert(f == k);
        assert(t.take(f) =~= name.take(k));
    } else {
        if f < n {
            assert(t[f] == name[f]);
        }
        assert(f == n);
        assert(ascii_upper(t.take(f)).len() == n);
    }
}

/// `protect_reserved` never gives a reserved name, adds at most one
/// character and keeps names free of invalid characters.
pub proof fn lemma_protect_reserved(name: Seq<char>)
    ensures
        !is_reserved_name(protect_reserved(name)),
        protect_reserved(name).len() <= name.len() + 1,
        name.len() > 0 ==> protect_reserved(name).len() > 0,
        (forall|i: int| 0 <= i < name.len() ==> !is_invalid_name_char(#[trigger] name[i]))
            ==> (forall|i: int|
            0 <= i < protect_reserved(name).len() ==> !is_invalid_name_char(
                #[trigger] protect_reserved(name)[i],
            )),
{
    lemma_base_suffix_not_reserved(name);
    let k = first_index(name, '.');
    lemma_first_index(name, '.');
    if is_reserved_name(name) && forall|i: int|
        0 <= i < name.len() ==> !is_invalid_name_char(#[trigger] name[i]) {
        let r = with_base_suffix(name);
        assert forall|i: int| 0 <= i < r.len() implies !is_invalid_name_char(#[trigger] r[i]) by {
            if i < k {
                assert(r[i] == name[i]);
            } else if i > k {
                assert(r[i] == name[i - 1]);
            }
        }
    }
}

/// The name of a CBZ file is not reserved when its stem is not.
proof fn lemma_cbz_name_not_reserved(stem: Seq<char>)
    requires
        !is_reserved_name(stem),
    ensures
        !is_reserved_name(stem + ".cbz"@),
{
    reveal_strlit(".cbz");
    lemma_base_of_dotted_suffix(stem, ".cbz"@);
}

/// The text after the last `.` of a name, or `jpg` when there is no `.`.
pub open spec fn extension_of(name: Seq<char>) -> Seq<char> {
    match last_index(name, '.') {
        Some(i) => name.skip(i + 1),
        None => "jpg"@,
    }
}

/// A safe, lower-cased extension: the name's own when it is non-empty and
/// ASCII alphanumeric, `jpg` otherwise.
pub open spec fn safe_extension_of(name: Seq<char>) -> Seq<char> {
    let e = extension_of(name);
    if e.len() > 0 && forall|i: int| 0 <= i < e.len() ==> is_ascii_alnum_spec(#[trigger] e[i]) {
        ascii_lower(e)
    } else {
        "jpg"@
    }
}

/// A lower-case letter or a digit.
pub open spec fn is_lower_alnum(c: char) -> bool {
    ('0' <= c <= '9') || ('a' <= c <= 'z')
}

/// A safe extension is never empty, holds only lower-case letters and
/// digits, and is its own safe extension: the extension of `x.<ext>` is
/// `<ext>` again.
pub proof fn lemma_safe_extension_stable(name: Seq<char>)
    ensures
        safe_extension_of(name).len() > 0,
        forall|i: int|
            0 <= i < safe_extension_of(name).len() ==> is_lower_alnum(
                #[trigger] safe_extension_of(name)[i],
            ),
        safe_extension_of("x."@ + safe_extension_of(name)) == safe_extension_of(name),
{
    reveal_strlit("jpg");
    reveal_strlit("x.");
    let r = safe_extension_of(name);
    let e = extension_of(name);
    assert forall|i: int| 0 <= i < r.len() implies is_lower_alnum(#[trigger] r[i]) by {
        if e.len() > 0 && forall|k: int| 0 <= k < e.len() ==> is_ascii_alnum_spec(#[trigger] e[k]) {
            assert(is_ascii_alnum_spec(e[i]));
            assert(r[i] == lower_char(e[i]));
        }
    }
    let t = "x."@ + r;
    lemma_last_index(t, '.');
    let j = last_index(t, '.')->0;
    assert(t[1] == '.');
    assert(t.contains('.'));
    if j > 1 {
        assert(t[j] == r[j - 2]);
        assert(is_lower_alnum(r[j - 2]));
    }
    assert(j == 1);
    assert(extension_of(t) =~= r);
    assert forall|k: int| 0 <= k < r.len() implies is_ascii_alnum_spec(#[trigger] r[k]) by {
        assert(is_lower_alnum(r[k]));
    }
    assert(ascii_lower(r) =~= r) by {
        assert forall|k: int| 0 <= k < r.len() implies #[trigger] ascii_lower(r)[k] == r[k] by {
            assert(is_lower_alnum(r[k]));
        }
    }
}

/// Name of a page inside the CBZ: the position, zero-padded to the width of
/// the total, then the safe extension.
pub open spec fn page_entry(position: nat, total: nat, source: Seq<char>) -> Seq<char> {
    zero_padded(position, dec_text(total).len()) + "."@ + safe_extension_of(source)
}

/// Page entries sort in page order: for positions `p < q` up to the total,
/// the entry of page `p` comes before the entry of page `q` in the
/// lexicographic order that readers sort names by, whatever the source names.
pub proof fn lemma_page_entries_sort_in_page_order(
    p: nat,
    q: nat,
    total: nat,
    a: Seq<char>,
    b: Seq<char>,
)
    requires
        p < q <= total,
    ensures
        order_text(page_entry(p, total, a), page_entry(q, total, b)) == -1,
{
    let w = dec_text(total).len();
    lemma_dec_text_len_monotonic(q, total);
    lemma_zero_padded_order(p, q, w);
    let x = "."@ + safe_extension_of(a);
    let y = "."@ + safe_extension_of(b);
    assert(page_entry(p, total, a) =~= zero_padded(p, w) + x);
    assert(page_entry(q, total, b) =~= zero_padded(q, w) + y);
    lemma_order_text_extend(zero_padded(p, w), zero_padded(q, w), x, y);
}

// ---------------------------------------------------------------------------
// Implementation
// ---------------------------------------------------------------------------

/// Parses a file name format; a few aliases are accepted for terminal use.
pub fn parse_chapter_file_name_format(input: &str) -> (r: Result<ChapterFileNameFormat, AppError>)
    ensures
        match format_named(ascii_lower(trim(input@))) {
            Some(f) => r == Ok::<ChapterFileNameFormat, AppError>(f),
            None => r matches Err(AppError::InvalidInput(m)) && m@ == unsupported_format_message(
                input@,
            ),
        },
{
    let trimmed = trim_str(input);
    let n = lower_chars(trimmed.as_slice());
    let n = n.as_slice();
    if chars_eq_str(n, "chapter-title") || chars_eq_str(n, "chapter_title") || chars_eq_str(
        n,
        "title",
    ) || chars_eq_str(n, "full") || chars_eq_str(n, "ch-title") || chars_eq_str(n, "ch") {
        return Ok(ChapterFileNameFormat::ChapterTitle);
    }
    if chars_eq_str(n, "number") || chars_eq_str(n, "number-only") || chars_eq_str(
        n,
        "number_only",
    ) || chars_eq_str(n, "chapter-number") || chars_eq_str(n, "163") || chars_eq_str(
        n,
        "163.cbz",
    ) {
        return Ok(ChapterFileNameFormat::NumberOnly);
    }
    let mut m = chars_of("unsupported chapter file name format '");
    push_str(&mut m, input);
    push_str(&mut m, "'. Supported formats: chapter-title, number");
    Err(AppError::InvalidInput(string_from_chars(m.as_slice())))
}

/// The final CBZ file name of a chapter.
///
/// There is none when the API gives no chapter number: the list position is
/// deliberately not used instead, so that names stay stable when the list
/// changes.
pub fn chapter_cbz_file_name(
    format: ChapterFileNameFormat,
    chapter_number: Option<&str>,
    chapter_title: Option<&str>,
) -> (r: Option<String>)
    ensures
        ({
            let number = match chapter_number {
                Some(n) => Some(n@),
                None => None::<Seq<char>>,
            };
            let title = match chapter_title {
                Some(t) => Some(t@),
                None => None::<Seq<char>>,
            };
            match cbz_file_name(format, number, title) {
                Some(name) => r matches Some(s) && s@ == name,
                None => r is None,
            }
        }),
        r matches Some(s) ==> s@.len() > 4 && forall|i: int|
            0 <= i < s@.len() ==> !is_invalid_name_char(#[trigger] s@[i]),
        r matches Some(s) ==> !is_reserved_name(s@),
{
    let number = match chapter_number {
        Some(n) => trim_str(n),
        None => return None,
    };
    if number.len() == 0 {
        return None;
    }
    let raw_stem = match format {
        ChapterFileNameFormat::ChapterTitle => chapter_title_stem(number.as_slice(), chapter_title),
        ChapterFileNameFormat::NumberOnly => number,
    };
    let stem = sanitize_file_stem(raw_stem.as_slice());
    if stem.len() == 0 {
        None
    } else {
        let mut name = copy_chars(stem.as_slice());
        push_str(&mut name, ".cbz");
        proof {
            reveal_strlit(".cbz");
            lemma_cbz_name_not_reserved(stem@);
            assert(name@ =~= stem@ + ".cbz"@);
            assert forall|i: int| 0 <= i < name@.len() implies !is_invalid_name_char(
                #[trigger] name@[i],
            ) by {
                if i >= stem@.len() {
                    assert(name@[i] == ".cbz"@[i - stem@.len()]);
                }
            }
        }
        Some(string_from_chars(name.as_slice()))
    }
}

/// Name of a page inside the CBZ.
///
/// The position is zero-padded to the width of the total, so that readers
/// that sort names lexicographically keep the pages in order.
pub fn page_entry_name(position: usize, total: usize, source_name: &str) -> (r: String)
    ensures
        r@ == page_entry(position as nat, total as nat, source_name@),
{
    let width = usize_text(total).len();
    let digits = usize_text(position);
    let mut name: Vec<char> = Vec::new();
    if digits.len() < width {
        let pad = width - digits.len();
        let mut i: usize = 0;
        while i < pad
            invariant
                i <= pad,
                name@ == Seq::new(i as nat, |k: int| '0'),
            decreases pad - i,
        {
            name.push('0');
            assert(name@ =~= Seq::new((i + 1) as nat, |k: int| '0'));
            i += 1;
        }
    }
    push_all(&mut name, digits.as_slice());
    assert(name@ =~= zero_padded(position as nat, dec_text(total as nat).len()));
    push_str(&mut name, ".");
    let extension = safe_extension_chars(source_name);
    push_all(&mut name, extension.as_slice());
    string_from_chars(name.as_slice())
}

/// Local name of the cover, with a safe extension.
pub fn cover_file_name(source_name: &str) -> (r: String)
    ensures
        r@ == "cover."@ + safe_extension_of(source_name@),
{
    let mut name = chars_of("cover.");
    let extension = safe_extension_chars(source_name);
    push_all(&mut name, extension.as_slice());
    string_from_chars(name.as_slice())
}

/// The safe, lower-cased extension of a file name.
///
/// An empty extension, or one with unexpected characters, becomes `jpg`, so
/// that remote names cannot produce invalid paths.
pub fn safe_extension(source_name: &str) -> (r: String)
    ensures
        r@ == safe_extension_of(source_name@),
{
    let e = safe_extension_chars(source_name);
    string_from_chars(e.as_slice())
}

fn safe_extension_chars(source_name: &str) -> (r: Vec<char>)
    ensures
        r@ == safe_extension_of(source_name@),
{
    let name = chars_of(source_name);
    proof {
        lemma_last_index(name@, '.');
    }
    let n = name.len();
    let extension = match rfind_char(name.as_slice(), '.') {
        Some(i) => {
            assert(i < n);
            slice_chars(name.as_slice(), i + 1, n)
        },
        None => chars_of("jpg"),
    };
    proof {
        lemma_last_index(name@, '.');
        if let Some(i) = last_index(name@, '.') {
            assert(extension@ =~= name@.skip(i + 1));
        }
    }
    let mut valid = extension.len() > 0;
    let mut i: usize = 0;
    while i < extension.len()
        invariant
            i <= extension@.len(),
            valid == (extension@.len() > 0 && forall|k: int|
                0 <= k < i ==> is_ascii_alnum_spec(#[trigger] extension@[k])),
        decreases extension@.len() - i,
    {
        if !is_ascii_alphanumeric(extension[i]) {
            valid = false;
        }
        i += 1;
    }
    if valid {
        lower_chars(extension.as_slice())
    } else {
        chars_of("jpg")
    }
}

/// The stem before sanitising and before the `.cbz` extension.
fn chapter_title_stem(chapter_number: &[char], chapter_title: Option<&str>) -> (r: Vec<char>)
    ensures
        r@ == title_stem(
            chapter_number@,
            match chapter_title {
                Some(t) => Some(t@),
                None => None::<Seq<char>>,
            },
        ),
{
    let title = match chapter_title {
        Some(t) => trim_str(t),
        None => Vec::new(),
    };
    let mut stem = chars_of("Ch. ");
    push_all(&mut stem, chapter_number);
    if title.len() > 0 {
        push_str(&mut stem, " - ");
        push_all(&mut stem, title.as_slice());
    }
    stem
}

/// Removes invalid characters and reserved names from a file stem.
///
/// The rule covers Windows and Linux; it is the stricter one because of the
/// names that Windows reserves.
fn sanitize_file_stem(value: &[char]) -> (r: Vec<char>)
    ensures
        r@ == sanitized_stem(value@),
        forall|i: int| 0 <= i < r@.len() ==> !is_invalid_name_char(#[trigger] r@[i]),
        !is_reserved_name(r@),
{
    let trimmed = trim_chars(value);
    let mut replaced: Vec<char> = Vec::new();
    let mut i: usize = 0;
    while i < trimmed.len()
        invariant
            i <= trimmed@.len(),
            replaced@ == replace_invalid(trimmed@.take(i as int)),
        decreases trimmed@.len() - i,
    {
        let c = trimmed[i];
        replaced.push(
            if is_invalid_file_name_character(c) {
                '_'
            } else {
                c
            },
        );
        assert(replace_invalid(trimmed@.take(i + 1)) =~= replace_invalid(
            trimmed@.take(i as int),
        ).push(if is_invalid_name_char(c) { '_' } else { c }));
        i += 1;
    }
    assert(trimmed@.take(trimmed@.len() as int) =~= trimmed@);
    let stripped = strip_chars(replaced.as_slice(), CharClass::SpaceOrDot);
    proof {
        assert forall|k: int| 0 <= k < replaced@.len() implies !is_invalid_name_char(
            #[trigger] replaced@[k],
        ) by {
            assert(replaced@[k] == (if is_invalid_name_char(trimmed@[k]) {
                '_'
            } else {
                trimmed@[k]
            }));
        }
        lemma_strip_keeps_valid(replaced@, CharClass::SpaceOrDot);
    }
    proof {
        lemma_protect_reserved(stripped@);
        lemma_first_index(stripped@, '.');
    }
    if stripped.len() == 0 {
        proof {
            let e = stripped@.take(first_index(stripped@, '.'));
            assert(e.len() == 0);
            assert(ascii_upper(e).len() == 0);
            assert(!is_reserved_name(stripped@));
        }
        return stripped;
    }
    if is_reserved_windows_name(stripped.as_slice()) {
        add_base_suffix(stripped.as_slice())
    } else {
        stripped
    }
}

/// Puts `_` right after the part of a name before its first `.`.
pub(crate) fn add_base_suffix(name: &[char]) -> (r: Vec<char>)
    ensures
        r@ == with_base_suffix(name@),
{
    let k = find_char(name, '.');
    proof {
        lemma_first_index(name@, '.');
    }
    let mut r = slice_chars(name, 0, k);
    r.push('_');
    let rest = slice_chars(name, k, name.len());
    push_all(&mut r, rest.as_slice());
    assert(r@ =~= with_base_suffix(name@));
    r
}

proof fn lemma_strip_keeps_valid(s: Seq<char>, cls: CharClass)
    requires
        forall|i: int| 0 <= i < s.len() ==> !is_invalid_name_char(#[trigger] s[i]),
    ensures
        forall|i: int|
            0 <= i < strip(s, cls).len() ==> !is_invalid_name_char(#[trigger] strip(s, cls)[i]),
{
    lemma_strip_chars_from(s, cls);
    assert forall|i: int| 0 <= i < strip(s, cls).len() implies !is_invalid_name_char(
        #[trigger] strip(s, cls)[i],
    ) by {
        let j = choose|j: int| 0 <= j < s.len() && s[j] == strip(s, cls)[i];
        assert(!is_invalid_name_char(s[j]));
    }
}

/// Whether a character cannot appear in a local file name.
pub(crate) fn is_invalid_file_name_character(c: char) -> (r: bool)
    ensures
        r == is_invalid_name_char(c),
{
    is_control(c) || c == '<' || c == '>' || c == ':' || c == '"' || c == '/' || c == '\\' || c
        == '|' || c == '?' || c == '*'
}

/// Whether a name is one that Windows reserves, such as `CON` or `NUL`, with
/// or without an extension.
pub(crate) fn is_reserved_windows_name(name: &[char]) -> (r: bool)
    ensures
        r == is_reserved_name(name@),
{
    let k = find_char(name, '.');
    proof {
        lemma_first_index(name@, '.');
    }
    let base = slice_chars(name, 0, k);
    assert(base@ =~= name@.take(k as int));
    let u = upper_chars(base.as_slice());
    is_reserved_base_exec(u.as_slice())
}

fn is_reserved_base_exec(u: &[char]) -> (r: bool)
    ensures
        r == is_reserved_base(u@),
{
    if u.len() == 3 {
        let r = (u[0] == 'C' && u[1] == 'O' && u[2] == 'N') || (u[0] == 'P' && u[1] == 'R' && u[2]
            == 'N') || (u[0] == 'A' && u[1] == 'U' && u[2] == 'X') || (u[0] == 'N' && u[1] == 'U'
            && u[2] == 'L');
        proof {
            if r {
                assert(u@ =~= seq!['C', 'O', 'N'] || u@ =~= seq!['P', 'R', 'N'] || u@ =~= seq![
                    'A',
                    'U',
                    'X',
                ] || u@ =~= seq!['N', 'U', 'L']);
            }
        }
        r
    } else if u.len() == 4 {
        let com = u[0] == 'C' && u[1] == 'O' && u[2] == 'M';
        let lpt = u[0] == 'L' && u[1] == 'P' && u[2] == 'T';
        proof {
            if com {
                assert(u@.take(3) =~= seq!['C', 'O', 'M']);
            }
            if lpt {
                assert(u@.take(3) =~= seq!['L', 'P', 'T']);
            }
            if u@.take(3) == seq!['C', 'O', 'M'] {
                assert(u@.take(3)[0] == 'C' && u@.take(3)[1] == 'O' && u@.take(3)[2] == 'M');
            }
            if u@.take(3) == seq!['L', 'P', 'T'] {
                assert(u@.take(3)[0] == 'L' && u@.take(3)[1] == 'P' && u@.take(3)[2] == 'T');
            }
        }
        (com || lpt) && '1' <= u[3] && u[3] <= '9'
    } else {
        false
    }
}

} // verus!
