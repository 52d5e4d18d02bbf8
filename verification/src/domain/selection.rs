//! Parsing and resolution of a chapter selection.
//!
//! A selection names chapters by their position in the filtered list or by
//! the real chapter number that MangaDex reports. This module turns either
//! form into valid positions of the loaded catalog.

use vstd::prelude::*;

use crate::domain::chapter::IndexedChapter;
use crate::infra::error::AppError;
use crate::binary64::{lemma_read_binary64_normal, read_binary64, round_to_binary64};
use crate::number::{
    DecimalNumber, NumberKind, NumberValue, number_le, number_le_exec, order_values, parse_usize,
    read_number, read_number_chars, unsigned_text_value, lemma_dec_text_value, is_normal_finite,
    lemma_number_le_follows_values, value_times_pow10,
};
use crate::text::{
    ascii_lower, chars_of, contains_char, dec_text, find_char, first_index, lemma_first_index,
    lower_chars, push_all, push_str, same_chars, slice_chars, string_from_chars, trim, trim_chars,
    trim_str, usize_text, lemma_trim_unchanged, is_ws, lower_char,
};

verus! {

/// A chapter selection requested by the user.
#[allow(inconsistent_fields)]
#[derive(Clone, Debug, PartialEq, Eq)]
pub enum ChapterSelection {
    /// Every chapter of the current catalog.
    All,
    /// One chapter, by its position in the list.
    Index(usize),
    /// A closed range of positions in the list.
    IndexRange { start: usize, end: usize },
    /// The chapters whose number is exactly this one.
    Number(String),
    /// The chapters whose real number lies in this closed range.
    NumberRange { start: String, end: String },
}

/// The mathematical content of a [`ChapterSelection`].
pub enum SelectionView {
    All,
    Index(nat),
    IndexRange(nat, nat),
    Number(Seq<char>),
    NumberRange(Seq<char>, Seq<char>),
}

impl View for ChapterSelection {
    type V = SelectionView;

    open spec fn view(&self) -> SelectionView {
        match self {
            ChapterSelection::All => SelectionView::All,
            ChapterSelection::Index(i) => SelectionView::Index(*i as nat),
            ChapterSelection::IndexRange { start, end } => SelectionView::IndexRange(
                *start as nat,
                *end as nat,
            ),
            ChapterSelection::Number(n) => SelectionView::Number(n@),
            ChapterSelection::NumberRange { start, end } => SelectionView::NumberRange(
                start@,
                end@,
            ),
        }
    }
}

/// Why a selection text was refused.
pub enum SelectionError {
    /// A position is not an unsigned integer (`AppError::ParseInt`).
    NotAnInteger,
    /// The input is invalid (`AppError::InvalidInput` with this message).
    Invalid(Seq<char>),
}

// ---------------------------------------------------------------------------
// Messages
// ---------------------------------------------------------------------------

pub open spec fn empty_catalog_message() -> Seq<char> {
    "cannot select chapters from an empty catalog"@
}

pub open spec fn index_start_message() -> Seq<char> {
    "chapter index must start at 1"@
}

pub open spec fn index_outside_message(index: nat, total: nat) -> Seq<char> {
    "chapter index "@ + dec_text(index) + " is outside the catalog total "@ + dec_text(total)
}

pub open spec fn range_order_message(start: nat, end: nat) -> Seq<char> {
    "chapter range start "@ + dec_text(start) + " cannot be greater than end "@ + dec_text(end)
}

pub open spec fn number_not_found_message(number: Seq<char>) -> Seq<char> {
    "chapter number "@ + number + " was not found in the selected language catalog"@
}

pub open spec fn number_range_unmatched_message(start: Seq<char>, end: Seq<char>) -> Seq<char> {
    "chapter number range "@ + start + "-"@ + end
        + " did not match any chapters in the selected language catalog"@
}

pub open spec fn empty_selection_message() -> Seq<char> {
    "chapter number selection cannot be empty"@
}

pub open spec fn empty_number_message() -> Seq<char> {
    "chapter number cannot be empty"@
}

pub open spec fn separator_message(number: Seq<char>) -> Seq<char> {
    "chapter number '"@ + number + "' contains invalid path separators"@
}

pub open spec fn number_order_message(start: Seq<char>, end: Seq<char>) -> Seq<char> {
    "chapter number range start "@ + start + " cannot be greater than end "@ + end
}

/// The text of `ParseFloatError` for a text that is not a float literal.
pub open spec fn float_error_text(trimmed: Seq<char>) -> Seq<char> {
    if trimmed.len() == 0 {
        "cannot parse float from empty string"@
    } else {
        "invalid float literal"@
    }
}

pub open spec fn not_numeric_message(value: Seq<char>) -> Seq<char> {
    "chapter number '"@ + value + "' must be numeric for range selection: "@ + float_error_text(
        trim(value),
    )
}

// ---------------------------------------------------------------------------
// Specification
// ---------------------------------------------------------------------------

/// The `f64` value that a chapter number text parses to, after trimming,
/// as an exact decimal.
pub open spec fn numeric_reading(s: Seq<char>) -> Option<NumberValue> {
    read_binary64(trim(s))
}

/// Normal form used to compare chapter numbers exactly.
pub open spec fn normalized_number(s: Seq<char>) -> Seq<char> {
    ascii_lower(trim(s))
}

/// The `index` fields of the chapters that satisfy `p`, in catalog order.
pub open spec fn indices_where(
    chapters: Seq<IndexedChapter>,
    p: spec_fn(IndexedChapter) -> bool,
) -> Seq<usize>
    decreases chapters.len(),
{
    if chapters.len() == 0 {
        Seq::empty()
    } else {
        let rest = indices_where(chapters.drop_last(), p);
        if p(chapters.last()) {
            rest.push(chapters.last().index)
        } else {
            rest
        }
    }
}

/// The positions `from..=to`.
pub open spec fn positions(from: nat, to: nat) -> Seq<usize> {
    Seq::new((to + 1 - from) as nat, |i: int| (from + i) as usize)
}

/// Whether the chapter's key denotes a number in `[start, end]`.
pub open spec fn key_in_range(c: IndexedChapter, start: NumberValue, end: NumberValue) -> bool {
    match numeric_reading(c.key@) {
        Some(v) => number_le(start, v) && number_le(v, end),
        None => false,
    }
}

/// The chapters whose key equals `number` once both are normalised.
pub open spec fn matches_number(number: Seq<char>) -> spec_fn(IndexedChapter) -> bool {
    |c: IndexedChapter| normalized_number(c.key@) == normalized_number(number)
}

/// The chapters whose key denotes a number in `[start, end]`.
pub open spec fn in_number_range(start: NumberValue, end: NumberValue) -> spec_fn(
    IndexedChapter,
) -> bool {
    |c: IndexedChapter| key_in_range(c, start, end)
}

/// Error of `validate_index`, if any.
pub open spec fn index_error(index: nat, total: nat) -> Option<Seq<char>> {
    if index == 0 {
        Some(index_start_message())
    } else if index > total {
        Some(index_outside_message(index, total))
    } else {
        None
    }
}

/// Error of `validate_range`, if any.
pub open spec fn range_error(start: nat, end: nat, total: nat) -> Option<Seq<char>> {
    if index_error(start, total) is Some {
        index_error(start, total)
    } else if index_error(end, total) is Some {
        index_error(end, total)
    } else if start > end {
        Some(range_order_message(start, end))
    } else {
        None
    }
}

/// What resolving `sel` against `chapters` gives: the selected `index`
/// values, or the message of the refusal.
pub open spec fn resolution(sel: SelectionView, chapters: Seq<IndexedChapter>) -> Result<
    Seq<usize>,
    Seq<char>,
> {
    let total = chapters.len();
    if total == 0 {
        Err(empty_catalog_message())
    } else {
        match sel {
            SelectionView::All => Ok(positions(1, total)),
            SelectionView::Index(i) => match index_error(i, total) {
                Some(m) => Err(m),
                None => Ok(seq![i as usize]),
            },
            SelectionView::IndexRange(s, e) => match range_error(s, e, total) {
                Some(m) => Err(m),
                None => Ok(positions(s, e)),
            },
            SelectionView::Number(n) => {
                let found = indices_where(
                    chapters,
                    matches_number(n),
                );
                if found.len() == 0 {
                    Err(number_not_found_message(n))
                } else {
                    Ok(found)
                }
            },
            SelectionView::NumberRange(s, e) => match (numeric_reading(s), numeric_reading(e)) {
                (None, _) => Err(not_numeric_message(s)),
                (_, None) => Err(not_numeric_message(e)),
                (Some(sv), Some(ev)) => {
                    let found = indices_where(
                        chapters,
                        in_number_range(sv, ev),
                    );
                    if found.len() == 0 {
                        Err(number_range_unmatched_message(s, e))
                    } else {
                        Ok(found)
                    }
                },
            },
        }
    }
}

/// What `parse_selection` makes of a text, for a catalog of `total` chapters.
pub open spec fn index_selection(input: Seq<char>, total: nat) -> Result<
    SelectionView,
    SelectionError,
> {
    let t = trim(input);
    let k = first_index(t, '-');
    if ascii_lower(t) == "all"@ {
        Ok(SelectionView::All)
    } else if k < t.len() {
        match (unsigned_text_value(trim(t.take(k))), unsigned_text_value(trim(t.skip(k + 1)))) {
            (Some(s), Some(e)) => {
                if s > usize::MAX {
                    Err(SelectionError::NotAnInteger)
                } else if e > usize::MAX {
                    Err(SelectionError::NotAnInteger)
                } else {
                    match range_error(s, e, total) {
                        Some(m) => Err(SelectionError::Invalid(m)),
                        None => Ok(SelectionView::IndexRange(s, e)),
                    }
                }
            },
            (Some(s), None) => if s > usize::MAX {
                Err(SelectionError::NotAnInteger)
            } else {
                Err(SelectionError::NotAnInteger)
            },
            (None, _) => Err(SelectionError::NotAnInteger),
        }
    } else {
        match unsigned_text_value(t) {
            Some(i) => if i > usize::MAX {
                Err(SelectionError::NotAnInteger)
            } else {
                match index_error(i, total) {
                    Some(m) => Err(SelectionError::Invalid(m)),
                    None => Ok(SelectionView::Index(i)),
                }
            },
            None => Err(SelectionError::NotAnInteger),
        }
    }
}

/// The check of one chapter number text: its trimmed form, or the message of
/// the refusal.
pub open spec fn checked_number(input: Seq<char>) -> Result<Seq<char>, Seq<char>> {
    let t = trim(input);
    if t.len() == 0 {
        Err(empty_number_message())
    } else if t.contains('/') || t.contains('\\') {
        Err(separator_message(t))
    } else {
        Ok(t)
    }
}

/// `start > end` on exact values, with the NaN rule of floats: false
/// whenever either side is NaN.
pub open spec fn number_gt(a: NumberValue, b: NumberValue) -> bool {
    a.kind != NumberKind::NotANumber && b.kind != NumberKind::NotANumber && order_values(a, b) > 0
}

/// What `parse_chapter_number_selection` makes of a text.
pub open spec fn number_selection(input: Seq<char>) -> Result<SelectionView, Seq<char>> {
    let t = trim(input);
    let k = first_index(t, '-');
    if t.len() == 0 {
        Err(empty_selection_message())
    } else if k < t.len() {
        match (checked_number(t.take(k)), checked_number(t.skip(k + 1))) {
            (Err(m), _) => Err(m),
            (_, Err(m)) => Err(m),
            (Ok(s), Ok(e)) => match (numeric_reading(s), numeric_reading(e)) {
                (None, _) => Err(not_numeric_message(s)),
                (_, None) => Err(not_numeric_message(e)),
                (Some(sv), Some(ev)) => if number_gt(sv, ev) {
                    Err(number_order_message(s, e))
                } else {
                    Ok(SelectionView::NumberRange(s, e))
                },
            },
        }
    } else {
        match checked_number(t) {
            Err(m) => Err(m),
            Ok(n) => Ok(SelectionView::Number(n)),
        }
    }
}

// ---------------------------------------------------------------------------
// Laws
// ---------------------------------------------------------------------------

proof fn lemma_indices_where_positions(
    chapters: Seq<IndexedChapter>,
    p: spec_fn(IndexedChapter) -> bool,
    n: nat,
)
    requires
        chapters.len() <= n,
        forall|j: int| 0 <= j < chapters.len() ==> (#[trigger] chapters[j]).index == j + 1,
    ensures
        forall|k: int|
            0 <= k < indices_where(chapters, p).len() ==> 1 <= #[trigger] indices_where(
                chapters,
                p,
            )[k] <= chapters.len(),
    decreases chapters.len(),
{
    if chapters.len() > 0 {
        let t = chapters.drop_last();
        assert forall|j: int| 0 <= j < t.len() implies (#[trigger] t[j]).index == j + 1 by {
            assert(t[j] == chapters[j]);
        }
        lemma_indices_where_positions(t, p, n);
        let rest = indices_where(t, p);
        let all = indices_where(chapters, p);
        assert forall|k: int| 0 <= k < all.len() implies 1 <= #[trigger] all[k] <= chapters.len() by {
            if k < rest.len() {
                assert(all[k] == rest[k]);
            } else {
                assert(all[k] == chapters.last().index);
            }
        }
    }
}

/// Resolving a selection only yields positions of the catalog: whenever it
/// succeeds on chapters that carry their own 1-based positions (as
/// `index_chapters` numbers them), every resolved position `k` satisfies
/// `1 <= k <= chapters.len()`, so the chapter at `k` exists.
pub proof fn lemma_resolution_within_catalog(sel: SelectionView, chapters: Seq<IndexedChapter>)
    requires
        chapters.len() <= usize::MAX,
        forall|j: int| 0 <= j < chapters.len() ==> (#[trigger] chapters[j]).index == j + 1,
    ensures
        resolution(sel, chapters) matches Ok(v) ==> forall|k: int|
            0 <= k < v.len() ==> 1 <= #[trigger] v[k] <= chapters.len(),
{
    match sel {
        SelectionView::Number(n) => {
            lemma_indices_where_positions(chapters, matches_number(n), chapters.len());
            let found = indices_where(chapters, matches_number(n));
            if chapters.len() > 0 && found.len() > 0 {
                assert(resolution(sel, chapters) == Ok::<Seq<usize>, Seq<char>>(found));
            }
        },
        SelectionView::NumberRange(s, e) => {
            if let (Some(sv), Some(ev)) = (numeric_reading(s), numeric_reading(e)) {
                lemma_indices_where_positions(
                    chapters,
                    in_number_range(sv, ev),
                    chapters.len(),
                );
            }
        },
        _ => {},
    }
}

/// Some chapter satisfying `p` has the position `x`.
pub open spec fn position_of_match(
    chapters: Seq<IndexedChapter>,
    p: spec_fn(IndexedChapter) -> bool,
    x: usize,
) -> bool {
    exists|j: int| 0 <= j < chapters.len() && p(#[trigger] chapters[j]) && chapters[j].index == x
}

proof fn lemma_indices_where_members(chapters: Seq<IndexedChapter>, p: spec_fn(IndexedChapter) -> bool)
    ensures
        forall|k: int|
            0 <= k < indices_where(chapters, p).len() ==> position_of_match(
                chapters,
                p,
                #[trigger] indices_where(chapters, p)[k],
            ),
        forall|j: int|
            0 <= j < chapters.len() && p(#[trigger] chapters[j]) ==> indices_where(
                chapters,
                p,
            ).contains(chapters[j].index),
    decreases chapters.len(),
{
    if chapters.len() > 0 {
        let t = chapters.drop_last();
        lemma_indices_where_members(t, p);
        let rest = indices_where(t, p);
        let all = indices_where(chapters, p);
        let last = chapters.len() - 1;
        assert forall|k: int| 0 <= k < all.len() implies position_of_match(
            chapters,
            p,
            #[trigger] all[k],
        ) by {
            if k < rest.len() {
                assert(all[k] == rest[k]);
                assert(position_of_match(t, p, rest[k]));
                let j = choose|j: int| 0 <= j < t.len() && p(#[trigger] t[j]) && t[j].index == rest[k];
                assert(t[j] == chapters[j]);
            } else {
                assert(all[k] == chapters[last].index);
                assert(p(chapters[last]));
            }
        }
        assert forall|j: int| 0 <= j < chapters.len() && p(#[trigger] chapters[j]) implies all.contains(
            chapters[j].index,
        ) by {
            if j < last {
                assert(t[j] == chapters[j]);
                assert(p(t[j]));
                let m = choose|m: int| 0 <= m < rest.len() && rest[m] == t[j].index;
                assert(all[m] == rest[m]);
            } else {
                assert(all[all.len() - 1] == chapters[last].index);
            }
        }
    }
}

/// A selection by chapter number picks exactly the chapters whose key,
/// trimmed and ASCII-lower-cased, equals the number trimmed and
/// lower-cased: it succeeds exactly when there is one; every position it
/// gives belongs to such a chapter (so selecting `1` never gives the chapter
/// keyed `10`), and every such chapter's position is given.
pub proof fn lemma_number_selection_exact(number: Seq<char>, chapters: Seq<IndexedChapter>)
    ensures
        resolution(SelectionView::Number(number), chapters) is Ok <==> exists|j: int|
            0 <= j < chapters.len() && ascii_lower(trim((#[trigger] chapters[j]).key@))
                == ascii_lower(trim(number)),
        resolution(SelectionView::Number(number), chapters) matches Ok(v) ==> (forall|k: int|
            0 <= k < v.len() ==> exists|j: int|
                0 <= j < chapters.len() && ascii_lower(trim(chapters[j].key@)) == ascii_lower(
                    trim(number),
                ) && #[trigger] v[k] == chapters[j].index),
        resolution(SelectionView::Number(number), chapters) matches Ok(v) ==> (forall|j: int|
            0 <= j < chapters.len() && ascii_lower(trim((#[trigger] chapters[j]).key@))
                == ascii_lower(trim(number)) ==> v.contains(chapters[j].index)),
{
    let p = matches_number(number);
    lemma_indices_where_members(chapters, p);
    let found = indices_where(chapters, p);
    assert forall|j: int| 0 <= j < chapters.len() implies p(chapters[j]) == (ascii_lower(
        trim(#[trigger] chapters[j].key@),
    ) == ascii_lower(trim(number))) by {}
    assert forall|k: int| 0 <= k < found.len() implies exists|j: int|
        0 <= j < chapters.len() && ascii_lower(trim(chapters[j].key@)) == ascii_lower(trim(number))
            && #[trigger] found[k] == chapters[j].index by {
        assert(position_of_match(chapters, p, found[k]));
        let j = choose|j: int|
            0 <= j < chapters.len() && p(#[trigger] chapters[j]) && chapters[j].index == found[k];
        assert(p(chapters[j]));
    }
    if exists|j: int|
        0 <= j < chapters.len() && ascii_lower(trim((#[trigger] chapters[j]).key@)) == ascii_lower(
            trim(number),
        ) {
        let j = choose|j: int|
            0 <= j < chapters.len() && ascii_lower(trim((#[trigger] chapters[j]).key@))
                == ascii_lower(trim(number));
        assert(p(chapters[j]));
        assert(found.contains(chapters[j].index));
    } else {
        if found.len() > 0 {
            assert(position_of_match(chapters, p, found[0]));
        }
    }
}

/// A chapter whose key parses to a non-negative finite number is in a
/// number range with non-negative finite bounds exactly when its value lies
/// between the values of the bounds (values taken as integers after scaling
/// by `10^k`): `10.5` lies in `10-11`.
pub proof fn lemma_range_membership_follows_values(
    c: IndexedChapter,
    start: NumberValue,
    end: NumberValue,
    x: NumberValue,
    k: int,
)
    requires
        numeric_reading(c.key@) == Some(x),
        start.kind == NumberKind::Finite && is_normal_finite(start),
        end.kind == NumberKind::Finite && is_normal_finite(end),
        x.kind == NumberKind::Finite,
        !start.negative,
        !end.negative,
        !x.negative,
        start.exponent + k >= start.digits.len(),
        end.exponent + k >= end.digits.len(),
        x.exponent + k >= x.digits.len(),
    ensures
        key_in_range(c, start, end) <==> value_times_pow10(start, k) <= value_times_pow10(x, k)
            && value_times_pow10(x, k) <= value_times_pow10(end, k),
{
    lemma_read_binary64_normal(trim(c.key@));
    lemma_number_le_follows_values(start, x, k);
    lemma_number_le_follows_values(x, end, k);
}

/// The bounds of a chapter-number range are the `f64` values their texts
/// parse to, in normal form.
pub proof fn lemma_range_bounds_normal(s: Seq<char>)
    ensures
        numeric_reading(s) matches Some(v) ==> (v.kind == NumberKind::Finite ==> is_normal_finite(v)),
{
    lemma_read_binary64_normal(trim(s));
}

/// A selection by position that `parse_selection` accepted for a catalog of
/// `chapters.len()` chapters resolves on that catalog, when it is not empty,
/// to at least one position; the positions are strictly increasing and lie
/// in `1..=chapters.len()`.
pub proof fn lemma_parsed_selection_resolves(input: Seq<char>, chapters: Seq<IndexedChapter>)
    requires
        chapters.len() > 0,
        chapters.len() <= usize::MAX,
    ensures
        index_selection(input, chapters.len()) matches Ok(sel) ==> (resolution(sel, chapters) matches Ok(
            v,
        ) && v.len() > 0 && (forall|j: int, k: int| 0 <= j < k < v.len() ==> v[j] < v[k]) && (
        forall|k: int| 0 <= k < v.len() ==> 1 <= #[trigger] v[k] <= chapters.len())),
{
}

proof fn lemma_digits_text_shape(n: nat)
    ensures
        trim(dec_text(n)) == dec_text(n),
        !dec_text(n).contains('-'),
        ascii_lower(dec_text(n)) != "all"@,
        unsigned_text_value(dec_text(n)) == Some(n),
{
    lemma_dec_text_value(n);
    let t = dec_text(n);
    assert(crate::number::all_digits(t));
    assert(!is_ws(t[0]) && !is_ws(t.last()));
    lemma_trim_unchanged(t);
    if t.contains('-') {
        let i = choose|i: int| 0 <= i < t.len() && t[i] == '-';
        assert(crate::text::is_ascii_digit_spec(t[i]));
    }
    reveal_strlit("all");
    assert(ascii_lower(t)[0] == lower_char(t[0]));
}

/// Position `0`, a position past the catalog's total and a range whose start
/// is past its end are refused.
pub proof fn lemma_selection_refusals(n: nat, start: nat, end: nat, total: nat)
    ensures
        n == 0 || n > total ==> index_selection(dec_text(n), total) is Err,
        start > end ==> index_selection(dec_text(start) + "-"@ + dec_text(end), total) is Err,
{
    lemma_digits_text_shape(n);
    lemma_first_index(dec_text(n), '-');
    if start > end {
        lemma_digits_text_shape(start);
        lemma_digits_text_shape(end);
        reveal_strlit("-");
        let a = dec_text(start);
        let b = dec_text(end);
        let s = a + "-"@ + b;
        lemma_dec_text_value(start);
        lemma_dec_text_value(end);
        assert(!is_ws(s[0]) && !is_ws(s.last())) by {
            assert(s[0] == a[0]);
            assert(s.last() == b.last());
            assert(crate::number::all_digits(a) && crate::number::all_digits(b));
        }
        lemma_trim_unchanged(s);
        assert(ascii_lower(s)[0] == lower_char(a[0]));
        assert(crate::number::all_digits(a));
        reveal_strlit("all");
        lemma_first_index(s, '-');
        let k = first_index(s, '-');
        assert(s[a.len() as int] == '-');
        if k < a.len() {
            assert(s[k] == a[k]);
        }
        assert(k == a.len());
        assert(s.take(k) =~= a);
        assert(s.skip(k + 1) =~= b);
    }
}

// ---------------------------------------------------------------------------
// Implementation
// ---------------------------------------------------------------------------

fn invalid(message: &[char]) -> (e: AppError)
    ensures
        e matches AppError::InvalidInput(m) && m@ == message@,
{
    AppError::InvalidInput(string_from_chars(message))
}

impl ChapterSelection {
    /// Resolves the selection to the 1-based positions of the catalog.
    ///
    /// A selection by number looks at the metadata already loaded and yields
    /// the current positions of the matching chapters, so that downloading
    /// only deals with one representation.
    pub fn resolve(&self, chapters: &[IndexedChapter]) -> (r: Result<Vec<usize>, AppError>)
        ensures
            match resolution(self@, chapters@) {
                Ok(v) => r matches Ok(w) && w@ == v,
                Err(m) => r matches Err(AppError::InvalidInput(x)) && x@ == m,
            },
    {
        if chapters.len() == 0 {
            let m = chars_of("cannot select chapters from an empty catalog");
            return Err(invalid(m.as_slice()));
        }
        let total = chapters.len();
        match self {
            ChapterSelection::All => Ok(positions_between(1, total)),
            ChapterSelection::Index(index) => {
                validate_index(*index, total)?;
                let mut v: Vec<usize> = Vec::new();
                v.push(*index);
                assert(v@ =~= seq![*index]);
                Ok(v)
            },
            ChapterSelection::IndexRange { start, end } => {
                validate_range(*start, *end, total)?;
                Ok(positions_between(*start, *end))
            },
            ChapterSelection::Number(number) => resolve_chapter_number(chapters, number.as_str()),
            ChapterSelection::NumberRange { start, end } => resolve_chapter_number_range(
                chapters,
                start.as_str(),
                end.as_str(),
            ),
        }
    }
}

/// The positions `from..=to`.
fn positions_between(from: usize, to: usize) -> (v: Vec<usize>)
    requires
        1 <= from <= to,
    ensures
        v@ == positions(from as nat, to as nat),
{
    let mut v: Vec<usize> = Vec::new();
    let mut i: usize = from;
    while i < to
        invariant
            from <= i <= to,
            v@ == Seq::new((i - from) as nat, |k: int| (from + k) as usize),
        decreases to - i,
    {
        v.push(i);
        assert(v@ =~= Seq::new((i + 1 - from) as nat, |k: int| (from + k) as usize));
        i += 1;
    }
    v.push(to);
    assert(v@ =~= positions(from as nat, to as nat));
    v
}

/// Parses a selection by position.
///
/// Accepts `all`, a single position or a range such as `100-200`; the total
/// of the catalog bounds the positions.
pub fn parse_selection(input: &str, total: usize) -> (r: Result<ChapterSelection, AppError>)
    ensures
        match index_selection(input@, total as nat) {
            Ok(v) => r matches Ok(s) && s@ == v,
            Err(SelectionError::NotAnInteger) => r matches Err(AppError::ParseInt(_)),
            Err(SelectionError::Invalid(m)) => r matches Err(AppError::InvalidInput(x)) && x@ == m,
        },
{
    let trimmed = trim_str(input);
    let lowered = lower_chars(trimmed.as_slice());
    let all = chars_of("all");
    if same_chars(lowered.as_slice(), all.as_slice()) {
        return Ok(ChapterSelection::All);
    }
    let k = find_char(trimmed.as_slice(), '-');
    proof {
        lemma_first_index(trimmed@, '-');
    }
    if k < trimmed.len() {
        let left = slice_chars(trimmed.as_slice(), 0, k);
        let right = slice_chars(trimmed.as_slice(), k + 1, trimmed.len());
        assert(left@ =~= trimmed@.take(k as int));
        assert(right@ =~= trimmed@.skip(k + 1));
        let left_text = string_from_chars(trim_chars(left.as_slice()).as_slice());
        let start = match parse_usize(left_text.as_str()) {
            Ok(n) => n,
            Err(e) => return Err(AppError::ParseInt(e)),
        };
        let right_text = string_from_chars(trim_chars(right.as_slice()).as_slice());
        let end = match parse_usize(right_text.as_str()) {
            Ok(n) => n,
            Err(e) => return Err(AppError::ParseInt(e)),
        };
        validate_range(start, end, total)?;
        return Ok(ChapterSelection::IndexRange { start, end });
    }
    let text = string_from_chars(trimmed.as_slice());
    let index = match parse_usize(text.as_str()) {
        Ok(n) => n,
        Err(e) => return Err(AppError::ParseInt(e)),
    };
    validate_index(index, total)?;
    Ok(ChapterSelection::Index(index))
}

/// Parses a selection by real chapter number.
///
/// Unlike the selection by position it does not know the catalog: whether
/// the numbers exist is only checked by `resolve`.
pub fn parse_chapter_number_selection(input: &str) -> (r: Result<ChapterSelection, AppError>)
    ensures
        match number_selection(input@) {
            Ok(v) => r matches Ok(s) && s@ == v,
            Err(m) => r matches Err(AppError::InvalidInput(x)) && x@ == m,
        },
{
    let trimmed = trim_str(input);
    if trimmed.len() == 0 {
        let m = chars_of("chapter number selection cannot be empty");
        return Err(invalid(m.as_slice()));
    }
    let k = find_char(trimmed.as_slice(), '-');
    proof {
        lemma_first_index(trimmed@, '-');
    }
    if k < trimmed.len() {
        let left = slice_chars(trimmed.as_slice(), 0, k);
        let right = slice_chars(trimmed.as_slice(), k + 1, trimmed.len());
        assert(left@ =~= trimmed@.take(k as int));
        assert(right@ =~= trimmed@.skip(k + 1));
        let start = validate_chapter_number_input(left.as_slice())?;
        let end = validate_chapter_number_input(right.as_slice())?;
        validate_chapter_number_order(start.as_slice(), end.as_slice())?;
        return Ok(
            ChapterSelection::NumberRange {
                start: string_from_chars(start.as_slice()),
                end: string_from_chars(end.as_slice()),
            },
        );
    }
    let number = validate_chapter_number_input(trimmed.as_slice())?;
    Ok(ChapterSelection::Number(string_from_chars(number.as_slice())))
}

/// Finds the positions of the chapters whose key is the given number.
fn resolve_chapter_number(chapters: &[IndexedChapter], number: &str) -> (r: Result<
    Vec<usize>,
    AppError,
>)
    requires
        chapters@.len() > 0,
    ensures
        ({
            let found = indices_where(
                chapters@,
                matches_number(number@),
            );
            if found.len() == 0 {
                r matches Err(AppError::InvalidInput(x)) && x@ == number_not_found_message(number@)
            } else {
                r matches Ok(w) && w@ == found
            }
        }),
{
    let ghost p = matches_number(number@);
    let normalized = normalize_chapter_number(number);
    let mut matches: Vec<usize> = Vec::new();
    let mut i: usize = 0;
    while i < chapters.len()
        invariant
            i <= chapters@.len(),
            normalized@ == normalized_number(number@),
            p == (matches_number(number@)),
            matches@ == indices_where(chapters@.take(i as int), p),
        decreases chapters@.len() - i,
    {
        let key = normalize_chapter_number(chapters[i].key.as_str());
        if same_chars(key.as_slice(), normalized.as_slice()) {
            matches.push(chapters[i].index);
        }
        assert(chapters@.take(i + 1).drop_last() =~= chapters@.take(i as int));
        i += 1;
    }
    assert(chapters@.take(chapters@.len() as int) =~= chapters@);
    if matches.len() == 0 {
        let mut m = chars_of("chapter number ");
        push_str(&mut m, number);
        push_str(&mut m, " was not found in the selected language catalog");
        return Err(invalid(m.as_slice()));
    }
    Ok(matches)
}

/// Finds the positions of the chapters whose number lies in `[start, end]`.
///
/// The bounds and the keys are read as the `f64` values they parse to, so
/// that decimal numbers such as `0.01` take part.
fn resolve_chapter_number_range(chapters: &[IndexedChapter], start: &str, end: &str) -> (r:
    Result<Vec<usize>, AppError>)
    requires
        chapters@.len() > 0,
    ensures
        match (numeric_reading(start@), numeric_reading(end@)) {
            (None, _) => r matches Err(AppError::InvalidInput(x)) && x@ == not_numeric_message(
                start@,
            ),
            (_, None) => r matches Err(AppError::InvalidInput(x)) && x@ == not_numeric_message(
                end@,
            ),
            (Some(sv), Some(ev)) => {
                let found = indices_where(chapters@, in_number_range(sv, ev));
                if found.len() == 0 {
                    r matches Err(AppError::InvalidInput(x)) && x@
                        == number_range_unmatched_message(start@, end@)
                } else {
                    r matches Ok(w) && w@ == found
                }
            },
        },
{
    let start_chars = chars_of(start);
    let end_chars = chars_of(end);
    let start_number = parse_numeric_chapter_number(start_chars.as_slice())?;
    let end_number = parse_numeric_chapter_number(end_chars.as_slice())?;
    let ghost sv = start_number@;
    let ghost ev = end_number@;
    let ghost p = in_number_range(sv, ev);
    let mut matches: Vec<usize> = Vec::new();
    let mut i: usize = 0;
    while i < chapters.len()
        invariant
            i <= chapters@.len(),
            sv == start_number@,
            ev == end_number@,
            p == (in_number_range(sv, ev)),
            matches@ == indices_where(chapters@.take(i as int), p),
        decreases chapters@.len() - i,
    {
        let key = chars_of(chapters[i].key.as_str());
        let key_trimmed = trim_chars(key.as_slice());
        let reading = match read_number_chars(key_trimmed.as_slice()) {
            Some(n) => Some(round_to_binary64(&n)),
            None => None,
        };
        let inside = match reading {
            Some(value) => number_le_exec(&start_number, &value) && number_le_exec(
                &value,
                &end_number,
            ),
            None => false,
        };
        if inside {
            matches.push(chapters[i].index);
        }
        assert(chapters@.take(i + 1).drop_last() =~= chapters@.take(i as int));
        i += 1;
    }
    assert(chapters@.take(chapters@.len() as int) =~= chapters@);
    if matches.len() == 0 {
        let mut m = chars_of("chapter number range ");
        push_str(&mut m, start);
        push_str(&mut m, "-");
        push_str(&mut m, end);
        push_str(&mut m, " did not match any chapters in the selected language catalog");
        return Err(invalid(m.as_slice()));
    }
    Ok(matches)
}

/// Checks that a 1-based position exists in the catalog.
fn validate_index(index: usize, total: usize) -> (r: Result<(), AppError>)
    ensures
        match index_error(index as nat, total as nat) {
            Some(m) => r matches Err(AppError::InvalidInput(x)) && x@ == m,
            None => r is Ok,
        },
{
    if index == 0 {
        let m = chars_of("chapter index must start at 1");
        return Err(invalid(m.as_slice()));
    }
    if index > total {
        let mut m = chars_of("chapter index ");
        push_all(&mut m, usize_text(index).as_slice());
        push_str(&mut m, " is outside the catalog total ");
        push_all(&mut m, usize_text(total).as_slice());
        return Err(invalid(m.as_slice()));
    }
    Ok(())
}

/// Checks one chapter number text; path separators are refused because the
/// number can end up in the archive's file name.
fn validate_chapter_number_input(input: &[char]) -> (r: Result<Vec<char>, AppError>)
    ensures
        match checked_number(input@) {
            Ok(t) => r matches Ok(v) && v@ == t,
            Err(m) => r matches Err(AppError::InvalidInput(x)) && x@ == m,
        },
{
    let trimmed = trim_chars(input);
    if trimmed.len() == 0 {
        let m = chars_of("chapter number cannot be empty");
        return Err(invalid(m.as_slice()));
    }
    if contains_char(trimmed.as_slice(), '/') || contains_char(trimmed.as_slice(), '\\') {
        let mut m = chars_of("chapter number '");
        push_all(&mut m, trimmed.as_slice());
        push_str(&mut m, "' contains invalid path separators");
        return Err(invalid(m.as_slice()));
    }
    Ok(trimmed)
}

/// Checks the order of a range of chapter numbers.
fn validate_chapter_number_order(start: &[char], end: &[char]) -> (r: Result<(), AppError>)
    ensures
        match (numeric_reading(start@), numeric_reading(end@)) {
            (None, _) => r matches Err(AppError::InvalidInput(x)) && x@ == not_numeric_message(
                start@,
            ),
            (_, None) => r matches Err(AppError::InvalidInput(x)) && x@ == not_numeric_message(
                end@,
            ),
            (Some(sv), Some(ev)) => if number_gt(sv, ev) {
                r matches Err(AppError::InvalidInput(x)) && x@ == number_order_message(
                    start@,
                    end@,
                )
            } else {
                r is Ok
            },
        },
{
    let start_number = parse_numeric_chapter_number(start)?;
    let end_number = parse_numeric_chapter_number(end)?;
    let greater = start_number.kind != NumberKind::NotANumber && end_number.kind
        != NumberKind::NotANumber && !number_le_exec(&start_number, &end_number);
    if greater {
        let mut m = chars_of("chapter number range start ");
        push_all(&mut m, start);
        push_str(&mut m, " cannot be greater than end ");
        push_all(&mut m, end);
        return Err(invalid(m.as_slice()));
    }
    Ok(())
}

/// Reads a chapter number text as a number, for comparisons.
fn parse_numeric_chapter_number(value: &[char]) -> (r: Result<DecimalNumber, AppError>)
    ensures
        match numeric_reading(value@) {
            Some(v) => r matches Ok(n) && n@ == v,
            None => r matches Err(AppError::InvalidInput(x)) && x@ == not_numeric_message(value@),
        },
{
    let trimmed = trim_chars(value);
    match read_number_chars(trimmed.as_slice()) {
        Some(n) => Ok(round_to_binary64(&n)),
        None => {
            let mut m = chars_of("chapter number '");
            push_all(&mut m, value);
            push_str(&mut m, "' must be numeric for range selection: ");
            if trimmed.len() == 0 {
                push_str(&mut m, "cannot parse float from empty string");
            } else {
                push_str(&mut m, "invalid float literal");
            }
            Err(invalid(m.as_slice()))
        },
    }
}

/// Normal form of a chapter number for exact comparison.
fn normalize_chapter_number(value: &str) -> (r: Vec<char>)
    ensures
        r@ == normalized_number(value@),
{
    let trimmed = trim_str(value);
    lower_chars(trimmed.as_slice())
}

/// Checks a closed range of positions.
fn validate_range(start: usize, end: usize, total: usize) -> (r: Result<(), AppError>)
    ensures
        match range_error(start as nat, end as nat, total as nat) {
            Some(m) => r matches Err(AppError::InvalidInput(x)) && x@ == m,
            None => r is Ok,
        },
{
    validate_index(start, total)?;
    validate_index(end, total)?;
    if start > end {
        let mut m = chars_of("chapter range start ");
        push_all(&mut m, usize_text(start).as_slice());
        push_str(&mut m, " cannot be greater than end ");
        push_all(&mut m, usize_text(end).as_slice());
        return Err(invalid(m.as_slice()));
    }
    Ok(())
}

} // verus!
