//! Choice of the local title of a manga.
//!
//! MangaDex gives titles by language. The application picks one to show in
//! the terminal and to name the local folder.

use vstd::prelude::*;

use crate::data::models::MangaAttributes;
use crate::text::{chars_eq_str, string_from_chars, trim, trim_str};

verus! {

/// The title stored under the language code `lang`: the first entry with
/// that code (in a well-formed map there is at most one).
pub open spec fn title_for(entries: Seq<(String, String)>, lang: Seq<char>) -> Option<Seq<char>>
    decreases entries.len(),
{
    if entries.len() == 0 {
        None
    } else if entries[0].0@ == lang {
        Some(entries[0].1@)
    } else {
        title_for(entries.drop_first(), lang)
    }
}

/// The first title, in map order, that is not blank, trimmed.
pub open spec fn first_nonblank_title(entries: Seq<(String, String)>) -> Option<Seq<char>>
    decreases entries.len(),
{
    if entries.len() == 0 {
        None
    } else if trim(entries[0].1@).len() > 0 {
        Some(trim(entries[0].1@))
    } else {
        first_nonblank_title(entries.drop_first())
    }
}

/// The trimmed title under `lang`, when there is one and it is not blank.
pub open spec fn usable_title(entries: Seq<(String, String)>, lang: Seq<char>) -> Option<Seq<char>> {
    match title_for(entries, lang) {
        Some(t) if trim(t).len() > 0 => Some(trim(t)),
        _ => None,
    }
}

/// The title chosen for a manga: English, Brazilian Portuguese, romanised
/// Japanese, Japanese, then any non-blank title, then `Unknown Manga`.
pub open spec fn chosen_title(entries: Seq<(String, String)>) -> Seq<char> {
    if usable_title(entries, "en"@) is Some {
        usable_title(entries, "en"@)->0
    } else if usable_title(entries, "pt-br"@) is Some {
        usable_title(entries, "pt-br"@)->0
    } else if usable_title(entries, "ja-ro"@) is Some {
        usable_title(entries, "ja-ro"@)->0
    } else if usable_title(entries, "ja"@) is Some {
        usable_title(entries, "ja"@)->0
    } else if first_nonblank_title(entries) is Some {
        first_nonblank_title(entries)->0
    } else {
        "Unknown Manga"@
    }
}

proof fn lemma_first_nonblank_title_not_empty(entries: Seq<(String, String)>)
    ensures
        first_nonblank_title(entries) matches Some(t) ==> t.len() > 0,
    decreases entries.len(),
{
    if entries.len() > 0 && trim(entries[0].1@).len() == 0 {
        lemma_first_nonblank_title_not_empty(entries.drop_first());
    }
}

/// The chosen title is never empty, so a manga always has a name to show
/// and to name its folder after.
pub proof fn lemma_chosen_title_not_empty(entries: Seq<(String, String)>)
    ensures
        chosen_title(entries).len() > 0,
{
    lemma_first_nonblank_title_not_empty(entries);
    reveal_strlit("Unknown Manga");
}

/// The preferred languages of a title, best first.
pub open spec fn preferred_languages() -> Seq<Seq<char>> {
    seq!["en"@, "pt-br"@, "ja-ro"@, "ja"@]
}

/// In a map without repeated codes, the title stored under the code of
/// entry `i` is the title of entry `i`.
proof fn lemma_title_for_entry(entries: Seq<(String, String)>, i: int)
    requires
        0 <= i < entries.len(),
        forall|a: int, b: int|
            0 <= a < b < entries.len() ==> #[trigger] entries[a].0@ != #[trigger] entries[b].0@,
    ensures
        title_for(entries, entries[i].0@) == Some(entries[i].1@),
    decreases i,
{
    if i > 0 {
        let t = entries.drop_first();
        assert(entries[0].0@ != entries[i].0@);
        assert forall|a: int, b: int| 0 <= a < b < t.len() implies #[trigger] t[a].0@ != #[trigger] t[b].0@ by {
            assert(t[a] == entries[a + 1] && t[b] == entries[b + 1]);
        }
        lemma_title_for_entry(t, i - 1);
        assert(t[i - 1] == entries[i]);
    }
}

/// A code with no non-blank title in the map has no usable title.
proof fn lemma_title_for_blank(entries: Seq<(String, String)>, lang: Seq<char>)
    requires
        forall|j: int|
            0 <= j < entries.len() && (#[trigger] entries[j]).0@ == lang ==> trim(entries[j].1@).len()
                == 0,
    ensures
        usable_title(entries, lang) is None,
    decreases entries.len(),
{
    if entries.len() > 0 && entries[0].0@ != lang {
        let t = entries.drop_first();
        assert forall|j: int| 0 <= j < t.len() && (#[trigger] t[j]).0@ == lang implies trim(
            t[j].1@,
        ).len() == 0 by {
            assert(t[j] == entries[j + 1]);
        }
        lemma_title_for_blank(t, lang);
    }
}

/// The title comes from the most preferred language that has a non-blank
/// title: English first, then Brazilian Portuguese, romanised Japanese and
/// Japanese. If entry `i` holds a non-blank title under the preferred code
/// of rank `r`, and no code ranked before `r` holds a non-blank title, the
/// chosen title is entry `i`'s title trimmed, whatever else the map holds.
pub proof fn lemma_preferred_title_chosen(entries: Seq<(String, String)>, r: int, i: int)
    requires
        forall|a: int, b: int|
            0 <= a < b < entries.len() ==> #[trigger] entries[a].0@ != #[trigger] entries[b].0@,
        0 <= r < 4,
        0 <= i < entries.len(),
        entries[i].0@ == preferred_languages()[r],
        trim(entries[i].1@).len() > 0,
        forall|q: int, j: int|
            0 <= q < r && 0 <= j < entries.len() && (#[trigger] entries[j]).0@
                == #[trigger] preferred_languages()[q] ==> trim(entries[j].1@).len() == 0,
    ensures
        chosen_title(entries) == trim(entries[i].1@),
{
    reveal_strlit("en");
    reveal_strlit("pt-br");
    reveal_strlit("ja-ro");
    reveal_strlit("ja");
    let langs = preferred_languages();
    lemma_title_for_entry(entries, i);
    assert forall|q: int| 0 <= q < r implies usable_title(entries, #[trigger] langs[q]) is None by {
        assert forall|j: int| 0 <= j < entries.len() && (#[trigger] entries[j]).0@ == langs[q] implies trim(
            entries[j].1@,
        ).len() == 0 by {
            assert(entries[j].0@ == langs[q]);
        }
        lemma_title_for_blank(entries, langs[q]);
    }
    if r >= 1 {
        assert(usable_title(entries, langs[0]) is None);
    }
    if r >= 2 {
        assert(usable_title(entries, langs[1]) is None);
    }
    if r >= 3 {
        assert(usable_title(entries, langs[2]) is None);
    }
}

/// The trimmed, non-blank title under a language code.
fn usable_title_exec(attributes: &MangaAttributes, lang: &str) -> (r: Option<Vec<char>>)
    ensures
        match usable_title(attributes.title@, lang@) {
            Some(t) => r matches Some(v) && v@ == t,
            None => r is None,
        },
{
    let entries = &attributes.title;
    let mut i: usize = 0;
    assert(entries@.skip(0) =~= entries@);
    while i < entries.len()
        invariant
            i <= entries@.len(),
            entries@ == attributes.title@,
            title_for(entries@, lang@) == title_for(entries@.skip(i as int), lang@),
        decreases entries@.len() - i,
    {
        assert(entries@.skip(i as int)[0] == entries@[i as int]);
        if chars_eq_str(crate::text::chars_of(entries[i].0.as_str()).as_slice(), lang) {
            assert(title_for(entries@.skip(i as int), lang@) == Some(entries@[i as int].1@));
            let t = trim_str(entries[i].1.as_str());
            if t.len() > 0 {
                return Some(t);
            } else {
                return None;
            }
        }
        assert(entries@.skip(i as int).drop_first() =~= entries@.skip(i + 1));
        i += 1;
    }
    None
}

/// Chooses the best title in the manga's attributes.
///
/// English comes first, then Brazilian Portuguese and the romanised titles.
/// When none of these keys exists the first non-blank title is used and,
/// last, an explicit fallback.
pub fn choose_manga_title(attributes: &MangaAttributes) -> (r: String)
    requires
        attributes.well_formed(),
    ensures
        r@ == chosen_title(attributes.title@),
{
    if let Some(t) = usable_title_exec(attributes, "en") {
        return string_from_chars(t.as_slice());
    }
    if let Some(t) = usable_title_exec(attributes, "pt-br") {
        return string_from_chars(t.as_slice());
    }
    if let Some(t) = usable_title_exec(attributes, "ja-ro") {
        return string_from_chars(t.as_slice());
    }
    if let Some(t) = usable_title_exec(attributes, "ja") {
        return string_from_chars(t.as_slice());
    }
    let entries = &attributes.title;
    let mut i: usize = 0;
    assert(entries@.skip(0) =~= entries@);
    while i < entries.len()
        invariant
            i <= entries@.len(),
            entries@ == attributes.title@,
            usable_title(entries@, "en"@) is None,
            usable_title(entries@, "pt-br"@) is None,
            usable_title(entries@, "ja-ro"@) is None,
            usable_title(entries@, "ja"@) is None,
            first_nonblank_title(entries@) == first_nonblank_title(entries@.skip(i as int)),
        decreases entries@.len() - i,
    {
        assert(entries@.skip(i as int)[0] == entries@[i as int]);
        let t = trim_str(entries[i].1.as_str());
        if t.len() > 0 {
            assert(first_nonblank_title(entries@.skip(i as int)) == Some(t@));
            return string_from_chars(t.as_slice());
        }
        assert(entries@.skip(i as int).drop_first() =~= entries@.skip(i + 1));
        i += 1;
    }
    "Unknown Manga".to_string()
}

} // verus!
