//! Names of the folders the application creates.
//!
//! One folder is created per manga inside the chosen directory. Its name has
//! to be predictable and valid on the supported systems.

use vstd::prelude::*;

use crate::domain::archive::{
    add_base_suffix, is_invalid_file_name_character, is_invalid_name_char, is_reserved_name,
    is_reserved_windows_name, lemma_prefix_not_reserved, replace_invalid,
    lemma_protect_reserved, protect_reserved,
};
use crate::text::{
    CharClass, chars_of, collapse_ws, collapse_whitespace, lemma_strip_chars_from, slice_chars,
    strip, strip_chars, string_from_chars, trim, trim_chars,
};

verus! {

/// Maximum number of characters of a manga folder name.
pub const MAX_FOLDER_NAME_CHARS: usize = 120;

/// The folder name of a manga title.
pub open spec fn folder_name(name: Seq<char>) -> Seq<char> {
    let collapsed = collapse_ws(replace_invalid(name));
    let trimmed = trim(strip(collapsed, CharClass::SpaceOrDot));
    let candidate = if trimmed.len() == 0 {
        "manga"@
    } else {
        trimmed
    };
    let safe = protect_reserved(candidate);
    if safe.len() > MAX_FOLDER_NAME_CHARS {
        safe.take(MAX_FOLDER_NAME_CHARS as int)
    } else {
        safe
    }
}

/// Sanitises a manga title for use as a folder name.
///
/// Invalid characters become `_`, runs of white space collapse to one space,
/// and names that Windows reserves get a safe suffix after their reserved
/// part (`CON` becomes `CON_`, `con.txt` becomes `con_.txt`). The result is
/// never empty, never reserved, holds at most 120 characters and no
/// character that is invalid in a path.
pub fn sanitize_folder_name(name: &str) -> (r: String)
    ensures
        r@ == folder_name(name@),
        0 < r@.len() <= MAX_FOLDER_NAME_CHARS,
        forall|i: int| 0 <= i < r@.len() ==> !is_invalid_name_char(#[trigger] r@[i]),
        !is_reserved_name(r@),
{
    let chars = chars_of(name);
    let mut replaced: Vec<char> = Vec::new();
    let mut i: usize = 0;
    while i < chars.len()
        invariant
            i <= chars@.len(),
            replaced@ == replace_invalid(chars@.take(i as int)),
        decreases chars@.len() - i,
    {
        let c = chars[i];
        replaced.push(
            if is_invalid_file_name_character(c) {
                '_'
            } else {
                c
            },
        );
        assert(replace_invalid(chars@.take(i + 1)) =~= replace_invalid(
            chars@.take(i as int),
        ).push(if is_invalid_name_char(c) { '_' } else { c }));
        i += 1;
    }
    assert(chars@.take(chars@.len() as int) =~= chars@);
    let collapsed = collapse_whitespace(replaced.as_slice());
    let stripped = strip_chars(collapsed.as_slice(), CharClass::SpaceOrDot);
    let trimmed = trim_chars(stripped.as_slice());
    let candidate = if trimmed.len() == 0 {
        chars_of("manga")
    } else {
        trimmed
    };
    let safe = if is_reserved_windows_name(candidate.as_slice()) {
        add_base_suffix(candidate.as_slice())
    } else {
        candidate
    };
    let result = if safe.len() > MAX_FOLDER_NAME_CHARS {
        slice_chars(safe.as_slice(), 0, MAX_FOLDER_NAME_CHARS)
    } else {
        safe
    };
    proof {
        reveal_strlit("manga");
        assert(result@ =~= folder_name(name@));
        lemma_folder_name_valid(name@);
    }
    string_from_chars(result.as_slice())
}

proof fn lemma_collapse_keeps_valid(s: Seq<char>)
    requires
        forall|i: int| 0 <= i < s.len() ==> !is_invalid_name_char(#[trigger] s[i]),
    ensures
        forall|i: int|
            0 <= i < collapse_ws(s).len() ==> !is_invalid_name_char(#[trigger] collapse_ws(s)[i]),
    decreases s.len(),
{
    if s.len() > 0 {
        let t = s.drop_last();
        assert forall|i: int| 0 <= i < t.len() implies !is_invalid_name_char(#[trigger] t[i]) by {
            assert(t[i] == s[i]);
        }
        lemma_collapse_keeps_valid(t);
        assert(!is_invalid_name_char(s[s.len() - 1]));
        let p = collapse_ws(t);
        let r = collapse_ws(s);
        assert forall|i: int| 0 <= i < r.len() implies !is_invalid_name_char(#[trigger] r[i]) by {
            if i < p.len() {
                assert(r[i] == p[i]);
            }
        }
    }
}

proof fn lemma_valid_through_strip(s: Seq<char>, cls: CharClass)
    requires
        forall|i: int| 0 <= i < s.len() ==> !is_invalid_name_char(#[trigger] s[i]),
    ensures
        forall|i: int|
            0 <= i < strip(s, cls).len() ==> !is_invalid_name_char(#[trigger] strip(s, cls)[i]),
{
    lemma_strip_chars_from(s, cls);
    assert forall|i: int| 0 <= i < strip(s, cls).len() implies !is_invalid_name_char(
        #[trigger] strip(s, cls)[i],
    ) by {
        let j = choose|j: int| 0 <= j < s.len() && s[j] == strip(s, cls)[i];
        assert(!is_invalid_name_char(s[j]));
    }
}

proof fn lemma_folder_name_valid(name: Seq<char>)
    ensures
        0 < folder_name(name).len() <= MAX_FOLDER_NAME_CHARS,
        !is_reserved_name(folder_name(name)),
        forall|i: int|
            0 <= i < folder_name(name).len() ==> !is_invalid_name_char(
                #[trigger] folder_name(name)[i],
            ),
{
    reveal_strlit("manga");
    let replaced = replace_invalid(name);
    assert forall|i: int| 0 <= i < replaced.len() implies !is_invalid_name_char(
        #[trigger] replaced[i],
    ) by {
        assert(replaced[i] == (if is_invalid_name_char(name[i]) {
            '_'
        } else {
            name[i]
        }));
    }
    lemma_collapse_keeps_valid(replaced);
    let collapsed = collapse_ws(replaced);
    lemma_valid_through_strip(collapsed, CharClass::SpaceOrDot);
    let stripped = strip(collapsed, CharClass::SpaceOrDot);
    lemma_valid_through_strip(stripped, CharClass::Whitespace);
    let trimmed = trim(stripped);
    let candidate = if trimmed.len() == 0 {
        "manga"@
    } else {
        trimmed
    };
    assert forall|i: int| 0 <= i < candidate.len() implies !is_invalid_name_char(
        #[trigger] candidate[i],
    ) by {
        if trimmed.len() == 0 {
            assert(candidate[i] == "manga"@[i]);
        }
    }
    lemma_protect_reserved(candidate);
    let safe = protect_reserved(candidate);
    if safe.len() > MAX_FOLDER_NAME_CHARS {
        lemma_prefix_not_reserved(safe, MAX_FOLDER_NAME_CHARS as int);
    }
}

} // verus!
