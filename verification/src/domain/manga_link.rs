//! Extraction of the manga id from a link.
//!
//! The command line accepts the public MangaDex URL of a title or the bare
//! UUID. This module checks where a link points and always yields the UUID
//! in its canonical form.

use vstd::prelude::*;

use crate::infra::error::AppError;
use crate::text::{
    chars_eq_str, chars_of, lemma_trim_unchanged, push_str, string_from_chars, trim, trim_str,
};

verus! {

/// What `Uuid::parse_str` followed by `to_string` gives for a text: the
/// canonical (hyphenated, lower-case) form, or nothing when the text is not a
/// UUID.
pub uninterp spec fn uuid_canonical(s: Seq<char>) -> Option<Seq<char>>;

/// Whether `Url::parse` accepts a text as an absolute URL.
pub uninterp spec fn url_parses(s: Seq<char>) -> bool;

/// What `Url::host_str` gives for the URL parsed from a text.
pub uninterp spec fn url_host(s: Seq<char>) -> Option<Seq<char>>;

/// What `Url::path_segments` gives for the URL parsed from a text.
pub uninterp spec fn url_path_segments(s: Seq<char>) -> Option<Seq<Seq<char>>>;

/// The parts of a parsed URL that the manga link rules read.
pub struct ParsedUrl {
    /// The host, when the URL has one (`Url::host_str`).
    pub host: Option<String>,
    /// The path segments, when the URL can be a base (`Url::path_segments`).
    pub path_segments: Option<Vec<String>>,
}

impl ParsedUrl {
    pub open spec fn host_view(&self) -> Option<Seq<char>> {
        match self.host {
            Some(h) => Some(h@),
            None => None,
        }
    }

    pub open spec fn segments_view(&self) -> Option<Seq<Seq<char>>> {
        match self.path_segments {
            Some(ss) => Some(ss@.map_values(|s: String| s@)),
            None => None,
        }
    }
}

/// A character of the hyphenated lower-case form of a UUID.
pub open spec fn is_uuid_char(c: char) -> bool {
    ('0' <= c <= '9') || ('a' <= c <= 'f') || c == '-'
}

/// `uuid::Uuid::parse_str` followed by `to_string`: the result is the named
/// canonical form of the input. The canonical form is the hyphenated
/// lower-case hexadecimal form, 36 characters long, and parses back to itself
/// (the crate's display form is one of the formats its parser accepts).
#[verifier::external_body]
fn parse_uuid(s: &str) -> (r: Result<String, uuid::Error>)
    ensures
        r is Ok <==> uuid_canonical(s@) is Some,
        r matches Ok(t) ==> uuid_canonical(s@) == Some(t@),
        r matches Ok(t) ==> t@.len() == 36 && uuid_canonical(t@) == Some(t@),
        r matches Ok(t) ==> forall|i: int| 0 <= i < t@.len() ==> is_uuid_char(#[trigger] t@[i]),
{
    uuid::Uuid::parse_str(s).map(|u| u.to_string())
}

/// `url::Url::parse`, with the URL's `host_str` and `path_segments` read out
/// as plain values: the result is the named outcome of each call on the input.
#[verifier::external_body]
fn parse_url(s: &str) -> (r: Result<ParsedUrl, url::ParseError>)
    ensures
        r is Ok <==> url_parses(s@),
        r matches Ok(p) ==> p.host_view() == url_host(s@) && p.segments_view()
            == url_path_segments(s@),
{
    match url::Url::parse(s) {
        Ok(u) => Ok(
            ParsedUrl {
                host: u.host_str().map(|h| h.to_string()),
                path_segments: u.path_segments().map(|ss| ss.map(|x| x.to_string()).collect()),
            },
        ),
        Err(e) => Err(e),
    }
}

pub open spec fn not_a_link_message() -> Seq<char> {
    "expected a MangaDex title URL or manga UUID"@
}

pub open spec fn wrong_host_message(host: Seq<char>) -> Seq<char> {
    "expected mangadex.org URL, got host '"@ + host + "'"@
}

pub open spec fn missing_title_message() -> Seq<char> {
    "expected URL path /title/{manga-id}/..."@
}

/// Index of the first segment equal to `title`, or `segments.len()`.
pub open spec fn title_position(segments: Seq<Seq<char>>) -> int
    decreases segments.len(),
{
    if segments.len() == 0 {
        0
    } else if segments[0] == "title"@ {
        0
    } else {
        1 + title_position(segments.drop_first())
    }
}

/// The id segment of a MangaDex title URL, or the message of the refusal:
/// the host must be `mangadex.org` or `www.mangadex.org`, and the id is the
/// segment right after the first `title` segment.
pub open spec fn title_segment_of(
    host: Option<Seq<char>>,
    segments: Option<Seq<Seq<char>>>,
) -> Result<Seq<char>, Seq<char>> {
    let h = match host {
        Some(h) => h,
        None => Seq::<char>::empty(),
    };
    let ss = match segments {
        Some(ss) => ss,
        None => Seq::<Seq<char>>::empty(),
    };
    let p = title_position(ss);
    if !(h == "mangadex.org"@ || h == "www.mangadex.org"@) {
        Err(wrong_host_message(h))
    } else if p + 1 < ss.len() {
        Ok(ss[p + 1])
    } else {
        Err(missing_title_message())
    }
}

/// Why a link was refused.
pub enum LinkError {
    /// An invalid input (`AppError::InvalidInput` with this message).
    Invalid(Seq<char>),
    /// The id segment is not a UUID (`AppError::Uuid`).
    NotAUuid,
}

/// What `extract_manga_id` gives for a text.
pub open spec fn manga_id_of(input: Seq<char>) -> Result<Seq<char>, LinkError> {
    let t = trim(input);
    match uuid_canonical(t) {
        Some(c) => Ok(c),
        None => if !url_parses(t) {
            Err(LinkError::Invalid(not_a_link_message()))
        } else {
            match title_segment_of(url_host(t), url_path_segments(t)) {
                Err(m) => Err(LinkError::Invalid(m)),
                Ok(seg) => match uuid_canonical(seg) {
                    Some(c) => Ok(c),
                    None => Err(LinkError::NotAUuid),
                },
            }
        },
    }
}

/// Finds the id segment of a parsed MangaDex title URL.
///
/// Links to other hosts are refused, so that no download starts from an
/// ambiguous or malformed input.
pub fn title_segment(url: &ParsedUrl) -> (r: Result<String, AppError>)
    ensures
        match title_segment_of(url.host_view(), url.segments_view()) {
            Ok(s) => r matches Ok(t) && t@ == s,
            Err(m) => r matches Err(AppError::InvalidInput(x)) && x@ == m,
        },
{
    let host = match &url.host {
        Some(h) => chars_of(h.as_str()),
        None => Vec::new(),
    };
    if !(chars_eq_str(host.as_slice(), "mangadex.org") || chars_eq_str(
        host.as_slice(),
        "www.mangadex.org",
    )) {
        let mut m = chars_of("expected mangadex.org URL, got host '");
        crate::text::push_all(&mut m, host.as_slice());
        push_str(&mut m, "'");
        return Err(AppError::InvalidInput(string_from_chars(m.as_slice())));
    }
    let empty: Vec<String> = Vec::new();
    let segments = match &url.path_segments {
        Some(ss) => ss,
        None => &empty,
    };
    let ghost sv = segments@.map_values(|s: String| s@);
    assert(url.segments_view() matches Some(x) ==> x == sv);
    assert(url.segments_view() is None ==> sv =~= Seq::<Seq<char>>::empty());
    let mut p: usize = 0;
    assert(sv.skip(0) =~= sv);
    while p < segments.len() && !chars_eq_str(chars_of(segments[p].as_str()).as_slice(), "title")
        invariant
            p <= segments@.len(),
            sv == segments@.map_values(|s: String| s@),
            title_position(sv) == p + title_position(sv.skip(p as int)),
        decreases segments@.len() - p,
    {
        assert(sv.skip(p as int)[0] == sv[p as int]);
        assert(sv.skip(p as int).drop_first() =~= sv.skip(p + 1));
        p += 1;
    }
    proof {
        if p < segments.len() {
            assert(sv.skip(p as int)[0] == sv[p as int]);
        }
    }
    if p < segments.len() && p + 1 < segments.len() {
        let id = chars_of(segments[p + 1].as_str());
        Ok(string_from_chars(id.as_slice()))
    } else {
        let m = chars_of("expected URL path /title/{manga-id}/...");
        Err(AppError::InvalidInput(string_from_chars(m.as_slice())))
    }
}

proof fn lemma_canonical_fixed_point(t: Seq<char>)
    requires
        t.len() == 36,
        uuid_canonical(t) == Some(t),
        forall|i: int| 0 <= i < t.len() ==> is_uuid_char(#[trigger] t[i]),
    ensures
        manga_id_of(t) == Ok::<Seq<char>, LinkError>(t),
{
    assert(is_uuid_char(t[0]));
    assert(is_uuid_char(t[35]));
    lemma_trim_unchanged(t);
}

/// Extracts the manga UUID from a MangaDex title link or a bare UUID.
///
/// An extracted id is a fixed point: extracting from it gives it back.
pub fn extract_manga_id(input: &str) -> (r: Result<String, AppError>)
    ensures
        match manga_id_of(input@) {
            Ok(c) => r matches Ok(t) && t@ == c,
            Err(LinkError::Invalid(m)) => r matches Err(AppError::InvalidInput(x)) && x@ == m,
            Err(LinkError::NotAUuid) => r matches Err(AppError::Uuid(_)),
        },
        r matches Ok(t) ==> manga_id_of(t@) == Ok::<Seq<char>, LinkError>(t@),
{
    let trimmed = string_from_chars(trim_str(input).as_slice());
    if let Ok(id) = parse_uuid(trimmed.as_str()) {
        proof {
            lemma_canonical_fixed_point(id@);
        }
        return Ok(id);
    }
    let url = match parse_url(trimmed.as_str()) {
        Ok(u) => u,
        Err(_) => {
            let m = chars_of("expected a MangaDex title URL or manga UUID");
            return Err(AppError::InvalidInput(string_from_chars(m.as_slice())));
        },
    };
    let segment = title_segment(&url)?;
    match parse_uuid(segment.as_str()) {
        Ok(id) => {
            proof {
                lemma_canonical_fixed_point(id@);
            }
            Ok(id)
        },
        Err(e) => Err(AppError::Uuid(e)),
    }
}

} // verus!
