//! Indexing of the chapter feed and availability of chapters.
//!
//! The MangaDex feed can hold several entries for one chapter number
//! (translations, scanlation groups, external chapters). They are grouped
//! into indexed chapters, and the best downloadable entry is chosen for the
//! requested language.

use vstd::prelude::*;

use crate::data::models::ChapterResource;
use crate::binary64::{lemma_read_binary64_normal, read_binary64, round_to_binary64};
use crate::number::{
    NumberKind, lemma_order_total_follows_values, value_times_pow10,
    DecimalNumber, NumberValue, lemma_order_total_antisymmetric, lemma_order_total_transitive, order_total, order_total_exec,
    read_number, read_number_chars,
};
use crate::text::{
    chars_of, lemma_order_text_antisymmetric, lemma_order_text_transitive, order_text, push_str,
    string_from_chars, trim, trim_str,
};

verus! {

/// One chapter entry of the feed, as the core sees it.
#[derive(Clone, Debug, PartialEq, Eq)]
pub struct ChapterEntry {
    /// Chapter UUID, used with the AtHome endpoint.
    pub id: String,
    /// The real chapter number (`attributes.chapter`).
    pub chapter_number: Option<String>,
    /// Optional chapter title.
    pub title: Option<String>,
    /// Language of the translation.
    pub translated_language: String,
    /// Number of pages the API reports.
    pub pages: u32,
    /// External URL when the chapter is not hosted on MangaDex.
    pub external_url: Option<String>,
}

/// The entries that stand for one chapter number.
#[derive(Clone, Debug, PartialEq, Eq)]
pub struct IndexedChapter {
    /// 1-based position shown for selection by index.
    pub index: usize,
    /// Grouping key, normally the real chapter number.
    pub key: String,
    /// Readable text used in logs and error messages.
    pub display_label: String,
    /// Candidate entries of this chapter.
    pub chapters: Vec<ChapterEntry>,
}

/// What the choice of an entry for a language found.
#[derive(Clone, Debug, PartialEq, Eq)]
pub enum ChapterAvailability {
    /// An entry hosted on MangaDex that can be downloaded.
    Available(ChapterEntry),
    /// The language exists, but every entry points to an external source.
    ExternalOnly,
    /// No entry is in the requested language.
    MissingLanguage,
}

// ---------------------------------------------------------------------------
// Specification
// ---------------------------------------------------------------------------

/// Whether an entry is in the language `lang` and hosted on MangaDex.
pub open spec fn is_candidate(e: ChapterEntry, lang: Seq<char>) -> bool {
    e.translated_language@ == lang && e.external_url is None
}

/// `i` is the last candidate with the most pages (what `max_by_key` picks).
pub open spec fn is_best_candidate(chs: Seq<ChapterEntry>, lang: Seq<char>, i: int) -> bool {
    &&& 0 <= i < chs.len()
    &&& is_candidate(chs[i], lang)
    &&& forall|k: int|
        0 <= k < chs.len() && is_candidate(#[trigger] chs[k], lang) ==> chs[k].pages
            <= chs[i].pages
    &&& forall|k: int|
        i < k < chs.len() && is_candidate(#[trigger] chs[k], lang) ==> chs[k].pages
            < chs[i].pages
}

/// The grouping key of a feed resource: its chapter number, or `id:` and its
/// UUID when it has none, so that such chapters never share a group.
pub open spec fn chapter_key_of(r: ChapterResource) -> Seq<char> {
    match r.attributes.chapter {
        Some(c) => c@,
        None => "id:"@ + r.id@,
    }
}

/// The entry a feed resource becomes.
pub open spec fn entry_of(r: ChapterResource) -> ChapterEntry {
    ChapterEntry {
        id: r.id,
        chapter_number: r.attributes.chapter,
        title: r.attributes.title,
        translated_language: r.attributes.translated_language,
        pages: match r.attributes.pages {
            Some(p) => p,
            None => 0,
        },
        external_url: r.attributes.external_url,
    }
}

/// The entries of the resources whose key is `k`, in feed order.
pub open spec fn entries_with_key(rs: Seq<ChapterResource>, k: Seq<char>) -> Seq<ChapterEntry>
    decreases rs.len(),
{
    if rs.len() == 0 {
        Seq::empty()
    } else {
        let p = entries_with_key(rs.drop_last(), k);
        if chapter_key_of(rs.last()) == k {
            p.push(entry_of(rs.last()))
        } else {
            p
        }
    }
}

/// The order of chapter keys: keys that parse as `f64` come first, in the
/// order `f64::total_cmp` gives their values; the others follow in text
/// order.
pub open spec fn key_order(a: Seq<char>, b: Seq<char>) -> int {
    match (read_binary64(a), read_binary64(b)) {
        (Some(x), Some(y)) => order_total(x, y),
        (Some(_), None) => -1,
        (None, Some(_)) => 1,
        (None, None) => order_text(a, b),
    }
}

/// The label shown for a chapter in logs and failures.
pub open spec fn chapter_label(chs: Seq<ChapterEntry>) -> Seq<char> {
    if chs.len() == 0 {
        "Chapter without number"@
    } else {
        match (chs[0].chapter_number, chs[0].title) {
            (Some(n), Some(t)) if trim(t@).len() > 0 => "Chapter "@ + n@ + " - "@ + trim(t@),
            (Some(n), _) => "Chapter "@ + n@,
            (None, Some(t)) if trim(t@).len() > 0 => trim(t@),
            _ => "Chapter without number"@,
        }
    }
}

/// Whether some resource of the feed has the key `k`.
pub open spec fn key_in_feed(rs: Seq<ChapterResource>, k: Seq<char>) -> bool {
    exists|m: int| 0 <= m < rs.len() && chapter_key_of(#[trigger] rs[m]) == k
}

/// Whether some indexed chapter has the key `k`.
pub open spec fn key_indexed(out: Seq<IndexedChapter>, k: Seq<char>) -> bool {
    exists|j: int| 0 <= j < out.len() && (#[trigger] out[j]).key@ == k
}

/// What `index_chapters` promises of its result for the feed `rs`.
pub open spec fn is_index_of(out: Seq<IndexedChapter>, rs: Seq<ChapterResource>) -> bool {
    &&& forall|j: int| 0 <= j < out.len() ==> (#[trigger] out[j]).index == j + 1
    &&& forall|j: int|
        0 <= j < out.len() ==> (#[trigger] out[j]).chapters@ == entries_with_key(rs, out[j].key@)
    &&& forall|j: int|
        0 <= j < out.len() ==> (#[trigger] out[j]).display_label@ == chapter_label(
            out[j].chapters@,
        )
    &&& forall|j: int, k: int| 0 <= j < k < out.len() ==> out[j].key@ != out[k].key@
    &&& forall|m: int| 0 <= m < rs.len() ==> key_indexed(out, chapter_key_of(#[trigger] rs[m]))
    &&& forall|j: int| 0 <= j < out.len() ==> key_in_feed(rs, (#[trigger] out[j]).key@)
    &&& forall|j: int, k: int|
        0 <= j < k < out.len() ==> key_order((#[trigger] out[j]).key@, (#[trigger] out[k]).key@)
            <= 0
}

// ---------------------------------------------------------------------------
// Lemmas
// ---------------------------------------------------------------------------

/// Swapping two chapter keys negates their order.
pub proof fn lemma_key_order_antisymmetric(a: Seq<char>, b: Seq<char>)
    ensures
        key_order(a, b) == -key_order(b, a),
        -1 <= key_order(a, b) <= 1,
{
    lemma_order_text_antisymmetric(a, b);
    if let (Some(x), Some(y)) = (read_binary64(a), read_binary64(b)) {
        lemma_order_total_antisymmetric(x, y);
    }
}

/// Chapter keys that parse to non-negative finite numbers are ordered by
/// the values they parse to: with `k` large enough that `x × 10^k` and
/// `y × 10^k` are integers, `a` comes before `b` exactly when `x` is below
/// `y` (so `10`, `10.5`, `11` keep this order).
pub proof fn lemma_key_order_follows_values(
    a: Seq<char>,
    b: Seq<char>,
    x: NumberValue,
    y: NumberValue,
    k: int,
)
    requires
        read_binary64(a) == Some(x),
        read_binary64(b) == Some(y),
        x.kind == NumberKind::Finite,
        y.kind == NumberKind::Finite,
        !x.negative,
        !y.negative,
        x.exponent + k >= x.digits.len(),
        y.exponent + k >= y.digits.len(),
    ensures
        value_times_pow10(x, k) < value_times_pow10(y, k) <==> key_order(a, b) == -1,
        value_times_pow10(x, k) == value_times_pow10(y, k) <==> key_order(a, b) == 0,
        value_times_pow10(x, k) > value_times_pow10(y, k) <==> key_order(a, b) == 1,
{
    lemma_read_binary64_normal(a);
    lemma_read_binary64_normal(b);
    lemma_order_total_follows_values(x, y, k);
}

/// The order of chapter keys is transitive.
pub proof fn lemma_key_order_transitive(a: Seq<char>, b: Seq<char>, c: Seq<char>)
    requires
        key_order(a, b) <= 0,
        key_order(b, c) <= 0,
    ensures
        key_order(a, c) <= 0,
{
    match (read_binary64(a), read_binary64(b), read_binary64(c)) {
        (Some(x), Some(y), Some(z)) => lemma_order_total_transitive(x, y, z),
        (None, None, None) => lemma_order_text_transitive(a, b, c),
        _ => {},
    }
}

proof fn lemma_entries_absent(rs: Seq<ChapterResource>, k: Seq<char>)
    requires
        forall|m: int| 0 <= m < rs.len() ==> chapter_key_of(#[trigger] rs[m]) != k,
    ensures
        entries_with_key(rs, k) == Seq::<ChapterEntry>::empty(),
    decreases rs.len(),
{
    if rs.len() > 0 {
        let t = rs.drop_last();
        assert forall|m: int| 0 <= m < t.len() implies chapter_key_of(#[trigger] t[m]) != k by {
            assert(t[m] == rs[m]);
        }
        lemma_entries_absent(t, k);
        assert(chapter_key_of(rs[rs.len() - 1]) != k);
    }
}

// ---------------------------------------------------------------------------
// Implementation
// ---------------------------------------------------------------------------

fn copy_text(s: &String) -> (r: String)
    ensures
        r == *s,
{
    s.clone()
}

fn copy_optional_text(s: &Option<String>) -> (r: Option<String>)
    ensures
        r == *s,
{
    match s {
        Some(t) => Some(t.clone()),
        None => None,
    }
}

/// A copy of an entry.
fn copy_entry(e: &ChapterEntry) -> (r: ChapterEntry)
    ensures
        r == *e,
{
    ChapterEntry {
        id: copy_text(&e.id),
        chapter_number: copy_optional_text(&e.chapter_number),
        title: copy_optional_text(&e.title),
        translated_language: copy_text(&e.translated_language),
        pages: e.pages,
        external_url: copy_optional_text(&e.external_url),
    }
}

impl IndexedChapter {
    /// Chooses the downloadable entry for a language.
    ///
    /// When several entries are in the language, the one with the most pages
    /// is chosen (the last of them on a tie), which is usually the most
    /// complete version.
    pub fn downloadable_for_language(&self, language: &str) -> (r: ChapterAvailability)
        ensures
            ({
                let chs = self.chapters@;
                let lang = language@;
                if forall|i: int|
                    0 <= i < chs.len() ==> (#[trigger] chs[i]).translated_language@ != lang {
                    r == ChapterAvailability::MissingLanguage
                } else if forall|i: int|
                    0 <= i < chs.len() ==> !is_candidate(#[trigger] chs[i], lang) {
                    r == ChapterAvailability::ExternalOnly
                } else {
                    r matches ChapterAvailability::Available(e) && exists|i: int|
                        is_best_candidate(chs, lang, i) && chs[i] == e
                }
            }),
    {
        let lang = chars_of(language);
        let mut any_language = false;
        let mut best: Option<usize> = None;
        let mut i: usize = 0;
        while i < self.chapters.len()
            invariant
                i <= self.chapters@.len(),
                lang@ == language@,
                any_language == exists|k: int|
                    0 <= k < i && (#[trigger] self.chapters@[k]).translated_language@ == lang@,
                best is None ==> forall|k: int|
                    0 <= k < i ==> !is_candidate(#[trigger] self.chapters@[k], lang@),
                best matches Some(b) ==> is_best_candidate(self.chapters@.take(i as int), lang@, b as int),
            decreases self.chapters@.len() - i,
        {
            let e = &self.chapters[i];
            let same = crate::text::chars_eq_str(lang.as_slice(), e.translated_language.as_str());
            if same {
                any_language = true;
                if e.external_url.is_none() {
                    let better = match best {
                        None => true,
                        Some(b) => e.pages >= self.chapters[b].pages,
                    };
                    if better {
                        best = Some(i);
                    }
                }
            }
            proof {
                let t = self.chapters@.take(i + 1);
                assert(t[i as int] == self.chapters@[i as int]);
                if let Some(b) = best {
                    assert forall|k: int|
                        0 <= k < t.len() && is_candidate(#[trigger] t[k], lang@) implies t[k].pages
                        <= t[b as int].pages by {
                        if k < i {
                            assert(t[k] == self.chapters@.take(i as int)[k]);
                        }
                    }
                    assert forall|k: int|
                        b < k < t.len() && is_candidate(#[trigger] t[k], lang@) implies t[k].pages
                        < t[b as int].pages by {
                        if k < i {
                            assert(t[k] == self.chapters@.take(i as int)[k]);
                        }
                    }
                    assert(t[b as int] == self.chapters@[b as int]);
                }
            }
            i += 1;
        }
        assert(self.chapters@.take(self.chapters@.len() as int) =~= self.chapters@);
        if !any_language {
            return ChapterAvailability::MissingLanguage;
        }
        match best {
            Some(b) => ChapterAvailability::Available(copy_entry(&self.chapters[b])),
            None => ChapterAvailability::ExternalOnly,
        }
    }
}

// Invariants of the grouping and of the sorting, kept opaque so that the
// loops only see them as facts; the lemmas below open them one at a time.

#[verifier::opaque]
spec fn buckets_match(rs: Seq<ChapterResource>, ks: Seq<String>, bs: Seq<Vec<ChapterEntry>>) -> bool {
    forall|g: int| 0 <= g < ks.len() ==> (#[trigger] bs[g])@ == entries_with_key(rs, ks[g]@)
}

#[verifier::opaque]
spec fn keys_distinct(ks: Seq<String>) -> bool {
    forall|g: int, h: int| 0 <= g < h < ks.len() ==> (#[trigger] ks[g])@ != (#[trigger] ks[h])@
}

spec fn key_listed(ks: Seq<String>, k: Seq<char>) -> bool {
    exists|g: int| 0 <= g < ks.len() && (#[trigger] ks[g])@ == k
}

#[verifier::opaque]
spec fn keys_cover(rs: Seq<ChapterResource>, ks: Seq<String>) -> bool {
    forall|m: int| 0 <= m < rs.len() ==> key_listed(ks, chapter_key_of(#[trigger] rs[m]))
}

#[verifier::opaque]
spec fn keys_from(rs: Seq<ChapterResource>, ks: Seq<String>) -> bool {
    forall|g: int| 0 <= g < ks.len() ==> key_in_feed(rs, (#[trigger] ks[g])@)
}

spec fn grouping(rs: Seq<ChapterResource>, ks: Seq<String>, bs: Seq<Vec<ChapterEntry>>) -> bool {
    &&& ks.len() == bs.len()
    &&& buckets_match(rs, ks, bs)
    &&& keys_distinct(ks)
    &&& keys_cover(rs, ks)
    &&& keys_from(rs, ks)
}

proof fn lemma_grouping_empty()
    ensures
        grouping(Seq::empty(), Seq::empty(), Seq::empty()),
{
    reveal(buckets_match);
    reveal(keys_distinct);
    reveal(keys_cover);
    reveal(keys_from);
}

proof fn lemma_key_absent(rs: Seq<ChapterResource>, ks: Seq<String>, k: Seq<char>)
    requires
        keys_cover(rs, ks),
        forall|g: int| 0 <= g < ks.len() ==> (#[trigger] ks[g])@ != k,
    ensures
        entries_with_key(rs, k) == Seq::<ChapterEntry>::empty(),
{
    reveal(keys_cover);
    assert forall|m: int| 0 <= m < rs.len() implies chapter_key_of(#[trigger] rs[m]) != k by {
        assert(key_listed(ks, chapter_key_of(rs[m])));
    }
    lemma_entries_absent(rs, k);
}

proof fn lemma_buckets_join(
    rs: Seq<ChapterResource>,
    ks: Seq<String>,
    bs: Seq<Vec<ChapterEntry>>,
    r: ChapterResource,
    g: int,
    bucket: Vec<ChapterEntry>,
)
    requires
        buckets_match(rs, ks, bs),
        keys_distinct(ks),
        ks.len() == bs.len(),
        0 <= g < ks.len(),
        ks[g]@ == chapter_key_of(r),
        bucket@ == bs[g]@.push(entry_of(r)),
    ensures
        buckets_match(rs.push(r), ks, bs.update(g, bucket)),
{
    reveal(buckets_match);
    reveal(keys_distinct);
    let post = rs.push(r);
    assert(post.drop_last() =~= rs);
    let nb = bs.update(g, bucket);
    assert forall|h: int| 0 <= h < ks.len() implies (#[trigger] nb[h])@ == entries_with_key(
        post,
        ks[h]@,
    ) by {
        if h != g {
            assert(nb[h] == bs[h]);
            if h < g {
                assert(ks[h]@ != ks[g]@);
            } else {
                assert(ks[g]@ != ks[h]@);
            }
            assert(bs[h]@ == entries_with_key(rs, ks[h]@));
        } else {
            assert(bs[g]@ == entries_with_key(rs, ks[g]@));
        }
    }
}

proof fn lemma_cover_push(rs: Seq<ChapterResource>, ks: Seq<String>, r: ChapterResource, g: int)
    requires
        keys_cover(rs, ks),
        0 <= g < ks.len(),
        ks[g]@ == chapter_key_of(r),
    ensures
        keys_cover(rs.push(r), ks),
{
    reveal(keys_cover);
    let post = rs.push(r);
    assert forall|m: int| 0 <= m < post.len() implies key_listed(
        ks,
        chapter_key_of(#[trigger] post[m]),
    ) by {
        if m == rs.len() {
            assert(ks[g]@ == chapter_key_of(post[m]));
        } else {
            assert(post[m] == rs[m]);
        }
    }
}

proof fn lemma_from_push(rs: Seq<ChapterResource>, ks: Seq<String>, r: ChapterResource)
    requires
        keys_from(rs, ks),
    ensures
        keys_from(rs.push(r), ks),
{
    reveal(keys_from);
    let post = rs.push(r);
    assert forall|gg: int| 0 <= gg < ks.len() implies key_in_feed(post, (#[trigger] ks[gg])@) by {
        assert(key_in_feed(rs, ks[gg]@));
        let m = choose|m: int| 0 <= m < rs.len() && chapter_key_of(#[trigger] rs[m]) == ks[gg]@;
        assert(post[m] == rs[m]);
    }
}

proof fn lemma_grouping_join(
    rs: Seq<ChapterResource>,
    ks: Seq<String>,
    bs: Seq<Vec<ChapterEntry>>,
    r: ChapterResource,
    g: int,
    bucket: Vec<ChapterEntry>,
)
    requires
        grouping(rs, ks, bs),
        0 <= g < ks.len(),
        ks[g]@ == chapter_key_of(r),
        bucket@ == bs[g]@.push(entry_of(r)),
    ensures
        grouping(rs.push(r), ks, bs.update(g, bucket)),
{
    lemma_buckets_join(rs, ks, bs, r, g, bucket);
    lemma_cover_push(rs, ks, r, g);
    lemma_from_push(rs, ks, r);
}

proof fn lemma_buckets_add(
    rs: Seq<ChapterResource>,
    ks: Seq<String>,
    bs: Seq<Vec<ChapterEntry>>,
    r: ChapterResource,
    key: String,
    bucket: Vec<ChapterEntry>,
)
    requires
        buckets_match(rs, ks, bs),
        ks.len() == bs.len(),
        key@ == chapter_key_of(r),
        entries_with_key(rs, key@) == Seq::<ChapterEntry>::empty(),
        forall|g: int| 0 <= g < ks.len() ==> (#[trigger] ks[g])@ != key@,
        bucket@ == seq![entry_of(r)],
    ensures
        buckets_match(rs.push(r), ks.push(key), bs.push(bucket)),
{
    reveal(buckets_match);
    let post = rs.push(r);
    assert(post.drop_last() =~= rs);
    let nk = ks.push(key);
    let nb = bs.push(bucket);
    assert forall|h: int| 0 <= h < nk.len() implies (#[trigger] nb[h])@ == entries_with_key(
        post,
        nk[h]@,
    ) by {
        if h < ks.len() {
            assert(nb[h] == bs[h]);
            assert(nk[h] == ks[h]);
            assert(ks[h]@ != key@);
            assert(bs[h]@ == entries_with_key(rs, ks[h]@));
        } else {
            assert(entries_with_key(post, key@) =~= seq![entry_of(r)]);
        }
    }
}

proof fn lemma_distinct_add(ks: Seq<String>, key: String)
    requires
        keys_distinct(ks),
        forall|g: int| 0 <= g < ks.len() ==> (#[trigger] ks[g])@ != key@,
    ensures
        keys_distinct(ks.push(key)),
{
    reveal(keys_distinct);
    let nk = ks.push(key);
    assert forall|g: int, h: int| 0 <= g < h < nk.len() implies (#[trigger] nk[g])@ != (
    #[trigger] nk[h])@ by {
        assert(nk[g] == ks[g]);
        if h < ks.len() {
            assert(nk[h] == ks[h]);
        }
    }
}

proof fn lemma_cover_add(rs: Seq<ChapterResource>, ks: Seq<String>, r: ChapterResource, key: String)
    requires
        keys_cover(rs, ks),
        key@ == chapter_key_of(r),
    ensures
        keys_cover(rs.push(r), ks.push(key)),
{
    reveal(keys_cover);
    let post = rs.push(r);
    let nk = ks.push(key);
    assert forall|m: int| 0 <= m < post.len() implies key_listed(
        nk,
        chapter_key_of(#[trigger] post[m]),
    ) by {
        if m == rs.len() {
            assert(nk[ks.len() as int]@ == chapter_key_of(post[m]));
        } else {
            assert(post[m] == rs[m]);
            assert(key_listed(ks, chapter_key_of(rs[m])));
            let gg = choose|gg: int| 0 <= gg < ks.len() && (#[trigger] ks[gg])@ == chapter_key_of(
                rs[m],
            );
            assert(nk[gg] == ks[gg]);
        }
    }
}

proof fn lemma_from_add(rs: Seq<ChapterResource>, ks: Seq<String>, r: ChapterResource, key: String)
    requires
        keys_from(rs, ks),
        key@ == chapter_key_of(r),
    ensures
        keys_from(rs.push(r), ks.push(key)),
{
    reveal(keys_from);
    let post = rs.push(r);
    let nk = ks.push(key);
    assert forall|gg: int| 0 <= gg < nk.len() implies key_in_feed(post, (#[trigger] nk[gg])@) by {
        if gg == ks.len() {
            assert(chapter_key_of(post[rs.len() as int]) == nk[gg]@);
        } else {
            assert(nk[gg] == ks[gg]);
            assert(key_in_feed(rs, ks[gg]@));
            let m = choose|m: int| 0 <= m < rs.len() && chapter_key_of(#[trigger] rs[m]) == ks[gg]@;
            assert(post[m] == rs[m]);
        }
    }
}

proof fn lemma_grouping_add(
    rs: Seq<ChapterResource>,
    ks: Seq<String>,
    bs: Seq<Vec<ChapterEntry>>,
    r: ChapterResource,
    key: String,
    bucket: Vec<ChapterEntry>,
)
    requires
        grouping(rs, ks, bs),
        key@ == chapter_key_of(r),
        forall|g: int| 0 <= g < ks.len() ==> (#[trigger] ks[g])@ != key@,
        bucket@ == seq![entry_of(r)],
    ensures
        grouping(rs.push(r), ks.push(key), bs.push(bucket)),
{
    lemma_key_absent(rs, ks, key@);
    lemma_buckets_add(rs, ks, bs, r, key, bucket);
    lemma_distinct_add(ks, key);
    lemma_cover_add(rs, ks, r, key);
    lemma_from_add(rs, ks, r, key);
}

/// A group of feed entries under one key, with the key read as a number.
struct Group {
    key: String,
    key_chars: Vec<char>,
    reading: Option<DecimalNumber>,
    entries: Vec<ChapterEntry>,
}

spec fn reads_key(gr: Group) -> bool {
    &&& gr.key_chars@ == gr.key@
    &&& match gr.reading {
        Some(n) => read_binary64(gr.key@) == Some(n@),
        None => read_binary64(gr.key@) is None,
    }
}

#[verifier::opaque]
spec fn groups_from(out: Seq<Group>, ks: Seq<String>, bs: Seq<Vec<ChapterEntry>>, j: int) -> bool {
    forall|o: int|
        0 <= o < out.len() ==> exists|g: int|
            0 <= g < j && (#[trigger] out[o]).key@ == ks[g]@ && out[o].entries@ == bs[g]@
}

#[verifier::opaque]
spec fn groups_cover(out: Seq<Group>, ks: Seq<String>, j: int) -> bool {
    forall|g: int|
        0 <= g < j ==> exists|o: int|
            0 <= o < out.len() && (#[trigger] out[o]).key@ == (#[trigger] ks[g])@
}

#[verifier::opaque]
spec fn groups_distinct(out: Seq<Group>) -> bool {
    forall|o: int, q: int|
        0 <= o < q < out.len() ==> (#[trigger] out[o]).key@ != (#[trigger] out[q]).key@
}

#[verifier::opaque]
spec fn groups_sorted(out: Seq<Group>) -> bool {
    forall|o: int, q: int|
        0 <= o < q < out.len() ==> key_order((#[trigger] out[o]).key@, (#[trigger] out[q]).key@)
            <= 0
}

spec fn sorted_groups(out: Seq<Group>, ks: Seq<String>, bs: Seq<Vec<ChapterEntry>>, j: int) -> bool {
    &&& out.len() == j
    &&& forall|o: int| 0 <= o < out.len() ==> reads_key(#[trigger] out[o])
    &&& groups_from(out, ks, bs, j)
    &&& groups_cover(out, ks, j)
    &&& groups_distinct(out)
    &&& groups_sorted(out)
}

proof fn lemma_sorted_groups_empty(ks: Seq<String>, bs: Seq<Vec<ChapterEntry>>)
    ensures
        sorted_groups(Seq::empty(), ks, bs, 0),
{
    reveal(groups_from);
    reveal(groups_cover);
    reveal(groups_distinct);
    reveal(groups_sorted);
}

proof fn lemma_groups_from_insert(
    before: Seq<Group>,
    ks: Seq<String>,
    bs: Seq<Vec<ChapterEntry>>,
    j: int,
    p: int,
    x: Group,
)
    requires
        groups_from(before, ks, bs, j),
        0 <= j < ks.len(),
        0 <= p <= before.len(),
        x.key == ks[j],
        x.entries == bs[j],
    ensures
        groups_from(before.insert(p, x), ks, bs, j + 1),
{
    reveal(groups_from);
    let o2 = before.insert(p, x);
    assert forall|o: int| 0 <= o < o2.len() implies exists|g: int|
        0 <= g < j + 1 && (#[trigger] o2[o]).key@ == ks[g]@ && o2[o].entries@ == bs[g]@ by {
        if o < p {
            assert(o2[o] == before[o]);
        } else if o > p {
            assert(o2[o] == before[o - 1]);
        } else {
            assert(o2[o].key@ == ks[j]@);
        }
    }
}

proof fn lemma_groups_cover_insert(before: Seq<Group>, ks: Seq<String>, j: int, p: int, x: Group)
    requires
        groups_cover(before, ks, j),
        0 <= j < ks.len(),
        0 <= p <= before.len(),
        x.key == ks[j],
    ensures
        groups_cover(before.insert(p, x), ks, j + 1),
{
    reveal(groups_cover);
    let o2 = before.insert(p, x);
    assert forall|g: int| 0 <= g < j + 1 implies exists|o: int|
        0 <= o < o2.len() && (#[trigger] o2[o]).key@ == (#[trigger] ks[g])@ by {
        if g == j {
            assert(o2[p].key@ == ks[g]@);
        } else {
            let o = choose|o: int| 0 <= o < before.len() && (#[trigger] before[o]).key@ == (
            #[trigger] ks[g])@;
            if o < p {
                assert(o2[o] == before[o]);
            } else {
                assert(o2[o + 1] == before[o]);
            }
        }
    }
}

proof fn lemma_groups_distinct_insert(
    before: Seq<Group>,
    ks: Seq<String>,
    bs: Seq<Vec<ChapterEntry>>,
    j: int,
    p: int,
    x: Group,
)
    requires
        groups_distinct(before),
        groups_from(before, ks, bs, j),
        keys_distinct(ks),
        0 <= j < ks.len(),
        0 <= p <= before.len(),
        x.key == ks[j],
    ensures
        groups_distinct(before.insert(p, x)),
{
    reveal(groups_distinct);
    assert forall|o: int| 0 <= o < before.len() implies (#[trigger] before[o]).key@ != x.key@ by {
        reveal(groups_from);
        reveal(keys_distinct);
        let g = choose|g: int| 0 <= g < j && (#[trigger] before[o]).key@ == ks[g]@
            && before[o].entries@ == bs[g]@;
        assert(ks[g]@ != ks[j]@);
    }
    let o2 = before.insert(p, x);
    assert forall|o: int, q: int| 0 <= o < q < o2.len() implies (#[trigger] o2[o]).key@ != (
    #[trigger] o2[q]).key@ by {
        if o < p {
            assert(o2[o] == before[o]);
        } else if o > p {
            assert(o2[o] == before[o - 1]);
        }
        if q < p {
            assert(o2[q] == before[q]);
        } else if q > p {
            assert(o2[q] == before[q - 1]);
        }
    }
}

proof fn lemma_groups_sorted_insert(before: Seq<Group>, p: int, x: Group)
    requires
        groups_sorted(before),
        0 <= p <= before.len(),
        forall|o: int| 0 <= o < p ==> key_order(x.key@, (#[trigger] before[o]).key@) >= 0,
        p < before.len() ==> key_order(x.key@, before[p].key@) < 0,
    ensures
        groups_sorted(before.insert(p, x)),
{
    reveal(groups_sorted);
    assert forall|o: int| 0 <= o < p implies key_order((#[trigger] before[o]).key@, x.key@)
        <= 0 by {
        lemma_key_order_antisymmetric(x.key@, before[o].key@);
    }
    assert forall|o: int| p <= o < before.len() implies key_order(
        x.key@,
        (#[trigger] before[o]).key@,
    ) <= 0 by {
        if o > p {
            lemma_key_order_transitive(x.key@, before[p].key@, before[o].key@);
        }
    }
    let o2 = before.insert(p, x);
    assert forall|o: int, q: int| 0 <= o < q < o2.len() implies key_order(
        (#[trigger] o2[o]).key@,
        (#[trigger] o2[q]).key@,
    ) <= 0 by {
        if o < p {
            assert(o2[o] == before[o]);
        } else if o > p {
            assert(o2[o] == before[o - 1]);
        }
        if q < p {
            assert(o2[q] == before[q]);
        } else if q > p {
            assert(o2[q] == before[q - 1]);
        }
    }
}

proof fn lemma_sorted_groups_insert(
    before: Seq<Group>,
    ks: Seq<String>,
    bs: Seq<Vec<ChapterEntry>>,
    j: int,
    p: int,
    x: Group,
)
    requires
        sorted_groups(before, ks, bs, j),
        keys_distinct(ks),
        0 <= j < ks.len(),
        ks.len() == bs.len(),
        0 <= p <= before.len(),
        reads_key(x),
        x.key == ks[j],
        x.entries == bs[j],
        forall|o: int| 0 <= o < p ==> key_order(x.key@, (#[trigger] before[o]).key@) >= 0,
        p < before.len() ==> key_order(x.key@, before[p].key@) < 0,
    ensures
        sorted_groups(before.insert(p, x), ks, bs, j + 1),
{
    let o2 = before.insert(p, x);
    assert forall|o: int| 0 <= o < o2.len() implies reads_key(#[trigger] o2[o]) by {
        if o < p {
            assert(o2[o] == before[o]);
        } else if o > p {
            assert(o2[o] == before[o - 1]);
        }
    }
    lemma_groups_from_insert(before, ks, bs, j, p, x);
    lemma_groups_cover_insert(before, ks, j, p, x);
    lemma_groups_distinct_insert(before, ks, bs, j, p, x);
    lemma_groups_sorted_insert(before, p, x);
}

proof fn lemma_index_of(
    rs: Seq<ChapterResource>,
    ks: Seq<String>,
    bs: Seq<Vec<ChapterEntry>>,
    ss: Seq<Group>,
    o: Seq<IndexedChapter>,
)
    requires
        grouping(rs, ks, bs),
        sorted_groups(ss, ks, bs, ks.len() as int),
        o.len() == ss.len(),
        forall|j: int|
            0 <= j < o.len() ==> (#[trigger] o[j]).index == j + 1 && o[j].key@ == ss[j].key@
                && o[j].chapters@ == ss[j].entries@ && o[j].display_label@ == chapter_label(
                ss[j].entries@,
            ),
    ensures
        is_index_of(o, rs),
{
    assert forall|j: int, k: int| 0 <= j < k < o.len() implies key_order(
        (#[trigger] o[j]).key@,
        (#[trigger] o[k]).key@,
    ) <= 0 && o[j].key@ != o[k].key@ by {
        reveal(groups_sorted);
        reveal(groups_distinct);
        assert(o[j].key@ == ss[j].key@);
        assert(o[k].key@ == ss[k].key@);
    }
    assert forall|j: int| 0 <= j < o.len() implies (#[trigger] o[j]).chapters@ == entries_with_key(
        rs,
        o[j].key@,
    ) by {
        reveal(groups_from);
        reveal(buckets_match);
        let g = choose|g: int| 0 <= g < ks.len() && (#[trigger] ss[j]).key@ == ks[g]@
            && ss[j].entries@ == bs[g]@;
    }
    assert forall|m: int| 0 <= m < rs.len() implies key_indexed(
        o,
        chapter_key_of(#[trigger] rs[m]),
    ) by {
        reveal(keys_cover);
        reveal(groups_cover);
        assert(key_listed(ks, chapter_key_of(rs[m])));
        let g = choose|g: int| 0 <= g < ks.len() && (#[trigger] ks[g])@ == chapter_key_of(rs[m]);
        let j = choose|j: int| 0 <= j < ss.len() && (#[trigger] ss[j]).key@ == (#[trigger] ks[g])@;
        assert(o[j].key@ == ss[j].key@);
    }
    assert forall|j: int| 0 <= j < o.len() implies key_in_feed(rs, (#[trigger] o[j]).key@) by {
        reveal(groups_from);
        reveal(keys_from);
        let g = choose|g: int| 0 <= g < ks.len() && (#[trigger] ss[j]).key@ == ks[g]@
            && ss[j].entries@ == bs[g]@;
        assert(key_in_feed(rs, ks[g]@));
        assert(o[j].key@ == ss[j].key@);
    }
}

/// Groups the feed resources into indexed chapters.
///
/// Keys that parse as `f64` are ordered by value, so that decimal chapters
/// such as `0.01` keep their place; positions start at 1. Keys of equal rank
/// keep no particular order among themselves.
pub fn index_chapters(resources: Vec<ChapterResource>) -> (r: Vec<IndexedChapter>)
    ensures
        is_index_of(r@, resources@),
{
    let ghost rs = resources@;
    let (keys, buckets) = group_resources(&resources);
    let ghost ks = keys@;
    let ghost bs = buckets@;
    let sorted = sort_groups(keys, buckets);
    let ghost ss = sorted@;
    let mut remaining = sorted;
    let mut out: Vec<IndexedChapter> = Vec::new();
    let mut t: usize = 0;
    let n = remaining.len();
    while t < n
        invariant
            n == ss.len(),
            t <= n,
            remaining@ == ss.skip(t as int),
            out@.len() == t,
            forall|j: int|
                0 <= j < t ==> (#[trigger] out@[j]).index == j + 1 && out@[j].key@ == ss[j].key@
                    && out@[j].chapters@ == ss[j].entries@ && out@[j].display_label@
                    == chapter_label(ss[j].entries@),
        decreases n - t,
    {
        let group = remaining.remove(0);
        assert(group == ss[t as int]);
        assert(remaining@ =~= ss.skip(t + 1));
        let label = display_label(group.entries.as_slice());
        out.push(
            IndexedChapter {
                index: t + 1,
                key: group.key,
                display_label: label,
                chapters: group.entries,
            },
        );
        t += 1;
    }
    proof {
        lemma_index_of(rs, ks, bs, ss, out@);
    }
    out
}

/// Groups the resources by key, in order of first appearance.
fn group_resources(resources: &Vec<ChapterResource>) -> (r: (Vec<String>, Vec<Vec<ChapterEntry>>))
    ensures
        grouping(resources@, r.0@, r.1@),
{
    let ghost rs = resources@;
    let mut keys: Vec<String> = Vec::new();
    let mut buckets: Vec<Vec<ChapterEntry>> = Vec::new();
    let mut i: usize = 0;
    proof {
        lemma_grouping_empty();
        assert(rs.take(0) =~= Seq::<ChapterResource>::empty());
    }
    while i < resources.len()
        invariant
            rs == resources@,
            i <= rs.len(),
            grouping(rs.take(i as int), keys@, buckets@),
        decreases rs.len() - i,
    {
        let resource = &resources[i];
        let key = chapter_key(resource);
        let entry = ChapterEntry {
            id: copy_text(&resource.id),
            chapter_number: copy_optional_text(&resource.attributes.chapter),
            title: copy_optional_text(&resource.attributes.title),
            translated_language: copy_text(&resource.attributes.translated_language),
            pages: match resource.attributes.pages {
                Some(p) => p,
                None => 0,
            },
            external_url: copy_optional_text(&resource.attributes.external_url),
        };
        assert(entry == entry_of(rs[i as int]));
        let ghost pre = rs.take(i as int);
        assert(rs.take(i + 1) =~= pre.push(rs[i as int]));
        let ghost old_keys = keys@;
        let ghost old_buckets = buckets@;
        let mut g: usize = 0;
        while g < keys.len() && keys[g] != key
            invariant
                g <= keys@.len(),
                forall|h: int| 0 <= h < g ==> (#[trigger] keys@[h])@ != key@,
            decreases keys@.len() - g,
        {
            g += 1;
        }
        if g < keys.len() {
            proof {
                reveal(buckets_match);
                assert(buckets@[g as int]@ == entries_with_key(pre, keys@[g as int]@));
            }
            let mut bucket = buckets.remove(g);
            bucket.push(entry);
            buckets.insert(g, bucket);
            proof {
                assert(buckets@ =~= old_buckets.update(g as int, bucket));
                lemma_grouping_join(pre, old_keys, old_buckets, rs[i as int], g as int, bucket);
            }
        } else {
            let mut bucket: Vec<ChapterEntry> = Vec::new();
            bucket.push(entry);
            proof {
                assert(bucket@ =~= seq![entry]);
                lemma_grouping_add(pre, old_keys, old_buckets, rs[i as int], key, bucket);
            }
            keys.push(key);
            buckets.push(bucket);
        }
        i += 1;
    }
    assert(rs.take(rs.len() as int) =~= rs);
    (keys, buckets)
}

/// Sorts the groups by key order (insertion sort).
fn sort_groups(keys: Vec<String>, buckets: Vec<Vec<ChapterEntry>>) -> (r: Vec<Group>)
    requires
        keys@.len() == buckets@.len(),
        keys_distinct(keys@),
    ensures
        sorted_groups(r@, keys@, buckets@, keys@.len() as int),
{
    let ghost ks = keys@;
    let ghost bs = buckets@;
    let mut keys = keys;
    let mut buckets = buckets;
    let mut out: Vec<Group> = Vec::new();
    let n = keys.len();
    let mut j: usize = 0;
    proof {
        lemma_sorted_groups_empty(ks, bs);
    }
    while j < n
        invariant
            n == ks.len(),
            ks.len() == bs.len(),
            j <= n,
            keys@ == ks.skip(j as int),
            buckets@ == bs.skip(j as int),
            keys_distinct(ks),
            sorted_groups(out@, ks, bs, j as int),
        decreases n - j,
    {
        let key = keys.remove(0);
        let entries = buckets.remove(0);
        assert(key == ks[j as int]);
        assert(entries == bs[j as int]);
        assert(keys@ =~= ks.skip(j + 1));
        assert(buckets@ =~= bs.skip(j + 1));
        let key_chars = chars_of(key.as_str());
        let reading = parse_chapter_number(key.as_str());
        let group = Group { key, key_chars, reading, entries };
        let mut p: usize = 0;
        while p < out.len() && compare_chapter_keys(
            group.key_chars.as_slice(),
            &group.reading,
            out[p].key_chars.as_slice(),
            &out[p].reading,
        ) >= 0
            invariant
                p <= out@.len(),
                reads_key(group),
                forall|o: int| 0 <= o < out@.len() ==> reads_key(#[trigger] out@[o]),
                forall|o: int| 0 <= o < p ==> key_order(group.key@, (#[trigger] out@[o]).key@) >= 0,
            decreases out@.len() - p,
        {
            p += 1;
        }
        let ghost before = out@;
        proof {
            lemma_sorted_groups_insert(before, ks, bs, j as int, p as int, group);
        }
        out.insert(p, group);
        j += 1;
    }
    out
}

/// The grouping key of a feed resource.
fn chapter_key(resource: &ChapterResource) -> (r: String)
    ensures
        r@ == chapter_key_of(*resource),
{
    match &resource.attributes.chapter {
        Some(c) => copy_text(c),
        None => {
            let mut k = chars_of("id:");
            push_str(&mut k, resource.id.as_str());
            string_from_chars(k.as_slice())
        },
    }
}

/// Reads a chapter key as the `f64` value it parses to, when it is a number
/// (see `read_binary64`).
fn parse_chapter_number(value: &str) -> (r: Option<DecimalNumber>)
    ensures
        r matches Some(n) ==> read_binary64(value@) == Some(n@),
        r is None ==> read_binary64(value@) is None,
{
    match read_number_chars(chars_of(value).as_slice()) {
        Some(n) => Some(round_to_binary64(&n)),
        None => None,
    }
}

/// Compares two chapter keys: by number when both read as numbers, numbers
/// before other keys, other keys by text.
fn compare_chapter_keys(
    left: &[char],
    left_reading: &Option<DecimalNumber>,
    right: &[char],
    right_reading: &Option<DecimalNumber>,
) -> (r: i8)
    requires
        match left_reading {
            Some(n) => read_binary64(left@) == Some(n@),
            None => read_binary64(left@) is None,
        },
        match right_reading {
            Some(n) => read_binary64(right@) == Some(n@),
            None => read_binary64(right@) is None,
        },
    ensures
        r as int == key_order(left@, right@),
{
    match (left_reading, right_reading) {
        (Some(x), Some(y)) => order_total_exec(x, y),
        (Some(_), None) => -1,
        (None, Some(_)) => 1,
        (None, None) => order_text_exec(left, right),
    }
}

fn order_text_exec(a: &[char], b: &[char]) -> (r: i8)
    ensures
        r as int == order_text(a@, b@),
{
    let mut i: usize = 0;
    assert(a@.skip(0) =~= a@);
    assert(b@.skip(0) =~= b@);
    while i < a.len() && i < b.len() && a[i] == b[i]
        invariant
            i <= a@.len(),
            i <= b@.len(),
            order_text(a@, b@) == order_text(a@.skip(i as int), b@.skip(i as int)),
        decreases a@.len() - i,
    {
        assert(a@.skip(i as int).drop_first() =~= a@.skip(i + 1));
        assert(b@.skip(i as int).drop_first() =~= b@.skip(i + 1));
        i += 1;
    }
    if i == a.len() {
        if i == b.len() {
            0
        } else {
            -1
        }
    } else if i == b.len() {
        1
    } else if a[i] < b[i] {
        -1
    } else {
        1
    }
}

/// The label shown for a chapter in logs and failures.
fn display_label(chapters: &[ChapterEntry]) -> (r: String)
    ensures
        r@ == chapter_label(chapters@),
{
    if chapters.len() == 0 {
        return "Chapter without number".to_string();
    }
    let first = &chapters[0];
    let title = match &first.title {
        Some(t) => Some(trim_str(t.as_str())),
        None => None,
    };
    match (&first.chapter_number, title) {
        (Some(number), Some(t)) => {
            let mut label = chars_of("Chapter ");
            push_str(&mut label, number.as_str());
            if t.len() > 0 {
                push_str(&mut label, " - ");
                crate::text::push_all(&mut label, t.as_slice());
            }
            string_from_chars(label.as_slice())
        },
        (Some(number), None) => {
            let mut label = chars_of("Chapter ");
            push_str(&mut label, number.as_str());
            string_from_chars(label.as_slice())
        },
        (None, Some(t)) => {
            if t.len() > 0 {
                string_from_chars(t.as_slice())
            } else {
                "Chapter without number".to_string()
            }
        },
        (None, None) => "Chapter without number".to_string(),
    }
}

} // verus!
