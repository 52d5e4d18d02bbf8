//! The download catalog, the per-chapter decisions and the report.
//!
//! A download goes: resolve the manga id, load the metadata, the cover and
//! the chapters of the language, create the local folder, fetch the cover,
//! resolve the selection, then fetch the pages of each chapter into a CBZ.
//! The program performs the requests and the file work; this module holds
//! the catalog, decides what each chapter needs, names the temporary files
//! and tallies the outcomes.

use vstd::prelude::*;

use crate::data::models::{AtHomeResponse, ChapterResource, MangaAttributes, Relationship};
use crate::domain::archive::{ChapterFileNameFormat, cbz_file_name, chapter_cbz_file_name};
use crate::domain::chapter::{
    ChapterAvailability, ChapterEntry, IndexedChapter, index_chapters, is_candidate, is_index_of,
};
use crate::domain::title::{choose_manga_title, chosen_title};
use crate::domain::filesystem::{folder_name, sanitize_folder_name};
use crate::domain::language::{Language, language_code};
use crate::infra::error::AppError;
use crate::text::{
    CharClass, chars_eq_str, chars_of, dec_text, push_all, push_str, string_from_chars, strip_end,
    strip_end_chars, usize_text,
};

verus! {

/// `std::path::PathBuf`, a local path.
#[verifier::external_type_specification]
#[verifier::external_body]
pub struct ExPathBuf(std::path::PathBuf);

/// What the cover needs to be fetched.
#[derive(Clone, Debug)]
pub struct CoverImage {
    /// File name of the cover on MangaDex.
    pub file_name: String,
    /// Final URL on the uploads host.
    pub url: String,
}

/// The catalog loaded for a manga and a language.
#[derive(Clone, Debug)]
pub struct DownloadCatalog {
    /// UUID of the manga on MangaDex.
    pub manga_id: String,
    /// The cover, when the manga has a cover relationship.
    pub cover: Option<CoverImage>,
    /// Title chosen for display.
    pub title: String,
    /// Sanitised name of the local folder of the manga.
    pub folder_name: String,
    /// Language used to fetch the chapters.
    pub language: Language,
    /// Chapters grouped and ordered for selection.
    pub chapters: Vec<IndexedChapter>,
}

/// Whether an indexed chapter has a downloadable entry in `lang`.
pub open spec fn has_candidate(c: IndexedChapter, lang: Seq<char>) -> bool {
    exists|i: int| 0 <= i < c.chapters@.len() && is_candidate(#[trigger] c.chapters@[i], lang)
}

/// The number of chapters with a downloadable entry in `lang`.
pub open spec fn available_in(chs: Seq<IndexedChapter>, lang: Seq<char>) -> nat
    decreases chs.len(),
{
    if chs.len() == 0 {
        0
    } else {
        available_in(chs.drop_last(), lang) + if has_candidate(chs.last(), lang) {
            1nat
        } else {
            0nat
        }
    }
}

pub open spec fn missing_chapter_message(index: nat) -> Seq<char> {
    "chapter index "@ + dec_text(index) + " is not in the catalog"@
}

impl DownloadCatalog {
    /// Assembles the catalog; the folder name is the sanitised title.
    pub fn new(
        manga_id: String,
        cover: Option<CoverImage>,
        title: String,
        language: Language,
        chapters: Vec<IndexedChapter>,
    ) -> (r: DownloadCatalog)
        ensures
            r.manga_id == manga_id,
            r.cover == cover,
            r.title == title,
            r.folder_name@ == folder_name(title@),
            r.language == language,
            r.chapters == chapters,
    {
        let folder = sanitize_folder_name(title.as_str());
        DownloadCatalog { manga_id, cover, title, folder_name: folder, language, chapters }
    }

    /// Builds the catalog from what was fetched for a manga: its id, its
    /// attributes, its cover and the chapter feed in the catalog's language.
    /// The title is the chosen one, the folder is named after it and the
    /// chapters are the feed indexed.
    pub fn assemble(
        manga_id: String,
        attributes: &MangaAttributes,
        cover: Option<CoverImage>,
        language: Language,
        feed: Vec<ChapterResource>,
    ) -> (r: DownloadCatalog)
        requires
            attributes.well_formed(),
        ensures
            r.manga_id == manga_id,
            r.cover == cover,
            r.title@ == chosen_title(attributes.title@),
            r.folder_name@ == folder_name(r.title@),
            r.language == language,
            is_index_of(r.chapters@, feed@),
    {
        let title = choose_manga_title(attributes);
        let chapters = index_chapters(feed);
        DownloadCatalog::new(manga_id, cover, title, language, chapters)
    }

    /// Counts the chapters that have a downloadable entry for the catalog's
    /// language.
    pub fn available_count(&self) -> (r: usize)
        ensures
            r == available_in(self.chapters@, language_code(self.language)),
    {
        let code = self.language.code();
        let mut count: usize = 0;
        let mut i: usize = 0;
        while i < self.chapters.len()
            invariant
                i <= self.chapters@.len(),
                code@ == language_code(self.language),
                count == available_in(self.chapters@.take(i as int), language_code(self.language)),
                count <= i,
            decreases self.chapters@.len() - i,
        {
            let found = match self.chapters[i].downloadable_for_language(code) {
                ChapterAvailability::Available(_) => true,
                _ => false,
            };
            proof {
                let c = self.chapters@[i as int];
                let t = self.chapters@.take(i + 1);
                assert(t.drop_last() =~= self.chapters@.take(i as int));
                assert(t.last() == c);
                if has_candidate(c, language_code(self.language)) {
                    let k = choose|k: int|
                        0 <= k < c.chapters@.len() && is_candidate(#[trigger] c.chapters@[k], language_code(self.language));
                    assert(c.chapters@[k].translated_language@ == language_code(self.language));
                }
            }
            if found {
                count += 1;
            }
            i += 1;
        }
        assert(self.chapters@.take(self.chapters@.len() as int) =~= self.chapters@);
        count
    }

    /// The chapter at a 1-based position of the catalog.
    pub fn chapter_at(&self, index: usize) -> (r: Result<&IndexedChapter, AppError>)
        requires
            index >= 1,
        ensures
            index <= self.chapters@.len() ==> (r matches Ok(c) && *c == self.chapters@[index - 1]),
            index > self.chapters@.len() ==> (r matches Err(AppError::InvalidInput(m)) && m@
                == missing_chapter_message(index as nat)),
    {
        if index <= self.chapters.len() {
            Ok(&self.chapters[index - 1])
        } else {
            let mut m = chars_of("chapter index ");
            push_all(&mut m, usize_text(index).as_slice());
            push_str(&mut m, " is not in the catalog");
            Err(AppError::InvalidInput(string_from_chars(m.as_slice())))
        }
    }
}

/// Final state of the cover in the report.
#[derive(Debug)]
pub enum CoverStatus {
    /// The cover was fetched in this run.
    Downloaded(std::path::PathBuf),
    /// Fetching the cover failed; the chapters could go on.
    Failed(String),
    /// The cover was already on disk.
    SkippedExisting(std::path::PathBuf),
    /// The manga had no cover that could be resolved.
    Unavailable,
}

/// A chapter that failed without stopping the rest of the selection.
#[derive(Clone, Debug)]
pub struct DownloadFailure {
    /// 1-based position of the chapter in the catalog.
    pub index: usize,
    /// Text identifying the chapter in the terminal.
    pub label: String,
    /// The error message.
    pub message: String,
}

/// Summary of a download run.
#[derive(Debug)]
pub struct DownloadReport {
    /// Outcome of the cover.
    pub cover: CoverStatus,
    /// Chapters fetched in this run.
    pub downloaded: usize,
    /// Chapters skipped because the CBZ already existed.
    pub skipped_existing: usize,
    /// Chapters with no translation in the requested language.
    pub skipped_missing_language: usize,
    /// Chapters without a real number to name the CBZ after.
    pub skipped_missing_chapter_number: usize,
    /// Chapters that only pointed to an external source.
    pub skipped_external: usize,
    /// Chapters for which AtHome returned no pages.
    pub skipped_no_pages: usize,
    /// Chapters that failed without stopping the selection.
    pub failed: Vec<DownloadFailure>,
}

/// What became of one chapter.
#[derive(Debug)]
pub enum DownloadOutcome {
    /// The chapter was written to this path.
    Downloaded(std::path::PathBuf),
    /// The final file already existed.
    SkippedExisting(std::path::PathBuf),
    /// The chapter only exists outside MangaDex.
    SkippedExternalOnly,
    /// No translation in the requested language.
    SkippedMissingLanguage,
    /// No chapter number to name the file after.
    SkippedMissingChapterNumber,
    /// AtHome returned an empty list of pages.
    SkippedNoPages,
}

/// The six counters of a report: downloaded, skipped existing, skipped
/// missing language, skipped missing chapter number, skipped external-only
/// and skipped without pages.
pub open spec fn counts(r: DownloadReport) -> (int, int, int, int, int, int) {
    (
        r.downloaded as int,
        r.skipped_existing as int,
        r.skipped_missing_language as int,
        r.skipped_missing_chapter_number as int,
        r.skipped_external as int,
        r.skipped_no_pages as int,
    )
}

pub open spec fn add_counts(a: (int, int, int, int, int, int), b: (int, int, int, int, int, int)) -> (
    int,
    int,
    int,
    int,
    int,
    int,
) {
    (a.0 + b.0, a.1 + b.1, a.2 + b.2, a.3 + b.3, a.4 + b.4, a.5 + b.5)
}

/// The counter that an outcome adds one to (none for a failure).
pub open spec fn outcome_counts(outcome: Result<DownloadOutcome, String>) -> (
    int,
    int,
    int,
    int,
    int,
    int,
) {
    match outcome {
        Ok(DownloadOutcome::Downloaded(_)) => (1, 0, 0, 0, 0, 0),
        Ok(DownloadOutcome::SkippedExisting(_)) => (0, 1, 0, 0, 0, 0),
        Ok(DownloadOutcome::SkippedMissingLanguage) => (0, 0, 1, 0, 0, 0),
        Ok(DownloadOutcome::SkippedMissingChapterNumber) => (0, 0, 0, 1, 0, 0),
        Ok(DownloadOutcome::SkippedExternalOnly) => (0, 0, 0, 0, 1, 0),
        Ok(DownloadOutcome::SkippedNoPages) => (0, 0, 0, 0, 0, 1),
        Err(_) => (0, 0, 0, 0, 0, 0),
    }
}

impl DownloadReport {
    /// The number of chapters the report accounts for.
    pub open spec fn handled(&self) -> int {
        self.downloaded + self.skipped_existing + self.skipped_missing_language
            + self.skipped_missing_chapter_number + self.skipped_external + self.skipped_no_pages
            + self.failed@.len()
    }

    /// An empty report with the given cover status.
    pub fn with_cover(cover: CoverStatus) -> (r: DownloadReport)
        ensures
            r.cover == cover,
            r.downloaded == 0,
            r.skipped_existing == 0,
            r.skipped_missing_language == 0,
            r.skipped_missing_chapter_number == 0,
            r.skipped_external == 0,
            r.skipped_no_pages == 0,
            r.failed@.len() == 0,
            r.handled() == 0,
    {
        DownloadReport {
            cover,
            downloaded: 0,
            skipped_existing: 0,
            skipped_missing_language: 0,
            skipped_missing_chapter_number: 0,
            skipped_external: 0,
            skipped_no_pages: 0,
            failed: Vec::new(),
        }
    }

    /// Accounts for one chapter: its outcome, or the message of its failure.
    ///
    /// Each chapter counts exactly once: one counter grows by one, or one
    /// failure is added; nothing else changes.
    pub fn record(
        &mut self,
        chapter: &IndexedChapter,
        outcome: Result<DownloadOutcome, String>,
    )
        requires
            old(self).handled() < usize::MAX,
        ensures
            final(self).handled() == old(self).handled() + 1,
            final(self).cover == old(self).cover,
            counts(*final(self)) == add_counts(counts(*old(self)), outcome_counts(outcome)),
            outcome is Ok ==> final(self).failed@ == old(self).failed@,
            outcome matches Err(message) ==> final(self).failed@ == old(self).failed@.push(
                DownloadFailure { index: chapter.index, label: chapter.display_label, message },
            ),
    {
        match outcome {
            Ok(DownloadOutcome::Downloaded(_)) => {
                self.downloaded = self.downloaded + 1;
            },
            Ok(DownloadOutcome::SkippedExisting(_)) => {
                self.skipped_existing = self.skipped_existing + 1;
            },
            Ok(DownloadOutcome::SkippedExternalOnly) => {
                self.skipped_external = self.skipped_external + 1;
            },
            Ok(DownloadOutcome::SkippedMissingLanguage) => {
                self.skipped_missing_language = self.skipped_missing_language + 1;
            },
            Ok(DownloadOutcome::SkippedMissingChapterNumber) => {
                self.skipped_missing_chapter_number = self.skipped_missing_chapter_number + 1;
            },
            Ok(DownloadOutcome::SkippedNoPages) => {
                self.skipped_no_pages = self.skipped_no_pages + 1;
            },
            Err(message) => {
                self.failed.push(
                    DownloadFailure {
                        index: chapter.index,
                        label: chapter.display_label.clone(),
                        message,
                    },
                );
            },
        }
    }
}

impl Default for DownloadReport {
    /// An empty report whose cover is unavailable.
    fn default() -> (r: DownloadReport)
        ensures
            r.cover is Unavailable,
            r.handled() == 0,
            r.failed@.len() == 0,
    {
        DownloadReport::with_cover(CoverStatus::Unavailable)
    }
}

/// What a chapter needs before any request is made.
#[derive(Debug)]
pub enum ChapterPlan {
    /// Nothing to fetch: the chapter ends with this outcome.
    Skip(DownloadOutcome),
    /// Fetch the pages of this chapter entry into a CBZ with this file name.
    Fetch { chapter_id: String, file_name: String },
}

/// Decides what a chapter needs, before the AtHome request: a missing
/// language, an external-only chapter and a missing chapter number are all
/// skipped.
pub fn plan_chapter(
    indexed: &IndexedChapter,
    language: Language,
    file_name_format: ChapterFileNameFormat,
) -> (r: ChapterPlan)
    ensures
        ({
            let chs = indexed.chapters@;
            let lang = language_code(language);
            if forall|i: int|
                0 <= i < chs.len() ==> (#[trigger] chs[i]).translated_language@ != lang {
                r matches ChapterPlan::Skip(DownloadOutcome::SkippedMissingLanguage)
            } else if forall|i: int| 0 <= i < chs.len() ==> !is_candidate(#[trigger] chs[i], lang) {
                r matches ChapterPlan::Skip(DownloadOutcome::SkippedExternalOnly)
            } else {
                exists|i: int|
                    crate::domain::chapter::is_best_candidate(chs, lang, i) && match cbz_file_name(
                        file_name_format,
                        match chs[i].chapter_number {
                            Some(n) => Some(n@),
                            None => None::<Seq<char>>,
                        },
                        match chs[i].title {
                            Some(t) => Some(t@),
                            None => None::<Seq<char>>,
                        },
                    ) {
                        None => r matches ChapterPlan::Skip(
                            DownloadOutcome::SkippedMissingChapterNumber,
                        ),
                        Some(name) => r matches ChapterPlan::Fetch { chapter_id, file_name }
                            && chapter_id == chs[i].id && file_name@ == name,
                    }
            }
        }),
{
    let chapter = match indexed.downloadable_for_language(language.code()) {
        ChapterAvailability::Available(chapter) => chapter,
        ChapterAvailability::ExternalOnly => {
            return ChapterPlan::Skip(DownloadOutcome::SkippedExternalOnly);
        },
        ChapterAvailability::MissingLanguage => {
            return ChapterPlan::Skip(DownloadOutcome::SkippedMissingLanguage);
        },
    };
    let number = match &chapter.chapter_number {
        Some(n) => Some(n.as_str()),
        None => None,
    };
    let title = match &chapter.title {
        Some(t) => Some(t.as_str()),
        None => None,
    };
    match chapter_cbz_file_name(file_name_format, number, title) {
        Some(file_name) => ChapterPlan::Fetch { chapter_id: chapter.id, file_name },
        None => ChapterPlan::Skip(DownloadOutcome::SkippedMissingChapterNumber),
    }
}

/// The cover to fetch; a manga without a cover gets an unavailable cover
/// and nothing is fetched.
pub fn cover_to_fetch(cover: &Option<CoverImage>) -> (r: Result<&CoverImage, CoverStatus>)
    ensures
        match cover {
            Some(c) => r matches Ok(x) && *x == c,
            None => r matches Err(CoverStatus::Unavailable),
        },
{
    match cover {
        Some(c) => Ok(c),
        None => Err(CoverStatus::Unavailable),
    }
}

/// A chapter whose CBZ file already exists is skipped; otherwise the
/// download goes on (`None`).
pub fn existing_file_outcome(exists: bool, path: std::path::PathBuf) -> (r: Option<DownloadOutcome>)
    ensures
        exists ==> (r matches Some(DownloadOutcome::SkippedExisting(p)) && p == path),
        !exists ==> r is None,
{
    if exists {
        Some(DownloadOutcome::SkippedExisting(path))
    } else {
        None
    }
}

/// A chapter for which the AtHome server lists no page file is skipped;
/// otherwise the download goes on (`None`).
pub fn page_list_outcome(page_count: usize) -> (r: Option<DownloadOutcome>)
    ensures
        page_count == 0 ==> r matches Some(DownloadOutcome::SkippedNoPages),
        page_count > 0 ==> r is None,
{
    if page_count == 0 {
        Some(DownloadOutcome::SkippedNoPages)
    } else {
        None
    }
}

/// The cover's status decided by the check for an existing file (its
/// result, or the message of its failure): an existing cover is skipped, a
/// failed check fails the cover, and otherwise the download goes on (`None`).
pub fn existing_cover_status(check: Result<bool, String>, path: std::path::PathBuf) -> (r: Option<
    CoverStatus,
>)
    ensures
        match check {
            Ok(true) => r matches Some(CoverStatus::SkippedExisting(p)) && p == path,
            Ok(false) => r is None,
            Err(m) => r matches Some(CoverStatus::Failed(x)) && x == m,
        },
{
    match check {
        Ok(true) => Some(CoverStatus::SkippedExisting(path)),
        Ok(false) => None,
        Err(m) => Some(CoverStatus::Failed(m)),
    }
}

/// The cover's status after its download: downloaded to `path`, or failed
/// with the message of the error.
pub fn downloaded_cover_status(result: Result<(), String>, path: std::path::PathBuf) -> (r: CoverStatus)
    ensures
        match result {
            Ok(()) => r matches CoverStatus::Downloaded(p) && p == path,
            Err(m) => r matches CoverStatus::Failed(x) && x == m,
        },
{
    match result {
        Ok(()) => CoverStatus::Downloaded(path),
        Err(m) => CoverStatus::Failed(m),
    }
}

/// The name of the temporary file written next to a final file: the final
/// name (or `chapter.cbz` when the path has none) followed by `.part`.
pub fn part_file_name(file_name: Option<&str>) -> (r: String)
    ensures
        r@ == match file_name {
            Some(n) => n@,
            None => "chapter.cbz"@,
        } + ".part"@,
{
    let mut name = match file_name {
        Some(n) => chars_of(n),
        None => chars_of("chapter.cbz"),
    };
    push_str(&mut name, ".part");
    string_from_chars(name.as_slice())
}

/// The URL of a page from the AtHome answer.
pub fn page_url(at_home: &AtHomeResponse, source_name: &str) -> (r: String)
    ensures
        r@ == strip_end(at_home.base_url@, CharClass::Slash) + "/data/"@ + at_home.chapter.hash@
            + "/"@ + source_name@,
{
    let base = chars_of(at_home.base_url.as_str());
    let mut url = strip_end_chars(base.as_slice(), CharClass::Slash);
    push_str(&mut url, "/data/");
    push_str(&mut url, at_home.chapter.hash.as_str());
    push_str(&mut url, "/");
    push_str(&mut url, source_name);
    string_from_chars(url.as_slice())
}

/// Index of the first relationship of type `cover_art`, or the length.
pub open spec fn cover_position(rels: Seq<Relationship>) -> int
    decreases rels.len(),
{
    if rels.len() == 0 {
        0
    } else if rels[0].resource_type@ == "cover_art"@ {
        0
    } else {
        1 + cover_position(rels.drop_first())
    }
}

/// The id of the manga's cover: the first relationship of type `cover_art`.
pub fn cover_relationship_id(relationships: &[Relationship]) -> (r: Option<String>)
    ensures
        ({
            let p = cover_position(relationships@);
            if p < relationships@.len() {
                r matches Some(id) && id == relationships@[p].id
            } else {
                r is None
            }
        }),
{
    let mut i: usize = 0;
    assert(relationships@.skip(0) =~= relationships@);
    while i < relationships.len()
        invariant
            i <= relationships@.len(),
            cover_position(relationships@) == i + cover_position(relationships@.skip(i as int)),
        decreases relationships@.len() - i,
    {
        assert(relationships@.skip(i as int)[0] == relationships@[i as int]);
        let r = &relationships[i];
        if chars_eq_str(chars_of(r.resource_type.as_str()).as_slice(), "cover_art") {
            return Some(r.id.clone());
        }
        assert(relationships@.skip(i as int).drop_first() =~= relationships@.skip(i + 1));
        i += 1;
    }
    None
}

} // verus!
