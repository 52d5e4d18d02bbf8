use acerola_mangadex::data::{AtHomeChapter, AtHomeResponse, Relationship};
use acerola_mangadex::domain::archive::ChapterFileNameFormat;
use acerola_mangadex::domain::chapter::{ChapterEntry, IndexedChapter};
use acerola_mangadex::domain::downloader::{
    cover_relationship_id, page_url, part_file_name, plan_chapter, ChapterPlan, CoverStatus,
    DownloadCatalog, DownloadOutcome, DownloadReport, downloaded_cover_status,
    existing_cover_status, existing_file_outcome, page_list_outcome,
};
use std::path::PathBuf;
use acerola_mangadex::domain::Language;
use acerola_mangadex::infra::AppError;

fn entry(id: &str, number: Option<&str>, language: &str, pages: u32, external: bool) -> ChapterEntry {
    ChapterEntry {
        id: id.to_string(),
        chapter_number: number.map(|n| n.to_string()),
        title: Some("Title".to_string()),
        translated_language: language.to_string(),
        pages,
        external_url: if external { Some("https://x".to_string()) } else { None },
    }
}

fn indexed(index: usize, entries: Vec<ChapterEntry>) -> IndexedChapter {
    IndexedChapter {
        index,
        key: index.to_string(),
        display_label: format!("Chapter {index}"),
        chapters: entries,
    }
}

#[test]
fn builds_partial_file_names() {
    assert_eq!(part_file_name(Some("001.cbz")), "001.cbz.part");
    assert_eq!(part_file_name(None), "chapter.cbz.part");
}

#[test]
fn builds_page_urls() {
    let at_home = AtHomeResponse {
        result: "ok".to_string(),
        base_url: "https://node.example/".to_string(),
        chapter: AtHomeChapter {
            hash: "abc".to_string(),
            data: vec!["1.png".to_string()],
            data_saver: Vec::new(),
        },
    };
    assert_eq!(page_url(&at_home, "1.png"), "https://node.example/data/abc/1.png");
}

#[test]
fn finds_the_cover_relationship() {
    let rels = vec![
        Relationship { id: "a".to_string(), resource_type: "author".to_string() },
        Relationship { id: "c1".to_string(), resource_type: "cover_art".to_string() },
        Relationship { id: "c2".to_string(), resource_type: "cover_art".to_string() },
    ];
    assert_eq!(cover_relationship_id(&rels), Some("c1".to_string()));
    assert_eq!(cover_relationship_id(&rels[..1]), None);
}

#[test]
fn counts_available_chapters_and_finds_positions() {
    let catalog = DownloadCatalog::new(
        "id".to_string(),
        None,
        "Berserk: Deluxe".to_string(),
        Language::PortugueseBrazil,
        vec![
            indexed(1, vec![entry("a", Some("1"), "pt-br", 3, false)]),
            indexed(2, vec![entry("b", Some("2"), "pt-br", 3, true)]),
            indexed(3, vec![entry("c", Some("3"), "en", 3, false)]),
        ],
    );
    assert_eq!(catalog.folder_name, "Berserk_ Deluxe");
    assert_eq!(catalog.available_count(), 1);
    assert_eq!(catalog.chapter_at(2).unwrap().index, 2);
    match catalog.chapter_at(4) {
        Err(AppError::InvalidInput(m)) => assert_eq!(m, "chapter index 4 is not in the catalog"),
        other => panic!("unexpected {other:?}"),
    }
}

#[test]
fn plans_each_kind_of_chapter() {
    let language = Language::PortugueseBrazil;
    let format = ChapterFileNameFormat::NumberOnly;
    assert!(matches!(
        plan_chapter(&indexed(1, vec![entry("c", Some("3"), "en", 3, false)]), language, format),
        ChapterPlan::Skip(DownloadOutcome::SkippedMissingLanguage)
    ));
    assert!(matches!(
        plan_chapter(&indexed(1, vec![entry("c", Some("3"), "pt-br", 3, true)]), language, format),
        ChapterPlan::Skip(DownloadOutcome::SkippedExternalOnly)
    ));
    assert!(matches!(
        plan_chapter(&indexed(1, vec![entry("c", None, "pt-br", 3, false)]), language, format),
        ChapterPlan::Skip(DownloadOutcome::SkippedMissingChapterNumber)
    ));
    match plan_chapter(
        &indexed(1, vec![entry("c", Some("3"), "pt-br", 3, false)]),
        language,
        ChapterFileNameFormat::ChapterTitle,
    ) {
        ChapterPlan::Fetch { chapter_id, file_name } => {
            assert_eq!(chapter_id, "c");
            assert_eq!(file_name, "Ch. 3 - Title.cbz");
        }
        other => panic!("unexpected {other:?}"),
    }
}

#[test]
fn the_report_counts_each_chapter_once() {
    let chapter = indexed(7, Vec::new());
    let mut report = DownloadReport::default();
    assert!(matches!(report.cover, CoverStatus::Unavailable));
    report.record(&chapter, Ok(DownloadOutcome::Downloaded("a.cbz".into())));
    report.record(&chapter, Ok(DownloadOutcome::SkippedExisting("b.cbz".into())));
    report.record(&chapter, Ok(DownloadOutcome::SkippedNoPages));
    report.record(&chapter, Ok(DownloadOutcome::SkippedExternalOnly));
    report.record(&chapter, Ok(DownloadOutcome::SkippedMissingLanguage));
    report.record(&chapter, Ok(DownloadOutcome::SkippedMissingChapterNumber));
    report.record(&chapter, Err("boom".to_string()));
    assert_eq!(report.downloaded, 1);
    assert_eq!(report.skipped_existing, 1);
    assert_eq!(report.skipped_no_pages, 1);
    assert_eq!(report.skipped_external, 1);
    assert_eq!(report.skipped_missing_language, 1);
    assert_eq!(report.skipped_missing_chapter_number, 1);
    assert_eq!(report.failed.len(), 1);
    assert_eq!(report.failed[0].index, 7);
    assert_eq!(report.failed[0].label, "Chapter 7");
    assert_eq!(report.failed[0].message, "boom");
}

#[test]
fn builds_partial_path_next_to_final_file() {
    let final_path = std::path::Path::new("Berserk/001.cbz");
    let part = final_path.with_file_name(part_file_name(
        final_path.file_name().and_then(|value| value.to_str()),
    ));
    assert_eq!(part, std::path::Path::new("Berserk/001.cbz.part"));
}

#[test]
fn decides_existing_files_empty_page_lists_and_cover_statuses() {
    let path = PathBuf::from("Berserk/001.cbz");
    assert!(matches!(
        existing_file_outcome(true, path.clone()),
        Some(DownloadOutcome::SkippedExisting(p)) if p == path
    ));
    assert!(existing_file_outcome(false, path.clone()).is_none());
    assert!(matches!(page_list_outcome(0), Some(DownloadOutcome::SkippedNoPages)));
    assert!(page_list_outcome(12).is_none());
    let cover = PathBuf::from("Berserk/cover.jpg");
    assert!(matches!(
        existing_cover_status(Ok(true), cover.clone()),
        Some(CoverStatus::SkippedExisting(p)) if p == cover
    ));
    assert!(existing_cover_status(Ok(false), cover.clone()).is_none());
    assert!(matches!(
        existing_cover_status(Err("denied".to_string()), cover.clone()),
        Some(CoverStatus::Failed(m)) if m == "denied"
    ));
    assert!(matches!(
        downloaded_cover_status(Ok(()), cover.clone()),
        CoverStatus::Downloaded(p) if p == cover
    ));
    assert!(matches!(
        downloaded_cover_status(Err("timeout".to_string()), cover),
        CoverStatus::Failed(m) if m == "timeout"
    ));
}

#[test]
fn a_manga_without_cover_has_an_unavailable_cover() {
    use_cover_to_fetch();
}

fn use_cover_to_fetch() {
    let none: Option<acerola_mangadex::domain::downloader::CoverImage> = None;
    assert!(matches!(
        acerola_mangadex::domain::downloader::cover_to_fetch(&none),
        Err(CoverStatus::Unavailable)
    ));
    let some = Some(acerola_mangadex::domain::downloader::CoverImage {
        file_name: "c.jpg".to_string(),
        url: "https://uploads/c.jpg".to_string(),
    });
    let got = acerola_mangadex::domain::downloader::cover_to_fetch(&some).ok().unwrap();
    assert_eq!(got.file_name, "c.jpg");
}
