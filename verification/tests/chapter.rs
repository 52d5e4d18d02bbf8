use acerola_mangadex::data::{ChapterAttributes, ChapterResource};
use acerola_mangadex::domain::chapter::{index_chapters, ChapterAvailability, ChapterEntry};

fn chapter(id: &str, number: &str, language: &str, pages: u32) -> ChapterResource {
    ChapterResource {
        id: id.to_string(),
        resource_type: "chapter".to_string(),
        attributes: ChapterAttributes {
            chapter: Some(number.to_string()),
            title: None,
            translated_language: language.to_string(),
            pages: Some(pages),
            external_url: None,
        },
        relationships: Vec::new(),
    }
}

#[test]
fn groups_translations_by_chapter_number_and_selects_language() {
    let indexed = index_chapters(vec![
        chapter("en-1", "1", "en", 12),
        chapter("pt-1", "1", "pt-br", 14),
        chapter("pt-2", "2", "pt-br", 20),
    ]);

    assert_eq!(indexed.len(), 2);
    assert_eq!(indexed[0].index, 1);
    assert_eq!(
        indexed[0].downloadable_for_language("pt-br"),
        ChapterAvailability::Available(ChapterEntry {
            id: "pt-1".to_string(),
            chapter_number: Some("1".to_string()),
            title: None,
            translated_language: "pt-br".to_string(),
            pages: 14,
            external_url: None,
        })
    );
}

#[test]
fn reports_missing_language() {
    let indexed = index_chapters(vec![chapter("en-1", "1", "en", 12)]);

    assert_eq!(
        indexed[0].downloadable_for_language("pt-br"),
        ChapterAvailability::MissingLanguage
    );
}

#[test]
fn orders_numeric_keys_by_value_before_other_keys() {
    let mut untitled = chapter("x-9", "0", "pt-br", 3);
    untitled.attributes.chapter = None;
    let indexed = index_chapters(vec![
        chapter("a", "10", "pt-br", 1),
        untitled,
        chapter("b", "Extra", "pt-br", 1),
        chapter("c", "0.01", "pt-br", 1),
        chapter("d", "2", "pt-br", 1),
        chapter("e", "-1", "pt-br", 1),
    ]);
    let keys: Vec<&str> = indexed.iter().map(|c| c.key.as_str()).collect();
    assert_eq!(keys, vec!["-1", "0.01", "2", "10", "Extra", "id:x-9"]);
    let positions: Vec<usize> = indexed.iter().map(|c| c.index).collect();
    assert_eq!(positions, vec![1, 2, 3, 4, 5, 6]);
}

#[test]
fn builds_display_labels_from_the_first_entry() {
    let mut titled = chapter("t", "5", "pt-br", 1);
    titled.attributes.title = Some("  The Title ".to_string());
    let mut title_only = chapter("u", "ignored", "pt-br", 1);
    title_only.attributes.chapter = None;
    title_only.attributes.title = Some(" Oneshot ".to_string());
    let mut bare = chapter("v", "ignored", "pt-br", 1);
    bare.attributes.chapter = None;
    let indexed = index_chapters(vec![titled, chapter("w", "6", "pt-br", 1), title_only, bare]);
    let labels: Vec<&str> = indexed.iter().map(|c| c.display_label.as_str()).collect();
    assert_eq!(
        labels,
        vec!["Chapter 5 - The Title", "Chapter 6", "Oneshot", "Chapter without number"]
    );
}

#[test]
fn prefers_the_last_entry_with_most_pages_and_skips_external_ones() {
    let mut external = chapter("ext", "1", "pt-br", 99);
    external.attributes.external_url = Some("https://example.com".to_string());
    let indexed = index_chapters(vec![
        chapter("a", "1", "pt-br", 10),
        external,
        chapter("b", "1", "pt-br", 10),
        chapter("c", "1", "pt-br", 4),
    ]);
    match indexed[0].downloadable_for_language("pt-br") {
        ChapterAvailability::Available(entry) => assert_eq!(entry.id, "b"),
        other => panic!("unexpected {other:?}"),
    }
}

#[test]
fn reports_external_only_chapters() {
    let mut external = chapter("ext", "1", "pt-br", 99);
    external.attributes.external_url = Some("https://example.com".to_string());
    let indexed = index_chapters(vec![external, chapter("en", "1", "en", 3)]);
    assert_eq!(
        indexed[0].downloadable_for_language("pt-br"),
        ChapterAvailability::ExternalOnly
    );
}

#[test]
fn missing_page_counts_are_zero() {
    let mut resource = chapter("a", "1", "pt-br", 1);
    resource.attributes.pages = None;
    let indexed = index_chapters(vec![resource]);
    assert_eq!(indexed[0].chapters[0].pages, 0);
}

#[test]
fn assembles_the_catalog_from_what_was_fetched() {
    use_catalog();
}

fn use_catalog() {
    let attributes = acerola_mangadex::data::MangaAttributes {
        title: vec![
            ("ja".to_string(), "ベルセルク".to_string()),
            ("en".to_string(), " Berserk: Deluxe ".to_string()),
        ],
    };
    let catalog = acerola_mangadex::domain::DownloadCatalog::assemble(
        "801513ba-a712-498c-8f57-cae55b38cc92".to_string(),
        &attributes,
        None,
        acerola_mangadex::domain::Language::PortugueseBrazil,
        vec![chapter("pt-2", "2", "pt-br", 20), chapter("pt-1", "1", "pt-br", 14)],
    );
    assert_eq!(catalog.manga_id, "801513ba-a712-498c-8f57-cae55b38cc92");
    assert_eq!(catalog.title, "Berserk: Deluxe");
    assert_eq!(catalog.folder_name, "Berserk_ Deluxe");
    assert_eq!(catalog.chapters.len(), 2);
    assert_eq!(catalog.chapters[0].key, "1");
    assert_eq!(catalog.chapters[1].index, 2);
    assert!(catalog.cover.is_none());
}

#[test]
fn orders_keys_by_the_values_they_parse_to() {
    let indexed = index_chapters(vec![
        chapter("a", "10", "pt-br", 1),
        chapter("b", "1e400", "pt-br", 1),
        chapter("c", "0.5", "pt-br", 1),
        chapter("d", "extra", "pt-br", 1),
    ]);
    let keys: Vec<&str> = indexed.iter().map(|c| c.key.as_str()).collect();
    assert_eq!(keys, vec!["0.5", "10", "1e400", "extra"]);
}
