use acerola_mangadex::domain::chapter::{ChapterEntry, IndexedChapter};
use acerola_mangadex::domain::selection::{
    parse_chapter_number_selection, parse_selection, ChapterSelection,
};
use acerola_mangadex::infra::AppError;

fn indexed_chapters() -> Vec<IndexedChapter> {
    vec![
        indexed_chapter(1, "0.01"),
        indexed_chapter(2, "0.02"),
        indexed_chapter(3, "133"),
    ]
}

fn indexed_chapter(index: usize, key: &str) -> IndexedChapter {
    IndexedChapter {
        index,
        key: key.to_string(),
        display_label: format!("Chapter {key}"),
        chapters: vec![ChapterEntry {
            id: format!("chapter-{key}"),
            chapter_number: Some(key.to_string()),
            title: None,
            translated_language: "pt-br".to_string(),
            pages: 1,
            external_url: None,
        }],
    }
}

fn invalid_message<T: std::fmt::Debug>(result: Result<T, AppError>) -> String {
    match result {
        Err(AppError::InvalidInput(message)) => message,
        other => panic!("expected invalid input, got {other:?}"),
    }
}

#[test]
fn parses_all() {
    assert_eq!(parse_selection("all", 10).unwrap(), ChapterSelection::All);
}

#[test]
fn parses_single_index() {
    assert_eq!(
        parse_selection("7", 10).unwrap(),
        ChapterSelection::Index(7)
    );
}

#[test]
fn parses_range() {
    assert_eq!(
        parse_selection("2-4", 10).unwrap(),
        ChapterSelection::IndexRange { start: 2, end: 4 }
    );
}

#[test]
fn rejects_out_of_bounds_range() {
    assert!(parse_selection("2-11", 10).is_err());
}

#[test]
fn parses_single_chapter_number() {
    assert_eq!(
        parse_chapter_number_selection("133").unwrap(),
        ChapterSelection::Number("133".to_string())
    );
}

#[test]
fn parses_chapter_number_range() {
    assert_eq!(
        parse_chapter_number_selection("100-133").unwrap(),
        ChapterSelection::NumberRange {
            start: "100".to_string(),
            end: "133".to_string()
        }
    );
}

#[test]
fn resolves_chapter_number_to_current_index() {
    let chapters = indexed_chapters();

    assert_eq!(
        ChapterSelection::Number("133".to_string())
            .resolve(&chapters)
            .unwrap(),
        vec![3]
    );
}

#[test]
fn resolves_chapter_number_range_to_current_indexes() {
    let chapters = indexed_chapters();

    assert_eq!(
        ChapterSelection::NumberRange {
            start: "0.02".to_string(),
            end: "133".to_string()
        }
        .resolve(&chapters)
        .unwrap(),
        vec![2, 3]
    );
}

#[test]
fn parses_all_in_any_case_with_spaces() {
    assert_eq!(parse_selection("  ALL ", 0).unwrap(), ChapterSelection::All);
}

#[test]
fn parses_range_with_spaces_around_the_bounds() {
    assert_eq!(
        parse_selection(" 3 - 5 ", 10).unwrap(),
        ChapterSelection::IndexRange { start: 3, end: 5 }
    );
}

#[test]
fn rejects_zero_and_out_of_range_positions() {
    assert_eq!(
        invalid_message(parse_selection("0", 10)),
        "chapter index must start at 1"
    );
    assert_eq!(
        invalid_message(parse_selection("11", 10)),
        "chapter index 11 is outside the catalog total 10"
    );
    assert_eq!(
        invalid_message(parse_selection("5-3", 10)),
        "chapter range start 5 cannot be greater than end 3"
    );
}

#[test]
fn rejects_non_numeric_positions_as_integer_errors() {
    assert!(matches!(parse_selection("x", 10), Err(AppError::ParseInt(_))));
    assert!(matches!(parse_selection("1-x", 10), Err(AppError::ParseInt(_))));
    assert!(matches!(parse_selection("-1", 10), Err(AppError::ParseInt(_))));
    assert!(matches!(parse_selection("+4", 10), Ok(ChapterSelection::Index(4))));
}

#[test]
fn rejects_bad_chapter_number_selections() {
    assert_eq!(
        invalid_message(parse_chapter_number_selection("   ")),
        "chapter number selection cannot be empty"
    );
    assert_eq!(
        invalid_message(parse_chapter_number_selection("-5")),
        "chapter number cannot be empty"
    );
    assert_eq!(
        invalid_message(parse_chapter_number_selection("1/2")),
        "chapter number '1/2' contains invalid path separators"
    );
    assert_eq!(
        invalid_message(parse_chapter_number_selection("a-3")),
        "chapter number 'a' must be numeric for range selection: invalid float literal"
    );
    assert_eq!(
        invalid_message(parse_chapter_number_selection("10-2")),
        "chapter number range start 10 cannot be greater than end 2"
    );
}

#[test]
fn single_chapter_numbers_need_not_be_numeric() {
    assert_eq!(
        parse_chapter_number_selection(" Extra ").unwrap(),
        ChapterSelection::Number("Extra".to_string())
    );
}

#[test]
fn chapter_number_ranges_accept_float_literals() {
    assert_eq!(
        parse_chapter_number_selection("1e1-inf").unwrap(),
        ChapterSelection::NumberRange {
            start: "1e1".to_string(),
            end: "inf".to_string()
        }
    );
    assert!(parse_chapter_number_selection("nan-1").is_ok());
}

#[test]
fn resolves_positions() {
    let chapters = indexed_chapters();
    assert_eq!(ChapterSelection::All.resolve(&chapters).unwrap(), vec![1, 2, 3]);
    assert_eq!(ChapterSelection::Index(2).resolve(&chapters).unwrap(), vec![2]);
    assert_eq!(
        ChapterSelection::IndexRange { start: 2, end: 3 }
            .resolve(&chapters)
            .unwrap(),
        vec![2, 3]
    );
    assert_eq!(
        invalid_message(ChapterSelection::Index(4).resolve(&chapters)),
        "chapter index 4 is outside the catalog total 3"
    );
}

#[test]
fn resolving_against_an_empty_catalog_fails() {
    assert_eq!(
        invalid_message(ChapterSelection::All.resolve(&[])),
        "cannot select chapters from an empty catalog"
    );
}

#[test]
fn resolves_numbers_case_insensitively_after_trimming() {
    let chapters = vec![indexed_chapter(1, "Extra A"), indexed_chapter(2, "5")];
    assert_eq!(
        ChapterSelection::Number(" extra a ".to_string())
            .resolve(&chapters)
            .unwrap(),
        vec![1]
    );
    assert_eq!(
        invalid_message(ChapterSelection::Number("6".to_string()).resolve(&chapters)),
        "chapter number 6 was not found in the selected language catalog"
    );
}

#[test]
fn number_ranges_compare_by_value() {
    let chapters = vec![
        indexed_chapter(1, "1"),
        indexed_chapter(2, "1.50"),
        indexed_chapter(3, "10"),
        indexed_chapter(4, "Extra"),
    ];
    assert_eq!(
        ChapterSelection::NumberRange {
            start: "1.5".to_string(),
            end: "1e1".to_string()
        }
        .resolve(&chapters)
        .unwrap(),
        vec![2, 3]
    );
    assert_eq!(
        invalid_message(
            ChapterSelection::NumberRange {
                start: "20".to_string(),
                end: "30".to_string()
            }
            .resolve(&chapters)
        ),
        "chapter number range 20-30 did not match any chapters in the selected language catalog"
    );
    assert_eq!(
        invalid_message(
            ChapterSelection::NumberRange {
                start: "".to_string(),
                end: "30".to_string()
            }
            .resolve(&chapters)
        ),
        "chapter number '' must be numeric for range selection: cannot parse float from empty string"
    );
}

#[test]
fn accepted_positions_resolve_on_the_same_catalog() {
    let chapters = indexed_chapters();
    for input in ["all", " ALL ", "1", "3", "1-3", "2-2", " 2 - 3 "] {
        let selection = parse_selection(input, chapters.len()).unwrap();
        let resolved = selection.resolve(&chapters).unwrap();
        assert!(!resolved.is_empty(), "{input:?} selected nothing");
        assert!(resolved.iter().all(|&k| 1 <= k && k <= chapters.len()));
        assert!(resolved.windows(2).all(|pair| pair[0] < pair[1]));
    }
    assert!(parse_selection("0", chapters.len()).is_err());
    assert!(parse_selection("3-2", chapters.len()).is_err());
    assert!(parse_selection(&(chapters.len() + 1).to_string(), chapters.len()).is_err());
}
