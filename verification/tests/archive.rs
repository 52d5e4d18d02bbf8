use acerola_mangadex::domain::archive::{
    chapter_cbz_file_name, cover_file_name, page_entry_name, parse_chapter_file_name_format,
    safe_extension, supported_chapter_file_name_formats, ChapterFileNameFormat,
};
use acerola_mangadex::infra::AppError;

#[test]
fn uses_number_only_cbz_file_name() {
    assert_eq!(
        chapter_cbz_file_name(ChapterFileNameFormat::NumberOnly, Some("133"), None),
        Some("133.cbz".to_string())
    );
}

#[test]
fn keeps_decimal_chapter_number_for_cbz_file_name() {
    assert_eq!(
        chapter_cbz_file_name(ChapterFileNameFormat::NumberOnly, Some("0.01"), None),
        Some("0.01.cbz".to_string())
    );
}

#[test]
fn uses_chapter_title_cbz_file_name() {
    assert_eq!(
        chapter_cbz_file_name(
            ChapterFileNameFormat::ChapterTitle,
            Some("163"),
            Some("A Sombra de uma Ideia (1)")
        ),
        Some("Ch. 163 - A Sombra de uma Ideia (1).cbz".to_string())
    );
}

#[test]
fn omits_title_separator_when_title_is_missing() {
    assert_eq!(
        chapter_cbz_file_name(ChapterFileNameFormat::ChapterTitle, Some("163"), None),
        Some("Ch. 163.cbz".to_string())
    );
}

#[test]
fn does_not_fall_back_to_index_when_chapter_number_is_missing() {
    assert_eq!(
        chapter_cbz_file_name(ChapterFileNameFormat::NumberOnly, None, None),
        None
    );
}

#[test]
fn keeps_safe_page_extensions() {
    assert_eq!(page_entry_name(2, 12, "abc.PNG"), "02.png");
}

#[test]
fn falls_back_to_jpg_for_unsafe_extensions() {
    assert_eq!(page_entry_name(2, 12, "abc.bad/ext"), "02.jpg");
}

#[test]
fn blank_chapter_number_has_no_file_name() {
    assert_eq!(
        chapter_cbz_file_name(ChapterFileNameFormat::NumberOnly, Some("   "), None),
        None
    );
}

#[test]
fn stem_of_only_dots_has_no_file_name() {
    assert_eq!(
        chapter_cbz_file_name(ChapterFileNameFormat::NumberOnly, Some(".."), None),
        None
    );
}

#[test]
fn invalid_characters_become_underscores_in_file_names() {
    assert_eq!(
        chapter_cbz_file_name(
            ChapterFileNameFormat::ChapterTitle,
            Some(" 7 "),
            Some("  What? A/B: \"x\"  ")
        ),
        Some("Ch. 7 - What_ A_B_ _x_.cbz".to_string())
    );
}

#[test]
fn reserved_windows_stems_get_a_suffix() {
    assert_eq!(
        chapter_cbz_file_name(ChapterFileNameFormat::NumberOnly, Some("con"), None),
        Some("con_.cbz".to_string())
    );
    assert_eq!(
        chapter_cbz_file_name(ChapterFileNameFormat::NumberOnly, Some("LPT3.x"), None),
        Some("LPT3_.x.cbz".to_string())
    );
    assert_eq!(
        chapter_cbz_file_name(ChapterFileNameFormat::NumberOnly, Some("COM10"), None),
        Some("COM10.cbz".to_string())
    );
    assert_eq!(
        chapter_cbz_file_name(ChapterFileNameFormat::NumberOnly, Some("nul.1"), None),
        Some("nul_.1.cbz".to_string())
    );
}

#[test]
fn trailing_dots_and_spaces_are_trimmed_from_stems() {
    assert_eq!(
        chapter_cbz_file_name(ChapterFileNameFormat::NumberOnly, Some("12. ."), None),
        Some("12.cbz".to_string())
    );
}

#[test]
fn page_names_are_padded_to_the_width_of_the_total() {
    assert_eq!(page_entry_name(7, 1000, "x.webp"), "0007.webp");
    assert_eq!(page_entry_name(123, 9, "x.jpg"), "123.jpg");
    assert_eq!(page_entry_name(1, 0, "x"), "1.jpg");
}

#[test]
fn extensions_are_lowercased_or_replaced() {
    assert_eq!(safe_extension("page.JPEG"), "jpeg");
    assert_eq!(safe_extension("page"), "jpg");
    assert_eq!(safe_extension("page."), "jpg");
    assert_eq!(safe_extension("a.b.Png"), "png");
    assert_eq!(safe_extension("a.p-g"), "jpg");
}

#[test]
fn cover_names_use_the_safe_extension() {
    assert_eq!(cover_file_name("abc.PNG"), "cover.png");
    assert_eq!(cover_file_name("abc"), "cover.jpg");
}

#[test]
fn parses_file_name_formats_and_aliases() {
    assert_eq!(
        parse_chapter_file_name_format("  Chapter-Title ").unwrap(),
        ChapterFileNameFormat::ChapterTitle
    );
    assert_eq!(
        parse_chapter_file_name_format("ch").unwrap(),
        ChapterFileNameFormat::ChapterTitle
    );
    assert_eq!(
        parse_chapter_file_name_format("163.CBZ").unwrap(),
        ChapterFileNameFormat::NumberOnly
    );
    assert_eq!(
        parse_chapter_file_name_format("number_only").unwrap(),
        ChapterFileNameFormat::NumberOnly
    );
}

#[test]
fn rejects_unknown_file_name_formats() {
    match parse_chapter_file_name_format(" Weird ") {
        Err(AppError::InvalidInput(message)) => assert_eq!(
            message,
            "unsupported chapter file name format ' Weird '. Supported formats: chapter-title, number"
        ),
        other => panic!("unexpected result: {other:?}"),
    }
}

#[test]
fn format_codes_and_labels() {
    assert_eq!(ChapterFileNameFormat::ChapterTitle.code(), "chapter-title");
    assert_eq!(ChapterFileNameFormat::NumberOnly.code(), "number");
    assert_eq!(ChapterFileNameFormat::NumberOnly.label(), "163.cbz");
    assert_eq!(
        supported_chapter_file_name_formats(),
        vec![ChapterFileNameFormat::ChapterTitle, ChapterFileNameFormat::NumberOnly]
    );
}

#[test]
fn page_entries_sort_in_page_order() {
    let total = 120;
    let names: Vec<String> = (1..=total)
        .map(|position| page_entry_name(position, total, if position % 2 == 0 { "x.png" } else { "y.JPEG" }))
        .collect();
    let mut sorted = names.clone();
    sorted.sort();
    assert_eq!(sorted, names);
    assert_eq!(names[8], "009.jpeg");
    assert_eq!(names[99], "100.png");
}

#[test]
fn format_codes_parse_back() {
    for format in supported_chapter_file_name_formats() {
        assert_eq!(parse_chapter_file_name_format(format.code()).unwrap(), format);
        let padded = format!("  {}\t", format.code().to_ascii_uppercase());
        assert_eq!(parse_chapter_file_name_format(&padded).unwrap(), format);
    }
}

#[test]
fn safe_extensions_are_their_own_safe_extension() {
    for name in ["a.PNG", "a", "a.", "a.b/c", "x.JpEg", "weird.ext!"] {
        let ext = safe_extension(name);
        assert!(!ext.is_empty());
        assert!(ext.chars().all(|c| c.is_ascii_lowercase() || c.is_ascii_digit()));
        assert_eq!(safe_extension(&format!("x.{ext}")), ext);
    }
}
