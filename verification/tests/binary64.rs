use acerola_mangadex::binary64::round_to_binary64;
use acerola_mangadex::domain::chapter::{ChapterEntry, IndexedChapter};
use acerola_mangadex::domain::selection::{parse_chapter_number_selection, ChapterSelection};
use acerola_mangadex::number::{read_number_chars, DecimalNumber, NumberKind};

fn rounded(text: &str) -> DecimalNumber {
    let chars: Vec<char> = text.chars().collect();
    round_to_binary64(&read_number_chars(&chars).expect("a number"))
}

fn digits_text(n: &DecimalNumber) -> String {
    n.digits.iter().map(|d| char::from(b'0' + d)).collect()
}

fn chapter(index: usize, key: &str) -> IndexedChapter {
    IndexedChapter {
        index,
        key: key.to_string(),
        display_label: format!("Chapter {key}"),
        chapters: vec![ChapterEntry {
            id: format!("chapter-{key}"),
            chapter_number: Some(key.to_string()),
            title: None,
            translated_language: "pt-br".to_string(),
            pages: 1,
            external_url: None,
        }],
    }
}

#[test]
fn rounds_to_the_nearest_binary64_value() {
    let n = rounded("0.1");
    assert_eq!(n.kind, NumberKind::Finite);
    assert_eq!(digits_text(&n), "1000000000000000055511151231257827021181583404541015625");
    assert_eq!(n.exponent, 0);

    let n = rounded("133");
    assert_eq!(digits_text(&n), "133");
    assert_eq!(n.exponent, 3);

    let n = rounded("1.00000000000000001");
    assert_eq!(digits_text(&n), "1");
    assert_eq!(n.exponent, 1);
}

#[test]
fn ties_round_to_even() {
    let n = rounded("9007199254740993");
    assert_eq!(digits_text(&n), "9007199254740992");
    let n = rounded("9007199254740995");
    assert_eq!(digits_text(&n), "9007199254740996");
}

#[test]
fn overflows_to_infinity_and_underflows_to_zero() {
    assert_eq!(rounded("1e400").kind, NumberKind::Infinite);
    assert_eq!(rounded("1.7976931348623159e308").kind, NumberKind::Infinite);
    let max = rounded("1.7976931348623157e308");
    assert_eq!(max.kind, NumberKind::Finite);
    assert_eq!(max.exponent, 309);
    assert!(digits_text(&max).starts_with("17976931348623157"));

    let zero = rounded("-1e-400");
    assert_eq!(zero.kind, NumberKind::Finite);
    assert!(zero.negative);
    assert!(zero.digits.is_empty());
    assert!(rounded("2.4703282292062327e-324").digits.is_empty());

    let tiny = rounded("2.4703282292062328e-324");
    assert!(digits_text(&tiny).starts_with("494065645841246544"));
    assert_eq!(tiny.exponent, -323);
}

#[test]
fn ranges_compare_the_values_texts_parse_to() {
    let chapters = vec![chapter(1, "1e-400"), chapter(2, "1")];
    let selection = ChapterSelection::NumberRange { start: "0".to_string(), end: "0".to_string() };
    assert_eq!(selection.resolve(&chapters).unwrap(), vec![1]);
    assert!(parse_chapter_number_selection("1.00000000000000000002-1.00000000000000000001").is_ok());
    let inf = ChapterSelection::NumberRange { start: "inf".to_string(), end: "inf".to_string() };
    assert_eq!(inf.resolve(&[chapter(1, "1e400")]).unwrap(), vec![1]);
}
