use acerola_mangadex::number::{
    number_le_exec, order_total_exec, read_number_chars, DecimalNumber, NumberKind,
};

fn read(text: &str) -> Option<DecimalNumber> {
    let chars: Vec<char> = text.chars().collect();
    read_number_chars(&chars)
}

fn number(text: &str) -> DecimalNumber {
    read(text).expect("a number")
}

#[test]
fn reads_chapter_numbers_exactly() {
    let n = number("133");
    assert!(!n.negative);
    assert_eq!(n.kind, NumberKind::Finite);
    assert_eq!(n.digits, vec![1, 3, 3]);
    assert_eq!(n.exponent, 3);

    let n = number("0.01");
    assert_eq!(n.digits, vec![1]);
    assert_eq!(n.exponent, -1);

    let n = number("1.50");
    assert_eq!(n.digits, vec![1, 5]);
    assert_eq!(n.exponent, 1);

    let n = number("1e2");
    assert_eq!(n.digits, vec![1]);
    assert_eq!(n.exponent, 3);
}

#[test]
fn reads_signs_points_and_special_values() {
    let n = number("-2.");
    assert!(n.negative);
    assert_eq!(n.digits, vec![2]);
    assert_eq!(n.exponent, 1);

    let n = number("+.5");
    assert!(!n.negative);
    assert_eq!(n.digits, vec![5]);
    assert_eq!(n.exponent, 0);

    let n = number("000");
    assert_eq!(n.kind, NumberKind::Finite);
    assert!(n.digits.is_empty());
    assert_eq!(n.exponent, 0);

    assert_eq!(number("Infinity").kind, NumberKind::Infinite);
    assert_eq!(number("-inf").kind, NumberKind::Infinite);
    assert!(number("-inf").negative);
    assert_eq!(number("NaN").kind, NumberKind::NotANumber);
}

#[test]
fn refuses_texts_that_are_not_float_literals() {
    for text in ["", "abc", ".", "1e", "1.2.3", "e5", "+", " 1", "1 ", "0x10", "1_000"] {
        assert!(read(text).is_none(), "{text:?} should not read as a number");
    }
}

#[test]
fn orders_numbers_by_value() {
    assert_eq!(order_total_exec(&number("2"), &number("10")), -1);
    assert_eq!(order_total_exec(&number("10"), &number("2")), 1);
    assert_eq!(order_total_exec(&number("1.0"), &number("1")), 0);
    assert_eq!(order_total_exec(&number("0.01"), &number("0.1")), -1);
    assert_eq!(order_total_exec(&number("1e2"), &number("100")), 0);
    assert_eq!(order_total_exec(&number("-5"), &number("-4.5")), -1);
}

#[test]
fn total_order_places_signed_zeros_infinities_and_nan() {
    assert_eq!(order_total_exec(&number("-0"), &number("0")), -1);
    assert_eq!(order_total_exec(&number("inf"), &number("1e300")), 1);
    assert_eq!(order_total_exec(&number("-inf"), &number("-1e300")), -1);
    assert_eq!(order_total_exec(&number("nan"), &number("inf")), 1);
    assert_eq!(order_total_exec(&number("-nan"), &number("-inf")), -1);
    assert_eq!(order_total_exec(&number("nan"), &number("NaN")), 0);
}

#[test]
fn float_comparison_is_false_with_nan() {
    assert!(number_le_exec(&number("1"), &number("2")));
    assert!(number_le_exec(&number("-0"), &number("0")));
    assert!(number_le_exec(&number("0"), &number("-0")));
    assert!(!number_le_exec(&number("3"), &number("2")));
    assert!(!number_le_exec(&number("nan"), &number("nan")));
    assert!(!number_le_exec(&number("1"), &number("nan")));
    assert!(number_le_exec(&number("-inf"), &number("inf")));
}
