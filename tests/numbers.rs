use nixify::parser::number::{integer_text, number_text};

#[test]
fn integer_and_float_text() {
    assert_eq!(integer_text(1), "1");
    assert_eq!(number_text("1"), "1");
    assert_eq!(number_text("0.1"), "0.1");
    assert_eq!(number_text("1.0"), "1");
}

#[test]
fn integer_text_edges() {
    assert_eq!(integer_text(0), "0");
    assert_eq!(integer_text(-45), "-45");
    assert_eq!(integer_text(1234567890), "1234567890");
    assert_eq!(integer_text(i64::MAX), "9223372036854775807");
    assert_eq!(integer_text(i64::MIN), "-9223372036854775808");
}

#[test]
fn plain_decimals_are_canonical() {
    assert_eq!(number_text("+01.50"), "1.5");
    assert_eq!(number_text("-0.0"), "0");
    assert_eq!(number_text("-0.250"), "-0.25");
    assert_eq!(number_text(".5"), "0.5");
    assert_eq!(number_text("5."), "5");
    assert_eq!(number_text("007"), "7");
    assert_eq!(number_text("100"), "100");
    assert_eq!(number_text("-12.03"), "-12.03");
}

#[test]
fn exponents_are_written_out() {
    assert_eq!(number_text("1e16"), "10000000000000000");
    assert_eq!(number_text("1E3"), "1000");
    assert_eq!(number_text("1.5e-3"), "0.0015");
    assert_eq!(number_text("-2.5E+2"), "-250");
    assert_eq!(number_text("12.34e1"), "123.4");
    assert_eq!(number_text("0.0e5"), "0");
    assert_eq!(number_text(".5e-1"), "0.05");
    assert_eq!(number_text("5.e1"), "50");
    assert_eq!(number_text("1e1000").len(), 1001);
}

#[test]
fn other_numerals_are_kept() {
    assert_eq!(number_text("1e1001"), "1e1001");
    assert_eq!(number_text("1e"), "1e");
    assert_eq!(number_text("e5"), "e5");
    assert_eq!(number_text("1e+"), "1e+");
    assert_eq!(number_text("1e5x"), "1e5x");
    assert_eq!(number_text(".e5"), ".e5");
    assert_eq!(number_text("inf"), "inf");
    assert_eq!(number_text("nan"), "nan");
    assert_eq!(number_text(""), "");
    assert_eq!(number_text("-"), "-");
    assert_eq!(number_text("."), ".");
    assert_eq!(number_text("1.2.3"), "1.2.3");
}
