use onu_refactor::text::{count_text, decimal};

#[test]
fn decimal_text_of_integers() {
    assert_eq!(decimal(0), "0");
    assert_eq!(decimal(42), "42");
    assert_eq!(decimal(-7), "-7");
    assert_eq!(decimal(i64::MAX), "9223372036854775807");
    assert_eq!(decimal(i64::MIN), "-9223372036854775808");
}

#[test]
fn count_text_of_counts() {
    assert_eq!(count_text(0), "0");
    assert_eq!(count_text(10), "10");
    assert_eq!(count_text(1234567), "1234567");
}
