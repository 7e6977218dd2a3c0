use lms_core::item::{renewal_factor, LiItem, LiItemInstance};
use lms_core::text::parse_id;
use lms_core::LibError;

const MONTH_1: i64 = 2_678_400; // 1970-02-01T00:00:00
const MONTH_2: i64 = 5_097_600; // 1970-03-01T00:00:00

fn item(format: &str, copies: u32, avail: u32) -> LiItem {
    LiItem {
        title: "Dune".to_string(),
        author: None,
        year: 1965,
        edition: "1st".to_string(),
        desc: "sand".to_string(),
        format: format.to_string(),
        id: 7,
        copies,
        avail_copies: avail,
        ratings: 5,
    }
}

#[test]
fn renewal_factor_is_case_insensitive_and_exact() {
    assert_eq!(renewal_factor("book"), 1);
    assert_eq!(renewal_factor("Book"), 1);
    assert_eq!(renewal_factor("BOOK"), 1);
    assert_eq!(renewal_factor("movie"), 2);
    assert_eq!(renewal_factor("MoViE"), 2);
    assert_eq!(renewal_factor("cd"), 0);
    assert_eq!(renewal_factor(""), 0);
    assert_eq!(renewal_factor("bookshelf"), 0);
}

#[test]
fn create_instance_takes_a_copy_and_computes_the_due_date() {
    let mut it = item("book", 2, 2);
    let inst = it.create_instance(0);
    assert_eq!(it.avail_copies, 1);
    assert_eq!(inst.title, "Dune");
    assert_eq!(inst.id, 7);
    assert_eq!(inst.renew_factor, 1);
    assert_eq!(inst.due_date, MONTH_1);
    assert!(!inst.notice);
}

#[test]
fn unknown_format_due_date_equals_issuance_time() {
    let mut it = item("vinyl", 1, 1);
    let inst = it.create_instance(123_456);
    assert_eq!(inst.renew_factor, 0);
    assert_eq!(inst.due_date, 123_456);
}

#[test]
fn renew_advances_by_the_renewal_factor() {
    let mut inst = LiItemInstance {
        title: "Alien".to_string(),
        id: 2,
        renew_factor: 2,
        due_date: 0,
        notice: false,
    };
    inst.renew();
    assert_eq!(inst.due_date, MONTH_2);
}

#[test]
fn renew_with_zero_factor_keeps_the_due_date() {
    let mut inst = LiItemInstance {
        title: "Atlas".to_string(),
        id: 3,
        renew_factor: 0,
        due_date: 99,
        notice: false,
    };
    inst.renew();
    assert_eq!(inst.due_date, 99);
}

#[test]
fn renew_clamps_to_the_end_of_a_short_month() {
    // 1970-01-31T12:00:00 plus one month clamps to 1970-02-28T12:00:00.
    let mut inst = LiItemInstance {
        title: "Dune".to_string(),
        id: 7,
        renew_factor: 1,
        due_date: 30 * 86_400 + 43_200,
        notice: false,
    };
    inst.renew();
    assert_eq!(inst.due_date, 58 * 86_400 + 43_200);
}

#[test]
fn parse_id_accepts_exactly_decimal_u32_values() {
    assert_eq!(parse_id("0"), Ok(0));
    assert_eq!(parse_id("123"), Ok(123));
    assert_eq!(parse_id("007"), Ok(7));
    assert_eq!(parse_id("4294967295"), Ok(u32::MAX));
    assert_eq!(parse_id(""), Err(LibError::InvalidInput));
    assert_eq!(parse_id("12a"), Err(LibError::InvalidInput));
    assert_eq!(parse_id("-3"), Err(LibError::InvalidInput));
    assert_eq!(parse_id(" 12"), Err(LibError::InvalidInput));
    assert_eq!(parse_id("4294967296"), Err(LibError::InvalidInput));
    assert_eq!(parse_id("99999999999999999999"), Err(LibError::InvalidInput));
}
