use rs115_bot::record::WrongSha1LinkFormat;
use rs115_bot::validate::{is_valid_first_line, is_valid_line, MAX_FIRST_LINE};

fn hash(c: char) -> String {
    std::iter::repeat(c).take(40).collect()
}

#[test]
fn four_fields_pass_and_three_fail() {
    let four = format!("115://a.txt|100|{}|{}", hash('a'), hash('b'));
    let three = format!("115://a.txt|100|{}", hash('a'));
    assert_eq!(is_valid_first_line(&four), Ok(()));
    assert_eq!(is_valid_first_line(&three), Err(WrongSha1LinkFormat));
}

#[test]
fn document_form_is_rejected_whatever_its_fields() {
    let doc = format!("{{\"dir_name\":\"a|100|{}|{}|x\"}}", hash('a'), hash('b'));
    assert_eq!(is_valid_first_line(&doc), Err(WrongSha1LinkFormat));
    assert_eq!(is_valid_first_line("[a|b|c|d|e]"), Err(WrongSha1LinkFormat));
    assert_eq!(is_valid_first_line("{"), Err(WrongSha1LinkFormat));
}

#[test]
fn document_is_rejected_before_any_building() {
    let lines = vec![
        "{\"dir_name\": \"x\", \"files\": [], \"dirs\": []}".to_string(),
        format!("115://a.txt|100|{}|{}", hash('a'), hash('b')),
    ];
    assert_eq!(is_valid_line(&lines), Err(WrongSha1LinkFormat));
}

#[test]
fn validator_does_not_look_at_the_fields() {
    assert_eq!(is_valid_first_line("a|b|c|d"), Ok(()));
    assert_eq!(is_valid_first_line("|||"), Ok(()));
}

#[test]
fn long_first_line_is_rejected() {
    let at_limit = format!("a|b|c|{}", "d".repeat(MAX_FIRST_LINE - 6));
    assert_eq!(at_limit.len(), 3000);
    assert_eq!(is_valid_first_line(&at_limit), Ok(()));
    let over = format!("{}d", at_limit);
    assert_eq!(is_valid_first_line(&over), Err(WrongSha1LinkFormat));
}

#[test]
fn length_is_counted_in_bytes() {
    let wide = format!("a|b|c|{}", "文".repeat(999));
    assert_eq!(wide.len(), 6 + 2997);
    assert_eq!(is_valid_first_line(&wide), Err(WrongSha1LinkFormat));
    let fits = format!("a|b|c|{}", "文".repeat(998));
    assert_eq!(is_valid_first_line(&fits), Ok(()));
}

#[test]
fn first_line_that_is_not_empty_decides() {
    let good = vec![String::new(), "a|b|c|d".to_string(), "{".to_string()];
    assert_eq!(is_valid_line(&good), Ok(()));
    let bad = vec![String::new(), "a|b|c".to_string(), "a|b|c|d".to_string()];
    assert_eq!(is_valid_line(&bad), Err(WrongSha1LinkFormat));
}

#[test]
fn nothing_to_read_is_rejected() {
    assert_eq!(is_valid_line(&Vec::new()), Err(WrongSha1LinkFormat));
    assert_eq!(is_valid_line(&vec![String::new(), String::new()]), Err(WrongSha1LinkFormat));
}
