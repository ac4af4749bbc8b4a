use rs115_bot::dedup::{
    check_dup_n_err, dedup_filerepr_file, dedup_filerepr_vec, is_blank_line, line_strip_dir_info,
};
use rs115_bot::record::{FileRepr, LinkError};

fn hash(c: char) -> String {
    std::iter::repeat(c).take(40).collect()
}

fn line(name: &str, size: u64, h: char, path: &str) -> String {
    format!("115://{}|{}|{}|{}{}", name, size, hash(h), hash('b'), path)
}

fn records(lines: &[String]) -> Vec<FileRepr> {
    lines.iter().map(|l| FileRepr::from_str(l).unwrap()).collect()
}

fn names(v: &[FileRepr]) -> Vec<String> {
    v.iter().map(|f| f.name().clone()).collect()
}

#[test]
fn two_lines_that_differ_in_name_only_keep_the_first() {
    let input = vec![line("first", 5, 'a', "|x"), line("second", 5, 'a', "|x")];
    let out = dedup_filerepr_file(&input);
    assert_eq!(out, vec![input[0].clone()]);
}

#[test]
fn dedup_keeps_the_first_of_each_key_in_order() {
    let input = records(&[
        line("a", 1, 'a', ""),
        line("b", 2, 'a', ""),
        line("c", 1, 'a', "|other"),
        line("d", 1, 'c', ""),
        line("e", 2, 'a', ""),
    ]);
    let out = dedup_filerepr_vec(input);
    assert_eq!(names(&out), vec!["a", "b", "d"]);
}

#[test]
fn dedup_twice_is_dedup_once() {
    let input = records(&[
        line("a", 1, 'a', ""),
        line("b", 1, 'a', ""),
        line("c", 3, 'a', ""),
        line("d", 3, 'a', ""),
    ]);
    let once = dedup_filerepr_vec(input);
    let first = names(&once);
    let twice = dedup_filerepr_vec(once);
    assert_eq!(names(&twice), first);
    assert_eq!(first, vec!["a", "c"]);
}

#[test]
fn dedup_of_nothing_is_nothing() {
    assert_eq!(dedup_filerepr_vec(Vec::new()).len(), 0);
}

#[test]
fn digests_are_compared_as_written() {
    let lower = format!("115://a|1|{}|{}", hash('a'), hash('b'));
    let upper = format!("115://a|1|{}|{}", hash('A'), hash('b'));
    let out = dedup_filerepr_vec(records(&[lower, upper]));
    assert_eq!(out.len(), 2);
}

#[test]
fn counts_duplicates_and_invalid_lines() {
    let input = vec![
        line("a", 1, 'a', "|x"),
        String::new(),
        "   \t".to_string(),
        "not a record".to_string(),
        line("b", 1, 'a', "|y"),
        line("c", 2, 'a', ""),
        "a|b|c|d".to_string(),
        line("d", 2, 'a', ""),
    ];
    assert_eq!(check_dup_n_err(&input), Ok((2, 2)));
}

#[test]
fn counting_fails_without_records() {
    let input = vec!["x".to_string(), String::new()];
    assert_eq!(check_dup_n_err(&input), Err(LinkError::EmptyInput));
    assert_eq!(check_dup_n_err(&Vec::new()), Err(LinkError::EmptyInput));
}

#[test]
fn dedup_of_lines_drops_invalid_lines_and_keeps_text() {
    let input = vec![
        "junk".to_string(),
        format!("a.txt|1|{}|{}|dir", hash('a'), hash('b')),
        line("b", 1, 'a', "|dir2"),
        String::new(),
        line("c", 9, 'a', ""),
    ];
    let out = dedup_filerepr_file(&input);
    assert_eq!(out, vec![input[1].clone(), input[4].clone()]);
}

#[test]
fn strip_dir_info_rewrites_each_record() {
    let input = vec![
        format!("a.txt|1|{}|{}|dir|sub", hash('a'), hash('b')),
        "junk".to_string(),
        line("b", 2, 'c', ""),
    ];
    let out = line_strip_dir_info(&input);
    assert_eq!(out, vec![line("a.txt", 1, 'a', ""), line("b", 2, 'c', "")]);
}

#[test]
fn blank_lines_are_told_apart() {
    assert!(is_blank_line(""));
    assert!(is_blank_line(" \t\r\n\x0C"));
    assert!(!is_blank_line(" a "));
    assert!(!is_blank_line("\u{00a0}"));
}
