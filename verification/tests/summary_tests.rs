use rs115_bot::record::LinkError;
use rs115_bot::summary::{json_summary, line_summary, line_summary_mem, summarize};
use rs115_bot::text::lines_of;
use rs115_bot::tree::line2json;

fn hash(c: char) -> String {
    std::iter::repeat(c).take(40).collect()
}

fn line(size: u64, path: &str) -> String {
    format!("115://f|{}|{}|{}{}", size, hash('a'), hash('b'), path)
}

fn median(twice: u128) -> f64 {
    twice as f64 / 2.0
}

#[test]
fn median_of_odd_count_is_the_middle() {
    let s = summarize(vec![10, 20, 30], true).unwrap();
    assert_eq!(s.median_twice(), 40);
    assert_eq!(median(s.median_twice()), 20.0);
}

#[test]
fn median_of_even_count_is_the_mean_of_the_middle_two() {
    let s = summarize(vec![10, 20, 30, 40], true).unwrap();
    assert_eq!(s.median_twice(), 50);
    assert_eq!(median(s.median_twice()), 25.0);
}

#[test]
fn figures_do_not_depend_on_order() {
    let s = summarize(vec![40, 10, 30, 20, 50], false).unwrap();
    assert_eq!(s.total_size(), 150);
    assert_eq!(s.max(), 50);
    assert_eq!(s.min(), 10);
    assert_eq!(s.median_twice(), 60);
    assert_eq!(s.total_files(), 5);
    assert!(!s.has_folder);
}

#[test]
fn single_size() {
    let s = summarize(vec![7], true).unwrap();
    assert_eq!(s.total_size(), 7);
    assert_eq!(s.max(), 7);
    assert_eq!(s.min(), 7);
    assert_eq!(s.median_twice(), 14);
    assert_eq!(s.total_files(), 1);
    assert!(s.has_folder);
}

#[test]
fn median_of_large_sizes_does_not_wrap() {
    let s = summarize(vec![u64::MAX, 0], true).unwrap();
    assert_eq!(s.total_size(), u64::MAX);
    assert_eq!(s.median_twice(), u64::MAX as u128);
    assert!(summarize(vec![u64::MAX - 1, u64::MAX - 1], true).is_err());
}

#[test]
fn empty_collection_has_no_figures() {
    assert_eq!(summarize(Vec::new(), true).err(), Some(LinkError::EmptyInput));
    assert_eq!(line_summary_mem("").err(), Some(LinkError::EmptyInput));
    assert_eq!(line_summary_mem("junk\n\nmore junk\n").err(), Some(LinkError::EmptyInput));
}

#[test]
fn overflowing_sum_is_an_error() {
    assert_eq!(summarize(vec![u64::MAX, 1], true).err(), Some(LinkError::Overflow));
    assert_eq!(summarize(vec![1, u64::MAX, 5], true).err(), Some(LinkError::Overflow));
    let text = format!("{}\n{}\n", line(u64::MAX, "|d"), line(1, "|d"));
    assert_eq!(line_summary_mem(&text).err(), Some(LinkError::Overflow));
}

#[test]
fn summary_of_text_skips_what_is_no_record() {
    let text = format!(
        "{}\r\njunk\n\n{}\n{}",
        line(30, "|d"),
        line(10, "|d|e"),
        line(20, "|x")
    );
    let s = line_summary_mem(&text).unwrap();
    assert_eq!(s.total_files(), 3);
    assert_eq!(s.total_size(), 60);
    assert_eq!(s.min(), 10);
    assert_eq!(s.max(), 30);
    assert_eq!(s.median_twice(), 40);
    assert!(s.has_folder);
}

#[test]
fn has_folder_needs_a_path_on_every_record() {
    let text = format!("{}\n{}\n", line(1, "|d"), line(2, ""));
    assert!(!line_summary_mem(&text).unwrap().has_folder);
    let all = vec![line(1, "|d"), "junk".to_string(), line(2, "|")];
    assert!(line_summary(&all).unwrap().has_folder);
    let none = vec![line(1, ""), line(2, "")];
    assert!(!line_summary(&none).unwrap().has_folder);
}

#[test]
fn summary_of_a_tree() {
    let input = vec![line(5, "|r"), line(1, "|r|a"), line(9, "|r|b"), line(3, "|r|a")];
    let tree = line2json(&input).0.unwrap();
    let s = json_summary(&tree).unwrap();
    assert_eq!(s.total_files(), 4);
    assert_eq!(s.total_size(), 18);
    assert_eq!(s.min(), 1);
    assert_eq!(s.max(), 9);
    assert_eq!(s.median_twice(), 8);
    assert!(s.has_folder);
}

#[test]
fn text_is_cut_into_lines_as_the_standard_library_does() {
    for text in ["", "a", "a\n", "a\r\n", "a\n\nb", "a\r\n\r\nb\r", "\n", "\r\n", "a\rb\n", "\r", "x\n\r"] {
        let expected: Vec<String> = text.lines().map(|l| l.to_string()).collect();
        assert_eq!(lines_of(text), expected, "{:?}", text);
    }
}
