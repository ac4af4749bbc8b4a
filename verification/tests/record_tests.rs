use rs115_bot::record::{FileRepr, WrongSha1LinkFormat};

fn hash(c: char) -> String {
    std::iter::repeat(c).take(40).collect()
}

fn line(name: &str, size: &str, tail: &str) -> String {
    format!("{}|{}|{}|{}{}", name, size, hash('a'), hash('b'), tail)
}

#[test]
fn parses_a_line_with_scheme() {
    let f = FileRepr::from_str(&line("115://a.txt", "100", "|root|sub")).unwrap();
    assert_eq!(f.name().as_str(), "a.txt");
    assert_eq!(f.size(), 100);
    assert_eq!(f.sha1(), &hash('a'));
    assert_eq!(f.sha1_block(), &hash('b'));
}

#[test]
fn parses_a_line_without_scheme() {
    let f = FileRepr::from_str(&line("a.txt", "7", "")).unwrap();
    assert_eq!(f.name().as_str(), "a.txt");
    assert_eq!(f.size(), 7);
}

#[test]
fn strips_the_scheme_only_once() {
    let f = FileRepr::from_str(&line("115://115://x", "1", "")).unwrap();
    assert_eq!(f.name().as_str(), "115://x");
    assert_eq!(f.to_sha1_link(), line("115://115://x", "1", ""));
}

#[test]
fn link_form_carries_the_scheme() {
    let f = FileRepr::from_str(&line("a.txt", "100", "|root")).unwrap();
    assert_eq!(f.to_sha1_link(), line("115://a.txt", "100", ""));
}

#[test]
fn embedded_form_never_carries_the_scheme() {
    let f = FileRepr::from_str(&line("115://a.txt", "100", "")).unwrap();
    assert_eq!(f.to_embedded(), line("a.txt", "100", ""));
    let g = FileRepr::from_str(&line("115://115://a.txt", "100", "")).unwrap();
    assert_eq!(g.to_embedded(), line("a.txt", "100", ""));
}

#[test]
fn link_form_parses_back_to_the_same_record() {
    let f = FileRepr::from_str(&line("115://some file.bin", "18446744073709551615", "")).unwrap();
    let g = FileRepr::from_str(&f.to_sha1_link()).unwrap();
    assert_eq!(g.name(), f.name());
    assert_eq!(g.size(), u64::MAX);
    assert_eq!(g.sha1(), f.sha1());
    assert_eq!(g.sha1_block(), f.sha1_block());
}

#[test]
fn unique_key_is_size_and_digests() {
    let f = FileRepr::from_str(&line("115://a.txt", "100", "")).unwrap();
    assert_eq!(f.unique_key(), format!("100{}{}", hash('a'), hash('b')));
}

#[test]
fn same_file_ignores_the_name() {
    let f = FileRepr::from_str(&line("115://a.txt", "100", "|x")).unwrap();
    let g = FileRepr::from_str(&line("115://b.txt", "100", "|y")).unwrap();
    let h = FileRepr::from_str(&line("115://a.txt", "101", "|x")).unwrap();
    assert!(f.same_file(&g));
    assert!(!f.same_file(&h));
}

#[test]
fn rejects_fewer_than_four_fields() {
    let three = format!("115://a.txt|100|{}", hash('a'));
    assert_eq!(FileRepr::from_str(&three).err(), Some(WrongSha1LinkFormat));
    assert!(FileRepr::from_str("").is_err());
}

#[test]
fn rejects_a_size_that_is_no_number() {
    assert!(FileRepr::from_str(&line("a", "", "")).is_err());
    assert!(FileRepr::from_str(&line("a", "12x", "")).is_err());
    assert!(FileRepr::from_str(&line("a", "-1", "")).is_err());
    assert!(FileRepr::from_str(&line("a", "+", "")).is_err());
    assert!(FileRepr::from_str(&line("a", " 1", "")).is_err());
}

#[test]
fn rejects_a_size_that_overflows() {
    assert!(FileRepr::from_str(&line("a", "18446744073709551616", "")).is_err());
    assert!(FileRepr::from_str(&line("a", "99999999999999999999999", "")).is_err());
    assert_eq!(
        FileRepr::from_str(&line("a", "18446744073709551615", "")).unwrap().size(),
        u64::MAX
    );
}

#[test]
fn accepts_a_size_as_the_standard_parser_does() {
    assert_eq!(FileRepr::from_str(&line("a", "+100", "")).unwrap().size(), 100);
    assert_eq!(FileRepr::from_str(&line("a", "007", "")).unwrap().size(), 7);
    assert_eq!("+100".parse::<u64>().unwrap(), 100);
}

#[test]
fn rejects_digests_of_the_wrong_length_or_alphabet() {
    let short: String = std::iter::repeat('a').take(39).collect();
    let long: String = std::iter::repeat('a').take(41).collect();
    let bad: String = std::iter::repeat('g').take(40).collect();
    assert!(FileRepr::from_str(&format!("a|1|{}|{}", short, hash('b'))).is_err());
    assert!(FileRepr::from_str(&format!("a|1|{}|{}", hash('a'), long)).is_err());
    assert!(FileRepr::from_str(&format!("a|1|{}|{}", bad, hash('b'))).is_err());
    assert!(FileRepr::from_str(&format!("a|1|{}|{}", hash('A'), hash('F'))).is_ok());
}

#[test]
fn takes_line_breaks_out_of_the_name() {
    let f = FileRepr::from_str(&line("115://a\r.t\nxt", "1", "")).unwrap();
    assert_eq!(f.name().as_str(), "a.txt");
}

#[test]
fn keeps_names_in_other_scripts() {
    let f = FileRepr::from_str(&line("115://文件 名.txt", "1", "|目录")).unwrap();
    assert_eq!(f.name().as_str(), "文件 名.txt");
    assert_eq!(f.to_sha1_link(), line("115://文件 名.txt", "1", ""));
}

#[test]
fn error_has_its_message() {
    assert_eq!(WrongSha1LinkFormat.message(), "wrong format of 115sha1link");
}
