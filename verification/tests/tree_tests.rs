use rs115_bot::record::{FileRepr, LinkError};
use rs115_bot::tree::{
    get_dir_or_create, json2line_mem, line2json, write_line_mem, FlatEntry, Sha1Entity,
};

fn hash(c: char) -> String {
    std::iter::repeat(c).take(40).collect()
}

fn line(name: &str, size: u64, h: char, path: &str) -> String {
    format!("115://{}|{}|{}|{}{}", name, size, hash(h), hash('b'), path)
}

fn lines(v: &[String]) -> Vec<String> {
    v.to_vec()
}

#[test]
fn one_line_builds_root_and_child() {
    let input = lines(&[line("a.txt", 100, 'a', "|root|sub")]);
    let (tree, skipped) = line2json(&input);
    let tree = tree.unwrap();
    assert_eq!(skipped, 0);
    assert_eq!(tree.dir_name().as_str(), "root");
    assert_eq!(tree.files().len(), 0);
    assert_eq!(tree.dirs().len(), 1);
    let sub = &tree.dirs()[0];
    assert_eq!(sub.dir_name().as_str(), "sub");
    assert_eq!(sub.dirs().len(), 0);
    assert_eq!(sub.files().len(), 1);
    let f = &sub.files()[0];
    assert_eq!(f.name().as_str(), "a.txt");
    assert_eq!(f.size(), 100);
    assert_eq!(f.sha1(), &hash('a'));
    assert_eq!(f.sha1_block(), &hash('b'));
    assert_eq!(json2line_mem(&tree).unwrap(), format!("{}\n", input[0]));
    let mut text = String::new();
    write_line_mem(&mut text, sub, "|root".to_string());
    assert_eq!(text, format!("{}\n", input[0]));
}

#[test]
fn several_roots_are_wrapped() {
    let input = lines(&[
        line("a", 1, 'a', "|x"),
        line("b", 2, 'c', "|y|z"),
        line("c", 3, 'd', "|x"),
    ]);
    let (tree, _) = line2json(&input);
    let tree = tree.unwrap();
    assert_eq!(tree.dir_name().as_str(), "new_folder");
    assert_eq!(tree.files().len(), 0);
    assert_eq!(tree.dirs().len(), 2);
    assert_eq!(tree.dirs()[0].dir_name().as_str(), "x");
    assert_eq!(tree.dirs()[0].files().len(), 2);
    assert_eq!(tree.dirs()[1].dir_name().as_str(), "y");
    assert_eq!(tree.dirs()[1].dirs()[0].dir_name().as_str(), "z");
    assert_eq!(tree.dirs()[1].dirs()[0].files()[0].name().as_str(), "b");
}

#[test]
fn single_root_is_not_wrapped() {
    let input = lines(&[line("a", 1, 'a', "|x"), line("b", 2, 'c', "|x|y")]);
    let tree = line2json(&input).0.unwrap();
    assert_eq!(tree.dir_name().as_str(), "x");
    assert_eq!(tree.id(), None);
}

#[test]
fn bad_lines_are_skipped_and_counted() {
    let input = lines(&[
        "garbage".to_string(),
        line("a", 1, 'a', "|x"),
        String::new(),
        "a|b|c|d|e".to_string(),
    ]);
    let (tree, skipped) = line2json(&input);
    assert_eq!(skipped, 3);
    let tree = tree.unwrap();
    assert_eq!(tree.dir_name().as_str(), "x");
    assert_eq!(tree.files().len(), 1);
}

#[test]
fn no_record_gives_no_tree() {
    let (tree, skipped) = line2json(&lines(&["x".to_string(), "{}".to_string()]));
    assert_eq!(tree.err(), Some(LinkError::EmptyInput));
    assert_eq!(skipped, 2);
    let (tree, skipped) = line2json(&Vec::new());
    assert_eq!(tree.err(), Some(LinkError::EmptyInput));
    assert_eq!(skipped, 0);
}

#[test]
fn record_without_path_goes_to_the_unnamed_directory() {
    let input = lines(&[line("a", 1, 'a', ""), line("b", 2, 'c', "")]);
    let tree = line2json(&input).0.unwrap();
    assert_eq!(tree.dir_name().as_str(), "");
    assert_eq!(tree.files().len(), 2);
    assert_eq!(tree.dirs().len(), 0);
}

#[test]
fn labels_are_cleaned() {
    let input = lines(&[line("a", 1, 'a', "|ro\\ot|su\rb")]);
    let tree = line2json(&input).0.unwrap();
    assert_eq!(tree.dir_name().as_str(), "root");
    assert_eq!(tree.dirs()[0].dir_name().as_str(), "sub");
}

#[test]
fn first_seen_order_is_kept() {
    let input = lines(&[
        line("1", 1, '1', "|r|b"),
        line("2", 2, '2', "|r|a"),
        line("3", 3, '3', "|r|b"),
        line("4", 4, '4', "|r"),
    ]);
    let tree = line2json(&input).0.unwrap();
    assert_eq!(tree.dirs()[0].dir_name().as_str(), "b");
    assert_eq!(tree.dirs()[1].dir_name().as_str(), "a");
    assert_eq!(tree.dirs()[0].files().len(), 2);
    let text = json2line_mem(&tree).unwrap();
    let expected = format!("{}\n{}\n{}\n{}\n", input[3], input[0], input[2], input[1]);
    assert_eq!(text, expected);
}

#[test]
fn flatten_gives_records_with_full_paths() {
    let input = lines(&[line("1", 1, '1', "|r|b"), line("4", 4, '4', "|r"), line("5", 5, '5', "|r|b|c")]);
    let tree = line2json(&input).0.unwrap();
    let flat = tree.flatten();
    assert_eq!(flat.len(), 3);
    assert_eq!(flat[0].record.name().as_str(), "4");
    assert_eq!(flat[0].path, vec!["r".to_string()]);
    assert_eq!(flat[1].record.name().as_str(), "1");
    assert_eq!(flat[1].path, vec!["r".to_string(), "b".to_string()]);
    assert_eq!(flat[2].path, vec!["r".to_string(), "b".to_string(), "c".to_string()]);
    assert_eq!(flat[2].to_line(), input[2]);
}

#[test]
fn building_from_flattened_lines_gives_the_same_tree() {
    let input = lines(&[
        line("1", 1, '1', "|r|b"),
        line("2", 2, '2', "|r|a|deep"),
        line("3", 3, '3', "|r"),
    ]);
    let tree = line2json(&input).0.unwrap();
    let text = json2line_mem(&tree).unwrap();
    let again: Vec<String> = text.lines().map(|l| l.to_string()).collect();
    let rebuilt = line2json(&again).0.unwrap();
    assert_eq!(json2line_mem(&rebuilt).unwrap(), text);
    assert_eq!(rebuilt.dir_name(), tree.dir_name());
    assert_eq!(rebuilt.dirs().len(), tree.dirs().len());
    assert_eq!(rebuilt.dirs()[0].dir_name(), tree.dirs()[0].dir_name());
    assert_eq!(rebuilt.dirs()[1].dirs()[0].files()[0].size(), 2);
}

#[test]
fn entry_reads_record_and_path() {
    let e = FlatEntry::from_str(&line("a.txt", 100, 'a', "|root|sub")).unwrap();
    assert_eq!(e.record.size(), 100);
    assert_eq!(e.path, vec!["root".to_string(), "sub".to_string()]);
    assert_eq!(e.to_line(), line("a.txt", 100, 'a', "|root|sub"));
    assert!(FlatEntry::from_str("a|b").is_err());
}

#[test]
fn get_dir_or_create_finds_the_first_match() {
    let mut dirs = vec![
        Sha1Entity::new("a".to_string()),
        Sha1Entity::new("b".to_string()),
        Sha1Entity::new("a".to_string()),
    ];
    assert_eq!(get_dir_or_create(&"b".to_string(), &mut dirs), 1);
    assert_eq!(get_dir_or_create(&"a".to_string(), &mut dirs), 0);
    assert_eq!(dirs.len(), 3);
    assert_eq!(get_dir_or_create(&"c".to_string(), &mut dirs), 3);
    assert_eq!(dirs.len(), 4);
    assert_eq!(dirs[3].dir_name().as_str(), "c");
    assert_eq!(dirs[3].files().len(), 0);
}

#[test]
fn new_directory_is_empty() {
    let d = Sha1Entity::new("name".to_string());
    assert_eq!(d.dir_name().as_str(), "name");
    assert_eq!(d.files().len(), 0);
    assert_eq!(d.dirs().len(), 0);
    assert_eq!(d.id(), None);
    assert_eq!(json2line_mem(&d).unwrap(), "");
}

#[test]
fn with_contents_cleans_the_label() {
    let f = FileRepr::from_str(&line("a", 1, 'a', "")).unwrap();
    let inner = Sha1Entity::with_contents("in\nner", Vec::new(), Vec::new(), None);
    let d = Sha1Entity::with_contents("o\\ut\r", vec![f], vec![inner], Some(7));
    assert_eq!(d.dir_name().as_str(), "out");
    assert_eq!(d.id(), Some(7));
    assert_eq!(d.dirs()[0].dir_name().as_str(), "inner");
    assert_eq!(json2line_mem(&d).unwrap(), format!("{}\n", line("a", 1, 'a', "|out")));
}

#[test]
fn new_directory_has_a_clean_label() {
    let d = Sha1Entity::new("a\\b\r\nc|d".to_string());
    assert_eq!(d.dir_name().as_str(), "abc|d");
    let mut dirs = vec![Sha1Entity::new("ab".to_string())];
    assert_eq!(get_dir_or_create(&"a\\b".to_string(), &mut dirs), 0);
    assert_eq!(get_dir_or_create(&"a\nc".to_string(), &mut dirs), 1);
    assert_eq!(dirs[1].dir_name().as_str(), "ac");
}
