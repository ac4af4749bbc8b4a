use rs115_bot::show::{torrent_name, torrent_summary, trim_start};

fn chars(s: &str) -> Vec<char> {
    s.chars().collect()
}

#[test]
fn name_follows_its_mark_on_the_first_line() {
    assert_eq!(torrent_name("Name: ubuntu.iso\nFile: x\n"), Some("ubuntu.iso".to_string()));
    assert_eq!(torrent_name("  Name:\t my file \nrest"), Some("my file ".to_string()));
    assert_eq!(torrent_name("Name:"), Some(String::new()));
}

#[test]
fn name_is_unknown_without_its_mark() {
    assert_eq!(torrent_name("GENERAL\nName: x\n"), Some("Unknown".to_string()));
    assert_eq!(torrent_name("name: x"), Some("Unknown".to_string()));
    assert_eq!(torrent_name("\nName: x"), Some("Unknown".to_string()));
}

#[test]
fn no_output_has_no_name() {
    assert_eq!(torrent_name(""), None);
}

#[test]
fn total_size_is_what_follows_its_mark() {
    let out = "Name: a\n\nGENERAL\n\n  Name: a\n  Total Size: 1.34 GB\n  Piece Size: 1 MiB\n\nTRACKERS\n";
    assert_eq!(torrent_summary(out), Some(" 1.34 GB".to_string()));
    assert_eq!(torrent_summary("Total Size:7"), Some("7".to_string()));
}

#[test]
fn total_size_after_the_trackers_does_not_count() {
    assert_eq!(torrent_summary("Name: a\nTRACKERS\n  Total Size: 1 GB\n"), None);
    assert_eq!(torrent_summary("  TRACKERS\nTotal Size: 1 GB\n"), Some(" 1 GB".to_string()));
    assert_eq!(torrent_summary("nothing\nhere\n"), None);
    assert_eq!(torrent_summary(""), None);
}

#[test]
fn trim_start_is_that_of_the_standard_library() {
    for s in ["", "a", "  a ", "\t\n\r\x0b\x0c x", "\u{85}\u{a0}\u{1680}\u{2000}\u{200a}\u{2028}\u{2029}\u{202f}\u{205f}\u{3000}z", "\u{200b}x", "\u{1c}x", "   "] {
        assert_eq!(trim_start(&chars(s)), chars(s.trim_start()), "{:?}", s);
    }
    for c in 0..0x3100u32 {
        if let Some(c) = char::from_u32(c) {
            let s = format!("{}x", c);
            assert_eq!(trim_start(&chars(&s)), chars(s.trim_start()), "{:?}", c);
        }
    }
}
