use rs115_bot::commands::Command;
use rs115_bot::decryption::{preid_decrypt, preid_from_plain, trim_end, DecryptError};
use rs115_bot::io::{bom_len, has_bom, open_without_bom};
use rs115_bot::links::{
    all_ed2k, all_magnets, base32_hex, cut_at_last_colon, find_subsequence, format_path_str,
    short_magnet, to_hex_upper, WrongPathFormat,
};
use rs115_bot::summary::summarize;
use rs115_bot::units::{show_unit, to_iec};

#[test]
fn base32_digest_becomes_hex() {
    assert_eq!(
        base32_hex("BCW2LJ5GDA5K4HQJ3AY56Z2I2VTASWQQ"),
        Some("08ADA5A7A6183AAE1E09D831DF6748D566095A10".to_string())
    );
    assert_eq!(base32_hex(""), Some(String::new()));
    assert_eq!(base32_hex("not base32!"), None);
    assert_eq!(base32_hex("bcw2"), None);
}

#[test]
fn hex_is_upper_case_with_two_digits_a_byte() {
    assert_eq!(to_hex_upper(&[0x00, 0x0f, 0xa5, 0xff, 0x9a]), "000FA5FF9A");
    assert_eq!(to_hex_upper(&[]), "");
}

#[test]
fn finds_the_first_occurrence() {
    assert_eq!(find_subsequence(b"hello world", b"o"), Some(4));
    assert_eq!(find_subsequence(b"hello world", b"world"), Some(6));
    assert_eq!(find_subsequence(b"hello", b"hello"), Some(0));
    assert_eq!(find_subsequence(b"hello", b"hello!"), None);
    assert_eq!(find_subsequence(b"aaab", b"aab"), Some(1));
    assert_eq!(find_subsequence(b"", b"a"), None);
    assert_eq!(find_subsequence(b"abc", b"d"), None);
}

#[test]
fn stored_path_becomes_path_fields() {
    assert_eq!(
        format_path_str("root:123/my dir:45/sub\\dir:6/file name.txt:789"),
        Ok("root|my_dir|subdir|file_name.txt".to_string())
    );
    assert_eq!(format_path_str("a:/b:1"), Ok("a|b".to_string()));
    assert_eq!(format_path_str("a b\n:12"), Ok("a_b".to_string()));
    assert_eq!(format_path_str("no colon here"), Err(WrongPathFormat));
    assert_eq!(format_path_str("a:1/b"), Err(WrongPathFormat));
}

#[test]
fn cut_is_at_the_last_colon() {
    assert_eq!(cut_at_last_colon("a:b:c"), Some("a:b".to_string()));
    assert_eq!(cut_at_last_colon(":"), Some(String::new()));
    assert_eq!(cut_at_last_colon("abc"), None);
    assert_eq!(cut_at_last_colon(""), None);
}

#[test]
fn magnets_are_listed_one_a_line() {
    let hex = "08ada5a7a6183aae1e09d831df6748d566095a10";
    let b32 = "BCW2LJ5GDA5K4HQJ3AY56Z2I2VTASWQQ";
    let text = format!(
        "see magnet:?xt=urn:btih:{}&dn=x and\nmagnet:?xt=urn:btih:{} too, not magnet:?xt=urn:btih:zz",
        hex, b32
    );
    assert_eq!(
        all_magnets(&text),
        Some(format!("magnet:?xt=urn:btih:{}\nmagnet:?xt=urn:btih:{}\n", hex, b32))
    );
    assert_eq!(all_magnets("nothing here"), None);
}

#[test]
fn ed2k_addresses_are_listed_one_a_line() {
    let a = "ed2k://|file|name.bin|123|0123456789abcdef0123456789ABCDEF|/";
    let b = "ed2k://|file|x|1|0123456789abcdef0123456789ABCDEF|h=ABCDEFGHIJKLMNOPQRSTUVWXYZ234567|/";
    let text = format!("first {} then {} and ed2k://|file|bad|/", a, b);
    assert_eq!(all_ed2k(&text), Some(format!("{}\n{}\n", a, b)));
    assert_eq!(all_ed2k("magnet:?xt=urn:btih:abc"), None);
}

#[test]
fn short_magnet_keeps_the_exact_topic() {
    assert_eq!(
        short_magnet("magnet:?xt=urn:btih:08ada5a7a6183aae1e09d831df6748d566095a10&dn=Sintel&tr=udp%3A%2F%2Ft"),
        Some("magnet:?xt=urn:btih:08ada5a7a6183aae1e09d831df6748d566095a10".to_string())
    );
    assert_eq!(short_magnet("http://example.com"), None);
    assert_eq!(short_magnet("magnet:?dn=only"), None);
}

#[test]
fn sizes_are_shown_in_binary_units() {
    assert_eq!(to_iec(1), "1.0B");
    assert_eq!(to_iec(1000), "1000.0B");
    assert_eq!(to_iec(1024), "1.0k");
    assert_eq!(to_iec(1536), "1.5k");
    assert_eq!(to_iec(10 * 1024 * 1024), "10.0M");
    assert_eq!(to_iec(u64::MAX as u128), "15.9E");
    assert_eq!(to_iec((1u128 << 90) - 1), "1023.9Y");
    assert_eq!(show_unit("1.0Gi"), "1.0G");
    assert_eq!(show_unit("1.0"), "1.0B");
    assert_eq!(show_unit(""), "B");
}

#[test]
fn byte_order_mark_is_found_and_skipped() {
    assert!(has_bom(&[0xef, 0xbb, 0xbf, b'a']));
    assert!(has_bom(&[0xef, 0xbb, 0xbf]));
    assert!(!has_bom(&[0xef, 0xbb]));
    assert!(!has_bom(b"abc"));
    assert!(!has_bom(b""));
    assert_eq!(bom_len(&[0xef, 0xbb, 0xbf, b'a']), 3);
    assert_eq!(bom_len(b"abcd"), 0);
    assert_eq!(open_without_bom(&[0xef, 0xbb, 0xbf, b'a', b'b']), b"ab");
    assert_eq!(open_without_bom(b"ab"), b"ab");
    assert_eq!(open_without_bom(&[0xef, 0xbb]), vec![0xef, 0xbb]);
    assert_eq!(open_without_bom(b""), b"");
}

#[test]
fn commands_have_names_and_descriptions() {
    assert_eq!(Command::Help.description(), "打印帮助");
    assert_eq!(Command::Version.description(), "版本信息");
    assert_eq!(Command::Help.name(), "help");
    assert_eq!(Command::Version.name(), "version");
}

#[test]
fn block_digest_is_decrypted() {
    assert_eq!(
        preid_decrypt("muChBC5wL9GVsVd+v5+2cJrgoQQucC/RlbFXfr+ftnCymRvY7OzTk9PKjZp9P2pM"),
        Ok("ABCDEF0123456789ABCDEF0123456789ABCDEF01".to_string())
    );
    assert_eq!(preid_decrypt(""), Ok(String::new()));
    assert_eq!(preid_decrypt("not base64 at all"), Err(DecryptError::NotBase64));
    assert_eq!(preid_decrypt("AAAA"), Err(DecryptError::NotDecrypted));
    assert_eq!(preid_from_plain(b"abc\0\0"), Ok("abc".to_string()));
    assert_eq!(preid_from_plain(b"\0a\0"), Ok("\0a".to_string()));
    assert_eq!(preid_from_plain(&[0xff, 0x00]), Err(DecryptError::NotText));
    assert_eq!(trim_end("xx", 'x'), "");
    assert_eq!(trim_end("axbx", 'x'), "axb");
}

#[test]
fn summary_is_described_in_words() {
    let s = summarize(vec![1024, 2048, 4096, 10 * 1024 * 1024], true).unwrap();
    assert_eq!(s.describe(), "共 4 个文件, 10.0M\n最小 1.0k, 最大 10.0M, 中位 3.0k");
    let t = summarize(vec![1, 2], false).unwrap();
    assert_eq!(t.describe(), "共 2 个文件, 3.0B\n最小 1.0B, 最大 2.0B, 中位 1.0B");
}
