use rs115_bot::bencode::{decode, BValue, TorrentError};
use rs115_bot::torrent::{to_uri, torrent_magnet, Torrent};

fn info(name: &str) -> Vec<u8> {
    let mut v = format!(
        "d6:lengthi12345e4:name{}:{}12:piece lengthi16384e6:pieces20:",
        name.len(),
        name
    )
    .into_bytes();
    v.extend_from_slice(&[b'A'; 20]);
    v.push(b'e');
    v
}

fn torrent(comment: &str, name: &str) -> Vec<u8> {
    let mut v = format!("d8:announce3:url7:comment{}:{}4:info", comment.len(), comment).into_bytes();
    v.extend_from_slice(&info(name));
    v.push(b'e');
    v
}

#[test]
fn digest_matches_the_reference() {
    let t = Torrent::decode(&torrent("hello", "test.txt")).unwrap();
    assert_eq!(t.info.name().as_slice(), b"test.txt");
    assert_eq!(t.info.encoding(), info("test.txt"));
    assert_eq!(t.info_hash(), "804adaab2e072bdb8b2583520541ef7d45c73539");
}

#[test]
fn same_bytes_give_the_same_digest() {
    let bytes = torrent("hello", "test.txt");
    let a = Torrent::decode(&bytes).unwrap().info_hash();
    let b = Torrent::decode(&bytes).unwrap().info_hash();
    assert_eq!(a, b);
}

#[test]
fn comment_does_not_change_the_digest() {
    let a = Torrent::decode(&torrent("hello", "test.txt")).unwrap().info_hash();
    let b = Torrent::decode(&torrent("something else", "test.txt")).unwrap().info_hash();
    assert_eq!(a, b);
}

#[test]
fn name_changes_the_digest() {
    let a = Torrent::decode(&torrent("hello", "test.txt")).unwrap().info_hash();
    let b = Torrent::decode(&torrent("hello", "other.txt")).unwrap().info_hash();
    assert_ne!(a, b);
    assert_eq!(b, "6968e93df3bcbf063be44541c69a49e51fb27372");
}

#[test]
fn keys_are_written_in_ascending_order() {
    let mut shuffled = b"d4:infod6:pieces20:".to_vec();
    shuffled.extend_from_slice(&[b'A'; 20]);
    shuffled.extend_from_slice(b"4:name8:test.txt7:unknowni1e12:piece lengthi16384e6:lengthi12345eee");
    let t = Torrent::decode(&shuffled).unwrap();
    assert_eq!(t.info.encoding(), info("test.txt"));
    assert_eq!(t.info_hash(), "804adaab2e072bdb8b2583520541ef7d45c73539");
}

#[test]
fn torrent_of_several_files() {
    let mut inner = b"d5:filesld6:lengthi5e4:pathl1:a5:b.txteed6:lengthi7e6:md5sum3:abc4:pathl5:c.bineee4:name3:dir12:piece lengthi32768e6:pieces20:".to_vec();
    inner.extend_from_slice(&[b'A'; 20]);
    inner.extend_from_slice(b"7:privatei1ee");
    let mut bytes = b"d4:info".to_vec();
    bytes.extend_from_slice(&inner);
    bytes.push(b'e');
    let t = Torrent::decode(&bytes).unwrap();
    assert_eq!(t.info.encoding(), inner);
    assert_eq!(t.info_hash(), "747fcda2a72e88d16ec7a48d50849e572bb037f8");
}

#[test]
fn magnet_is_prefix_and_digest() {
    assert_eq!(to_uri("abc"), "magnet:?xt=urn:btih:abc");
    assert_eq!(
        torrent_magnet(&torrent("c", "test.txt")),
        Ok("magnet:?xt=urn:btih:804adaab2e072bdb8b2583520541ef7d45c73539".to_string())
    );
}

#[test]
fn missing_info_is_its_own_error() {
    assert_eq!(torrent_magnet(b"d8:announce3:urle"), Err(TorrentError::MissingInfoDict));
    assert_eq!(torrent_magnet(b"de"), Err(TorrentError::MissingInfoDict));
}

#[test]
fn truncated_or_invalid_bytes_are_rejected() {
    let full = torrent("hello", "test.txt");
    for cut in 0..full.len() {
        assert_eq!(torrent_magnet(&full[..cut]), Err(TorrentError::BencodeError), "{}", cut);
    }
    let mut trailing = full.clone();
    trailing.push(b'e');
    assert_eq!(torrent_magnet(&trailing), Err(TorrentError::BencodeError));
    assert_eq!(torrent_magnet(b"i1e"), Err(TorrentError::BencodeError));
    assert_eq!(torrent_magnet(b"le"), Err(TorrentError::BencodeError));
    assert_eq!(torrent_magnet(b"d4:infoi1ee"), Err(TorrentError::BencodeError));
    assert_eq!(torrent_magnet(b"d4:infod4:name1:aee"), Err(TorrentError::BencodeError));
}

#[test]
fn entry_of_the_wrong_kind_is_rejected() {
    let mut bytes = b"d4:infod6:length3:abc4:name1:a12:piece lengthi1e6:pieces0:ee".to_vec();
    assert_eq!(torrent_magnet(&bytes), Err(TorrentError::BencodeError));
    bytes = b"d4:infod4:name1:a12:piece lengthi1e6:pieces0:ee".to_vec();
    assert!(torrent_magnet(&bytes).is_ok());
}

#[test]
fn decodes_each_kind_of_value() {
    assert!(matches!(decode(b"i0e"), Ok(BValue::Int(0))));
    assert!(matches!(decode(b"i-42e"), Ok(BValue::Int(-42))));
    assert!(matches!(decode(b"i9223372036854775807e"), Ok(BValue::Int(i64::MAX))));
    assert!(matches!(decode(b"i-9223372036854775808e"), Ok(BValue::Int(i64::MIN))));
    match decode(b"4:spam") {
        Ok(BValue::Bytes(b)) => assert_eq!(b, b"spam"),
        other => panic!("{:?}", other),
    }
    match decode(b"0:") {
        Ok(BValue::Bytes(b)) => assert!(b.is_empty()),
        other => panic!("{:?}", other),
    }
    match decode(b"l4:spami7ee") {
        Ok(BValue::List(items)) => {
            assert_eq!(items.len(), 2);
            assert!(matches!(items[1], BValue::Int(7)));
        }
        other => panic!("{:?}", other),
    }
    match decode(b"d1:bi1e1:ali2eee") {
        Ok(BValue::Dict(entries)) => {
            assert_eq!(entries.len(), 2);
            assert_eq!(entries[0].0, b"b");
            assert_eq!(entries[1].0, b"a");
            assert!(matches!(entries[1].1, BValue::List(_)));
        }
        other => panic!("{:?}", other),
    }
}

#[test]
fn refuses_numbers_that_are_not_plain() {
    for bad in [
        &b"i-0e"[..],
        b"i01e",
        b"ie",
        b"i-e",
        b"i1",
        b"i9223372036854775808e",
        b"i-9223372036854775809e",
        b"i99999999999999999999999999e",
        b"01:a",
        b"2:a",
        b"-1:a",
        b"99999999999999999999999999:a",
        b"",
        b"x",
        b"l",
        b"d1:ae",
        b"di1e1:ae",
        b"i1ei2e",
    ] {
        assert_eq!(decode(bad).err(), Some(TorrentError::BencodeError), "{:?}", bad);
    }
}

#[test]
fn nesting_has_a_limit() {
    let mut ok = vec![b'l'; 63];
    ok.extend_from_slice(b"i1e");
    ok.extend_from_slice(&vec![b'e'; 63]);
    assert!(decode(&ok).is_ok());
    let mut deep = vec![b'l'; 64];
    deep.extend_from_slice(b"i1e");
    deep.extend_from_slice(&vec![b'e'; 64]);
    assert_eq!(decode(&deep).err(), Some(TorrentError::BencodeError));
    let huge = vec![b'l'; 100000];
    assert_eq!(decode(&huge).err(), Some(TorrentError::BencodeError));
}
