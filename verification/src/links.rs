use crate::text::{chars_of, string_of};
use data_encoding::BASE32_NOPAD;
use magnet_url::Magnet;
use regex::Regex;
use vstd::prelude::*;
use vstd::utf8::encode_utf8;

verus! {

/// The error of a path that names no file.
#[derive(Debug, Clone, Copy, PartialEq, Eq)]
pub struct WrongPathFormat;

/// The pattern of the number that follows a directory's name in a stored path.
pub open spec fn path_id_pattern() -> Seq<char> {
    r":\d*?/"@
}

/// The pattern of a torrent's address, with its digest as the first group.
pub open spec fn magnet_pattern() -> Seq<char> {
    r"magnet:\?xt=urn:btih:([a-fA-F0-9]{40}|[a-zA-Z2-7]{32})"@
}

/// The pattern of the address of a file in the eDonkey network.
pub open spec fn ed2k_pattern() -> Seq<char> {
    r"ed2k://\|file\|[^|]+\|\d+\|[a-fA-F0-9]{32}\|(h=[a-zA-Z2-7]{32}\|)?/"@
}

/// `text` with every match of the regular expression `pattern` replaced by
/// `rep`, as `regex::Regex::replace_all` does it: the matches are taken
/// from the left and do not overlap. There is none where `pattern` is no
/// regular expression.
pub uninterp spec fn regex_replaced(pattern: Seq<char>, text: Seq<char>, rep: Seq<char>) -> Option<
    Seq<char>,
>;

/// For each match of the regular expression `pattern` in `text`, from the
/// left and without overlap, what its group `group` matched, if it took
/// part in the match, as `regex::Regex::captures_iter` and `Captures::get`
/// give it. There is none where `pattern` is no regular expression.
pub uninterp spec fn regex_groups(pattern: Seq<char>, text: Seq<char>, group: int) -> Option<
    Seq<Option<Seq<char>>>,
>;

/// The bytes that `text` stands for in base 32 without padding, as
/// `data_encoding::BASE32_NOPAD` decodes it, if it is such a text.
pub uninterp spec fn base32_decoded(text: Seq<u8>) -> Option<Seq<u8>>;

/// The digest in the exact topic of the torrent address `text`, as
/// `magnet_url::Magnet` reads it, if `text` is such an address and names one.
pub uninterp spec fn magnet_hash(text: Seq<char>) -> Option<Seq<char>>;

/// Compiles `pattern` with `Regex::new` and replaces every match in `text`
/// with `Regex::replace_all`.
#[verifier::external_body]
fn replace_all(pattern: &str, text: &str, rep: &str) -> (r: Option<String>)
    ensures
        string_option(r) == regex_replaced(pattern@, text@, rep@),
{
    match Regex::new(pattern) {
        Ok(re) => Some(re.replace_all(text, rep).into_owned()),
        Err(_) => None,
    }
}

/// Compiles `pattern` with `Regex::new`, walks the matches in `text` with
/// `Regex::captures_iter` and takes from each what `Captures::get` gives
/// for `group`.
#[verifier::external_body]
fn groups_of(pattern: &str, text: &str, group: usize) -> (r: Option<Vec<Option<String>>>)
    ensures
        match r {
            Some(found) => regex_groups(pattern@, text@, group as int) == Some(
                found@.map_values(|s: Option<String>| string_option(s)),
            ),
            None => regex_groups(pattern@, text@, group as int) is None,
        },
{
    match Regex::new(pattern) {
        Ok(re) => Some(
            re.captures_iter(text).map(|c| c.get(group).map(|m| m.as_str().to_owned())).collect(),
        ),
        Err(_) => None,
    }
}

/// Decodes `text` with `BASE32_NOPAD.decode`, which refuses what is no
/// base 32 and stops the program on a text of more than an eighth of the
/// largest length.
#[verifier::external_body]
fn base32_decode(text: &[u8]) -> (r: Option<Vec<u8>>)
    requires
        text@.len() <= usize::MAX / 8,
    ensures
        match r {
            Some(bytes) => base32_decoded(text@) == Some(bytes@),
            None => base32_decoded(text@) is None,
        },
{
    match BASE32_NOPAD.decode(text) {
        Ok(bytes) => Some(bytes),
        Err(_) => None,
    }
}

/// Reads `text` with `Magnet::new` and takes what `Magnet::hash` gives.
#[verifier::external_body]
fn magnet_hash_of(text: &str) -> (r: Option<String>)
    ensures
        string_option(r) == magnet_hash(text@),
{
    match Magnet::new(text) {
        Ok(magnet) => magnet.hash().map(|h| h.to_owned()),
        Err(_) => None,
    }
}

/// What the string holds, if there is one.
pub open spec fn string_option(s: Option<String>) -> Option<Seq<char>> {
    match s {
        Some(s) => Some(s@),
        None => None,
    }
}

/// The hexadecimal digit for `n`, in upper case.
pub open spec fn hex_digit(n: u8) -> char {
    if n < 10 {
        (48 + n) as u8 as char
    } else {
        (55 + n) as u8 as char
    }
}

/// `bytes` in hexadecimal notation, two digits in upper case for each byte.
pub open spec fn hex_upper(bytes: Seq<u8>) -> Seq<char> {
    Seq::new(
        2 * bytes.len(),
        |i: int|
            if i % 2 == 0 {
                hex_digit(bytes[i / 2] / 16)
            } else {
                hex_digit(bytes[i / 2] % 16)
            },
    )
}

/// The hexadecimal digit for `n`, in upper case.
fn hex_char(n: u8) -> (c: char)
    requires
        n < 16,
    ensures
        c == hex_digit(n),
{
    if n < 10 {
        (48 + n) as char
    } else {
        (55 + n) as char
    }
}

/// Writes `bytes` in hexadecimal notation, in upper case.
pub fn to_hex_upper(bytes: &[u8]) -> (s: String)
    ensures
        s@ == hex_upper(bytes@),
{
    let mut out: Vec<char> = Vec::new();
    let mut i: usize = 0;
    while i < bytes.len()
        invariant
            i <= bytes.len(),
            out@ == hex_upper(bytes@).take(2 * i),
        decreases bytes.len() - i,
    {
        let b = bytes[i];
        out.push(hex_char(b / 16));
        out.push(hex_char(b % 16));
        assert(out@ =~= hex_upper(bytes@).take(2 * (i + 1)));
        i += 1;
    }
    assert(hex_upper(bytes@).take(2 * (bytes@.len() as int)) =~= hex_upper(bytes@));
    string_of(out.as_slice())
}

/// What a digest in base 32 is in hexadecimal notation, given the bytes
/// that it decodes to.
pub open spec fn hex_of_decoded(decoded: Option<Seq<u8>>) -> Option<Seq<char>> {
    match decoded {
        Some(bytes) => Some(hex_upper(bytes)),
        None => None,
    }
}

/// Turns a digest written in base 32 without padding into hexadecimal
/// notation. There is no result where `content` is no base 32.
pub fn base32_hex(content: &str) -> (r: Option<String>)
    requires
        encode_utf8(content@).len() <= usize::MAX / 8,
    ensures
        string_option(r) == hex_of_decoded(base32_decoded(encode_utf8(content@))),
{
    match base32_decode(content.as_bytes()) {
        Some(bytes) => Some(to_hex_upper(bytes.as_slice())),
        None => None,
    }
}

/// Where `needle` first occurs in `haystack`.
pub open spec fn occurs_at(haystack: Seq<u8>, needle: Seq<u8>, i: int) -> bool {
    0 <= i && i + needle.len() <= haystack.len() && haystack.subrange(i, i + needle.len())
        == needle
}

/// Finds the first place at which `needle` occurs in `haystack`.
pub fn find_subsequence(haystack: &[u8], needle: &[u8]) -> (r: Option<usize>)
    requires
        needle.len() > 0,
    ensures
        match r {
            Some(i) => occurs_at(haystack@, needle@, i as int) && forall|j: int|
                0 <= j < i ==> !occurs_at(haystack@, needle@, j),
            None => forall|j: int| !occurs_at(haystack@, needle@, j),
        },
{
    if needle.len() > haystack.len() {
        return None;
    }
    let last = haystack.len() - needle.len();
    let mut i: usize = 0;
    while i <= last
        invariant
            i <= last + 1,
            last == haystack.len() - needle.len(),
            needle.len() <= haystack.len(),
            forall|j: int| 0 <= j < i ==> !occurs_at(haystack@, needle@, j),
        decreases last + 1 - i,
    {
        let mut k: usize = 0;
        while k < needle.len() && haystack[i + k] == needle[k]
            invariant
                k <= needle.len(),
                i + needle.len() <= haystack.len(),
                forall|m: int| 0 <= m < k ==> haystack@[i + m] == needle@[m],
            decreases needle.len() - k,
        {
            k += 1;
        }
        if k == needle.len() {
            assert(haystack@.subrange(i as int, i + needle@.len()) =~= needle@);
            return Some(i);
        }
        assert(!occurs_at(haystack@, needle@, i as int)) by {
            if occurs_at(haystack@, needle@, i as int) {
                assert(haystack@.subrange(i as int, i + needle@.len())[k as int] == needle@[k as int]);
            }
        }
        i += 1;
    }
    None
}

/// `s` with every blank turned into an underscore and without
/// backslashes and line feeds.
pub open spec fn tidied(s: Seq<char>) -> Seq<char> {
    s.filter(|c: char| c != '\\' && c != '\n').map_values(
        |c: char|
            if c == ' ' {
                '_'
            } else {
                c
            },
    )
}

/// Turns blanks into underscores and takes backslashes and line feeds out.
fn tidy(s: &[char]) -> (v: Vec<char>)
    ensures
        v@ == tidied(s@),
{
    let mut v: Vec<char> = Vec::new();
    let mut i: usize = 0;
    let ghost keep = |c: char| c != '\\' && c != '\n';
    let ghost turn = |c: char|
        if c == ' ' {
            '_'
        } else {
            c
        };
    proof {
        reveal(Seq::filter);
        assert(s@.take(0) =~= Seq::<char>::empty());
        assert(v@ =~= s@.take(0).filter(keep).map_values(turn));
    }
    while i < s.len()
        invariant
            i <= s.len(),
            keep == |c: char| c != '\\' && c != '\n',
            turn == |c: char|
                if c == ' ' {
                    '_'
                } else {
                    c
                },
            v@ == s@.take(i as int).filter(keep).map_values(turn),
        decreases s.len() - i,
    {
        let c = s[i];
        proof {
            reveal(Seq::filter);
            assert(s@.take(i + 1).drop_last() =~= s@.take(i as int));
            assert(s@.take(i + 1).last() == c);
        }
        if c != '\\' && c != '\n' {
            if c == ' ' {
                v.push('_');
            } else {
                v.push(c);
            }
            assert(v@ =~= s@.take(i + 1).filter(keep).map_values(turn));
        }
        i += 1;
    }
    assert(s@.take(s@.len() as int) =~= s@);
    v
}

/// What comes before the last colon of `s`, if it has a colon.
pub open spec fn before_last_colon(s: Seq<char>) -> Option<Seq<char>> {
    if exists|i: int| 0 <= i < s.len() && s[i] == ':' {
        let i = choose|i: int|
            0 <= i < s.len() && s[i] == ':' && forall|j: int| i < j < s.len() ==> s[j] != ':';
        Some(s.take(i))
    } else {
        None
    }
}

/// Cuts `s` at its last colon.
pub fn cut_at_last_colon(s: &str) -> (r: Option<String>)
    ensures
        string_option(r) == before_last_colon(s@),
{
    let chars = chars_of(s);
    let mut i: usize = chars.len();
    while i > 0
        invariant
            i <= chars.len(),
            chars@ == s@,
            forall|j: int| i <= j < chars.len() ==> chars@[j] != ':',
        decreases i,
    {
        i -= 1;
        if chars[i] == ':' {
            let mut head = chars.clone();
            head.truncate(i);
            proof {
                let w = choose|w: int|
                    0 <= w < s@.len() && s@[w] == ':' && forall|j: int|
                        w < j < s@.len() ==> s@[j] != ':';
                assert(w == i) by {
                    if w < i {
                        assert(s@[i as int] != ':');
                    }
                    if w > i {
                        assert(chars@[w] != ':');
                    }
                }
                assert(head@ =~= s@.take(i as int));
            }
            return Some(string_of(head.as_slice()));
        }
    }
    None
}

/// The path that a stored path stands for, given what the stored path is
/// once the numbers after its directories are replaced by bars.
pub open spec fn path_of_replaced(replaced: Option<Seq<char>>) -> Option<Seq<char>> {
    match replaced {
        Some(text) => before_last_colon(text),
        None => None,
    }
}

/// Turns a stored path into the path fields of a line: blanks become
/// underscores, backslashes and line feeds go, the number after each
/// directory's name becomes a bar, and what follows the last colon is cut.
pub fn format_path_str(path_str: &str) -> (r: Result<String, WrongPathFormat>)
    ensures
        match r {
            Ok(s) => path_of_replaced(
                regex_replaced(path_id_pattern(), tidied(path_str@), seq!['|']),
            ) == Some(s@),
            Err(_) => path_of_replaced(
                regex_replaced(path_id_pattern(), tidied(path_str@), seq!['|']),
            ) is None,
        },
{
    let chars = chars_of(path_str);
    let tidy_chars = tidy(chars.as_slice());
    let tidy_text = string_of(tidy_chars.as_slice());
    let bar: Vec<char> = vec!['|'];
    let bar_text = string_of(bar.as_slice());
    assert(bar_text@ =~= seq!['|']);
    match replace_all(r":\d*?/", tidy_text.as_str(), bar_text.as_str()) {
        Some(replaced) => match cut_at_last_colon(replaced.as_str()) {
            Some(path) => Ok(path),
            None => Err(WrongPathFormat),
        },
        None => Err(WrongPathFormat),
    }
}

/// The lines that list what was found: each match after `prefix`, and a
/// line feed after each.
pub open spec fn listed(found: Seq<Option<Seq<char>>>, prefix: Seq<char>) -> Seq<char>
    decreases found.len(),
{
    if found.len() == 0 {
        Seq::empty()
    } else {
        match found.last() {
            Some(m) => listed(found.drop_last(), prefix) + prefix + m + seq!['\n'],
            None => listed(found.drop_last(), prefix),
        }
    }
}

/// The list of what was found, if anything was.
pub open spec fn listed_or_none(found: Option<Seq<Option<Seq<char>>>>, prefix: Seq<char>) -> Option<
    Seq<char>,
> {
    match found {
        Some(found) => if listed(found, prefix).len() > 0 {
            Some(listed(found, prefix))
        } else {
            None
        },
        None => None,
    }
}

/// Lists what was found, each match after `prefix` and on a line of its own.
pub fn list_found(found: &Vec<Option<String>>, prefix: &str) -> (r: Option<String>)
    ensures
        string_option(r) == listed_or_none(
            Some(found@.map_values(|s: Option<String>| string_option(s))),
            prefix@,
        ),
{
    let ghost all = found@.map_values(|s: Option<String>| string_option(s));
    let mut res = String::new();
    let mut i: usize = 0;
    assert(all.take(0) =~= Seq::<Option<Seq<char>>>::empty());
    while i < found.len()
        invariant
            i <= found.len(),
            all == found@.map_values(|s: Option<String>| string_option(s)),
            res@ == listed(all.take(i as int), prefix@),
        decreases found.len() - i,
    {
        proof {
            assert(all.take(i + 1).drop_last() =~= all.take(i as int));
            assert(all.take(i + 1).last() == string_option(found[i as int]));
        }
        match &found[i] {
            Some(m) => {
                let ghost before = res@;
                res.append(prefix);
                res.append(m.as_str());
                res.push('\n');
                assert(res@ =~= before + prefix@ + m@ + seq!['\n']);
            },
            None => {},
        }
        i += 1;
    }
    assert(all.take(all.len() as int) =~= all);
    if res.as_str().is_empty() {
        None
    } else {
        Some(res)
    }
}

/// The addresses of the torrents named in `content`, one on each line, or
/// nothing where it names none.
pub fn all_magnets(content: &str) -> (r: Option<String>)
    ensures
        string_option(r) == listed_or_none(
            regex_groups(magnet_pattern(), content@, 1),
            "magnet:?xt=urn:btih:"@,
        ),
{
    match groups_of(r"magnet:\?xt=urn:btih:([a-fA-F0-9]{40}|[a-zA-Z2-7]{32})", content, 1) {
        Some(found) => list_found(&found, "magnet:?xt=urn:btih:"),
        None => None,
    }
}

/// The eDonkey addresses in `content`, one on each line, or nothing where
/// it holds none.
pub fn all_ed2k(content: &str) -> (r: Option<String>)
    ensures
        string_option(r) == listed_or_none(
            regex_groups(ed2k_pattern(), content@, 0),
            Seq::empty(),
        ),
{
    match groups_of(
        r"ed2k://\|file\|[^|]+\|\d+\|[a-fA-F0-9]{32}\|(h=[a-zA-Z2-7]{32}\|)?/",
        content,
        0,
    ) {
        Some(found) => {
            let empty = String::new();
            list_found(&found, empty.as_str())
        },
        None => None,
    }
}

/// The address that goes with a digest, if there is one.
pub open spec fn address_of(hash: Option<Seq<char>>) -> Option<Seq<char>> {
    match hash {
        Some(h) => Some("magnet:?xt=urn:btih:"@ + h),
        None => None,
    }
}

/// The short address of the torrent that the address `text` names: the
/// exact topic alone.
pub fn short_magnet(text: &str) -> (r: Option<String>)
    ensures
        string_option(r) == address_of(magnet_hash(text@)),
{
    match magnet_hash_of(text) {
        Some(hash) => Some(crate::torrent::to_uri(hash.as_str())),
        None => None,
    }
}

} // verus!
