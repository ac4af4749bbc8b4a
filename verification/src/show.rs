use crate::text::{
    chars_of, has_prefix, lines_of, starts_with, string_of, string_views, tail_of, text_lines,
};
use vstd::prelude::*;

verus! {

/// Whether `c` is white space.
pub open spec fn is_white(c: char) -> bool {
    ('\t' <= c <= '\r') || c == ' ' || c == '\u{85}' || c == '\u{a0}' || c == '\u{1680}' || (
    '\u{2000}' <= c <= '\u{200a}') || c == '\u{2028}' || c == '\u{2029}' || c == '\u{202f}' || c
        == '\u{205f}' || c == '\u{3000}'
}

/// `s` without the white space at its start.
pub open spec fn trimmed_start(s: Seq<char>) -> Seq<char>
    decreases s.len(),
{
    if s.len() > 0 && is_white(s[0]) {
        trimmed_start(s.drop_first())
    } else {
        s
    }
}

/// Cuts the white space off the start of `s`.
pub fn trim_start(s: &[char]) -> (v: Vec<char>)
    ensures
        v@ == trimmed_start(s@),
{
    let mut i: usize = 0;
    assert(s@.skip(0) =~= s@);
    while i < s.len() && (('\t' <= s[i] && s[i] <= '\r') || s[i] == ' ' || s[i] == '\u{85}' || s[i]
        == '\u{a0}' || s[i] == '\u{1680}' || ('\u{2000}' <= s[i] && s[i] <= '\u{200a}') || s[i]
        == '\u{2028}' || s[i] == '\u{2029}' || s[i] == '\u{202f}' || s[i] == '\u{205f}' || s[i]
        == '\u{3000}')
        invariant
            i <= s.len(),
            trimmed_start(s@) == trimmed_start(s@.skip(i as int)),
        decreases s.len() - i,
    {
        assert(s@.skip(i as int).drop_first() =~= s@.skip(i + 1));
        i += 1;
    }
    tail_of(s, i)
}

/// The name in what the tool that shows a torrent prints: what follows
/// `Name:` on the first line, or `Unknown` where the line does not start
/// so. There is none where nothing was printed.
pub open spec fn shown_name(output: Seq<char>) -> Option<Seq<char>> {
    let lines = text_lines(output);
    if lines.len() == 0 {
        None
    } else {
        let line = trimmed_start(lines[0]);
        if has_prefix(line, "Name:"@) {
            Some(trimmed_start(line.skip(5)))
        } else {
            Some("Unknown"@)
        }
    }
}

/// What the string holds, if there is one.
pub open spec fn text_option(s: Option<String>) -> Option<Seq<char>> {
    match s {
        Some(s) => Some(s@),
        None => None,
    }
}

/// Reads the name of a torrent from what the tool that shows it printed.
pub fn torrent_name(output: &str) -> (r: Option<String>)
    ensures
        text_option(r) == shown_name(output@),
{
    let lines = lines_of(output);
    if lines.len() == 0 {
        return None;
    }
    let first = chars_of(lines[0].as_str());
    let line = trim_start(first.as_slice());
    let prefix = chars_of("Name:");
    proof {
        reveal_strlit("Name:");
    }
    if starts_with(line.as_slice(), prefix.as_slice()) {
        let rest = tail_of(line.as_slice(), 5);
        let name = trim_start(rest.as_slice());
        Some(string_of(name.as_slice()))
    } else {
        Some("Unknown".to_owned())
    }
}

/// The total size among `lines`: what follows `Total Size:` on the first
/// line that starts so, if it comes before the list of trackers.
pub open spec fn total_size_in(lines: Seq<Seq<char>>) -> Option<Seq<char>>
    decreases lines.len(),
{
    if lines.len() == 0 {
        None
    } else if has_prefix(trimmed_start(lines[0]), "Total Size:"@) {
        Some(trimmed_start(lines[0]).skip(11))
    } else if has_prefix(lines[0], "TRACKERS"@) {
        None
    } else {
        total_size_in(lines.drop_first())
    }
}

/// Reads the total size of a torrent from what the tool that shows it printed.
pub fn torrent_summary(output: &str) -> (r: Option<String>)
    ensures
        text_option(r) == total_size_in(text_lines(output@)),
{
    let lines = lines_of(output);
    let size_prefix = chars_of("Total Size:");
    let end_prefix = chars_of("TRACKERS");
    proof {
        reveal_strlit("Total Size:");
    }
    let ghost all = text_lines(output@);
    let mut i: usize = 0;
    assert(all.skip(0) =~= all);
    while i < lines.len()
        invariant
            i <= lines.len(),
            all == string_views(lines@),
            all == text_lines(output@),
            size_prefix@ == "Total Size:"@,
            size_prefix@.len() == 11,
            end_prefix@ == "TRACKERS"@,
            total_size_in(all) == total_size_in(all.skip(i as int)),
        decreases lines.len() - i,
    {
        proof {
            assert(all.skip(i as int)[0] == lines[i as int]@);
            assert(all.skip(i as int).drop_first() =~= all.skip(i + 1));
        }
        let raw = chars_of(lines[i].as_str());
        let line = trim_start(raw.as_slice());
        if starts_with(line.as_slice(), size_prefix.as_slice()) {
            let rest = tail_of(line.as_slice(), 11);
            return Some(string_of(rest.as_slice()));
        } else if starts_with(raw.as_slice(), end_prefix.as_slice()) {
            return None;
        }
        i += 1;
    }
    None
}

} // verus!
