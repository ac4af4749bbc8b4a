use crate::record::WrongSha1LinkFormat;
use crate::text::{chars_of, string_views, split, split_chars, views};
use vstd::prelude::*;
use vstd::utf8::encode_utf8;

verus! {

/// The most bytes that the first line of a link file may have.
pub const MAX_FIRST_LINE: usize = 3000;

/// Whether a line looks like a line of a link file: no longer than the
/// limit, in bytes of UTF-8, not the start of a document, and of at least
/// four fields.
pub open spec fn is_link_form(line: Seq<char>) -> bool {
    &&& encode_utf8(line).len() <= MAX_FIRST_LINE
    &&& !(line.len() > 0 && (line[0] == '{' || line[0] == '['))
    &&& split(line, '|').len() >= 4
}

/// The first of `lines` that is not empty.
pub open spec fn first_nonempty(lines: Seq<Seq<char>>) -> Option<Seq<char>>
    decreases lines.len(),
{
    if lines.len() == 0 {
        None
    } else if lines[0].len() > 0 {
        Some(lines[0])
    } else {
        first_nonempty(lines.drop_first())
    }
}

/// What the form of a line decides at its edges: a line that starts a
/// document is refused whatever its fields, and so is one of fewer than
/// four fields; a line of four fields or more that is short enough and does
/// not start a document is accepted.
pub proof fn lemma_link_form_boundary(line: Seq<char>)
    ensures
        line.len() > 0 && line[0] == '{' ==> !is_link_form(line),
        line.len() > 0 && line[0] == '[' ==> !is_link_form(line),
        split(line, '|').len() < 4 ==> !is_link_form(line),
        split(line, '|').len() >= 4 && encode_utf8(line).len() <= MAX_FIRST_LINE && line.len() > 0
            && line[0] != '{' && line[0] != '[' ==> is_link_form(line),
{
}

/// Checks the form of the first line of a link file.
pub fn is_valid_first_line(line: &str) -> (r: Result<(), WrongSha1LinkFormat>)
    ensures
        r is Ok <==> is_link_form(line@),
{
    let bytes = line.as_bytes();
    if bytes.len() > MAX_FIRST_LINE {
        return Err(WrongSha1LinkFormat);
    }
    let chars = chars_of(line);
    if chars.len() > 0 && (chars[0] == '{' || chars[0] == '[') {
        return Err(WrongSha1LinkFormat);
    }
    let fields = split_chars(chars.as_slice(), '|');
    assert(views(fields@).len() == fields@.len());
    if fields.len() < 4 {
        return Err(WrongSha1LinkFormat);
    }
    Ok(())
}

/// Checks whether `lines` can be the lines of a link file, by the form of
/// the first line that is not empty. Where every line is empty there is
/// nothing to accept.
pub fn is_valid_line(lines: &Vec<String>) -> (r: Result<(), WrongSha1LinkFormat>)
    ensures
        r is Ok <==> (match first_nonempty(string_views(lines@)) {
            Some(line) => is_link_form(line),
            None => false,
        }),
{
    let mut i: usize = 0;
    let ghost all = string_views(lines@);
    assert(all.skip(0) =~= all);
    while i < lines.len()
        invariant
            i <= lines.len(),
            all == string_views(lines@),
            first_nonempty(all) == first_nonempty(all.skip(i as int)),
        decreases lines.len() - i,
    {
        proof {
            assert(all.skip(i as int)[0] == lines[i as int]@);
            assert(all.skip(i as int).drop_first() =~= all.skip(i + 1));
        }
        if !lines[i].as_str().is_empty() {
            return is_valid_first_line(lines[i].as_str());
        }
        i += 1;
    }
    Err(WrongSha1LinkFormat)
}

} // verus!
