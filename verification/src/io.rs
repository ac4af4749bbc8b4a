use vstd::prelude::*;

verus! {

/// Whether `bytes` begin with the byte-order mark of UTF-8.
pub open spec fn starts_with_bom(bytes: Seq<u8>) -> bool {
    bytes.len() >= 3 && bytes[0] == 0xef && bytes[1] == 0xbb && bytes[2] == 0xbf
}

/// `bytes` without the byte-order mark in front, if there is one.
pub open spec fn text_bytes(bytes: Seq<u8>) -> Seq<u8> {
    if starts_with_bom(bytes) {
        bytes.skip(3)
    } else {
        bytes
    }
}

/// Tests whether `bytes` begin with the byte-order mark of UTF-8.
pub fn has_bom(bytes: &[u8]) -> (b: bool)
    ensures
        b == starts_with_bom(bytes@),
{
    bytes.len() >= 3 && bytes[0] == 0xef && bytes[1] == 0xbb && bytes[2] == 0xbf
}

/// How many bytes at the start of a file are no text: the length of the
/// byte-order mark, if the file begins with one.
pub fn bom_len(bytes: &[u8]) -> (n: usize)
    ensures
        n == if starts_with_bom(bytes@) {
            3int
        } else {
            0int
        },
{
    if has_bom(bytes) {
        3
    } else {
        0
    }
}

/// The text of a file: its bytes without the byte-order mark.
pub fn open_without_bom(bytes: &[u8]) -> (text: Vec<u8>)
    ensures
        text@ == text_bytes(bytes@),
{
    let start = bom_len(bytes);
    let mut text: Vec<u8> = Vec::new();
    let mut i: usize = start;
    while i < bytes.len()
        invariant
            start <= i <= bytes.len(),
            text@ == bytes@.subrange(start as int, i as int),
        decreases bytes.len() - i,
    {
        text.push(bytes[i]);
        assert(text@ =~= bytes@.subrange(start as int, i + 1));
        i += 1;
    }
    assert(bytes@.subrange(start as int, bytes@.len() as int) =~= bytes@.skip(start as int));
    assert(bytes@.skip(0) =~= bytes@);
    text
}

} // verus!
