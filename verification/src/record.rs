use crate::text::{
    all_hex, chars_of, decimal, has_prefix, is_all_hex, is_clean, lemma_sanitized_is_clean,
    lemma_split_nonempty, parse_decimal, parse_u64, push_all, push_decimal, sanitize, sanitized,
    split, split_chars, starts_with, string_of, tail_of, views,
};
use vstd::prelude::*;

verus! {

/// The error of a line that is no link record.
#[derive(Debug, Clone, Copy, PartialEq, Eq)]
pub struct WrongSha1LinkFormat;

impl WrongSha1LinkFormat {
    /// The message that goes with the error.
    pub fn message(&self) -> (s: String)
        ensures
            s@ == "wrong format of 115sha1link"@,
    {
        "wrong format of 115sha1link".to_owned()
    }
}

/// Why a collection of records could not be worked on.
#[derive(Debug, Clone, Copy, PartialEq, Eq)]
pub enum LinkError {
    /// No line of the input is a record.
    EmptyInput,
    /// The sizes add up to more than 64 bits hold.
    Overflow,
}

/// One file's entry: its name, its size in bytes and its two digests.
#[derive(Debug)]
pub struct FileRepr {
    name: String,
    size: u64,
    sha1: String,
    sha1_block: String,
    id: Option<u64>,
}

/// What a `FileRepr` holds.
pub struct Record {
    pub name: Seq<char>,
    pub size: u64,
    pub sha1: Seq<char>,
    pub sha1_block: Seq<char>,
    pub id: Option<u64>,
}

/// The prefix that a record's name carries in a line of a link file.
pub open spec fn scheme() -> Seq<char> {
    seq!['1', '1', '5', ':', '/', '/']
}

/// The character between the fields of a line.
pub open spec fn bar() -> Seq<char> {
    seq!['|']
}

/// `s` without one leading scheme prefix, if it has one.
pub open spec fn without_scheme(s: Seq<char>) -> Seq<char> {
    if has_prefix(s, scheme()) {
        s.skip(6)
    } else {
        s
    }
}

/// Whether `s` is a digest as a record carries it: forty hexadecimal digits.
pub open spec fn is_digest(s: Seq<char>) -> bool {
    s.len() == 40 && all_hex(s)
}

/// Whether a name is free of the field separator and of line breaks.
pub open spec fn is_name(s: Seq<char>) -> bool {
    is_clean(s, false) && !s.contains('|')
}

/// The record that the fields of a line stand for: the name, the size and
/// the two digests, in this order. Further fields are not part of the record.
pub open spec fn record_of_fields(fields: Seq<Seq<char>>) -> Option<Record> {
    if fields.len() >= 4 && parse_u64(fields[1]) is Some && is_digest(fields[2]) && is_digest(
        fields[3],
    ) {
        Some(
            Record {
                name: sanitized(without_scheme(fields[0]), false),
                size: parse_u64(fields[1])->0,
                sha1: fields[2],
                sha1_block: fields[3],
                id: None,
            },
        )
    } else {
        None
    }
}

/// The record that a line stands for, if it is well formed.
pub open spec fn parsed_record(line: Seq<char>) -> Option<Record> {
    record_of_fields(split(line, '|'))
}

/// The four fields of a record joined by the separator, the name as given.
pub open spec fn joined(name: Seq<char>, r: Record) -> Seq<char> {
    name + bar() + decimal(r.size as nat) + bar() + r.sha1 + bar() + r.sha1_block
}

impl Record {
    /// The record as a line of a link file: with the scheme in front.
    pub open spec fn link(self) -> Seq<char> {
        scheme() + joined(self.name, self)
    }

    /// The record as a leaf of a tree document: never with the scheme in front.
    pub open spec fn embedded(self) -> Seq<char> {
        without_scheme(joined(self.name, self))
    }

    /// What makes two records the same file: the size and both digests.
    pub open spec fn key(self) -> (u64, Seq<char>, Seq<char>) {
        (self.size, self.sha1, self.sha1_block)
    }

    /// The key written out as one string.
    pub open spec fn key_text(self) -> Seq<char> {
        decimal(self.size as nat) + self.sha1 + self.sha1_block
    }

    /// Whether the record keeps the rules of a link file: a clean name and
    /// two digests of forty hexadecimal digits.
    pub open spec fn wf(self) -> bool {
        is_name(self.name) && is_digest(self.sha1) && is_digest(self.sha1_block)
    }
}

/// A record that a line stands for keeps the rules of a link file.
pub proof fn lemma_parsed_is_wf(line: Seq<char>)
    ensures
        match parsed_record(line) {
            Some(r) => r.wf() && r.id is None,
            None => true,
        },
{
    lemma_split_nonempty(line, '|');
    let fields = split(line, '|');
    if parsed_record(line) is Some {
        let bare = without_scheme(fields[0]);
        lemma_sanitized_is_clean(bare, false);
        let name = sanitized(bare, false);
        if name.contains('|') {
            assert(bare.contains('|'));
            let i = choose|i: int| 0 <= i < bare.len() && bare[i] == '|';
            if has_prefix(fields[0], scheme()) {
                assert(fields[0][i + 6] == '|');
            } else {
                assert(fields[0][i] == '|');
            }
            assert(fields[0].contains('|'));
        }
    }
}

impl View for FileRepr {
    type V = Record;

    closed spec fn view(&self) -> Record {
        Record {
            name: self.name@,
            size: self.size,
            sha1: self.sha1@,
            sha1_block: self.sha1_block@,
            id: self.id,
        }
    }
}

impl Clone for FileRepr {
    fn clone(&self) -> (r: Self)
        ensures
            r@ == self@,
    {
        FileRepr {
            name: self.name.clone(),
            size: self.size,
            sha1: self.sha1.clone(),
            sha1_block: self.sha1_block.clone(),
            id: self.id,
        }
    }
}

impl FileRepr {
    /// Whether the record keeps the rules of a link file.
    pub open spec fn wf(&self) -> bool {
        self@.wf()
    }

    /// Builds the record from the fields of a line.
    pub(crate) fn from_fields(fields: &Vec<Vec<char>>) -> (r: Result<FileRepr, WrongSha1LinkFormat>)
        requires
            forall|i: int| 0 <= i < fields.len() ==> !(#[trigger] fields[i])@.contains('|'),
        ensures
            match r {
                Ok(f) => record_of_fields(views(fields@)) == Some(f@) && f.wf(),
                Err(_) => record_of_fields(views(fields@)) is None,
            },
    {
        if fields.len() < 4 {
            return Err(WrongSha1LinkFormat);
        }
        let size = match parse_decimal(fields[1].as_slice()) {
            Some(n) => n,
            None => {
                return Err(WrongSha1LinkFormat);
            },
        };
        let sha1 = &fields[2];
        let sha1_block = &fields[3];
        if sha1.len() != 40 || sha1_block.len() != 40 {
            return Err(WrongSha1LinkFormat);
        }
        if !(is_all_hex(sha1.as_slice()) && is_all_hex(sha1_block.as_slice())) {
            return Err(WrongSha1LinkFormat);
        }
        let prefix: Vec<char> = vec!['1', '1', '5', ':', '/', '/'];
        assert(prefix@ =~= scheme());
        let bare = if starts_with(fields[0].as_slice(), prefix.as_slice()) {
            tail_of(fields[0].as_slice(), 6)
        } else {
            fields[0].clone()
        };
        assert(bare@ == without_scheme(fields[0]@));
        let name = sanitize(bare.as_slice(), false);
        proof {
            lemma_sanitized_is_clean(bare@, false);
            assert(!bare@.contains('|')) by {
                if bare@.contains('|') {
                    let i = choose|i: int| 0 <= i < bare@.len() && bare@[i] == '|';
                    if has_prefix(fields[0]@, scheme()) {
                        assert(fields[0]@[i + 6] == '|');
                    } else {
                        assert(fields[0]@[i] == '|');
                    }
                }
            }
        }
        Ok(
            FileRepr {
                name: string_of(name.as_slice()),
                size,
                sha1: string_of(sha1.as_slice()),
                sha1_block: string_of(sha1_block.as_slice()),
                id: None,
            },
        )
    }

    /// Reads one line of a link file. Fields after the fourth are ignored.
    pub fn from_str(s: &str) -> (r: Result<FileRepr, WrongSha1LinkFormat>)
        ensures
            match r {
                Ok(f) => parsed_record(s@) == Some(f@) && f.wf(),
                Err(_) => parsed_record(s@) is None,
            },
    {
        let line = chars_of(s);
        let fields = split_chars(line.as_slice(), '|');
        proof {
            lemma_split_nonempty(s@, '|');
            assert forall|i: int| 0 <= i < fields.len() implies !(#[trigger] fields[i])@.contains(
                '|',
            ) by {
                assert(views(fields@)[i] == fields[i]@);
            }
        }
        FileRepr::from_fields(&fields)
    }

    /// Appends the four fields of the record, with a bar between them.
    fn push_joined(&self, out: &mut Vec<char>)
        ensures
            final(out)@ == old(out)@ + joined(self@.name, self@),
    {
        let name = chars_of(self.name.as_str());
        let sha1 = chars_of(self.sha1.as_str());
        let sha1_block = chars_of(self.sha1_block.as_str());
        push_all(out, name.as_slice());
        out.push('|');
        push_decimal(out, self.size);
        out.push('|');
        push_all(out, sha1.as_slice());
        out.push('|');
        push_all(out, sha1_block.as_slice());
        assert(out@ =~= old(out)@ + joined(self@.name, self@));
    }

    /// The record as the characters of a line of a link file.
    pub fn link_chars(&self) -> (v: Vec<char>)
        ensures
            v@ == self@.link(),
    {
        let mut out: Vec<char> = vec!['1', '1', '5', ':', '/', '/'];
        assert(out@ =~= scheme());
        self.push_joined(&mut out);
        out
    }

    /// The record as a line of a link file: the scheme, then the name, the
    /// size and the two digests with a bar between them.
    pub fn to_sha1_link(&self) -> (s: String)
        ensures
            s@ == self@.link(),
    {
        let out = self.link_chars();
        string_of(out.as_slice())
    }

    /// The record as a leaf of a tree document: the four fields with a bar
    /// between them, and no scheme in front.
    pub fn to_embedded(&self) -> (s: String)
        ensures
            s@ == self@.embedded(),
    {
        let mut out: Vec<char> = Vec::new();
        self.push_joined(&mut out);
        assert(out@ =~= joined(self@.name, self@));
        let prefix: Vec<char> = vec!['1', '1', '5', ':', '/', '/'];
        assert(prefix@ =~= scheme());
        if starts_with(out.as_slice(), prefix.as_slice()) {
            let rest = tail_of(out.as_slice(), 6);
            string_of(rest.as_slice())
        } else {
            string_of(out.as_slice())
        }
    }

    /// The key by which duplicates are found, written as one string: the
    /// size, then the two digests.
    pub fn unique_key(&self) -> (s: String)
        ensures
            s@ == self@.key_text(),
    {
        let sha1 = chars_of(self.sha1.as_str());
        let sha1_block = chars_of(self.sha1_block.as_str());
        let mut out: Vec<char> = Vec::new();
        push_decimal(&mut out, self.size);
        push_all(&mut out, sha1.as_slice());
        push_all(&mut out, sha1_block.as_slice());
        assert(out@ =~= self@.key_text());
        string_of(out.as_slice())
    }

    /// Whether two records are the same file: equal size and equal digests.
    pub fn same_file(&self, other: &FileRepr) -> (b: bool)
        ensures
            b == (self@.key() == other@.key()),
    {
        self.size == other.size && self.sha1 == other.sha1 && self.sha1_block
            == other.sha1_block
    }

    /// The name of the file.
    pub fn name(&self) -> (s: &String)
        ensures
            s@ == self@.name,
    {
        &self.name
    }

    /// The size of the file in bytes.
    pub fn size(&self) -> (n: u64)
        ensures
            n == self@.size,
    {
        self.size
    }

    /// The digest of the whole file.
    pub fn sha1(&self) -> (s: &String)
        ensures
            s@ == self@.sha1,
    {
        &self.sha1
    }

    /// The digest of the first block of the file.
    pub fn sha1_block(&self) -> (s: &String)
        ensures
            s@ == self@.sha1_block,
    {
        &self.sha1_block
    }
}

} // verus!
