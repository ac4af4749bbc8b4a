use crate::text::{decimal, digit_char};
use vstd::prelude::*;

verus! {

/// A bencoded value. A dictionary holds its entries in the order in which
/// they were written.
#[derive(Debug)]
pub enum BValue {
    Int(i64),
    Bytes(Vec<u8>),
    List(Vec<BValue>),
    Dict(Vec<(Vec<u8>, BValue)>),
}

/// What a `BValue` holds.
pub enum Bencode {
    Int(int),
    Bytes(Seq<u8>),
    List(Seq<Bencode>),
    Dict(Seq<(Seq<u8>, Bencode)>),
}

/// How deep lists and dictionaries may be nested in what is decoded.
pub const MAX_DEPTH: usize = 64;

/// How many values stand right inside `v`.
spec fn children(v: BValue) -> nat {
    match v {
        BValue::List(items) => items@.len(),
        BValue::Dict(entries) => entries@.len(),
        _ => 0,
    }
}

/// What the value `v` holds.
spec fn value_of(v: BValue) -> Bencode
    decreases v, children(v) + 1,
{
    match v {
        BValue::Int(i) => Bencode::Int(i as int),
        BValue::Bytes(b) => Bencode::Bytes(b@),
        BValue::List(items) => Bencode::List(first_items(v, items@.len())),
        BValue::Dict(entries) => Bencode::Dict(first_entries(v, entries@.len())),
    }
}

/// What the first `n` items of the list `v` hold.
spec fn first_items(v: BValue, n: nat) -> Seq<Bencode>
    decreases v, n,
{
    match v {
        BValue::List(items) => if n == 0 || n > items@.len() {
            Seq::empty()
        } else {
            first_items(v, (n - 1) as nat).push(value_of(items@[n - 1]))
        },
        _ => Seq::empty(),
    }
}

/// What the first `n` entries of the dictionary `v` hold.
spec fn first_entries(v: BValue, n: nat) -> Seq<(Seq<u8>, Bencode)>
    decreases v, n,
{
    match v {
        BValue::Dict(entries) => if n == 0 || n > entries@.len() {
            Seq::empty()
        } else {
            first_entries(v, (n - 1) as nat).push(
                (entries@[n - 1].0@, value_of(entries@[n - 1].1)),
            )
        },
        _ => Seq::empty(),
    }
}

impl View for BValue {
    type V = Bencode;

    closed spec fn view(&self) -> Bencode {
        value_of(*self)
    }
}

/// What each of `items` holds.
pub open spec fn value_views(items: Seq<BValue>) -> Seq<Bencode> {
    items.map_values(|v: BValue| v@)
}

/// What each of `entries` holds.
pub open spec fn entry_views(entries: Seq<(Vec<u8>, BValue)>) -> Seq<(Seq<u8>, Bencode)> {
    entries.map_values(|e: (Vec<u8>, BValue)| (e.0@, e.1@))
}

/// The first items of a list are the start of what its items hold.
proof fn lemma_first_items(v: BValue, n: nat)
    requires
        v is List,
        n <= v->List_0@.len(),
    ensures
        first_items(v, n) == value_views(v->List_0@).take(n as int),
    decreases n,
{
    if n > 0 {
        lemma_first_items(v, (n - 1) as nat);
    }
    assert(first_items(v, n) =~= value_views(v->List_0@).take(n as int));
}

/// The first entries of a dictionary are the start of what its entries hold.
proof fn lemma_first_entries(v: BValue, n: nat)
    requires
        v is Dict,
        n <= v->Dict_0@.len(),
    ensures
        first_entries(v, n) == entry_views(v->Dict_0@).take(n as int),
    decreases n,
{
    if n > 0 {
        lemma_first_entries(v, (n - 1) as nat);
    }
    assert(first_entries(v, n) =~= entry_views(v->Dict_0@).take(n as int));
}

/// What a value holds, by its kind.
pub proof fn lemma_view(v: BValue)
    ensures
        v@ == (match v {
            BValue::Int(i) => Bencode::Int(i as int),
            BValue::Bytes(b) => Bencode::Bytes(b@),
            BValue::List(items) => Bencode::List(value_views(items@)),
            BValue::Dict(entries) => Bencode::Dict(entry_views(entries@)),
        }),
{
    match v {
        BValue::List(items) => {
            lemma_first_items(v, items@.len());
            assert(value_views(items@).take(items@.len() as int) =~= value_views(items@));
        },
        BValue::Dict(entries) => {
            lemma_first_entries(v, entries@.len());
            assert(entry_views(entries@).take(entries@.len() as int) =~= entry_views(entries@));
        },
        _ => {},
    }
}

/// Whether `b` is the code of a decimal digit.
pub open spec fn is_digit_byte(b: u8) -> bool {
    48 <= b <= 57
}

/// Where the run of digits that starts at `pos` ends.
pub open spec fn digits_end(s: Seq<u8>, pos: int) -> int
    decreases s.len() - pos,
{
    if 0 <= pos < s.len() && is_digit_byte(s[pos]) {
        digits_end(s, pos + 1)
    } else {
        pos
    }
}

/// The number that the digits of `s` from `from` up to `to` stand for.
pub open spec fn number(s: Seq<u8>, from: int, to: int) -> nat
    decreases to - from,
{
    if to <= from || to > s.len() || from < 0 {
        0
    } else {
        number(s, from, to - 1) * 10 + (s[to - 1] - 48) as nat
    }
}

/// Whether the digits from `from` up to `to` are a number as it must be
/// written: at least one digit, and no zero in front of another digit.
pub open spec fn is_plain_number(s: Seq<u8>, from: int, to: int) -> bool {
    0 <= from < to <= s.len() && (s[from] != 48 || to == from + 1)
}

/// The integer written at `pos`, where an `i` stands, and where it ends.
pub open spec fn parse_int(s: Seq<u8>, pos: int) -> Option<(int, int)> {
    let negative = pos + 1 < s.len() && s[pos + 1] == 45;
    let from = if negative {
        pos + 2
    } else {
        pos + 1
    };
    let to = digits_end(s, from);
    let n = number(s, from, to);
    if is_plain_number(s, from, to) && to < s.len() && s[to] == 101 {
        if negative {
            if n != 0 && n <= 0x8000_0000_0000_0000 {
                Some((-(n as int), to + 1))
            } else {
                None
            }
        } else if n <= 0x7fff_ffff_ffff_ffff {
            Some((n as int, to + 1))
        } else {
            None
        }
    } else {
        None
    }
}

/// The byte string written at `pos`, where its length stands, and where it ends.
pub open spec fn parse_bytes(s: Seq<u8>, pos: int) -> Option<(Seq<u8>, int)> {
    let to = digits_end(s, pos);
    let n = number(s, pos, to);
    if is_plain_number(s, pos, to) && to < s.len() && s[to] == 58 && to + 1 + n <= s.len() {
        Some((s.subrange(to + 1, to + 1 + n), to + 1 + n))
    } else {
        None
    }
}

/// The value written at `pos` and where it ends, with lists and
/// dictionaries nested no deeper than `depth`.
pub open spec fn parse_value(s: Seq<u8>, pos: int, depth: nat) -> Option<(Bencode, int)>
    decreases depth, s.len() - pos, 0nat,
{
    if depth == 0 || pos < 0 || pos >= s.len() {
        None
    } else if s[pos] == 105 {
        match parse_int(s, pos) {
            Some((i, end)) => Some((Bencode::Int(i), end)),
            None => None,
        }
    } else if s[pos] == 108 {
        match parse_list(s, pos + 1, (depth - 1) as nat, Seq::empty()) {
            Some((items, end)) => Some((Bencode::List(items), end)),
            None => None,
        }
    } else if s[pos] == 100 {
        match parse_dict(s, pos + 1, (depth - 1) as nat, Seq::empty()) {
            Some((entries, end)) => Some((Bencode::Dict(entries), end)),
            None => None,
        }
    } else {
        match parse_bytes(s, pos) {
            Some((b, end)) => Some((Bencode::Bytes(b), end)),
            None => None,
        }
    }
}

/// The rest of a list from `pos` on, after the items `done`, and where the
/// list ends.
pub open spec fn parse_list(s: Seq<u8>, pos: int, depth: nat, done: Seq<Bencode>) -> Option<
    (Seq<Bencode>, int),
>
    decreases depth, s.len() - pos, 1nat,
{
    if pos < 0 || pos >= s.len() {
        None
    } else if s[pos] == 101 {
        Some((done, pos + 1))
    } else {
        match parse_value(s, pos, depth) {
            Some((v, next)) => if pos < next <= s.len() {
                parse_list(s, next, depth, done.push(v))
            } else {
                None
            },
            None => None,
        }
    }
}

/// The rest of a dictionary from `pos` on, after the entries `done`, and
/// where the dictionary ends. A key is a byte string.
pub open spec fn parse_dict(
    s: Seq<u8>,
    pos: int,
    depth: nat,
    done: Seq<(Seq<u8>, Bencode)>,
) -> Option<(Seq<(Seq<u8>, Bencode)>, int)>
    decreases depth, s.len() - pos, 1nat,
{
    if pos < 0 || pos >= s.len() {
        None
    } else if s[pos] == 101 {
        Some((done, pos + 1))
    } else {
        match parse_bytes(s, pos) {
            Some((key, mid)) => match parse_value(s, mid, depth) {
                Some((v, next)) => if pos < mid < next <= s.len() {
                    parse_dict(s, next, depth, done.push((key, v)))
                } else {
                    None
                },
                None => None,
            },
            None => None,
        }
    }
}

/// The value that `s` is the encoding of: the one written at its start,
/// where nothing follows it.
pub open spec fn decoded(s: Seq<u8>) -> Option<Bencode> {
    match parse_value(s, 0, MAX_DEPTH as nat) {
        Some((v, end)) => if end == s.len() {
            Some(v)
        } else {
            None
        },
        None => None,
    }
}

/// Why bytes are not the metainfo of a torrent.
#[derive(Debug, Clone, Copy, PartialEq, Eq)]
pub enum TorrentError {
    /// The bytes are cut short, or are not an encoding at all.
    BencodeError,
    /// The dictionary has no entry called `info`.
    MissingInfoDict,
    /// The info is longer than a digest can be made of.
    TooLong,
}

/// Reads the run of digits that starts at `from`: where it ends, and the
/// number it stands for if 64 bits hold it.
fn read_number(s: &[u8], from: usize) -> (r: (usize, Option<u64>))
    requires
        from <= s.len(),
    ensures
        r.0 == digits_end(s@, from as int),
        from <= r.0 <= s.len(),
        match r.1 {
            Some(n) => n == number(s@, from as int, r.0 as int),
            None => number(s@, from as int, r.0 as int) > u64::MAX,
        },
{
    let mut i: usize = from;
    let mut acc: Option<u64> = Some(0);
    while i < s.len() && 48 <= s[i] && s[i] <= 57
        invariant
            from <= i <= s.len(),
            digits_end(s@, from as int) == digits_end(s@, i as int),
            match acc {
                Some(n) => n == number(s@, from as int, i as int),
                None => number(s@, from as int, i as int) > u64::MAX,
            },
        decreases s.len() - i,
    {
        let d: u64 = (s[i] - 48) as u64;
        acc = match acc {
            Some(n) => if n > (u64::MAX - d) / 10 {
                None
            } else {
                Some(n * 10 + d)
            },
            None => None,
        };
        i += 1;
    }
    (i, acc)
}

/// The bytes of `s` from `from` up to `to`.
fn copy_range(s: &[u8], from: usize, to: usize) -> (v: Vec<u8>)
    requires
        from <= to <= s.len(),
    ensures
        v@ == s@.subrange(from as int, to as int),
{
    let mut v: Vec<u8> = Vec::new();
    let mut i: usize = from;
    while i < to
        invariant
            from <= i <= to <= s.len(),
            v@ == s@.subrange(from as int, i as int),
        decreases to - i,
    {
        v.push(s[i]);
        assert(v@ =~= s@.subrange(from as int, i + 1));
        i += 1;
    }
    v
}

/// Reads the integer at `pos`, where an `i` stands.
fn read_int(s: &[u8], pos: usize) -> (r: Option<(i64, usize)>)
    requires
        pos < s.len(),
    ensures
        match r {
            Some((i, end)) => parse_int(s@, pos as int) == Some((i as int, end as int)) && pos
                < end <= s.len(),
            None => parse_int(s@, pos as int) is None,
        },
{
    let negative = pos + 1 < s.len() && s[pos + 1] == 45;
    let from: usize = if negative {
        pos + 2
    } else {
        pos + 1
    };
    let (to, n) = read_number(s, from);
    if !(from < to && (s[from] != 48 || to == from + 1)) {
        return None;
    }
    if !(to < s.len() && s[to] == 101) {
        return None;
    }
    match n {
        None => None,
        Some(n) => {
            if negative {
                if n == 0 || n > 0x8000_0000_0000_0000 {
                    None
                } else {
                    let i: i64 = (0 - (n as i128)) as i64;
                    Some((i, to + 1))
                }
            } else if n > 0x7fff_ffff_ffff_ffff {
                None
            } else {
                Some((n as i64, to + 1))
            }
        },
    }
}

/// Reads the byte string at `pos`.
fn read_bytes(s: &[u8], pos: usize) -> (r: Option<(Vec<u8>, usize)>)
    requires
        pos < s.len(),
    ensures
        match r {
            Some((b, end)) => parse_bytes(s@, pos as int) == Some((b@, end as int)) && pos < end
                <= s.len(),
            None => parse_bytes(s@, pos as int) is None,
        },
{
    let (to, n) = read_number(s, pos);
    if !(pos < to && (s[pos] != 48 || to == pos + 1)) {
        return None;
    }
    if !(to < s.len() && s[to] == 58) {
        return None;
    }
    match n {
        None => None,
        Some(n) => {
            if n > (s.len() - (to + 1)) as u64 {
                None
            } else {
                let end: usize = to + 1 + n as usize;
                Some((copy_range(s, to + 1, end), end))
            }
        },
    }
}

/// Reads the value at `pos`, with lists and dictionaries nested no deeper
/// than `depth`.
fn read_value(s: &[u8], pos: usize, depth: usize) -> (r: Option<(BValue, usize)>)
    ensures
        match r {
            Some((v, end)) => parse_value(s@, pos as int, depth as nat) == Some(
                (v@, end as int),
            ) && pos < end <= s.len(),
            None => parse_value(s@, pos as int, depth as nat) is None,
        },
    decreases depth, s.len() - pos,
{
    if depth == 0 || pos >= s.len() {
        return None;
    }
    let tag = s[pos];
    if tag == 105 {
        match read_int(s, pos) {
            Some((i, end)) => {
                proof {
                    lemma_view(BValue::Int(i));
                }
                Some((BValue::Int(i), end))
            },
            None => None,
        }
    } else if tag == 108 {
        let mut items: Vec<BValue> = Vec::new();
        let mut p: usize = pos + 1;
        assert(value_views(items@) =~= Seq::<Bencode>::empty());
        loop
            invariant
                pos < p <= s.len(),
                depth > 0,
                s@[pos as int] == 108,
                parse_list(s@, pos + 1, (depth - 1) as nat, Seq::empty()) == parse_list(
                    s@,
                    p as int,
                    (depth - 1) as nat,
                    value_views(items@),
                ),
            decreases s.len() - p,
        {
            if p >= s.len() {
                return None;
            }
            if s[p] == 101 {
                let v = BValue::List(items);
                proof {
                    lemma_view(v);
                }
                return Some((v, p + 1));
            }
            match read_value(s, p, depth - 1) {
                Some((v, next)) => {
                    let ghost before = value_views(items@);
                    items.push(v);
                    assert(value_views(items@) =~= before.push(v@));
                    p = next;
                },
                None => {
                    return None;
                },
            }
        }
    } else if tag == 100 {
        let mut entries: Vec<(Vec<u8>, BValue)> = Vec::new();
        let mut p: usize = pos + 1;
        assert(entry_views(entries@) =~= Seq::<(Seq<u8>, Bencode)>::empty());
        loop
            invariant
                pos < p <= s.len(),
                depth > 0,
                s@[pos as int] == 100,
                parse_dict(s@, pos + 1, (depth - 1) as nat, Seq::empty()) == parse_dict(
                    s@,
                    p as int,
                    (depth - 1) as nat,
                    entry_views(entries@),
                ),
            decreases s.len() - p,
        {
            if p >= s.len() {
                return None;
            }
            if s[p] == 101 {
                let v = BValue::Dict(entries);
                proof {
                    lemma_view(v);
                }
                return Some((v, p + 1));
            }
            let (key, mid) = match read_bytes(s, p) {
                Some(found) => found,
                None => {
                    return None;
                },
            };
            match read_value(s, mid, depth - 1) {
                Some((v, next)) => {
                    let ghost before = entry_views(entries@);
                    entries.push((key, v));
                    assert(entry_views(entries@) =~= before.push((key@, v@)));
                    p = next;
                },
                None => {
                    return None;
                },
            }
        }
    } else {
        match read_bytes(s, pos) {
            Some((b, end)) => {
                proof {
                    lemma_view(BValue::Bytes(b));
                }
                Some((BValue::Bytes(b), end))
            },
            None => None,
        }
    }
}

/// Decodes `bytes` as one bencoded value. Bytes that are cut short, that
/// are no encoding, or that go on after the value are refused.
pub fn decode(bytes: &[u8]) -> (r: Result<BValue, TorrentError>)
    ensures
        match r {
            Ok(v) => decoded(bytes@) == Some(v@),
            Err(e) => e == TorrentError::BencodeError && decoded(bytes@) is None,
        },
{
    match read_value(bytes, 0, MAX_DEPTH) {
        Some((v, end)) => {
            if end == bytes.len() {
                Ok(v)
            } else {
                Err(TorrentError::BencodeError)
            }
        },
        None => Err(TorrentError::BencodeError),
    }
}

/// The decimal notation of `n`, as bytes.
pub open spec fn digits(n: nat) -> Seq<u8> {
    decimal(n).map_values(|c: char| c as u8)
}

/// The encoding of an integer.
pub open spec fn enc_int(i: int) -> Seq<u8> {
    if i < 0 {
        seq![105u8, 45u8] + digits((-i) as nat) + seq![101u8]
    } else {
        seq![105u8] + digits(i as nat) + seq![101u8]
    }
}

/// The encoding of a byte string.
pub open spec fn enc_bytes(b: Seq<u8>) -> Seq<u8> {
    digits(b.len()) + seq![58u8] + b
}

/// How many values stand right inside `v`.
pub open spec fn width(v: Bencode) -> nat {
    match v {
        Bencode::List(items) => items.len(),
        Bencode::Dict(entries) => entries.len(),
        _ => 0,
    }
}

/// The encoding of a value. The entries of a dictionary are written in the
/// order in which it holds them.
pub open spec fn encoded(v: Bencode) -> Seq<u8>
    decreases v, width(v) + 1,
{
    match v {
        Bencode::Int(i) => enc_int(i),
        Bencode::Bytes(b) => enc_bytes(b),
        Bencode::List(_) => seq![108u8] + encoded_from(v, 0) + seq![101u8],
        Bencode::Dict(_) => seq![100u8] + encoded_from(v, 0) + seq![101u8],
    }
}

/// The encodings of what stands inside `v` from place `from` on, one after
/// the other.
pub open spec fn encoded_from(v: Bencode, from: nat) -> Seq<u8>
    decreases v, width(v) - from,
{
    if from >= width(v) {
        Seq::empty()
    } else {
        match v {
            Bencode::List(items) => encoded(items[from as int]) + encoded_from(v, from + 1),
            Bencode::Dict(entries) => enc_bytes(entries[from as int].0) + encoded(
                entries[from as int].1,
            ) + encoded_from(v, from + 1),
            _ => Seq::empty(),
        }
    }
}

/// A run of digits ends where it says, and holds digits only.
proof fn lemma_digits_end(s: Seq<u8>, pos: int)
    requires
        0 <= pos <= s.len(),
    ensures
        pos <= digits_end(s, pos) <= s.len(),
        forall|i: int| pos <= i < digits_end(s, pos) ==> is_digit_byte(#[trigger] s[i]),
    decreases s.len() - pos,
{
    if pos < s.len() && is_digit_byte(s[pos]) {
        lemma_digits_end(s, pos + 1);
    }
}

/// A number written plainly is written as its decimal notation.
proof fn lemma_number_digits(s: Seq<u8>, from: int, to: int)
    requires
        is_plain_number(s, from, to),
        forall|i: int| from <= i < to ==> is_digit_byte(#[trigger] s[i]),
    ensures
        digits(number(s, from, to)) == s.subrange(from, to),
        to > from + 1 ==> number(s, from, to) > 0,
    decreases to - from,
{
    let d = (s[to - 1] - 48) as nat;
    assert(is_digit_byte(s[to - 1]));
    assert(digit_char(d) as u8 == s[to - 1]);
    if to == from + 1 {
        assert(number(s, from, to - 1) == 0);
        assert(digits(d) =~= s.subrange(from, to));
    } else {
        assert(s[from] != 48);
        assert(is_digit_byte(s[from]));
        if to - 1 == from + 1 {
            assert(number(s, from, from) == 0);
            assert(number(s, from, to - 1) == (s[from] - 48) as nat);
        }
        lemma_number_digits(s, from, to - 1);
        let n = number(s, from, to - 1);
        assert(n > 0);
        let m = n * 10 + d;
        assert(m / 10 == n && m % 10 == d);
        assert(decimal(m) == decimal(n).push(digit_char(d)));
        assert(digits(m) =~= digits(n).push(s[to - 1]));
        assert(s.subrange(from, to) =~= s.subrange(from, to - 1).push(s[to - 1]));
    }
}

/// An integer that is read is written as its encoding.
proof fn lemma_parse_int(s: Seq<u8>, pos: int)
    requires
        0 <= pos < s.len(),
        s[pos] == 105,
        parse_int(s, pos) is Some,
    ensures
        pos < (parse_int(s, pos)->0).1 <= s.len(),
        s.subrange(pos, (parse_int(s, pos)->0).1) == enc_int((parse_int(s, pos)->0).0),
{
    let negative = pos + 1 < s.len() && s[pos + 1] == 45;
    let from = if negative {
        pos + 2
    } else {
        pos + 1
    };
    let to = digits_end(s, from);
    lemma_digits_end(s, from);
    lemma_number_digits(s, from, to);
    let n = number(s, from, to);
    if negative {
        assert(s.subrange(pos, to + 1) =~= seq![105u8, 45u8] + s.subrange(from, to) + seq![101u8]);
    } else {
        assert(s.subrange(pos, to + 1) =~= seq![105u8] + s.subrange(from, to) + seq![101u8]);
    }
}

/// A byte string that is read is written as its encoding.
proof fn lemma_parse_bytes(s: Seq<u8>, pos: int)
    requires
        0 <= pos < s.len(),
        parse_bytes(s, pos) is Some,
    ensures
        pos < (parse_bytes(s, pos)->0).1 <= s.len(),
        s.subrange(pos, (parse_bytes(s, pos)->0).1) == enc_bytes((parse_bytes(s, pos)->0).0),
{
    let to = digits_end(s, pos);
    lemma_digits_end(s, pos);
    lemma_number_digits(s, pos, to);
    let n = number(s, pos, to);
    let b = s.subrange(to + 1, to + 1 + n);
    assert(s.subrange(pos, to + 1 + n) =~= s.subrange(pos, to) + seq![58u8] + b);
}

/// A value that is read is written as its encoding: what is decoded from
/// bytes is encoded as these bytes.
pub proof fn lemma_parse_value(s: Seq<u8>, pos: int, depth: nat)
    requires
        parse_value(s, pos, depth) is Some,
    ensures
        0 <= pos < (parse_value(s, pos, depth)->0).1 <= s.len(),
        s.subrange(pos, (parse_value(s, pos, depth)->0).1) == encoded(
            (parse_value(s, pos, depth)->0).0,
        ),
    decreases depth, s.len() - pos, 0nat,
{
    let (v, end) = parse_value(s, pos, depth)->0;
    if s[pos] == 105 {
        lemma_parse_int(s, pos);
    } else if s[pos] == 108 {
        lemma_parse_list(s, pos + 1, (depth - 1) as nat, Seq::empty());
        assert(s.subrange(pos, end) =~= seq![108u8] + s.subrange(pos + 1, end));
        assert(encoded(v) =~= seq![108u8] + (encoded_from(v, 0) + seq![101u8]));
    } else if s[pos] == 100 {
        lemma_parse_dict(s, pos + 1, (depth - 1) as nat, Seq::empty());
        assert(s.subrange(pos, end) =~= seq![100u8] + s.subrange(pos + 1, end));
        assert(encoded(v) =~= seq![100u8] + (encoded_from(v, 0) + seq![101u8]));
    } else {
        lemma_parse_bytes(s, pos);
    }
}

/// The rest of a list that is read is written as the encodings of the
/// items that follow those already read, and the end mark.
proof fn lemma_parse_list(s: Seq<u8>, pos: int, depth: nat, done: Seq<Bencode>)
    requires
        parse_list(s, pos, depth, done) is Some,
    ensures
        0 <= pos < (parse_list(s, pos, depth, done)->0).1 <= s.len(),
        (parse_list(s, pos, depth, done)->0).0.len() >= done.len(),
        (parse_list(s, pos, depth, done)->0).0.take(done.len() as int) == done,
        s.subrange(pos, (parse_list(s, pos, depth, done)->0).1) == encoded_from(
            Bencode::List((parse_list(s, pos, depth, done)->0).0),
            done.len(),
        ) + seq![101u8],
    decreases depth, s.len() - pos, 1nat,
{
    let (items, end) = parse_list(s, pos, depth, done)->0;
    if s[pos] == 101 {
        assert(done.take(done.len() as int) =~= done);
        assert(s.subrange(pos, pos + 1) =~= seq![101u8]);
        assert(encoded_from(Bencode::List(items), done.len()) =~= Seq::<u8>::empty());
    } else {
        let (v, next) = parse_value(s, pos, depth)->0;
        lemma_parse_value(s, pos, depth);
        lemma_parse_list(s, next, depth, done.push(v));
        assert(items.take(done.len() as int) =~= items.take(done.len() as int + 1).take(
            done.len() as int,
        ));
        assert(items[done.len() as int] == done.push(v)[done.len() as int]);
        assert(s.subrange(pos, end) =~= s.subrange(pos, next) + s.subrange(next, end));
        assert(encoded_from(Bencode::List(items), done.len()) + seq![101u8] =~= encoded(v) + (
        encoded_from(Bencode::List(items), done.len() + 1) + seq![101u8]));
    }
}

/// The rest of a dictionary that is read is written as the encodings of
/// the entries that follow those already read, and the end mark.
proof fn lemma_parse_dict(s: Seq<u8>, pos: int, depth: nat, done: Seq<(Seq<u8>, Bencode)>)
    requires
        parse_dict(s, pos, depth, done) is Some,
    ensures
        0 <= pos < (parse_dict(s, pos, depth, done)->0).1 <= s.len(),
        (parse_dict(s, pos, depth, done)->0).0.len() >= done.len(),
        (parse_dict(s, pos, depth, done)->0).0.take(done.len() as int) == done,
        s.subrange(pos, (parse_dict(s, pos, depth, done)->0).1) == encoded_from(
            Bencode::Dict((parse_dict(s, pos, depth, done)->0).0),
            done.len(),
        ) + seq![101u8],
    decreases depth, s.len() - pos, 1nat,
{
    let (entries, end) = parse_dict(s, pos, depth, done)->0;
    if s[pos] == 101 {
        assert(done.take(done.len() as int) =~= done);
        assert(s.subrange(pos, pos + 1) =~= seq![101u8]);
        assert(encoded_from(Bencode::Dict(entries), done.len()) =~= Seq::<u8>::empty());
    } else {
        let (key, mid) = parse_bytes(s, pos)->0;
        lemma_parse_bytes(s, pos);
        let (v, next) = parse_value(s, mid, depth)->0;
        lemma_parse_value(s, mid, depth);
        lemma_parse_dict(s, next, depth, done.push((key, v)));
        assert(entries.take(done.len() as int) =~= entries.take(done.len() as int + 1).take(
            done.len() as int,
        ));
        assert(entries[done.len() as int] == done.push((key, v))[done.len() as int]);
        assert(s.subrange(pos, end) =~= s.subrange(pos, mid) + s.subrange(mid, next)
            + s.subrange(next, end));
        assert(encoded_from(Bencode::Dict(entries), done.len()) + seq![101u8] =~= enc_bytes(key)
            + encoded(v) + (encoded_from(Bencode::Dict(entries), done.len() + 1) + seq![
            101u8,
        ]));
    }
}

/// What is decoded from bytes is encoded as exactly these bytes.
pub proof fn lemma_decoded_encodes(bytes: Seq<u8>)
    requires
        decoded(bytes) is Some,
    ensures
        encoded(decoded(bytes)->0) == bytes,
{
    lemma_parse_value(bytes, 0, MAX_DEPTH as nat);
    assert(bytes.subrange(0, bytes.len() as int) =~= bytes);
}

} // verus!
