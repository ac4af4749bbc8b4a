use crate::record::{parsed_record, FileRepr, LinkError, Record};
use crate::text::string_views;
use crate::tree::record_views;
use vstd::prelude::*;

verus! {

/// Whether one of `rs` has the key `k`.
pub open spec fn has_key(rs: Seq<Record>, k: (u64, Seq<char>, Seq<char>)) -> bool {
    exists|i: int| 0 <= i < rs.len() && (#[trigger] rs[i]).key() == k
}

/// `rs` without the records whose key an earlier record has: of the records
/// with one key the first stays, where it stood.
pub open spec fn deduped(rs: Seq<Record>) -> Seq<Record>
    decreases rs.len(),
{
    if rs.len() == 0 {
        Seq::empty()
    } else if has_key(rs.drop_last(), rs.last().key()) {
        deduped(rs.drop_last())
    } else {
        deduped(rs.drop_last()).push(rs.last())
    }
}

/// Whether no two of `rs` have the same key.
pub open spec fn distinct_keys(rs: Seq<Record>) -> bool {
    forall|i: int, j: int|
        0 <= i < j < rs.len() ==> (#[trigger] rs[i]).key() != (#[trigger] rs[j]).key()
}

/// Removing duplicates loses no key and adds none.
pub proof fn lemma_deduped_keys(rs: Seq<Record>, k: (u64, Seq<char>, Seq<char>))
    ensures
        has_key(deduped(rs), k) <==> has_key(rs, k),
    decreases rs.len(),
{
    if rs.len() > 0 {
        let init = rs.drop_last();
        lemma_deduped_keys(init, k);
        lemma_deduped_keys(init, rs.last().key());
        if has_key(rs, k) {
            let i = choose|i: int| 0 <= i < rs.len() && (#[trigger] rs[i]).key() == k;
            if i < rs.len() - 1 {
                assert(init[i].key() == k);
            }
            if has_key(init, k) {
                let j = choose|j: int|
                    0 <= j < deduped(init).len() && (#[trigger] deduped(init)[j]).key() == k;
                assert(deduped(rs)[j].key() == k);
            } else {
                assert(i == rs.len() - 1);
                assert(deduped(rs).last().key() == k);
            }
        }
        if has_key(deduped(rs), k) {
            let j = choose|j: int|
                0 <= j < deduped(rs).len() && (#[trigger] deduped(rs)[j]).key() == k;
            if j < deduped(init).len() {
                assert(deduped(init)[j].key() == k);
                let i = choose|i: int| 0 <= i < init.len() && (#[trigger] init[i]).key() == k;
                assert(rs[i].key() == k);
            } else {
                assert(rs[rs.len() - 1].key() == k);
            }
        }
    }
}

/// What is left after duplicates are removed holds no key twice.
pub proof fn lemma_deduped_distinct(rs: Seq<Record>)
    ensures
        distinct_keys(deduped(rs)),
    decreases rs.len(),
{
    if rs.len() > 0 {
        let init = rs.drop_last();
        lemma_deduped_distinct(init);
        lemma_deduped_keys(init, rs.last().key());
        if !has_key(init, rs.last().key()) {
            let d = deduped(rs);
            assert forall|i: int, j: int| 0 <= i < j < d.len() implies (#[trigger] d[i]).key() != (
            #[trigger] d[j]).key() by {
                if j == d.len() - 1 {
                    assert(deduped(init)[i].key() == d[i].key());
                } else {
                    assert(deduped(init)[i].key() == d[i].key());
                    assert(deduped(init)[j].key() == d[j].key());
                }
            }
        }
    }
}

/// Records that hold no key twice have no duplicates to remove.
pub proof fn lemma_deduped_of_distinct(rs: Seq<Record>)
    requires
        distinct_keys(rs),
    ensures
        deduped(rs) == rs,
    decreases rs.len(),
{
    if rs.len() > 0 {
        let init = rs.drop_last();
        assert forall|i: int, j: int| 0 <= i < j < init.len() implies (#[trigger] init[i]).key()
            != (#[trigger] init[j]).key() by {
            assert(init[i] == rs[i] && init[j] == rs[j]);
        }
        lemma_deduped_of_distinct(init);
        if has_key(init, rs.last().key()) {
            let i = choose|i: int| 0 <= i < init.len() && (#[trigger] init[i]).key() == rs.last().key();
            assert(rs[i].key() == rs[rs.len() - 1].key());
        }
        assert(deduped(rs) =~= rs);
    }
}

/// Removing duplicates a second time changes nothing.
pub proof fn lemma_dedup_idempotent(rs: Seq<Record>)
    ensures
        deduped(deduped(rs)) == deduped(rs),
{
    lemma_deduped_distinct(rs);
    lemma_deduped_of_distinct(deduped(rs));
}

/// Every record that stays stood in the input.
pub proof fn lemma_deduped_from_input(rs: Seq<Record>, j: int)
    requires
        0 <= j < deduped(rs).len(),
    ensures
        rs.contains(deduped(rs)[j]),
    decreases rs.len(),
{
    if rs.len() > 0 {
        let init = rs.drop_last();
        if j < deduped(init).len() {
            lemma_deduped_from_input(init, j);
            let i = choose|i: int| 0 <= i < init.len() && init[i] == deduped(init)[j];
            assert(rs[i] == deduped(rs)[j]);
        } else {
            assert(rs[rs.len() - 1] == deduped(rs)[j]);
        }
    }
}

/// Of the records with one key exactly the first stays: where no record
/// before `rs[i]` has its key, `rs[i]` is kept, and every record that is
/// kept with that key is `rs[i]` itself, whatever the names of the others.
pub proof fn lemma_dedup_keeps_first(rs: Seq<Record>, i: int)
    requires
        0 <= i < rs.len(),
        !has_key(rs.take(i), rs[i].key()),
    ensures
        deduped(rs).contains(rs[i]),
        forall|j: int|
            0 <= j < deduped(rs).len() && (#[trigger] deduped(rs)[j]).key() == rs[i].key()
                ==> deduped(rs)[j] == rs[i],
    decreases rs.len(),
{
    let init = rs.drop_last();
    let d = deduped(rs);
    if i == rs.len() - 1 {
        assert(rs.take(i) =~= init);
        assert(d.last() == rs[i]);
        assert forall|j: int| 0 <= j < d.len() && (#[trigger] d[j]).key() == rs[i].key() implies d[j]
            == rs[i] by {
            if j < d.len() - 1 {
                assert(deduped(init)[j].key() == rs[i].key());
                lemma_deduped_keys(init, rs[i].key());
            }
        }
    } else {
        assert(init.take(i) =~= rs.take(i));
        assert(init[i] == rs[i]);
        lemma_dedup_keeps_first(init, i);
        let w = choose|w: int| 0 <= w < deduped(init).len() && deduped(init)[w] == rs[i];
        assert(d[w] == rs[i]);
        assert forall|j: int| 0 <= j < d.len() && (#[trigger] d[j]).key() == rs[i].key() implies d[j]
            == rs[i] by {
            if j < deduped(init).len() {
                assert(deduped(init)[j].key() == rs[i].key());
            } else {
                assert(d[j] == rs.last());
                assert(init[i].key() == rs.last().key());
            }
        }
    }
}

/// Whether `seen` holds a record that is the same file as `item`.
fn holds_key(seen: &Vec<FileRepr>, item: &FileRepr) -> (b: bool)
    ensures
        b == has_key(record_views(seen@), item@.key()),
{
    let mut i: usize = 0;
    while i < seen.len()
        invariant
            i <= seen.len(),
            forall|j: int| 0 <= j < i ==> (#[trigger] record_views(seen@)[j]).key() != item@.key(),
        decreases seen.len() - i,
    {
        if seen[i].same_file(item) {
            assert(record_views(seen@)[i as int].key() == item@.key());
            return true;
        }
        i += 1;
    }
    false
}

/// Removes the records whose size and digests an earlier record has. The
/// records that stay keep their order; names play no part.
pub fn dedup_filerepr_vec(list: Vec<FileRepr>) -> (out: Vec<FileRepr>)
    ensures
        record_views(out@) == deduped(record_views(list@)),
{
    let mut out: Vec<FileRepr> = Vec::new();
    let ghost all = record_views(list@);
    let mut i: usize = 0;
    assert(all.take(0) =~= Seq::<Record>::empty());
    assert(record_views(out@) =~= Seq::<Record>::empty());
    while i < list.len()
        invariant
            i <= list.len(),
            all == record_views(list@),
            record_views(out@) == deduped(all.take(i as int)),
        decreases list.len() - i,
    {
        proof {
            assert(all.take(i + 1).drop_last() =~= all.take(i as int));
            assert(all.take(i + 1).last() == list[i as int]@);
            lemma_deduped_keys(all.take(i as int), list[i as int]@.key());
        }
        if !holds_key(&out, &list[i]) {
            let ghost before = record_views(out@);
            out.push(list[i].clone());
            assert(record_views(out@) =~= before.push(list[i as int]@));
        }
        i += 1;
    }
    assert(all.take(all.len() as int) =~= all);
    out
}

/// Whether a line holds nothing but blanks.
pub open spec fn is_blank(line: Seq<char>) -> bool {
    forall|i: int| 0 <= i < line.len() ==> is_space(#[trigger] line[i])
}

/// Whether `c` is a space, a tab, a line feed, a form feed or a carriage return.
pub open spec fn is_space(c: char) -> bool {
    c == ' ' || c == '\t' || c == '\n' || c == '\x0C' || c == '\r'
}

/// The records that `lines` stand for, in order; lines that are no records
/// are left out.
pub open spec fn records_of(lines: Seq<Seq<char>>) -> Seq<Record>
    decreases lines.len(),
{
    if lines.len() == 0 {
        Seq::empty()
    } else {
        match parsed_record(lines.last()) {
            Some(r) => records_of(lines.drop_last()).push(r),
            None => records_of(lines.drop_last()),
        }
    }
}

/// How many of `lines` are neither blank nor records.
pub open spec fn invalid_lines(lines: Seq<Seq<char>>) -> nat
    decreases lines.len(),
{
    if lines.len() == 0 {
        0
    } else {
        invalid_lines(lines.drop_last()) + if !is_blank(lines.last()) && parsed_record(
            lines.last(),
        ) is None {
            1nat
        } else {
            0nat
        }
    }
}

/// The lines of `lines` that are records whose key no earlier record has.
pub open spec fn deduped_lines(lines: Seq<Seq<char>>) -> Seq<Seq<char>>
    decreases lines.len(),
{
    if lines.len() == 0 {
        Seq::empty()
    } else {
        match parsed_record(lines.last()) {
            Some(r) => if has_key(records_of(lines.drop_last()), r.key()) {
                deduped_lines(lines.drop_last())
            } else {
                deduped_lines(lines.drop_last()).push(lines.last())
            },
            None => deduped_lines(lines.drop_last()),
        }
    }
}

/// Tests whether a line holds nothing but blanks.
pub fn is_blank_line(line: &str) -> (b: bool)
    ensures
        b == is_blank(line@),
{
    let chars = crate::text::chars_of(line);
    let mut i: usize = 0;
    while i < chars.len()
        invariant
            i <= chars.len(),
            chars@ == line@,
            forall|j: int| 0 <= j < i ==> is_space(#[trigger] chars@[j]),
        decreases chars.len() - i,
    {
        let c = chars[i];
        if !(c == ' ' || c == '\t' || c == '\n' || c == '\x0C' || c == '\r') {
            return false;
        }
        i += 1;
    }
    true
}

/// Counts, for the lines of a link file, the records that repeat an earlier
/// one and the lines that are neither blank nor records. Fails where no line
/// is a record.
pub fn check_dup_n_err(lines: &Vec<String>) -> (r: Result<(usize, usize), LinkError>)
    ensures
        match r {
            Ok((dup, bad)) => {
                &&& records_of(string_views(lines@)).len() > 0
                &&& dup == records_of(string_views(lines@)).len() - deduped(
                    records_of(string_views(lines@)),
                ).len()
                &&& bad == invalid_lines(string_views(lines@))
            },
            Err(e) => e == LinkError::EmptyInput && records_of(string_views(lines@)).len() == 0,
        },
{
    let mut list: Vec<FileRepr> = Vec::new();
    let mut bad: usize = 0;
    let mut i: usize = 0;
    let ghost all = string_views(lines@);
    assert(all.take(0) =~= Seq::<Seq<char>>::empty());
    assert(record_views(list@) =~= Seq::<Record>::empty());
    while i < lines.len()
        invariant
            i <= lines.len(),
            all == string_views(lines@),
            record_views(list@) == records_of(all.take(i as int)),
            bad == invalid_lines(all.take(i as int)),
            bad <= i,
            list.len() <= i,
        decreases lines.len() - i,
    {
        proof {
            assert(all.take(i + 1).drop_last() =~= all.take(i as int));
            assert(all.take(i + 1).last() == lines[i as int]@);
        }
        let blank = is_blank_line(lines[i].as_str());
        match FileRepr::from_str(lines[i].as_str()) {
            Ok(file) => {
                let ghost before = record_views(list@);
                list.push(file);
                assert(record_views(list@) =~= before.push(file@));
            },
            Err(_) => {
                if !blank {
                    bad += 1;
                }
            },
        }
        i += 1;
    }
    assert(all.take(all.len() as int) =~= all);
    let origin = list.len();
    if origin == 0 {
        return Err(LinkError::EmptyInput);
    }
    let kept = dedup_filerepr_vec(list);
    proof {
        lemma_deduped_len(records_of(all));
    }
    let after = kept.len();
    Ok((origin - after, bad))
}

/// Removing duplicates never makes the collection longer.
pub proof fn lemma_deduped_len(rs: Seq<Record>)
    ensures
        deduped(rs).len() <= rs.len(),
    decreases rs.len(),
{
    if rs.len() > 0 {
        lemma_deduped_len(rs.drop_last());
    }
}

/// The lines of a link file without those that are no records and without
/// those that repeat an earlier record. The lines that stay are unchanged
/// and keep their order.
pub fn dedup_filerepr_file(lines: &Vec<String>) -> (out: Vec<String>)
    ensures
        string_views(out@) == deduped_lines(string_views(lines@)),
{
    let mut out: Vec<String> = Vec::new();
    let mut seen: Vec<FileRepr> = Vec::new();
    let mut i: usize = 0;
    let ghost all = string_views(lines@);
    assert(all.take(0) =~= Seq::<Seq<char>>::empty());
    assert(record_views(seen@) =~= Seq::<Record>::empty());
    assert(string_views(out@) =~= Seq::<Seq<char>>::empty());
    while i < lines.len()
        invariant
            i <= lines.len(),
            all == string_views(lines@),
            record_views(seen@) == deduped(records_of(all.take(i as int))),
            string_views(out@) == deduped_lines(all.take(i as int)),
        decreases lines.len() - i,
    {
        proof {
            assert(all.take(i + 1).drop_last() =~= all.take(i as int));
            assert(all.take(i + 1).last() == lines[i as int]@);
        }
        match FileRepr::from_str(lines[i].as_str()) {
            Ok(file) => {
                proof {
                    lemma_deduped_keys(records_of(all.take(i as int)), file@.key());
                    assert(records_of(all.take(i + 1)).drop_last() =~= records_of(
                        all.take(i as int),
                    ));
                }
                if !holds_key(&seen, &file) {
                    let ghost before = record_views(seen@);
                    let ghost lines_before = string_views(out@);
                    seen.push(file);
                    out.push(lines[i].clone());
                    assert(record_views(seen@) =~= before.push(file@));
                    assert(string_views(out@) =~= lines_before.push(lines[i as int]@));
                }
            },
            Err(_) => {},
        }
        i += 1;
    }
    assert(all.take(all.len() as int) =~= all);
    out
}

/// The records of `lines` as lines of their own, without the directories.
pub open spec fn stripped(lines: Seq<Seq<char>>) -> Seq<Seq<char>>
    decreases lines.len(),
{
    if lines.len() == 0 {
        Seq::empty()
    } else {
        match parsed_record(lines.last()) {
            Some(r) => stripped(lines.drop_last()).push(r.link()),
            None => stripped(lines.drop_last()),
        }
    }
}

/// Writes each record of `lines` as a line without directories. Lines that
/// are no records are left out.
pub fn line_strip_dir_info(lines: &Vec<String>) -> (out: Vec<String>)
    ensures
        string_views(out@) == stripped(string_views(lines@)),
{
    let mut out: Vec<String> = Vec::new();
    let mut i: usize = 0;
    let ghost all = string_views(lines@);
    assert(all.take(0) =~= Seq::<Seq<char>>::empty());
    assert(string_views(out@) =~= Seq::<Seq<char>>::empty());
    while i < lines.len()
        invariant
            i <= lines.len(),
            all == string_views(lines@),
            string_views(out@) == stripped(all.take(i as int)),
        decreases lines.len() - i,
    {
        proof {
            assert(all.take(i + 1).drop_last() =~= all.take(i as int));
            assert(all.take(i + 1).last() == lines[i as int]@);
        }
        match FileRepr::from_str(lines[i].as_str()) {
            Ok(file) => {
                let ghost before = string_views(out@);
                let line = file.to_sha1_link();
                out.push(line);
                assert(string_views(out@) =~= before.push(file@.link()));
            },
            Err(_) => {},
        }
        i += 1;
    }
    assert(all.take(all.len() as int) =~= all);
    out
}

/// The lines that stay are the lines of the records that stay: reading the
/// lines without duplicates gives the records without duplicates.
pub proof fn lemma_deduped_lines(lines: Seq<Seq<char>>)
    ensures
        records_of(deduped_lines(lines)) == deduped(records_of(lines)),
    decreases lines.len(),
{
    if lines.len() > 0 {
        let init = lines.drop_last();
        lemma_deduped_lines(init);
        match parsed_record(lines.last()) {
            Some(r) => {
                if !has_key(records_of(init), r.key()) {
                    let kept = deduped_lines(init).push(lines.last());
                    assert(kept.drop_last() =~= deduped_lines(init));
                    assert(records_of(lines).drop_last() =~= records_of(init));
                } else {
                    assert(records_of(lines).drop_last() =~= records_of(init));
                }
            },
            None => {},
        }
    }
}

} // verus!
