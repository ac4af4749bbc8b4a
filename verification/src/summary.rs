use crate::record::{parsed_record, FileRepr, LinkError};
use crate::text::{
    chars_of, decimal, lemma_split_nonempty, lines_of, push_decimal, split, split_chars,
    string_of, string_views, text_lines, views,
};
use crate::units::{iec_text, shown, to_iec};
use crate::tree::{entries, entry_views, Entry, Sha1Entity};
use vstd::prelude::*;
use vstd::relations::{sorted_by, total_ordering};
use vstd::seq_lib::lemma_sorted_unique;

verus! {

/// The order of sizes: smaller or equal.
pub open spec fn leq() -> spec_fn(u64, u64) -> bool {
    |a: u64, b: u64| a <= b
}

/// The sizes in ascending order.
pub open spec fn ascending(sizes: Seq<u64>) -> Seq<u64> {
    sizes.sort_by(leq())
}

/// The sum of the sizes.
pub open spec fn total(sizes: Seq<u64>) -> nat
    decreases sizes.len(),
{
    if sizes.len() == 0 {
        0
    } else {
        total(sizes.drop_last()) + sizes.last() as nat
    }
}

/// The figures of a collection of records.
#[derive(Debug)]
pub struct Summary {
    total_size: u64,
    max: u64,
    min: u64,
    mid_low: u64,
    mid_high: u64,
    total_files: u64,
    pub has_folder: bool,
}

/// What a `Summary` holds. The median is held as its double, so that the
/// mean of two sizes needs no fraction.
pub struct Stats {
    pub total_size: u64,
    pub max: u64,
    pub min: u64,
    pub median_twice: nat,
    pub total_files: u64,
    pub has_folder: bool,
}

impl View for Summary {
    type V = Stats;

    closed spec fn view(&self) -> Stats {
        Stats {
            total_size: self.total_size,
            max: self.max,
            min: self.min,
            median_twice: (self.mid_low + self.mid_high) as nat,
            total_files: self.total_files,
            has_folder: self.has_folder,
        }
    }
}

/// The figures of a collection with the given sizes: their sum, the
/// largest and the smallest, the median and the count. The median of an odd
/// number of sizes is the middle one in ascending order; that of an even
/// number is the mean of the two in the middle.
pub open spec fn stats_of(sizes: Seq<u64>, has_folder: bool) -> Stats {
    let sorted = ascending(sizes);
    let n = sizes.len() as int;
    Stats {
        total_size: total(sizes) as u64,
        max: sorted[n - 1],
        min: sorted[0],
        median_twice: (sorted[(n - 1) / 2] + sorted[n / 2]) as nat,
        total_files: sizes.len() as u64,
        has_folder,
    }
}

/// Whether `r` is what a collection with the given sizes comes to: its
/// figures, or the reason why it has none. An empty collection has none,
/// nor has one whose sizes add up to more than 64 bits hold.
pub open spec fn is_summary_of(
    r: Result<Summary, LinkError>,
    sizes: Seq<u64>,
    has_folder: bool,
) -> bool {
    match r {
        Ok(s) => sizes.len() > 0 && total(sizes) <= u64::MAX && s@ == stats_of(sizes, has_folder),
        Err(LinkError::EmptyInput) => sizes.len() == 0,
        Err(LinkError::Overflow) => sizes.len() > 0 && total(sizes) > u64::MAX,
    }
}

/// The sum of some of the sizes is no more than the sum of all.
pub proof fn lemma_total_prefix(sizes: Seq<u64>, k: int)
    requires
        0 <= k <= sizes.len(),
    ensures
        total(sizes.take(k)) <= total(sizes),
    decreases sizes.len() - k,
{
    if k == sizes.len() {
        assert(sizes.take(k) =~= sizes);
    } else {
        lemma_total_prefix(sizes, k + 1);
        assert(sizes.take(k + 1).drop_last() =~= sizes.take(k));
    }
}

/// `slice::sort_unstable` puts the elements in ascending order and neither
/// adds nor loses one.
#[verifier::external_body]
fn sort_sizes(v: &mut Vec<u64>)
    ensures
        sorted_by(final(v)@, leq()),
        final(v)@.to_multiset() == old(v)@.to_multiset(),
{
    v.sort_unstable();
}

impl Summary {
    /// The sum of the sizes.
    pub fn total_size(&self) -> (n: u64)
        ensures
            n == self@.total_size,
    {
        self.total_size
    }

    /// The largest size.
    pub fn max(&self) -> (n: u64)
        ensures
            n == self@.max,
    {
        self.max
    }

    /// The smallest size.
    pub fn min(&self) -> (n: u64)
        ensures
            n == self@.min,
    {
        self.min
    }

    /// Twice the median size.
    pub fn median_twice(&self) -> (n: u128)
        ensures
            n == self@.median_twice,
    {
        self.mid_low as u128 + self.mid_high as u128
    }

    /// The number of records.
    pub fn total_files(&self) -> (n: u64)
        ensures
            n == self@.total_files,
    {
        self.total_files
    }

    /// The figures in words: the count, the sum, the smallest, the largest
    /// and the median size, the sizes in binary units and the median
    /// rounded down.
    pub fn describe(&self) -> (s: String)
        ensures
            s@ == described(self@),
    {
        let mut count: Vec<char> = Vec::new();
        push_decimal(&mut count, self.total_files);
        let count = string_of(count.as_slice());
        let total = to_iec(self.total_size as u128);
        let min = to_iec(self.min as u128);
        let max = to_iec(self.max as u128);
        let mid = to_iec((self.mid_low as u128 + self.mid_high as u128) / 2);
        let mut s = "共 ".to_owned();
        s.append(count.as_str());
        s.append(" 个文件, ");
        s.append(total.as_str());
        s.append("\n最小 ");
        s.append(min.as_str());
        s.append(", 最大 ");
        s.append(max.as_str());
        s.append(", 中位 ");
        s.append(mid.as_str());
        assert(s@ =~= described(self@));
        s
    }
}

/// The figures `s` in words.
pub open spec fn described(s: Stats) -> Seq<char> {
    "共 "@ + decimal(s.total_files as nat) + " 个文件, "@ + shown(iec_text(s.total_size as u128))
        + "\n最小 "@ + shown(iec_text(s.min as u128)) + ", 最大 "@ + shown(
        iec_text(s.max as u128),
    ) + ", 中位 "@ + shown(iec_text((s.median_twice / 2) as u128))
}

/// The figures of a collection of records with the given sizes. There are
/// none for an empty collection, nor where the sizes add up to more than 64
/// bits hold.
pub fn summarize(sizes: Vec<u64>, has_folder: bool) -> (r: Result<Summary, LinkError>)
    ensures
        is_summary_of(r, sizes@, has_folder),
{
    let n = sizes.len();
    if n == 0 {
        return Err(LinkError::EmptyInput);
    }
    let mut sum: u64 = 0;
    let mut i: usize = 0;
    assert(sizes@.take(0) =~= Seq::<u64>::empty());
    while i < n
        invariant
            i <= n == sizes.len(),
            sum == total(sizes@.take(i as int)),
        decreases n - i,
    {
        proof {
            assert(sizes@.take(i + 1).drop_last() =~= sizes@.take(i as int));
            lemma_total_prefix(sizes@, i + 1);
        }
        if sizes[i] > u64::MAX - sum {
            return Err(LinkError::Overflow);
        }
        sum = sum + sizes[i];
        i += 1;
    }
    assert(sizes@.take(n as int) =~= sizes@);
    let mut sorted = sizes.clone();
    assert(sorted@ =~= sizes@);
    sort_sizes(&mut sorted);
    proof {
        assert(total_ordering(leq()));
        sizes@.lemma_sort_by_ensures(leq());
        lemma_sorted_unique(sorted@, ascending(sizes@), leq());
        sizes@.to_multiset_ensures();
        sorted@.to_multiset_ensures();
    }
    Ok(
        Summary {
            total_size: sum,
            max: sorted[n - 1],
            min: sorted[0],
            mid_low: sorted[(n - 1) / 2],
            mid_high: sorted[n / 2],
            total_files: n as u64,
            has_folder,
        },
    )
}

/// The sizes of the records that `lines` stand for, in order.
pub open spec fn sizes_of(lines: Seq<Seq<char>>) -> Seq<u64>
    decreases lines.len(),
{
    if lines.len() == 0 {
        Seq::empty()
    } else {
        match parsed_record(lines.last()) {
            Some(r) => sizes_of(lines.drop_last()).push(r.size),
            None => sizes_of(lines.drop_last()),
        }
    }
}

/// Whether every record of `lines` names at least one directory.
pub open spec fn all_in_folders(lines: Seq<Seq<char>>) -> bool {
    forall|i: int|
        0 <= i < lines.len() && parsed_record(#[trigger] lines[i]) is Some ==> split(
            lines[i],
            '|',
        ).len() > 4
}

/// The sizes of `es`, in order.
pub open spec fn entry_sizes(es: Seq<Entry>) -> Seq<u64> {
    es.map_values(|e: Entry| e.record.size)
}

/// The figures of the records among `lines`. Lines that are no records are
/// left out of every figure.
pub fn line_summary(lines: &Vec<String>) -> (r: Result<Summary, LinkError>)
    ensures
        is_summary_of(r, sizes_of(string_views(lines@)), all_in_folders(string_views(lines@))),
{
    let mut all_size: Vec<u64> = Vec::new();
    let mut has_folder = true;
    let mut i: usize = 0;
    let ghost all = string_views(lines@);
    assert(all.take(0) =~= Seq::<Seq<char>>::empty());
    while i < lines.len()
        invariant
            i <= lines.len(),
            all == string_views(lines@),
            all_size@ == sizes_of(all.take(i as int)),
            has_folder == all_in_folders(all.take(i as int)),
        decreases lines.len() - i,
    {
        proof {
            assert(all.take(i + 1).drop_last() =~= all.take(i as int));
            assert(all.take(i + 1).last() == lines[i as int]@);
        }
        let chars = chars_of(lines[i].as_str());
        let fields = split_chars(chars.as_slice(), '|');
        proof {
            lemma_split_nonempty(lines[i as int]@, '|');
            assert forall|k: int| 0 <= k < fields.len() implies !(#[trigger] fields[k])@.contains(
                '|',
            ) by {
                assert(views(fields@)[k] == fields[k]@);
            }
            assert(views(fields@).len() == fields@.len());
        }
        let ghost before = has_folder;
        match FileRepr::from_fields(&fields) {
            Ok(file) => {
                all_size.push(file.size());
                if fields.len() <= 4 {
                    has_folder = false;
                }
            },
            Err(_) => {},
        }
        proof {
            let now = all.take(i + 1);
            let prev = all.take(i as int);
            assert(now[i as int] == lines[i as int]@);
            if has_folder {
                assert forall|k: int|
                    0 <= k < now.len() && parsed_record(#[trigger] now[k]) is Some implies split(
                    now[k],
                    '|',
                ).len() > 4 by {
                    if k < i {
                        assert(prev[k] == now[k]);
                    }
                }
            } else if before {
                assert(parsed_record(now[i as int]) is Some);
            } else {
                let k = choose|k: int|
                    0 <= k < prev.len() && parsed_record(#[trigger] prev[k]) is Some && !(split(
                        prev[k],
                        '|',
                    ).len() > 4);
                assert(now[k] == prev[k]);
            }
        }
        i += 1;
    }
    assert(all.take(all.len() as int) =~= all);
    summarize(all_size, has_folder)
}

/// The figures of the records in a text of lines.
pub fn line_summary_mem(content: &str) -> (r: Result<Summary, LinkError>)
    ensures
        is_summary_of(
            r,
            sizes_of(text_lines(content@)),
            all_in_folders(text_lines(content@)),
        ),
{
    let lines = lines_of(content);
    line_summary(&lines)
}

/// The figures of the records of a tree. Every record of a tree stands in
/// a directory.
pub fn json_summary(entity: &Sha1Entity) -> (r: Result<Summary, LinkError>)
    ensures
        is_summary_of(r, entry_sizes(entries(entity@, Seq::empty())), true),
{
    let flat = entity.flatten();
    let mut all_size: Vec<u64> = Vec::new();
    let mut i: usize = 0;
    let ghost es = entry_views(flat@);
    while i < flat.len()
        invariant
            i <= flat.len(),
            es == entry_views(flat@),
            all_size@ == entry_sizes(es.take(i as int)),
        decreases flat.len() - i,
    {
        all_size.push(flat[i].record.size());
        assert(all_size@ =~= entry_sizes(es.take(i + 1)));
        i += 1;
    }
    assert(es.take(es.len() as int) =~= es);
    summarize(all_size, true)
}

} // verus!
