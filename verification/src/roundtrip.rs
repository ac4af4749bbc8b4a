use crate::record::{bar, joined, record_of_fields, scheme, without_scheme, Record};
use crate::text::{
    decimal, has_prefix, is_digit, is_hex, lemma_decimal, lemma_sanitized_clean, parse_u64,
    sanitized, split, unsigned_digits,
};
use crate::tree::{
    built_forest, dir_entries, dir_index, entries, entry_line, file_entries, inserted, is_label,
    is_path, labels, leaf, parsed_entry, path_of_fields, path_text, rooted, with_dir, Entry, Tree,
};
use vstd::prelude::*;

verus! {

/// Splitting what was joined by the separator gives the pieces of both sides.
pub proof fn lemma_split_join(a: Seq<char>, b: Seq<char>, sep: char)
    ensures
        split(a + seq![sep] + b, sep) == split(a, sep) + split(b, sep),
    decreases b.len(),
{
    crate::text::lemma_split_nonempty(a, sep);
    crate::text::lemma_split_nonempty(b, sep);
    let whole = a + seq![sep] + b;
    if b.len() == 0 {
        assert(whole.drop_last() =~= a);
        assert(whole.last() == sep);
        assert(split(whole, sep) =~= split(a, sep) + split(b, sep));
    } else {
        let init = b.drop_last();
        lemma_split_join(a, init, sep);
        crate::text::lemma_split_nonempty(init, sep);
        assert(whole.drop_last() =~= a + seq![sep] + init);
        assert(whole.last() == b.last());
        assert(split(whole, sep) =~= split(a, sep) + split(b, sep));
    }
}

/// A text without the separator is one piece.
pub proof fn lemma_split_whole(s: Seq<char>, sep: char)
    requires
        !s.contains(sep),
    ensures
        split(s, sep) == seq![s],
    decreases s.len(),
{
    if s.len() > 0 {
        let init = s.drop_last();
        assert forall|i: int| 0 <= i < init.len() implies init[i] != sep by {
            assert(s.contains(s[i]));
        }
        assert(!init.contains(sep));
        lemma_split_whole(init, sep);
        assert(s.last() != sep) by {
            assert(s[s.len() - 1] == s.last());
            if s.last() == sep {
                assert(s.contains(sep));
            }
        }
        assert(init.push(s.last()) =~= s);
        let before = split(init, sep);
        assert(before.len() == 1 && before[0] == init);
        assert(before.update(before.len() - 1, before.last().push(s.last())) =~= seq![s]);
    } else {
        assert(s =~= Seq::<char>::empty());
    }
}

/// A size that was written in decimal notation is read back as it was.
pub proof fn lemma_size_round_trip(n: u64)
    ensures
        parse_u64(decimal(n as nat)) == Some(n),
        !decimal(n as nat).contains('|'),
{
    lemma_decimal(n as nat);
    let d = decimal(n as nat);
    assert(is_digit(d[0]));
    assert(unsigned_digits(d) == d);
    if d.contains('|') {
        let i = choose|i: int| 0 <= i < d.len() && d[i] == '|';
        assert(is_digit(d[i]));
    }
}

/// Whether a record is as a line gives it: well formed and without a number.
pub open spec fn is_plain(r: Record) -> bool {
    r.wf() && r.id is None
}

/// The fields of a record's line: the four of the record, then its path.
pub proof fn lemma_fields_of_line(r: Record, path: Seq<Seq<char>>)
    requires
        r.wf(),
        is_path(path),
    ensures
        split(r.link() + path_text(path), '|') == seq![
            scheme() + r.name,
            decimal(r.size as nat),
            r.sha1,
            r.sha1_block,
        ] + path,
    decreases path.len(),
{
    if path.len() == 0 {
        let first = scheme() + r.name;
        let size = decimal(r.size as nat);
        lemma_size_round_trip(r.size);
        assert(!first.contains('|')) by {
            if first.contains('|') {
                let i = choose|i: int| 0 <= i < first.len() && first[i] == '|';
                if i >= 6 {
                    assert(r.name[i - 6] == '|');
                    assert(r.name.contains('|'));
                }
            }
        }
        assert(!r.sha1.contains('|')) by {
            if r.sha1.contains('|') {
                let i = choose|i: int| 0 <= i < r.sha1.len() && r.sha1[i] == '|';
                assert(is_hex(r.sha1[i]));
            }
        }
        assert(!r.sha1_block.contains('|')) by {
            if r.sha1_block.contains('|') {
                let i = choose|i: int| 0 <= i < r.sha1_block.len() && r.sha1_block[i] == '|';
                assert(is_hex(r.sha1_block[i]));
            }
        }
        lemma_split_whole(first, '|');
        lemma_split_whole(size, '|');
        lemma_split_whole(r.sha1, '|');
        lemma_split_whole(r.sha1_block, '|');
        lemma_split_join(first, size, '|');
        lemma_split_join(first + bar() + size, r.sha1, '|');
        lemma_split_join(first + bar() + size + bar() + r.sha1, r.sha1_block, '|');
        assert(r.link() + path_text(path) =~= first + bar() + size + bar() + r.sha1 + bar()
            + r.sha1_block);
        assert(bar() =~= seq!['|']);
        assert(split(r.link() + path_text(path), '|') =~= seq![first, size, r.sha1, r.sha1_block]
            + path);
    } else {
        let init = path.drop_last();
        assert(is_path(init)) by {
            assert forall|i: int| 0 <= i < init.len() implies is_label(#[trigger] init[i]) by {
                assert(init[i] == path[i]);
            }
        }
        lemma_fields_of_line(r, init);
        assert(is_label(path[path.len() - 1]));
        lemma_split_whole(path.last(), '|');
        lemma_split_join(r.link() + path_text(init), path.last(), '|');
        assert(bar() =~= seq!['|']);
        assert(r.link() + path_text(path) =~= r.link() + path_text(init) + seq!['|']
            + path.last());
        assert(seq![scheme() + r.name, decimal(r.size as nat), r.sha1, r.sha1_block] + init
            + seq![path.last()] =~= seq![
            scheme() + r.name,
            decimal(r.size as nat),
            r.sha1,
            r.sha1_block,
        ] + path);
    }
}

/// A line that was written for a record and its path is read back as that
/// record and that path.
pub proof fn lemma_entry_round_trip(e: Entry)
    requires
        is_plain(e.record),
        is_path(e.path),
        e.path.len() > 0,
    ensures
        parsed_entry(entry_line(e, Seq::empty())) == Some(e),
{
    let r = e.record;
    let line = entry_line(e, Seq::empty());
    assert(line =~= r.link() + path_text(e.path));
    lemma_fields_of_line(r, e.path);
    let fields = split(line, '|');
    lemma_size_round_trip(r.size);
    assert(has_prefix(scheme() + r.name, scheme())) by {
        assert((scheme() + r.name).take(6) =~= scheme());
    }
    assert(without_scheme(fields[0]) =~= r.name);
    lemma_sanitized_clean(r.name, false);
    assert(fields.skip(4) =~= e.path);
    assert(path_of_fields(fields) =~= e.path) by {
        assert forall|i: int| 0 <= i < e.path.len() implies sanitized(
            #[trigger] e.path[i],
            true,
        ) == e.path[i] by {
            lemma_sanitized_clean(e.path[i], true);
        }
    }
    assert(record_of_fields(fields) == Some(r));
}

/// The forest after each of `es` has been filed in it, in order.
pub open spec fn filed(forest: Seq<Tree>, es: Seq<Entry>) -> Seq<Tree>
    decreases es.len(),
{
    if es.len() == 0 {
        forest
    } else {
        inserted(filed(forest, es.drop_last()), es.last().path, es.last().record)
    }
}

/// The entries `es` with `pre` in front of each path.
pub open spec fn under(pre: Seq<Seq<char>>, es: Seq<Entry>) -> Seq<Entry> {
    es.map_values(|e: Entry| Entry { record: e.record, path: pre + e.path })
}

/// The lines that stand for `es`.
pub open spec fn lines_of_entries(es: Seq<Entry>) -> Seq<Seq<char>> {
    es.map_values(|e: Entry| entry_line(e, Seq::empty()))
}

/// Whether no two of `dirs` have the same label.
pub open spec fn distinct_labels(dirs: Seq<Tree>) -> bool {
    forall|i: int, j: int|
        0 <= i < j < dirs.len() ==> (#[trigger] dirs[i]).label != (#[trigger] dirs[j]).label
}

/// Whether a tree is one that lines can describe: its labels and records
/// are as lines give them, no two directories side by side have the same
/// label, and there is a record in or below every directory under the root.
pub open spec fn comes_from_lines(t: Tree) -> bool
    decreases t,
{
    &&& is_label(t.label)
    &&& t.id is None
    &&& forall|i: int| 0 <= i < t.files.len() ==> is_plain(#[trigger] t.files[i])
    &&& distinct_labels(t.dirs)
    &&& forall|i: int|
        0 <= i < t.dirs.len() ==> comes_from_lines(#[trigger] t.dirs[i]) && entries(
            t.dirs[i],
            Seq::empty(),
        ).len() > 0
}

/// The first directory of a label is where the label is looked up.
proof fn lemma_dir_index_is(forest: Seq<Tree>, label: Seq<char>, k: int)
    requires
        0 <= k < forest.len(),
        forest[k].label == label,
        forall|j: int| 0 <= j < k ==> (#[trigger] forest[j]).label != label,
    ensures
        dir_index(forest, label) == k,
        labels(forest).contains(label),
        with_dir(forest, label) == forest,
{
    labels(forest).index_of_first_ensures(label);
    assert(labels(forest)[k] == label);
    match labels(forest).index_of_first(label) {
        Some(i) => {
            if i < k {
                assert(forest[i].label != label);
            }
            if k < i {
                assert(labels(forest)[k] != label);
            }
        },
        None => {},
    }
}

/// Where a label is looked up: at its first directory, or at the end.
proof fn lemma_dir_index(forest: Seq<Tree>, label: Seq<char>)
    ensures
        labels(forest).contains(label) ==> {
            &&& 0 <= dir_index(forest, label) < forest.len()
            &&& forest[dir_index(forest, label)].label == label
            &&& forall|j: int|
                0 <= j < dir_index(forest, label) ==> (#[trigger] forest[j]).label != label
            &&& with_dir(forest, label) == forest
        },
        !labels(forest).contains(label) ==> {
            &&& dir_index(forest, label) == forest.len()
            &&& with_dir(forest, label) == forest.push(leaf(label))
        },
{
    labels(forest).index_of_first_ensures(label);
    if labels(forest).contains(label) {
        let k = dir_index(forest, label);
        assert forall|j: int| 0 <= j < k implies (#[trigger] forest[j]).label != label by {
            assert(labels(forest)[j] != label);
        }
        assert(labels(forest)[k] == forest[k].label);
    }
}

/// Filing entries one run after the other is filing them all.
pub proof fn lemma_filed_concat(forest: Seq<Tree>, a: Seq<Entry>, b: Seq<Entry>)
    ensures
        filed(forest, a + b) == filed(filed(forest, a), b),
    decreases b.len(),
{
    if b.len() == 0 {
        assert(a + b =~= a);
    } else {
        lemma_filed_concat(forest, a, b.drop_last());
        assert((a + b).drop_last() =~= a + b.drop_last());
        assert((a + b).last() == b.last());
    }
}

/// Entries whose paths begin with the label of a directory that is there
/// are filed below that directory.
proof fn lemma_filed_below(forest: Seq<Tree>, label: Seq<char>, es: Seq<Entry>)
    requires
        labels(forest).contains(label),
        forall|i: int| 0 <= i < es.len() ==> (#[trigger] es[i]).path.len() > 0,
    ensures
        filed(forest, under(seq![label], es)) == forest.update(
            dir_index(forest, label),
            Tree {
                dirs: filed(forest[dir_index(forest, label)].dirs, es),
                ..forest[dir_index(forest, label)]
            },
        ),
    decreases es.len(),
{
    lemma_dir_index(forest, label);
    let k = dir_index(forest, label);
    let node = forest[k];
    if es.len() == 0 {
        assert(under(seq![label], es) =~= Seq::<Entry>::empty());
        assert(forest.update(k, Tree { dirs: node.dirs, ..node }) =~= forest);
    } else {
        let init = es.drop_last();
        let e = es.last();
        assert forall|i: int| 0 <= i < init.len() implies (#[trigger] init[i]).path.len() > 0 by {
            assert(init[i] == es[i]);
        }
        lemma_filed_below(forest, label, init);
        let mid_node = Tree { dirs: filed(node.dirs, init), ..node };
        let mid = forest.update(k, mid_node);
        assert(under(seq![label], es).drop_last() =~= under(seq![label], init));
        let p = seq![label] + e.path;
        assert(under(seq![label], es).last() == Entry { record: e.record, path: p });
        assert(filed(forest, under(seq![label], es)) == inserted(mid, p, e.record));
        assert(es[es.len() - 1].path.len() > 0);
        assert forall|j: int| 0 <= j < k implies (#[trigger] mid[j]).label != label by {
            assert(mid[j] == forest[j]);
        }
        lemma_dir_index_is(mid, label, k);
        assert(p[0] == label);
        assert(p.skip(1) =~= e.path);
        assert(forest.update(k, mid_node).update(
            k,
            Tree { dirs: inserted(mid_node.dirs, e.path, e.record), ..mid_node },
        ) =~= forest.update(k, Tree { dirs: filed(node.dirs, es), ..node }));
    }
}

/// Records with the path of a directory that is there are put in that directory.
proof fn lemma_filed_files(forest: Seq<Tree>, label: Seq<char>, files: Seq<Record>)
    requires
        labels(forest).contains(label),
    ensures
        filed(forest, file_entries(files, seq![label])) == forest.update(
            dir_index(forest, label),
            Tree {
                files: forest[dir_index(forest, label)].files + files,
                ..forest[dir_index(forest, label)]
            },
        ),
    decreases files.len(),
{
    lemma_dir_index(forest, label);
    let k = dir_index(forest, label);
    let node = forest[k];
    if files.len() == 0 {
        assert(file_entries(files, seq![label]) =~= Seq::<Entry>::empty());
        assert(node.files + files =~= node.files);
        assert(forest.update(k, Tree { files: node.files, ..node }) =~= forest);
    } else {
        let init = files.drop_last();
        lemma_filed_files(forest, label, init);
        let mid_node = Tree { files: node.files + init, ..node };
        let mid = forest.update(k, mid_node);
        let p = seq![label];
        assert(file_entries(files, p).drop_last() =~= file_entries(init, p));
        assert(file_entries(files, p).last() == Entry { record: files.last(), path: p });
        assert forall|j: int| 0 <= j < k implies (#[trigger] mid[j]).label != label by {
            assert(mid[j] == forest[j]);
        }
        lemma_dir_index_is(mid, label, k);
        assert((node.files + init).push(files.last()) =~= node.files + files);
        assert(mid.update(k, Tree { files: mid_node.files.push(files.last()), ..mid_node })
            =~= forest.update(k, Tree { files: node.files + files, ..node }));
    }
}

/// Entries whose paths begin with a label that is not there yet are filed
/// as if an empty directory of that label stood at the end.
proof fn lemma_filed_creates(forest: Seq<Tree>, label: Seq<char>, es: Seq<Entry>)
    requires
        !labels(forest).contains(label),
        es.len() > 0,
        forall|i: int|
            0 <= i < es.len() ==> (#[trigger] es[i]).path.len() > 0 && es[i].path[0] == label,
    ensures
        filed(forest, es) == filed(forest.push(leaf(label)), es),
    decreases es.len(),
{
    let grown = forest.push(leaf(label));
    let e = es.last();
    assert(es[es.len() - 1].path.len() > 0 && es[es.len() - 1].path[0] == label);
    if es.len() == 1 {
        assert(es.drop_last() =~= Seq::<Entry>::empty());
        lemma_dir_index(forest, label);
        assert forall|j: int| 0 <= j < forest.len() implies (#[trigger] grown[j]).label
            != label by {
            assert(labels(forest)[j] == forest[j].label);
            if grown[j].label == label {
                assert(labels(forest).contains(label));
            }
        }
        lemma_dir_index_is(grown, label, forest.len() as int);
        assert(filed(forest, es.drop_last()) == forest);
        assert(filed(grown, es.drop_last()) == grown);
        assert(filed(forest, es) == inserted(forest, e.path, e.record));
        assert(filed(grown, es) == inserted(grown, e.path, e.record));
        assert(with_dir(forest, e.path[0]) == grown);
        assert(with_dir(grown, e.path[0]) == grown);
    } else {
        let init = es.drop_last();
        assert forall|i: int| 0 <= i < init.len() implies (#[trigger] init[i]).path.len() > 0
            && init[i].path[0] == label by {
            assert(init[i] == es[i]);
        }
        lemma_filed_creates(forest, label, init);
    }
}

/// Putting `pre` and then `mid` in front of paths is putting both in front.
proof fn lemma_under_under(pre: Seq<Seq<char>>, mid: Seq<Seq<char>>, es: Seq<Entry>)
    ensures
        under(pre, under(mid, es)) == under(pre + mid, es),
{
    assert forall|i: int| 0 <= i < es.len() implies under(pre, under(mid, es))[i] == under(
        pre + mid,
        es,
    )[i] by {
        assert(pre + (mid + es[i].path) =~= (pre + mid) + es[i].path);
    }
    assert(under(pre, under(mid, es)) =~= under(pre + mid, es));
}

/// The entries of a tree under directories are its entries with these
/// directories in front of each path.
pub proof fn lemma_entries_under(t: Tree, pre: Seq<Seq<char>>)
    ensures
        entries(t, pre) == under(pre, entries(t, Seq::empty())),
    decreases t, t.dirs.len() + 1,
{
    let here = seq![t.label];
    assert(Seq::<Seq<char>>::empty().push(t.label) =~= here);
    assert(pre.push(t.label) =~= pre + here);
    lemma_dir_entries_under(t, t.dirs.len(), pre, here);
    assert(under(pre, file_entries(t.files, here)) =~= file_entries(t.files, pre + here));
    assert(under(pre, file_entries(t.files, here) + dir_entries(t, t.dirs.len(), here))
        =~= under(pre, file_entries(t.files, here)) + under(
        pre,
        dir_entries(t, t.dirs.len(), here),
    ));
}

/// The same for the entries of the first `n` directories below a tree.
proof fn lemma_dir_entries_under(t: Tree, n: nat, pre: Seq<Seq<char>>, path: Seq<Seq<char>>)
    requires
        n <= t.dirs.len(),
    ensures
        dir_entries(t, n, pre + path) == under(pre, dir_entries(t, n, path)),
    decreases t, n,
{
    if n == 0 {
        assert(under(pre, dir_entries(t, n, path)) =~= Seq::<Entry>::empty());
    } else {
        let c = t.dirs[n - 1];
        lemma_dir_entries_under(t, (n - 1) as nat, pre, path);
        lemma_entries_under(c, pre + path);
        lemma_entries_under(c, path);
        lemma_under_under(pre, path, entries(c, Seq::empty()));
        assert(under(pre, dir_entries(t, (n - 1) as nat, path) + entries(c, path)) =~= under(
            pre,
            dir_entries(t, (n - 1) as nat, path),
        ) + under(pre, entries(c, path)));
    }
}

/// Whether an entry is one of a tree with the label `label` that lines can
/// describe.
pub open spec fn is_entry_of(e: Entry, label: Seq<char>) -> bool {
    is_plain(e.record) && is_path(e.path) && e.path.len() > 0 && e.path[0] == label
}

/// Every entry of a well-formed tree has a plain record and a path of
/// labels that begins with the label of the tree.
pub proof fn lemma_entries_sound(t: Tree)
    requires
        comes_from_lines(t),
    ensures
        forall|i: int|
            0 <= i < entries(t, Seq::empty()).len() ==> is_entry_of(
                #[trigger] entries(t, Seq::empty())[i],
                t.label,
            ),
    decreases t, t.dirs.len() + 1,
{
    let here = seq![t.label];
    assert(Seq::<Seq<char>>::empty().push(t.label) =~= here);
    lemma_dir_entries_sound(t, t.dirs.len());
    let fe = file_entries(t.files, here);
    let de = dir_entries(t, t.dirs.len(), here);
    assert forall|i: int| 0 <= i < entries(t, Seq::empty()).len() implies is_entry_of(
        #[trigger] entries(t, Seq::empty())[i],
        t.label,
    ) by {
        if i < fe.len() {
            assert(entries(t, Seq::empty())[i] == fe[i]);
            assert(is_plain(t.files[i]));
            assert(is_path(here));
        } else {
            assert(entries(t, Seq::empty())[i] == de[i - fe.len()]);
        }
    }
}

/// The same for the entries of the first `n` directories below a tree.
proof fn lemma_dir_entries_sound(t: Tree, n: nat)
    requires
        comes_from_lines(t),
        n <= t.dirs.len(),
    ensures
        forall|i: int|
            0 <= i < dir_entries(t, n, seq![t.label]).len() ==> is_entry_of(
                #[trigger] dir_entries(t, n, seq![t.label])[i],
                t.label,
            ),
    decreases t, n,
{
    if n > 0 {
        let here = seq![t.label];
        let c = t.dirs[n - 1];
        assert(comes_from_lines(c));
        lemma_dir_entries_sound(t, (n - 1) as nat);
        lemma_entries_sound(c);
        lemma_entries_under(c, here);
        let before = dir_entries(t, (n - 1) as nat, here);
        let inner = entries(c, Seq::empty());
        assert forall|i: int| 0 <= i < dir_entries(t, n, here).len() implies is_entry_of(
            #[trigger] dir_entries(t, n, here)[i],
            t.label,
        ) by {
            if i < before.len() {
                assert(dir_entries(t, n, here)[i] == before[i]);
            } else {
                let j = i - before.len();
                let e = inner[j];
                assert(is_entry_of(e, c.label));
                assert(dir_entries(t, n, here)[i] == Entry { record: e.record, path: here + e.path });
                assert forall|m: int| 0 <= m < (here + e.path).len() implies is_label(
                    #[trigger] (here + e.path)[m],
                ) by {
                    if m > 0 {
                        assert((here + e.path)[m] == e.path[m - 1]);
                    }
                }
            }
        }
    }
}

/// Filing the entries of a well-formed tree in a forest that has no
/// directory of its label puts the tree at the end of the forest.
pub proof fn lemma_filed_tree(forest: Seq<Tree>, t: Tree)
    requires
        comes_from_lines(t),
        entries(t, Seq::empty()).len() > 0,
        !labels(forest).contains(t.label),
    ensures
        filed(forest, entries(t, Seq::empty())) == forest.push(t),
    decreases t, t.dirs.len() + 1,
{
    let label = t.label;
    let here = seq![label];
    let es = entries(t, Seq::empty());
    assert(Seq::<Seq<char>>::empty().push(label) =~= here);
    let fe = file_entries(t.files, here);
    let de = dir_entries(t, t.dirs.len(), here);
    assert(es == fe + de);
    lemma_entries_sound(t);
    lemma_filed_creates(forest, label, es);
    let grown = forest.push(leaf(label));
    let k = forest.len() as int;
    lemma_dir_index(forest, label);
    assert forall|j: int| 0 <= j < k implies (#[trigger] grown[j]).label != label by {
        assert(labels(forest)[j] == forest[j].label);
        if grown[j].label == label {
            assert(labels(forest).contains(label));
        }
    }
    lemma_dir_index_is(grown, label, k);
    lemma_filed_concat(grown, fe, de);
    lemma_filed_files(grown, label, t.files);
    assert(leaf(label).files + t.files =~= t.files);
    let bare = Tree { label, files: t.files, dirs: Seq::empty(), id: None };
    let with_files = grown.update(k, bare);
    assert(filed(grown, fe) == with_files);
    lemma_filed_dirs(with_files, k, t, t.dirs.len());
    assert(t.dirs.take(t.dirs.len() as int) =~= t.dirs);
    assert(with_files.update(k, t) =~= forest.push(t));
}

/// Filing the entries of the first `n` directories below a tree whose own
/// files are filed already puts these directories below it.
proof fn lemma_filed_dirs(forest: Seq<Tree>, k: int, t: Tree, n: nat)
    requires
        comes_from_lines(t),
        n <= t.dirs.len(),
        0 <= k < forest.len(),
        forest[k] == (Tree { label: t.label, files: t.files, dirs: Seq::empty(), id: None }),
        forall|j: int| 0 <= j < k ==> (#[trigger] forest[j]).label != t.label,
    ensures
        filed(forest, dir_entries(t, n, seq![t.label])) == forest.update(
            k,
            Tree { label: t.label, files: t.files, dirs: t.dirs.take(n as int), id: None },
        ),
    decreases t, n,
{
    let label = t.label;
    let here = seq![label];
    if n == 0 {
        assert(t.dirs.take(0) =~= Seq::<Tree>::empty());
        assert(forest.update(k, forest[k]) =~= forest);
    } else {
        let c = t.dirs[n - 1];
        let before = dir_entries(t, (n - 1) as nat, here);
        lemma_filed_dirs(forest, k, t, (n - 1) as nat);
        let done = t.dirs.take(n - 1);
        let node = Tree { label, files: t.files, dirs: done, id: None };
        let mid = forest.update(k, node);
        lemma_filed_concat(forest, before, entries(c, here));
        lemma_entries_under(c, here);
        assert(comes_from_lines(c));
        lemma_entries_sound(c);
        assert forall|j: int| 0 <= j < k implies (#[trigger] mid[j]).label != label by {
            assert(mid[j] == forest[j]);
        }
        lemma_dir_index_is(mid, label, k);
        assert forall|i: int| 0 <= i < entries(c, Seq::empty()).len() implies (
        #[trigger] entries(c, Seq::empty())[i]).path.len() > 0 by {
            assert(is_entry_of(entries(c, Seq::empty())[i], c.label));
        }
        lemma_filed_below(mid, label, entries(c, Seq::empty()));
        assert(!labels(done).contains(c.label)) by {
            if labels(done).contains(c.label) {
                let j = choose|j: int| 0 <= j < labels(done).len() && labels(done)[j] == c.label;
                assert(t.dirs[j].label == t.dirs[n - 1].label);
            }
        }
        lemma_filed_tree(done, c);
        assert(done.push(c) =~= t.dirs.take(n as int));
        assert(mid.update(k, Tree { dirs: done.push(c), ..node }) =~= forest.update(
            k,
            Tree { label, files: t.files, dirs: t.dirs.take(n as int), id: None },
        ));
    }
}

/// Building from lines that were written for entries is filing the entries.
pub proof fn lemma_built_is_filed(es: Seq<Entry>)
    requires
        forall|i: int|
            0 <= i < es.len() ==> is_plain((#[trigger] es[i]).record) && is_path(es[i].path)
                && es[i].path.len() > 0,
    ensures
        built_forest(lines_of_entries(es)) == filed(Seq::empty(), es),
    decreases es.len(),
{
    if es.len() > 0 {
        let init = es.drop_last();
        assert forall|i: int| 0 <= i < init.len() implies is_plain((#[trigger] init[i]).record)
            && is_path(init[i].path) && init[i].path.len() > 0 by {
            assert(init[i] == es[i]);
        }
        lemma_built_is_filed(init);
        assert(lines_of_entries(es).drop_last() =~= lines_of_entries(init));
        assert(lines_of_entries(es).last() == entry_line(es.last(), Seq::empty()));
        assert(is_plain(es[es.len() - 1].record));
        lemma_entry_round_trip(es.last());
    } else {
        assert(lines_of_entries(es) =~= Seq::<Seq<char>>::empty());
    }
}

/// Building a tree from the lines that a tree was flattened to gives the
/// tree back, for every tree that lines can describe: one with a record in
/// or below each of its directories, without directories of the same label
/// side by side, and with labels and records as lines give them. The
/// directories and files come back in the order in which they stood.
pub proof fn lemma_round_trip(t: Tree)
    requires
        comes_from_lines(t),
        entries(t, Seq::empty()).len() > 0,
    ensures
        rooted(built_forest(lines_of_entries(entries(t, Seq::empty())))) == Some(t),
{
    let es = entries(t, Seq::empty());
    lemma_entries_sound(t);
    assert forall|i: int| 0 <= i < es.len() implies is_plain((#[trigger] es[i]).record)
        && is_path(es[i].path) && es[i].path.len() > 0 by {
        assert(is_entry_of(es[i], t.label));
    }
    lemma_built_is_filed(es);
    assert(labels(Seq::<Tree>::empty()) =~= Seq::<Seq<char>>::empty());
    lemma_filed_tree(Seq::empty(), t);
    assert(Seq::<Tree>::empty().push(t)[0] == t);
}

/// Whether a forest is one that lines can describe: no two of its trees
/// have the same label, and each holds a record and can be described by lines.
pub open spec fn is_tidy(forest: Seq<Tree>) -> bool {
    &&& distinct_labels(forest)
    &&& forall|i: int|
        0 <= i < forest.len() ==> comes_from_lines(#[trigger] forest[i]) && entries(
            forest[i],
            Seq::empty(),
        ).len() > 0
}

/// A tree holds at least the records of each directory below it.
proof fn lemma_dir_entries_len(t: Tree, n: nat, path: Seq<Seq<char>>, j: int)
    requires
        0 <= j < n <= t.dirs.len(),
    ensures
        dir_entries(t, n, path).len() >= entries(t.dirs[j], Seq::empty()).len(),
    decreases n,
{
    if j == n - 1 {
        lemma_entries_under(t.dirs[j], path);
    } else {
        lemma_dir_entries_len(t, (n - 1) as nat, path, j);
    }
}

/// Filing a record keeps a forest one that lines can describe.
pub proof fn lemma_inserted_tidy(forest: Seq<Tree>, path: Seq<Seq<char>>, r: Record)
    requires
        is_tidy(forest),
        is_path(path),
        path.len() > 0,
        is_plain(r),
    ensures
        is_tidy(inserted(forest, path, r)),
        inserted(forest, path, r).len() > 0,
    decreases path.len(),
{
    let label = path[0];
    assert(is_label(label));
    lemma_dir_index(forest, label);
    let grown = with_dir(forest, label);
    let k = dir_index(forest, label);
    let node = grown[k];
    assert(comes_from_lines(node)) by {
        if labels(forest).contains(label) {
            assert(node == forest[k]);
        } else {
            assert(node == leaf(label));
        }
    }
    assert(distinct_labels(grown)) by {
        assert forall|i: int, j: int| 0 <= i < j < grown.len() implies (#[trigger] grown[i]).label
            != (#[trigger] grown[j]).label by {
            if !labels(forest).contains(label) && j == forest.len() {
                assert(labels(forest)[i] == forest[i].label);
            }
        }
    }
    let rest = path.skip(1);
    let new_node = if path.len() == 1 {
        Tree { files: node.files.push(r), ..node }
    } else {
        Tree { dirs: inserted(node.dirs, rest, r), ..node }
    };
    let result = grown.update(k, new_node);
    assert(inserted(forest, path, r) == result);
    let here = seq![new_node.label];
    assert(Seq::<Seq<char>>::empty().push(new_node.label) =~= here);
    if path.len() == 1 {
        assert forall|i: int| 0 <= i < new_node.files.len() implies is_plain(
            #[trigger] new_node.files[i],
        ) by {
            if i < node.files.len() {
                assert(is_plain(node.files[i]));
            }
        }
        assert(comes_from_lines(new_node));
        assert(file_entries(new_node.files, here).len() > 0);
    } else {
        assert(is_path(rest)) by {
            assert forall|i: int| 0 <= i < rest.len() implies is_label(#[trigger] rest[i]) by {
                assert(rest[i] == path[i + 1]);
            }
        }
        assert(is_tidy(node.dirs));
        lemma_inserted_tidy(node.dirs, rest, r);
        assert(comes_from_lines(new_node));
        lemma_dir_entries_len(new_node, new_node.dirs.len(), here, 0);
    }
    assert forall|i: int| 0 <= i < result.len() implies comes_from_lines(#[trigger] result[i])
        && entries(result[i], Seq::empty()).len() > 0 by {
        if i != k {
            assert(result[i] == grown[i]);
            assert(grown[i] == forest[i]);
        }
    }
    assert(distinct_labels(result)) by {
        assert forall|i: int, j: int| 0 <= i < j < result.len() implies (
        #[trigger] result[i]).label != (#[trigger] result[j]).label by {
            assert(result[i].label == grown[i].label);
            assert(result[j].label == grown[j].label);
        }
    }
}

/// What a line stands for can be filed: a plain record and a path of labels.
pub proof fn lemma_parsed_entry_sound(line: Seq<char>)
    ensures
        match parsed_entry(line) {
            Some(e) => is_plain(e.record) && is_path(e.path) && e.path.len() > 0,
            None => true,
        },
{
    crate::record::lemma_parsed_is_wf(line);
    crate::text::lemma_split_nonempty(line, '|');
    let fields = split(line, '|');
    if parsed_entry(line) is Some {
        let path = path_of_fields(fields);
        assert forall|i: int| 0 <= i < path.len() implies is_label(#[trigger] path[i]) by {
            if fields.len() > 4 {
                let field = fields[i + 4];
                assert(path[i] == sanitized(field, true));
                crate::text::lemma_sanitized_is_clean(field, true);
                if path[i].contains('|') {
                    assert(field.contains('|'));
                }
            }
        }
    }
}

/// What is built from lines is a forest that lines can describe.
pub proof fn lemma_built_tidy(lines: Seq<Seq<char>>)
    ensures
        is_tidy(built_forest(lines)),
    decreases lines.len(),
{
    if lines.len() > 0 {
        lemma_built_tidy(lines.drop_last());
        lemma_parsed_entry_sound(lines.last());
        match parsed_entry(lines.last()) {
            Some(e) => {
                lemma_inserted_tidy(built_forest(lines.drop_last()), e.path, e.record);
            },
            None => {},
        }
    }
}

/// A tree that was built from lines is built again from the lines it is
/// flattened to.
pub proof fn lemma_rebuilt(lines: Seq<Seq<char>>)
    requires
        rooted(built_forest(lines)) is Some,
    ensures
        rooted(
            built_forest(
                lines_of_entries(entries(rooted(built_forest(lines))->0, Seq::empty())),
            ),
        ) == rooted(built_forest(lines)),
{
    let forest = built_forest(lines);
    let t = rooted(forest)->0;
    lemma_built_tidy(lines);
    if forest.len() == 1 {
        assert(comes_from_lines(forest[0]));
    } else {
        reveal_strlit("new_folder");
        assert(is_label(t.label)) by {
            if t.label.contains('|') {
                let i = choose|i: int| 0 <= i < t.label.len() && t.label[i] == '|';
                assert(t.label[i] != '|');
            }
        }
        assert(comes_from_lines(t));
        assert(comes_from_lines(forest[0]));
        lemma_dir_entries_len(t, t.dirs.len(), Seq::<Seq<char>>::empty().push(t.label), 0);
    }
    lemma_round_trip(t);
}

} // verus!
