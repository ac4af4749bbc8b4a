use crate::record::{bar, parsed_record, FileRepr, LinkError, Record, WrongSha1LinkFormat};
use crate::text::{
    chars_of, is_clean, lemma_sanitized_clean, lemma_sanitized_is_clean, lemma_split_nonempty,
    push_all, sanitize, sanitized, split, split_chars, string_of, string_views, views,
};
use vstd::prelude::*;

verus! {

/// A directory: its label, the files in it and the directories below it.
#[derive(Debug)]
pub struct Sha1Entity {
    dir_name: String,
    files: Vec<FileRepr>,
    dirs: Vec<Sha1Entity>,
    id: Option<u64>,
}

/// What a `Sha1Entity` holds.
pub struct Tree {
    pub label: Seq<char>,
    pub files: Seq<Record>,
    pub dirs: Seq<Tree>,
    pub id: Option<u64>,
}

/// Whether `s` can be the label of a directory: without the separator,
/// line breaks and backslashes.
pub open spec fn is_label(s: Seq<char>) -> bool {
    is_clean(s, true) && !s.contains('|')
}

/// Whether every one of `path` can be the label of a directory.
pub open spec fn is_path(path: Seq<Seq<char>>) -> bool {
    forall|i: int| 0 <= i < path.len() ==> is_label(#[trigger] path[i])
}

impl Tree {
    /// Whether the tree keeps the rules of a tree document at every level:
    /// labels without line breaks and backslashes, and well-formed records.
    pub open spec fn wf(self) -> bool
        decreases self,
    {
        &&& is_clean(self.label, true)
        &&& forall|i: int| 0 <= i < self.files.len() ==> (#[trigger] self.files[i]).wf()
        &&& forall|i: int| 0 <= i < self.dirs.len() ==> (#[trigger] self.dirs[i]).wf()
    }
}

/// Whether every tree of `forest` keeps the rules of a tree document.
pub open spec fn all_wf(forest: Seq<Tree>) -> bool {
    forall|i: int| 0 <= i < forest.len() ==> (#[trigger] forest[i]).wf()
}

/// Whether every record of `files` is well formed.
pub open spec fn all_records_wf(files: Seq<Record>) -> bool {
    forall|i: int| 0 <= i < files.len() ==> (#[trigger] files[i]).wf()
}

/// What each of `files` holds.
pub open spec fn record_views(files: Seq<FileRepr>) -> Seq<Record> {
    files.map_values(|f: FileRepr| f@)
}

/// What each of `dirs` holds.
pub open spec fn tree_views(dirs: Seq<Sha1Entity>) -> Seq<Tree> {
    dirs.map_values(|d: Sha1Entity| d@)
}

/// A directory with nothing in it.
pub open spec fn leaf(label: Seq<char>) -> Tree {
    Tree { label, files: Seq::empty(), dirs: Seq::empty(), id: None }
}

/// The labels of `forest`, in order.
pub open spec fn labels(forest: Seq<Tree>) -> Seq<Seq<char>> {
    forest.map_values(|t: Tree| t.label)
}

/// Where the directory called `label` stands in `forest`, once it is there:
/// the place of the first one with that label, or else the end.
pub open spec fn dir_index(forest: Seq<Tree>, label: Seq<char>) -> int {
    match labels(forest).index_of_first(label) {
        Some(i) => i,
        None => forest.len() as int,
    }
}

/// `forest` with an empty directory called `label` at its end, unless it
/// holds a directory of that label already.
pub open spec fn with_dir(forest: Seq<Tree>, label: Seq<char>) -> Seq<Tree> {
    if labels(forest).contains(label) {
        forest
    } else {
        forest.push(leaf(label))
    }
}

/// `forest` after `file` has been filed under `path`: at each level the
/// first directory with the path's label is entered, or a new one is added
/// at the end, and the file is put last in the directory that the path ends at.
pub open spec fn inserted(forest: Seq<Tree>, path: Seq<Seq<char>>, file: Record) -> Seq<Tree>
    decreases path.len(),
{
    if path.len() == 0 {
        forest
    } else {
        let grown = with_dir(forest, path[0]);
        let i = dir_index(forest, path[0]);
        let node = grown[i];
        if path.len() == 1 {
            grown.update(i, Tree { files: node.files.push(file), ..node })
        } else {
            grown.update(i, Tree { dirs: inserted(node.dirs, path.skip(1), file), ..node })
        }
    }
}

/// What the directory `e` holds.
spec fn tree_of(e: Sha1Entity) -> Tree
    decreases e, e.dirs@.len() + 1,
{
    Tree {
        label: e.dir_name@,
        files: record_views(e.files@),
        dirs: first_trees(e, e.dirs@.len()),
        id: e.id,
    }
}

/// What the first `n` directories below `e` hold.
spec fn first_trees(e: Sha1Entity, n: nat) -> Seq<Tree>
    decreases e, n,
{
    if n == 0 || n > e.dirs@.len() {
        Seq::empty()
    } else {
        first_trees(e, (n - 1) as nat).push(tree_of(e.dirs@[n - 1]))
    }
}

impl View for Sha1Entity {
    type V = Tree;

    closed spec fn view(&self) -> Tree {
        tree_of(*self)
    }
}

impl Sha1Entity {
    /// The first trees below a directory are the start of what its directories hold.
    proof fn lemma_first_trees(&self, n: nat)
        requires
            n <= self.dirs@.len(),
        ensures
            first_trees(*self, n) == tree_views(self.dirs@).take(n as int),
        decreases n,
    {
        if n > 0 {
            self.lemma_first_trees((n - 1) as nat);
        }
        assert(first_trees(*self, n) =~= tree_views(self.dirs@).take(n as int));
    }

    /// What a directory holds, field by field.
    proof fn lemma_view(&self)
        ensures
            self@ == (Tree {
                label: self.dir_name@,
                files: record_views(self.files@),
                dirs: tree_views(self.dirs@),
                id: self.id,
            }),
    {
        self.lemma_first_trees(self.dirs@.len());
        assert(tree_views(self.dirs@).take(self.dirs@.len() as int) =~= tree_views(self.dirs@));
    }

    /// Whether the directory keeps the rules of a tree document at every level.
    pub open spec fn wf(&self) -> bool {
        self@.wf()
    }

    /// An empty directory called `dir_name`, without the line breaks and
    /// backslashes of the name.
    pub fn new(dir_name: String) -> (e: Self)
        ensures
            e@ == leaf(sanitized(dir_name@, true)),
            e.wf(),
    {
        let raw = chars_of(dir_name.as_str());
        let clean = sanitize(raw.as_slice(), true);
        let e = Self {
            dir_name: string_of(clean.as_slice()),
            files: Vec::new(),
            dirs: Vec::new(),
            id: None,
        };
        proof {
            e.lemma_view();
            lemma_sanitized_is_clean(dir_name@, true);
            assert(record_views(e.files@) =~= Seq::<Record>::empty());
            assert(tree_views(e.dirs@) =~= Seq::<Tree>::empty());
        }
        e
    }

    /// A directory with the given contents. Carriage returns, line feeds and
    /// backslashes are taken out of its label.
    pub fn with_contents(
        dir_name: &str,
        files: Vec<FileRepr>,
        dirs: Vec<Sha1Entity>,
        id: Option<u64>,
    ) -> (e: Self)
        ensures
            e@ == (Tree {
                label: sanitized(dir_name@, true),
                files: record_views(files@),
                dirs: tree_views(dirs@),
                id,
            }),
            all_records_wf(record_views(files@)) && all_wf(tree_views(dirs@)) ==> e.wf(),
    {
        let raw = chars_of(dir_name);
        let clean = sanitize(raw.as_slice(), true);
        let e = Self { dir_name: string_of(clean.as_slice()), files, dirs, id };
        proof {
            e.lemma_view();
            lemma_sanitized_is_clean(dir_name@, true);
        }
        e
    }

    /// The directory's label.
    pub fn dir_name(&self) -> (s: &String)
        ensures
            s@ == self@.label,
    {
        &self.dir_name
    }

    /// The files that stand in the directory itself.
    pub fn files(&self) -> (v: &Vec<FileRepr>)
        ensures
            record_views(v@) == self@.files,
    {
        &self.files
    }

    /// The directories right below this one.
    pub fn dirs(&self) -> (v: &Vec<Sha1Entity>)
        ensures
            tree_views(v@) == self@.dirs,
    {
        proof {
            self.lemma_view();
        }
        &self.dirs
    }

    /// The number under which the directory is known elsewhere, if any.
    pub fn id(&self) -> (n: Option<u64>)
        ensures
            n == self@.id,
    {
        self.id
    }
}

/// Finds the first directory of `queue` called `name`, adding an empty one
/// at the end if there is none, and says where it stands. The name counts
/// without its line breaks and backslashes.
pub fn get_dir_or_create(name: &String, queue: &mut Vec<Sha1Entity>) -> (index: usize)
    ensures
        index == dir_index(tree_views(old(queue)@), sanitized(name@, true)),
        index < final(queue).len(),
        tree_views(final(queue)@) == with_dir(tree_views(old(queue)@), sanitized(name@, true)),
        all_wf(tree_views(old(queue)@)) ==> all_wf(tree_views(final(queue)@)),
{
    let raw = chars_of(name.as_str());
    let clean = sanitize(raw.as_slice(), true);
    let label = string_of(clean.as_slice());
    let ghost forest = tree_views(queue@);
    proof {
        labels(forest).index_of_first_ensures(label@);
    }
    let mut i: usize = 0;
    while i < queue.len()
        invariant
            i <= queue.len(),
            queue@ == old(queue)@,
            forest == tree_views(queue@),
            label@ == sanitized(name@, true),
            forall|j: int| 0 <= j < i ==> labels(forest)[j] != label@,
        decreases queue.len() - i,
    {
        proof {
            queue[i as int].lemma_view();
        }
        if queue[i].dir_name == label {
            assert(labels(forest)[i as int] == label@);
            proof {
                labels(forest).index_of_first_ensures(label@);
            }
            return i;
        }
        i += 1;
    }
    proof {
        labels(forest).index_of_first_ensures(label@);
        if labels(forest).contains(label@) {
            let k = choose|k: int| 0 <= k < labels(forest).len() && labels(forest)[k] == label@;
            assert(labels(forest)[k] != label@);
        }
        lemma_sanitized_is_clean(name@, true);
        lemma_sanitized_clean(label@, true);
    }
    queue.push(Sha1Entity::new(label));
    assert(tree_views(queue@) =~= forest.push(leaf(sanitized(name@, true))));
    queue.len() - 1
}

/// Files `file` in `forest` under the directories that `path` names from
/// position `depth` on.
fn insert_at(forest: &mut Vec<Sha1Entity>, path: &Vec<String>, depth: usize, file: FileRepr)
    requires
        depth < path.len(),
        is_path(string_views(path@)),
    ensures
        tree_views(final(forest)@) == inserted(
            tree_views(old(forest)@),
            string_views(path@).skip(depth as int),
            file@,
        ),
        all_wf(tree_views(old(forest)@)) && file.wf() ==> all_wf(tree_views(final(forest)@)),
    decreases path.len() - depth,
{
    let ghost before = tree_views(forest@);
    let ghost rest = string_views(path@).skip(depth as int);
    assert(rest[0] == path[depth as int]@);
    proof {
        assert(is_label(string_views(path@)[depth as int]));
        lemma_sanitized_clean(path[depth as int]@, true);
    }
    let i = get_dir_or_create(&path[depth], forest);
    let ghost grown = tree_views(forest@);
    let mut node = forest.remove(i);
    assert(node@ == grown[i as int]);
    let ghost old_node = node@;
    proof {
        node.lemma_view();
    }
    if depth + 1 == path.len() {
        node.files.push(file);
        proof {
            node.lemma_view();
            assert(record_views(node.files@) =~= old_node.files.push(file@));
        }
    } else {
        insert_at(&mut node.dirs, path, depth + 1, file);
        proof {
            node.lemma_view();
            assert(rest.skip(1) =~= string_views(path@).skip(depth + 1));
        }
    }
    let ghost new_node = node@;
    forest.insert(i, node);
    assert(tree_views(forest@) =~= grown.update(i as int, new_node));
    proof {
        if all_wf(before) && file.wf() {
            assert(all_wf(grown));
            assert(old_node.wf());
            assert(all_wf(old_node.dirs));
            assert(is_clean(new_node.label, true));
            assert(all_records_wf(new_node.files)) by {
                assert forall|k: int| 0 <= k < new_node.files.len() implies (
                #[trigger] new_node.files[k]).wf() by {
                    if k < old_node.files.len() {
                        assert(old_node.files[k].wf());
                    }
                }
            }
            assert(all_wf(new_node.dirs));
            assert(new_node.wf());
        }
    }
}

/// A record together with the directories it stands under, outermost first.
#[derive(Debug)]
pub struct FlatEntry {
    pub record: FileRepr,
    pub path: Vec<String>,
}

/// What a `FlatEntry` holds.
pub struct Entry {
    pub record: Record,
    pub path: Seq<Seq<char>>,
}

impl View for FlatEntry {
    type V = Entry;

    open spec fn view(&self) -> Entry {
        Entry { record: self.record@, path: string_views(self.path@) }
    }
}

/// What each of `entries` holds.
pub open spec fn entry_views(entries: Seq<FlatEntry>) -> Seq<Entry> {
    entries.map_values(|e: FlatEntry| e@)
}

/// The directories that the fields of a line put its record under: the
/// fields after the fourth, cleaned as labels are. A line without such
/// fields puts its record in the directory without a name.
pub open spec fn path_of_fields(fields: Seq<Seq<char>>) -> Seq<Seq<char>> {
    if fields.len() > 4 {
        fields.skip(4).map_values(|s: Seq<char>| sanitized(s, true))
    } else {
        seq![Seq::<char>::empty()]
    }
}

/// The record and the path that a line stands for, if it is well formed.
pub open spec fn parsed_entry(line: Seq<char>) -> Option<Entry> {
    match parsed_record(line) {
        Some(r) => Some(Entry { record: r, path: path_of_fields(split(line, '|')) }),
        None => None,
    }
}

/// The directories that `lines` describe, in the order in which each was
/// first named. Lines that are no records change nothing.
pub open spec fn built_forest(lines: Seq<Seq<char>>) -> Seq<Tree>
    decreases lines.len(),
{
    if lines.len() == 0 {
        Seq::empty()
    } else {
        let before = built_forest(lines.drop_last());
        match parsed_entry(lines.last()) {
            Some(e) => inserted(before, e.path, e.record),
            None => before,
        }
    }
}

/// How many of `lines` are no records.
pub open spec fn skipped(lines: Seq<Seq<char>>) -> nat
    decreases lines.len(),
{
    if lines.len() == 0 {
        0
    } else {
        skipped(lines.drop_last()) + if parsed_entry(lines.last()) is None {
            1nat
        } else {
            0nat
        }
    }
}

/// The one directory that stands for `forest`: its only member, or a new
/// directory round all of them where there are several.
pub open spec fn rooted(forest: Seq<Tree>) -> Option<Tree> {
    if forest.len() == 0 {
        None
    } else if forest.len() == 1 {
        Some(forest[0])
    } else {
        Some(Tree { label: "new_folder"@, files: Seq::empty(), dirs: forest, id: None })
    }
}

/// The records of `files`, each under `path`.
pub open spec fn file_entries(files: Seq<Record>, path: Seq<Seq<char>>) -> Seq<Entry> {
    files.map_values(|f: Record| Entry { record: f, path })
}

/// The records of the tree `t`, which stands under the directories `above`,
/// each with its full path: first the files of `t` itself, then the records
/// of each directory below it, in order.
pub open spec fn entries(t: Tree, above: Seq<Seq<char>>) -> Seq<Entry>
    decreases t, t.dirs.len() + 1,
{
    file_entries(t.files, above.push(t.label)) + dir_entries(
        t,
        t.dirs.len(),
        above.push(t.label),
    )
}

/// The records of the first `n` directories below `t`, which are under `path`.
pub open spec fn dir_entries(t: Tree, n: nat, path: Seq<Seq<char>>) -> Seq<Entry>
    decreases t, n,
{
    if n == 0 || n > t.dirs.len() {
        Seq::empty()
    } else {
        dir_entries(t, (n - 1) as nat, path) + entries(t.dirs[n - 1], path)
    }
}

/// The directories of `path`, each after a bar.
pub open spec fn path_text(path: Seq<Seq<char>>) -> Seq<char>
    decreases path.len(),
{
    if path.len() == 0 {
        Seq::empty()
    } else {
        path_text(path.drop_last()) + bar() + path.last()
    }
}

/// The line of a link file that stands for `e`, with `suffix` between the
/// record and its path.
pub open spec fn entry_line(e: Entry, suffix: Seq<char>) -> Seq<char> {
    e.record.link() + suffix + path_text(e.path)
}

/// The lines of `es`, each closed by a line feed.
pub open spec fn lines_text(es: Seq<Entry>, suffix: Seq<char>) -> Seq<char>
    decreases es.len(),
{
    if es.len() == 0 {
        Seq::empty()
    } else {
        lines_text(es.drop_last(), suffix) + entry_line(es.last(), suffix) + seq!['\n']
    }
}

/// A copy of `path`.
fn clone_path(path: &Vec<String>) -> (v: Vec<String>)
    ensures
        v@ == path@,
{
    let mut v: Vec<String> = Vec::new();
    let mut i: usize = 0;
    while i < path.len()
        invariant
            i <= path.len(),
            v@ == path@.take(i as int),
        decreases path.len() - i,
    {
        v.push(path[i].clone());
        assert(v@ =~= path@.take(i + 1));
        i += 1;
    }
    assert(path@.take(path@.len() as int) =~= path@);
    v
}

impl FlatEntry {
    /// Reads one line of a link file: the record and the directories named
    /// after it.
    pub fn from_str(line: &str) -> (r: Result<FlatEntry, WrongSha1LinkFormat>)
        ensures
            match r {
                Ok(e) => parsed_entry(line@) == Some(e@) && e.record.wf() && is_path(e@.path),
                Err(_) => parsed_entry(line@) is None,
            },
    {
        let chars = chars_of(line);
        let fields = split_chars(chars.as_slice(), '|');
        proof {
            lemma_split_nonempty(line@, '|');
            assert forall|i: int| 0 <= i < fields.len() implies !(#[trigger] fields[i])@.contains(
                '|',
            ) by {
                assert(views(fields@)[i] == fields[i]@);
            }
        }
        let record = match FileRepr::from_fields(&fields) {
            Ok(record) => record,
            Err(e) => {
                return Err(e);
            },
        };
        let mut path: Vec<String> = Vec::new();
        if fields.len() > 4 {
            let mut i: usize = 4;
            while i < fields.len()
                invariant
                    4 <= i <= fields.len(),
                    string_views(path@) == views(fields@).subrange(4, i as int).map_values(
                        |s: Seq<char>| sanitized(s, true),
                    ),
                decreases fields.len() - i,
            {
                let label = sanitize(fields[i].as_slice(), true);
                let ghost old_path = string_views(path@);
                path.push(string_of(label.as_slice()));
                assert(views(fields@)[i as int] == fields[i as int]@);
                assert(string_views(path@) =~= old_path.push(label@));
                assert(views(fields@).subrange(4, i + 1) =~= views(fields@).subrange(
                    4,
                    i as int,
                ).push(fields[i as int]@));
                assert(string_views(path@) =~= views(fields@).subrange(4, i + 1).map_values(
                    |s: Seq<char>| sanitized(s, true),
                ));
                i += 1;
            }
            assert(views(fields@).subrange(4, fields@.len() as int) =~= views(fields@).skip(4));
        } else {
            path.push(String::new());
            assert(string_views(path@) =~= seq![Seq::<char>::empty()]);
        }
        proof {
            let labels = string_views(path@);
            assert forall|k: int| 0 <= k < labels.len() implies is_label(#[trigger] labels[k]) by {
                if fields.len() > 4 {
                    let field = views(fields@)[k + 4];
                    assert(field == fields[k + 4]@);
                    assert(labels[k] == sanitized(field, true));
                    lemma_sanitized_is_clean(field, true);
                    if labels[k].contains('|') {
                        assert(field.contains('|'));
                    }
                }
            }
        }
        Ok(FlatEntry { record, path })
    }

    /// The line of a link file that stands for the entry.
    pub fn to_line(&self) -> (s: String)
        ensures
            s@ == entry_line(self@, Seq::empty()),
    {
        let mut out = self.record.link_chars();
        self.push_path(&mut out);
        assert(out@ =~= entry_line(self@, Seq::empty()));
        string_of(out.as_slice())
    }

    /// Appends the directories of the entry, each after a bar.
    fn push_path(&self, out: &mut Vec<char>)
        ensures
            final(out)@ == old(out)@ + path_text(self@.path),
    {
        let mut i: usize = 0;
        let ghost path = self@.path;
        assert(path.take(0) =~= Seq::<Seq<char>>::empty());
        while i < self.path.len()
            invariant
                i <= self.path.len(),
                path == self@.path,
                out@ == old(out)@ + path_text(path.take(i as int)),
            decreases self.path.len() - i,
        {
            let label = chars_of(self.path[i].as_str());
            out.push('|');
            push_all(out, label.as_slice());
            proof {
                assert(path.take(i + 1).drop_last() =~= path.take(i as int));
                assert(path.take(i + 1).last() == label@);
                assert(out@ =~= old(out)@ + path_text(path.take(i + 1)));
            }
            i += 1;
        }
        assert(path.take(path.len() as int) =~= path);
    }
}

/// Builds the tree that the lines of a link file describe, and counts the
/// lines that were left out because they are no records. There is no tree
/// where no line is a record.
pub fn line2json(lines: &Vec<String>) -> (r: (Result<Sha1Entity, LinkError>, usize))
    ensures
        match r.0 {
            Ok(tree) => rooted(built_forest(string_views(lines@))) == Some(tree@) && tree.wf(),
            Err(e) => e == LinkError::EmptyInput && rooted(built_forest(string_views(lines@)))
                is None,
        },
        r.1 == skipped(string_views(lines@)),
{
    let mut root_list: Vec<Sha1Entity> = Vec::new();
    let mut bad: usize = 0;
    let mut i: usize = 0;
    let ghost all = string_views(lines@);
    assert(all.take(0) =~= Seq::<Seq<char>>::empty());
    assert(tree_views(root_list@) =~= Seq::<Tree>::empty());
    while i < lines.len()
        invariant
            i <= lines.len(),
            all == string_views(lines@),
            tree_views(root_list@) == built_forest(all.take(i as int)),
            all_wf(tree_views(root_list@)),
            bad == skipped(all.take(i as int)),
            bad <= i,
        decreases lines.len() - i,
    {
        proof {
            assert(all.take(i + 1).drop_last() =~= all.take(i as int));
            assert(all.take(i + 1).last() == lines[i as int]@);
        }
        match FlatEntry::from_str(lines[i].as_str()) {
            Ok(entry) => {
                let FlatEntry { record, path } = entry;
                assert(string_views(path@).skip(0) =~= string_views(path@));
                assert(path@.len() == string_views(path@).len());
                insert_at(&mut root_list, &path, 0, record);
            },
            Err(_) => {
                bad += 1;
            },
        }
        i += 1;
    }
    assert(all.take(all.len() as int) =~= all);
    if root_list.len() == 0 {
        (Err(LinkError::EmptyInput), bad)
    } else if root_list.len() == 1 {
        let tree = root_list.remove(0);
        (Ok(tree), bad)
    } else {
        let ghost forest = tree_views(root_list@);
        let tree = Sha1Entity {
            dir_name: "new_folder".to_owned(),
            files: Vec::new(),
            dirs: root_list,
            id: None,
        };
        proof {
            tree.lemma_view();
            assert(record_views(tree.files@) =~= Seq::<Record>::empty());
            reveal_strlit("new_folder");
            assert(is_clean("new_folder"@, true));
        }
        (Ok(tree), bad)
    }
}

impl Sha1Entity {
    /// Appends to `out` the records of the tree, which stands under the
    /// directories `above`.
    fn collect(&self, above: &Vec<String>, out: &mut Vec<FlatEntry>)
        ensures
            entry_views(final(out)@) == entry_views(old(out)@) + entries(
                self@,
                string_views(above@),
            ),
        decreases self,
    {
        let mut path = clone_path(above);
        path.push(self.dir_name.clone());
        let ghost here = string_views(path@);
        let ghost start = entry_views(out@);
        proof {
            self.lemma_view();
            assert(here =~= string_views(above@).push(self@.label));
        }
        let mut i: usize = 0;
        while i < self.files.len()
            invariant
                i <= self.files.len(),
                here == string_views(path@),
                entry_views(out@) == start + file_entries(
                    record_views(self.files@).take(i as int),
                    here,
                ),
            decreases self.files.len() - i,
        {
            let ghost before = entry_views(out@);
            let entry = FlatEntry { record: self.files[i].clone(), path: clone_path(&path) };
            out.push(entry);
            proof {
                assert(entry_views(out@) =~= before.push(
                    Entry { record: self.files[i as int]@, path: here },
                ));
                assert(record_views(self.files@).take(i + 1) =~= record_views(self.files@).take(
                    i as int,
                ).push(self.files[i as int]@));
                assert(entry_views(out@) =~= start + file_entries(
                    record_views(self.files@).take(i + 1),
                    here,
                ));
            }
            i += 1;
        }
        assert(record_views(self.files@).take(self.files@.len() as int) =~= record_views(
            self.files@,
        ));
        let ghost own = file_entries(self@.files, here);
        let mut j: usize = 0;
        assert(entry_views(out@) =~= start + own + dir_entries(self@, 0, here));
        while j < self.dirs.len()
            invariant
                j <= self.dirs.len(),
                here == string_views(path@),
                self@.dirs == tree_views(self.dirs@),
                entry_views(out@) == start + own + dir_entries(self@, j as nat, here),
            decreases self.dirs.len() - j,
        {
            let ghost before = entry_views(out@);
            self.dirs[j].collect(&path, out);
            proof {
                assert(self@.dirs[j as int] == self.dirs[j as int]@);
                assert(entry_views(out@) =~= start + own + dir_entries(
                    self@,
                    (j + 1) as nat,
                    here,
                ));
            }
            j += 1;
        }
        assert(entry_views(out@) =~= start + entries(self@, string_views(above@)));
    }

    /// The records of the tree, each with its full path: a directory's own
    /// files first, then the directories below it, in order.
    pub fn flatten(&self) -> (out: Vec<FlatEntry>)
        ensures
            entry_views(out@) == entries(self@, Seq::empty()),
    {
        let mut out: Vec<FlatEntry> = Vec::new();
        let above: Vec<String> = Vec::new();
        assert(string_views(above@) =~= Seq::<Seq<char>>::empty());
        assert(entry_views(out@) =~= Seq::<Entry>::empty());
        self.collect(&above, &mut out);
        assert(entry_views(out@) =~= entries(self@, Seq::empty()));
        out
    }
}

/// Appends to `res` the lines of a link file that stand for the tree
/// `entity`: one line for each record, with `suffix` between the record and
/// its path, and a line feed after each.
pub fn write_line_mem(res: &mut String, entity: &Sha1Entity, suffix: String)
    ensures
        final(res)@ == old(res)@ + lines_text(entries(entity@, Seq::empty()), suffix@),
{
    let flat = entity.flatten();
    let between = chars_of(suffix.as_str());
    let ghost es = entry_views(flat@);
    let mut i: usize = 0;
    assert(es.take(0) =~= Seq::<Entry>::empty());
    assert(res@ =~= old(res)@ + lines_text(es.take(0), suffix@));
    while i < flat.len()
        invariant
            i <= flat.len(),
            es == entry_views(flat@),
            between@ == suffix@,
            res@ == old(res)@ + lines_text(es.take(i as int), suffix@),
        decreases flat.len() - i,
    {
        let mut line = flat[i].record.link_chars();
        push_all(&mut line, between.as_slice());
        flat[i].push_path(&mut line);
        line.push('\n');
        let text = string_of(line.as_slice());
        let ghost before = res@;
        res.append(text.as_str());
        proof {
            assert(es.take(i + 1).drop_last() =~= es.take(i as int));
            assert(es.take(i + 1).last() == flat[i as int]@);
            assert(line@ =~= entry_line(flat[i as int]@, suffix@) + seq!['\n']);
            assert(res@ =~= old(res)@ + lines_text(es.take(i + 1), suffix@));
        }
        i += 1;
    }
    assert(es.take(es.len() as int) =~= es);
}

/// The lines of a link file that stand for the tree `entity`.
pub fn json2line_mem(entity: &Sha1Entity) -> (r: Result<String, LinkError>)
    ensures
        r is Ok,
        r->Ok_0@ == lines_text(entries(entity@, Seq::empty()), Seq::empty()),
{
    let mut res = String::new();
    write_line_mem(&mut res, entity, String::new());
    assert(res@ =~= lines_text(entries(entity@, Seq::empty()), Seq::empty()));
    Ok(res)
}

} // verus!
