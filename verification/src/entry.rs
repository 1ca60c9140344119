//! Tree entries, the flattened form of a tree, and the snapshot of a
//! directory as tree objects.

use crate::commit::{head_parent, read_commit, Commit};
use crate::data::{
    get_object, hash_object, holds_object, is_oid, kind_of_tag, object_id, object_text, oid_of,
    read_object, Error, Repository, TypeObject,
};
use crate::nesting::law_restore_tested;
use crate::reference::RefValue;
use crate::roundtrip::{held, intact, plain_paths, working_files};
use crate::text::{
    chars_le, contains, from_chars, has_substring, lemma_lex_antisymmetric, lemma_lex_reflexive,
    lemma_lex_total, lemma_lex_transitive, lex_le, line_chars, lines, same, split, split_chars,
    to_chars, views,
};
use vstd::multiset::Multiset;
use vstd::prelude::*;
use vstd::relations::{sorted_by, total_ordering};
use vstd::seq_lib::{lemma_sorted_unique, to_multiset_build, to_multiset_insert};

verus! {

/// One line of a tree object: a path, the id of the object at that path,
/// and the object's kind.
#[derive(Debug, PartialEq, Eq, PartialOrd, Ord)]
pub struct Entry {
    pub path: String,
    pub oid: String,
    pub obj_type: TypeObject,
}

/// An `Entry` with its strings taken as character sequences.
pub struct EntryView {
    pub path: Seq<char>,
    pub oid: Seq<char>,
    pub obj_type: TypeObject,
}

impl View for Entry {
    type V = EntryView;

    open spec fn view(&self) -> EntryView {
        EntryView { path: self.path@, oid: self.oid@, obj_type: self.obj_type }
    }
}

/// The entries of `s`, each by its view.
pub open spec fn entry_views(s: Seq<Entry>) -> Seq<EntryView> {
    Seq::new(s.len(), |i: int| s[i]@)
}

/// The line that stands for `e` in a tree object: kind, id and path,
/// separated by single spaces and ended by a line feed.
pub open spec fn entry_line(e: EntryView) -> Seq<char> {
    e.obj_type.tag() + seq![' '] + e.oid + seq![' '] + e.path + seq!['\n']
}

/// The entry that `line`, taken without its line feed, stands for: it has
/// exactly three fields between single spaces, and the first is a kind's
/// tag.
pub open spec fn parse_entry(line: Seq<char>) -> Option<EntryView> {
    let fields = split(line, ' ');
    if fields.len() != 3 {
        None
    } else {
        match kind_of_tag(fields[0]) {
            None => None,
            Some(kind) => Some(EntryView { path: fields[2], oid: fields[1], obj_type: kind }),
        }
    }
}

/// The text of a tree object with the entries `entries`, in that order.
pub open spec fn tree_text(entries: Seq<EntryView>) -> Seq<char>
    decreases entries.len(),
{
    if entries.len() == 0 {
        Seq::empty()
    } else {
        tree_text(entries.drop_last()) + entry_line(entries.last())
    }
}

/// The place of a kind in the order of kinds.
pub open spec fn kind_rank(kind: TypeObject) -> int {
    match kind {
        TypeObject::Blob => 0,
        TypeObject::Tree => 1,
        TypeObject::Commit => 2,
    }
}

/// The order in which entries stand in a tree object: by path; entries
/// with one path by id; entries with one path and id by kind.
pub open spec fn entry_le(a: EntryView, b: EntryView) -> bool {
    if a.path != b.path {
        lex_le(a.path, b.path)
    } else if a.oid != b.oid {
        lex_le(a.oid, b.oid)
    } else {
        kind_rank(a.obj_type) <= kind_rank(b.obj_type)
    }
}

/// `entry_le` as a relation.
pub open spec fn entry_order() -> spec_fn(EntryView, EntryView) -> bool {
    |a: EntryView, b: EntryView| entry_le(a, b)
}

/// The order of entries is a total order.
pub proof fn lemma_entry_order_total()
    ensures
        total_ordering(entry_order()),
{
    let r = entry_order();
    assert forall|x: EntryView| #[trigger] r(x, x) by {}
    assert forall|x: EntryView, y: EntryView| #[trigger] r(x, y) && #[trigger] r(y, x) implies x
        == y by {
        if x.path != y.path {
            lemma_lex_antisymmetric(x.path, y.path);
        } else if x.oid != y.oid {
            lemma_lex_antisymmetric(x.oid, y.oid);
        }
    }
    assert forall|x: EntryView, y: EntryView, z: EntryView| #[trigger]
        r(x, y) && #[trigger] r(y, z) implies r(x, z) by {
        lemma_entry_le_transitive(x, y, z);
    }
    assert forall|x: EntryView, y: EntryView| #[trigger] r(x, y) || #[trigger] r(y, x) by {
        lemma_lex_total(x.path, y.path);
        lemma_lex_total(x.oid, y.oid);
    }
}

/// The order of entries is transitive.
proof fn lemma_entry_le_transitive(x: EntryView, y: EntryView, z: EntryView)
    requires
        entry_le(x, y),
        entry_le(y, z),
    ensures
        entry_le(x, z),
{
    lemma_lex_reflexive(x.path);
    lemma_lex_reflexive(y.path);
    lemma_lex_reflexive(x.oid);
    lemma_lex_reflexive(y.oid);
    if x.path != y.path || y.path != z.path {
        lemma_lex_transitive(x.path, y.path, z.path);
        if x.path == z.path {
            lemma_lex_antisymmetric(x.path, y.path);
        }
    } else if x.oid != y.oid || y.oid != z.oid {
        lemma_lex_transitive(x.oid, y.oid, z.oid);
        if x.oid == z.oid {
            lemma_lex_antisymmetric(x.oid, y.oid);
        }
    }
}

/// The names that the repository reserves: a path that holds one of them
/// is never part of a snapshot.
pub open spec fn reserved_names() -> Seq<Seq<char>> {
    seq![".dsgit"@, ".dsgitignore"@, ".git"@, ".gitignore"@, ".github"@]
}

/// The patterns `options`, each by its characters.
pub open spec fn patterns(options: Seq<String>) -> Seq<Seq<char>> {
    Seq::new(options.len(), |i: int| options[i]@)
}

/// Whether `path` is ignored: it holds, anywhere, a reserved name or one
/// of the patterns `options`.
pub open spec fn ignored(path: Seq<char>, options: Seq<Seq<char>>) -> bool {
    ||| exists|i: int| 0 <= i < reserved_names().len() && contains(path, #[trigger] reserved_names()[i])
    ||| exists|i: int| 0 <= i < options.len() && contains(path, #[trigger] options[i])
}

/// The place of a kind in the order of kinds.
fn rank(kind: TypeObject) -> (r: u8)
    ensures
        r == kind_rank(kind),
{
    match kind {
        TypeObject::Blob => 0,
        TypeObject::Tree => 1,
        TypeObject::Commit => 2,
    }
}

impl Entry {
    /// The line of the entry in a tree object, line feed included.
    pub fn to_string(&self) -> (s: String)
        ensures
            s@ == entry_line(self@),
    {
        let mut v = self.obj_type.tag_chars();
        v.push(' ');
        let mut oid = to_chars(self.oid.as_str());
        v.append(&mut oid);
        v.push(' ');
        let mut path = to_chars(self.path.as_str());
        v.append(&mut path);
        v.push('\n');
        assert(v@ =~= entry_line(self@));
        from_chars(&v)
    }

    /// The entry that the characters of a line stand for.
    fn from_line(line: &Vec<char>) -> (r: Result<Entry, Error>)
        ensures
            match r {
                Ok(e) => parse_entry(line@) == Some(e@),
                Err(e) => e == Error::Corrupt && parse_entry(line@) is None,
            },
    {
        let fields = split_chars(line, ' ');
        if fields.len() != 3 {
            return Err(Error::Corrupt);
        }
        assert(views(fields@)[0] == fields@[0]@);
        assert(views(fields@)[1] == fields@[1]@);
        assert(views(fields@)[2] == fields@[2]@);
        match TypeObject::from_chars(&fields[0]) {
            None => Err(Error::Corrupt),
            Some(kind) => Ok(
                Entry { path: from_chars(&fields[2]), oid: from_chars(&fields[1]), obj_type: kind },
            ),
        }
    }

    /// The entry that `item`, a line of a tree object without its line
    /// feed, stands for. A line that is not three fields, or whose first
    /// field is no kind, is corrupt.
    pub fn from(item: &str) -> (r: Result<Entry, Error>)
        ensures
            match r {
                Ok(e) => parse_entry(item@) == Some(e@),
                Err(e) => e == Error::Corrupt && parse_entry(item@) is None,
            },
    {
        Entry::from_line(&to_chars(item))
    }

    /// Whether `self` stands before `other`, or equals it, in a tree
    /// object.
    fn le(&self, other: &Entry) -> (r: bool)
        ensures
            r == entry_le(self@, other@),
    {
        let a_path = to_chars(self.path.as_str());
        let b_path = to_chars(other.path.as_str());
        if !same(&a_path, &b_path) {
            return chars_le(&a_path, &b_path);
        }
        let a_oid = to_chars(self.oid.as_str());
        let b_oid = to_chars(other.oid.as_str());
        if !same(&a_oid, &b_oid) {
            return chars_le(&a_oid, &b_oid);
        }
        rank(self.obj_type) <= rank(other.obj_type)
    }
}

/// An empty sequence holds nothing.
pub proof fn lemma_nothing<A>(s: Seq<A>)
    requires
        s.len() == 0,
    ensures
        s.to_multiset() == Multiset::<A>::empty(),
{
    s.to_multiset_ensures();
    assert forall|a: A| s.to_multiset().count(a) == 0 by {
        assert(!s.contains(a));
    }
    assert(s.to_multiset() =~= Multiset::<A>::empty());
}

/// The entries of `v` in the order of a tree object.
pub fn sort_entries(v: Vec<Entry>) -> (r: Vec<Entry>)
    ensures
        entry_views(r@) == entry_views(v@).sort_by(entry_order()),
{
    let ghost all = entry_views(v@);
    let mut rest = v;
    let mut out: Vec<Entry> = Vec::new();
    proof {
        lemma_entry_order_total();
        assert(entry_views(out@) =~= Seq::<EntryView>::empty());
        lemma_nothing(entry_views(out@));
        assert(entry_views(out@).to_multiset().add(all.to_multiset()) =~= all.to_multiset());
    }
    while rest.len() > 0
        invariant
            total_ordering(entry_order()),
            sorted_by(entry_views(out@), entry_order()),
            entry_views(out@).to_multiset().add(entry_views(rest@).to_multiset())
                == all.to_multiset(),
        decreases rest.len(),
    {
        let ghost rest_before = entry_views(rest@);
        let ghost out_before = entry_views(out@);
        let e = rest.pop().unwrap();
        let mut p: usize = 0;
        while p < out.len() && out[p].le(&e)
            invariant
                p <= out.len(),
                forall|k: int| 0 <= k < p ==> entry_le(#[trigger] out@[k]@, e@),
            decreases out.len() - p,
        {
            p += 1;
        }
        out.insert(p, e);
        proof {
            let order = entry_order();
            assert(rest_before =~= entry_views(rest@).push(e@));
            to_multiset_build(entry_views(rest@), e@);
            assert(entry_views(out@) =~= out_before.insert(p as int, e@));
            to_multiset_insert(out_before, p as int, e@);
            assert(entry_views(out@).to_multiset().add(entry_views(rest@).to_multiset())
                =~= all.to_multiset());
            let now = entry_views(out@);
            assert forall|i: int, j: int| 0 <= i < j < now.len() implies #[trigger] order(
                now[i],
                now[j],
            ) by {
                if j < p {
                    assert(order(out_before[i], out_before[j]));
                } else if j == p {
                    assert(entry_le(out_before[i], e@));
                } else if i < p {
                    assert(order(out_before[i], out_before[j - 1]));
                } else if i == p {
                    assert(order(out_before[p as int], e@) || order(e@, out_before[p as int]));
                    assert(!entry_le(out_before[p as int], e@));
                    if j - 1 > p {
                        assert(order(out_before[p as int], out_before[j - 1]));
                        assert(order(e@, out_before[p as int]) && order(
                            out_before[p as int],
                            out_before[j - 1],
                        ));
                    }
                } else {
                    assert(order(out_before[i - 1], out_before[j - 1]));
                }
            }
        }
    }
    proof {
        assert(entry_views(rest@) =~= Seq::<EntryView>::empty());
        lemma_nothing(entry_views(rest@));
        assert(entry_views(out@).to_multiset() =~= all.to_multiset());
        all.lemma_sort_by_ensures(entry_order());
        lemma_sorted_unique(entry_views(out@), all.sort_by(entry_order()), entry_order());
    }
    out
}

/// The flattened form of a tree: one entry for each file below it.
#[derive(Debug)]
pub struct Tree {
    pub entries: Vec<Entry>,
}

/// A file or a directory of the working directory, as it was listed.
#[derive(Debug)]
pub enum Node {
    /// A regular file with its path and its content.
    File { path: String, content: String },
    /// A directory with its path and what it holds, in listing order.
    Dir { path: String, children: Vec<Node> },
}

/// The entries of the tree object of a directory before they are sorted:
/// one for each of the first `n` of `children` that is not ignored, a
/// file with the id of its blob, a directory with the id of its own tree
/// object.
pub open spec fn snapshot_entries(children: Seq<Node>, options: Seq<Seq<char>>, n: nat) -> Seq<
    EntryView,
>
    decreases children, n,
{
    if n == 0 || n > children.len() {
        Seq::empty()
    } else {
        let before = snapshot_entries(children, options, (n - 1) as nat);
        match children[n - 1] {
            Node::File { path, content } => if ignored(path@, options) {
                before
            } else {
                before.push(
                    EntryView {
                        path: path@,
                        oid: oid_of(TypeObject::Blob, content@),
                        obj_type: TypeObject::Blob,
                    },
                )
            },
            Node::Dir { path, children: sub } => if ignored(path@, options) {
                before
            } else {
                before.push(
                    EntryView {
                        path: path@,
                        oid: oid_of(
                            TypeObject::Tree,
                            tree_text(
                                snapshot_entries(sub@, options, sub@.len()).sort_by(entry_order()),
                            ),
                        ),
                        obj_type: TypeObject::Tree,
                    },
                )
            },
        }
    }
}

/// The text of the tree object of a directory that holds `children`: its
/// entries in the order of entries.
pub open spec fn snapshot_text(children: Seq<Node>, options: Seq<Seq<char>>) -> Seq<char> {
    tree_text(snapshot_entries(children, options, children.len()).sort_by(entry_order()))
}

/// The id of the tree object of a directory that holds `children`.
pub open spec fn tree_oid(children: Seq<Node>, options: Seq<Seq<char>>) -> Seq<char> {
    oid_of(TypeObject::Tree, snapshot_text(children, options))
}

/// The object store after the first `n` of `children` were written to
/// `objects`: a blob for each file, and for each directory all that is
/// below it and then its tree object.
pub open spec fn snapshot_objects(
    objects: Map<Seq<char>, Seq<char>>,
    children: Seq<Node>,
    options: Seq<Seq<char>>,
    n: nat,
) -> Map<Seq<char>, Seq<char>>
    decreases children, n,
{
    if n == 0 || n > children.len() {
        objects
    } else {
        let before = snapshot_objects(objects, children, options, (n - 1) as nat);
        match children[n - 1] {
            Node::File { path, content } => if ignored(path@, options) {
                before
            } else {
                before.insert(
                    oid_of(TypeObject::Blob, content@),
                    object_text(TypeObject::Blob, content@),
                )
            },
            Node::Dir { path, children: sub } => if ignored(path@, options) {
                before
            } else {
                snapshot_objects(before, sub@, options, sub@.len()).insert(
                    tree_oid(sub@, options),
                    object_text(TypeObject::Tree, snapshot_text(sub@, options)),
                )
            },
        }
    }
}

/// The object store after the snapshot of a directory that holds
/// `children` was written to `objects`.
pub open spec fn write_tree_objects(
    objects: Map<Seq<char>, Seq<char>>,
    children: Seq<Node>,
    options: Seq<Seq<char>>,
) -> Map<Seq<char>, Seq<char>> {
    snapshot_objects(objects, children, options, children.len()).insert(
        tree_oid(children, options),
        object_text(TypeObject::Tree, snapshot_text(children, options)),
    )
}

/// The files below the first `n` of `children` that are not ignored, each
/// with the id of its blob, directories before what follows them.
pub open spec fn working_entries(children: Seq<Node>, options: Seq<Seq<char>>, n: nat) -> Seq<
    EntryView,
>
    decreases children, n,
{
    if n == 0 || n > children.len() {
        Seq::empty()
    } else {
        let before = working_entries(children, options, (n - 1) as nat);
        match children[n - 1] {
            Node::File { path, content } => if ignored(path@, options) {
                before
            } else {
                before.push(
                    EntryView {
                        path: path@,
                        oid: oid_of(TypeObject::Blob, content@),
                        obj_type: TypeObject::Blob,
                    },
                )
            },
            Node::Dir { path, children: sub } => if ignored(path@, options) {
                before
            } else {
                before + working_entries(sub@, options, sub@.len())
            },
        }
    }
}

/// The object store after the blobs of the files below the first `n` of
/// `children` were written to `objects`.
pub open spec fn working_objects(
    objects: Map<Seq<char>, Seq<char>>,
    children: Seq<Node>,
    options: Seq<Seq<char>>,
    n: nat,
) -> Map<Seq<char>, Seq<char>>
    decreases children, n,
{
    if n == 0 || n > children.len() {
        objects
    } else {
        let before = working_objects(objects, children, options, (n - 1) as nat);
        match children[n - 1] {
            Node::File { path, content } => if ignored(path@, options) {
                before
            } else {
                before.insert(
                    oid_of(TypeObject::Blob, content@),
                    object_text(TypeObject::Blob, content@),
                )
            },
            Node::Dir { path, children: sub } => if ignored(path@, options) {
                before
            } else {
                working_objects(before, sub@, options, sub@.len())
            },
        }
    }
}

/// `r` with `acc` put before what it holds.
pub open spec fn prepend<T>(acc: Seq<T>, r: Result<Seq<T>, Error>) -> Result<Seq<T>, Error> {
    match r {
        Ok(rest) => Ok(acc + rest),
        Err(e) => Err(e),
    }
}

/// The files that the lines `ls` of a tree object stand for: a blob line
/// for itself, a tree line for the files of the tree object it names.
/// The first line that is no entry, that names a commit, or whose tree
/// object cannot be read, decides the error. Tree objects nested more
/// than `fuel` deep are corrupt; this is how a tree object that holds
/// itself is told.
pub open spec fn flatten_lines(
    objects: Map<Seq<char>, Seq<char>>,
    ls: Seq<Seq<char>>,
    fuel: nat,
) -> Result<Seq<EntryView>, Error>
    decreases fuel, ls.len(),
{
    if ls.len() == 0 {
        Ok(Seq::empty())
    } else {
        match flatten_line(objects, ls[0], fuel) {
            Err(e) => Err(e),
            Ok(first) => prepend(first, flatten_lines(objects, ls.skip(1), fuel)),
        }
    }
}

/// The files that one line of a tree object stands for.
pub open spec fn flatten_line(
    objects: Map<Seq<char>, Seq<char>>,
    line: Seq<char>,
    fuel: nat,
) -> Result<Seq<EntryView>, Error>
    decreases fuel, 0nat,
{
    match parse_entry(line) {
        None => Err(Error::Corrupt),
        Some(e) => match e.obj_type {
            TypeObject::Blob => Ok(seq![e]),
            TypeObject::Commit => Err(Error::Corrupt),
            TypeObject::Tree => match read_object(objects, e.oid, TypeObject::Tree) {
                Err(x) => Err(x),
                Ok(text) => if fuel == 0 {
                    Err(Error::Corrupt)
                } else {
                    flatten_lines(objects, lines(text), (fuel - 1) as nat)
                },
            },
        },
    }
}

/// The files that the tree object with text `text` stands for.
pub open spec fn flatten(objects: Map<Seq<char>, Seq<char>>, text: Seq<char>, fuel: nat) -> Result<
    Seq<EntryView>,
    Error,
> {
    flatten_lines(objects, lines(text), fuel)
}

/// Whether the outcome `r` is the outcome `expected`.
pub open spec fn same_tree_outcome(r: Result<Tree, Error>, expected: Result<Seq<EntryView>, Error>) -> bool {
    match r {
        Ok(tree) => expected == Ok::<Seq<EntryView>, Error>(entry_views(tree.entries@)),
        Err(e) => expected == Err::<Seq<EntryView>, Error>(e),
    }
}

/// A file to write: its path and its content.
#[derive(Debug, PartialEq, Eq)]
pub struct FileWrite {
    pub path: String,
    pub content: String,
}

/// The files of `s`, each as its path and its content.
pub open spec fn file_views(s: Seq<FileWrite>) -> Seq<(Seq<char>, Seq<char>)> {
    Seq::new(s.len(), |i: int| (s[i].path@, s[i].content@))
}

/// The strings of `s`, each by its characters.
pub open spec fn string_views(s: Seq<String>) -> Seq<Seq<char>> {
    Seq::new(s.len(), |i: int| s[i]@)
}

/// What a restore does to the working directory, in this order: the
/// paths in `cleared` are removed, files with whatever is below
/// directories; then the files in `written` are written, with the
/// directories above them. Where `failure` is set, the restore stopped
/// there: what `written` holds was written before.
#[derive(Debug)]
pub struct Restore {
    pub cleared: Vec<String>,
    pub written: Vec<FileWrite>,
    pub failure: Option<Error>,
}

/// The path of a file or directory.
pub open spec fn node_path(node: Node) -> Seq<char> {
    match node {
        Node::File { path, content } => path@,
        Node::Dir { path, children } => path@,
    }
}

/// The paths of the first `n` of `children` that are not ignored.
pub open spec fn cleared_paths(children: Seq<Node>, options: Seq<Seq<char>>, n: nat) -> Seq<
    Seq<char>,
>
    decreases n,
{
    if n == 0 || n > children.len() {
        Seq::empty()
    } else {
        let before = cleared_paths(children, options, (n - 1) as nat);
        if ignored(node_path(children[n - 1]), options) {
            before
        } else {
            before.push(node_path(children[n - 1]))
        }
    }
}

/// The files to write for the entries `entries`, each with the content
/// of its blob, up to the first whose blob cannot be read; and the error
/// of that one.
pub open spec fn blob_files(objects: Map<Seq<char>, Seq<char>>, entries: Seq<EntryView>) -> (
    Seq<(Seq<char>, Seq<char>)>,
    Option<Error>,
)
    decreases entries.len(),
{
    if entries.len() == 0 {
        (Seq::empty(), None)
    } else {
        match read_object(objects, entries[0].oid, TypeObject::Blob) {
            Err(e) => (Seq::empty(), Some(e)),
            Ok(content) => {
                let rest = blob_files(objects, entries.skip(1));
                (seq![(entries[0].path, content)] + rest.0, rest.1)
            },
        }
    }
}

/// The files to write when the tree object `oid` is restored, and the
/// error at which the restore stops, if it does.
pub open spec fn restored_files(objects: Map<Seq<char>, Seq<char>>, oid: Seq<char>, fuel: nat) -> (
    Seq<(Seq<char>, Seq<char>)>,
    Option<Error>,
) {
    match read_object(objects, oid, TypeObject::Tree) {
        Err(e) => (Seq::empty(), Some(e)),
        Ok(text) => match flatten(objects, text, fuel) {
            Err(e) => (Seq::empty(), Some(e)),
            Ok(entries) => blob_files(objects, entries),
        },
    }
}

/// The files of the tree of the commit that `HEAD` leads to. That `HEAD`
/// leads to no commit is an error.
pub open spec fn head_tree(repo: &Repository) -> Result<Seq<EntryView>, Error> {
    match head_parent(repo.refs@, repo.refs.spec_len()) {
        Err(e) => Err(e),
        Ok(None) => Err(Error::NotFound),
        Ok(Some(oid)) => match read_commit(repo.objects@, oid) {
            Err(e) => Err(e),
            Ok(c) => match read_object(repo.objects@, c.tree, TypeObject::Tree) {
                Err(e) => Err(e),
                Ok(text) => flatten(repo.objects@, text, repo.objects.spec_len()),
            },
        },
    }
}

/// The entries of a tree object stand in the order of entries, and so
/// in the order of their paths, however the directory was listed.
pub proof fn law_snapshot_sorted(children: Seq<Node>, options: Seq<Seq<char>>)
    ensures
        ({
            let entries = snapshot_entries(children, options, children.len()).sort_by(
                entry_order(),
            );
            &&& snapshot_text(children, options) == tree_text(entries)
            &&& entries.to_multiset() == snapshot_entries(
                children,
                options,
                children.len(),
            ).to_multiset()
            &&& forall|i: int, j: int|
                0 <= i < j < entries.len() ==> entry_le(#[trigger] entries[i], #[trigger] entries[j])
            &&& forall|i: int, j: int|
                0 <= i < j < entries.len() ==> lex_le(
                    (#[trigger] entries[i]).path,
                    (#[trigger] entries[j]).path,
                )
        }),
{
    let unsorted = snapshot_entries(children, options, children.len());
    let entries = unsorted.sort_by(entry_order());
    lemma_entry_order_total();
    unsorted.lemma_sort_by_ensures(entry_order());
    assert forall|i: int, j: int| 0 <= i < j < entries.len() implies entry_le(
        #[trigger] entries[i],
        #[trigger] entries[j],
    ) by {
        assert(entry_order()(entries[i], entries[j]));
    }
    assert forall|i: int, j: int| 0 <= i < j < entries.len() implies lex_le(
        (#[trigger] entries[i]).path,
        (#[trigger] entries[j]).path,
    ) by {
        assert(entry_le(entries[i], entries[j]));
        lemma_lex_reflexive(entries[i].path);
    }
}

/// Two directories with the same entries have the same tree object,
/// whatever the order in which each was listed.
pub proof fn law_snapshot_order(first: Seq<Node>, second: Seq<Node>, options: Seq<Seq<char>>)
    requires
        snapshot_entries(first, options, first.len()).to_multiset() == snapshot_entries(
            second,
            options,
            second.len(),
        ).to_multiset(),
    ensures
        snapshot_text(first, options) == snapshot_text(second, options),
        tree_oid(first, options) == tree_oid(second, options),
{
    let a = snapshot_entries(first, options, first.len());
    let b = snapshot_entries(second, options, second.len());
    lemma_entry_order_total();
    a.lemma_sort_by_ensures(entry_order());
    b.lemma_sort_by_ensures(entry_order());
    lemma_sorted_unique(a.sort_by(entry_order()), b.sort_by(entry_order()), entry_order());
}

/// The text of the tree object that holds `entries` in their order.
fn serialize(entries: &Vec<Entry>) -> (s: String)
    ensures
        s@ == tree_text(entry_views(entries@)),
{
    let mut text: Vec<char> = Vec::new();
    let mut i: usize = 0;
    while i < entries.len()
        invariant
            i <= entries.len(),
            text@ == tree_text(entry_views(entries@).take(i as int)),
        decreases entries.len() - i,
    {
        let mut line = to_chars(entries[i].to_string().as_str());
        text.append(&mut line);
        proof {
            let all = entry_views(entries@);
            assert(all.take(i + 1).drop_last() =~= all.take(i as int));
            assert(all.take(i + 1).last() == entries@[i as int]@);
        }
        i += 1;
    }
    assert(entry_views(entries@).take(entries.len() as int) =~= entry_views(entries@));
    from_chars(&text)
}

impl Tree {
    /// Whether `path` is left out of snapshots and kept by restores: it
    /// holds a reserved name or one of `ignore_options`, anywhere.
    pub fn is_ignored(path: &str, ignore_options: &[String]) -> (r: bool)
        ensures
            r == ignored(path@, patterns(ignore_options@)),
    {
        let chars = to_chars(path);
        let ghost names = reserved_names();
        if has_substring(&chars, &to_chars(".dsgit")) {
            assert(contains(path@, names[0]));
            return true;
        }
        if has_substring(&chars, &to_chars(".dsgitignore")) {
            assert(contains(path@, names[1]));
            return true;
        }
        if has_substring(&chars, &to_chars(".git")) {
            assert(contains(path@, names[2]));
            return true;
        }
        if has_substring(&chars, &to_chars(".gitignore")) {
            assert(contains(path@, names[3]));
            return true;
        }
        if has_substring(&chars, &to_chars(".github")) {
            assert(contains(path@, names[4]));
            return true;
        }
        let ghost options = patterns(ignore_options@);
        let mut i: usize = 0;
        while i < ignore_options.len()
            invariant
                i <= ignore_options.len(),
                chars@ == path@,
                options == patterns(ignore_options@),
                forall|k: int| 0 <= k < i ==> !contains(path@, #[trigger] options[k]),
            decreases ignore_options.len() - i,
        {
            if has_substring(&chars, &to_chars(ignore_options[i].as_str())) {
                assert(contains(path@, options[i as int]));
                return true;
            }
            i += 1;
        }
        false
    }

    /// Writes the snapshot of a directory that holds `dir` to the object
    /// store and returns the id of its tree object. Files and directories
    /// that are ignored are left out.
    pub fn write_tree(repo: &mut Repository, dir: &Vec<Node>, ignore_options: &[String]) -> (oid:
        String)
        ensures
            oid@ == tree_oid(dir@, patterns(ignore_options@)),
            is_oid(oid@),
            final(repo).objects@ == write_tree_objects(
                old(repo).objects@,
                dir@,
                patterns(ignore_options@),
            ),
            final(repo).refs == old(repo).refs,
        decreases dir,
    {
        let ghost start = repo.objects@;
        let ghost options = patterns(ignore_options@);
        let mut entries: Vec<Entry> = Vec::new();
        let mut i: usize = 0;
        assert(entry_views(entries@) =~= snapshot_entries(dir@, options, 0));
        while i < dir.len()
            invariant
                i <= dir.len(),
                options == patterns(ignore_options@),
                entry_views(entries@) == snapshot_entries(dir@, options, i as nat),
                repo.objects@ == snapshot_objects(start, dir@, options, i as nat),
                repo.refs == old(repo).refs,
            decreases dir.len() - i,
        {
            let ghost before = entry_views(entries@);
            match &dir[i] {
                Node::File { path, content } => {
                    if !Tree::is_ignored(path.as_str(), ignore_options) {
                        let oid = hash_object(repo, content.as_str(), TypeObject::Blob);
                        entries.push(Entry { path: path.clone(), oid, obj_type: TypeObject::Blob });
                    }
                },
                Node::Dir { path, children } => {
                    if !Tree::is_ignored(path.as_str(), ignore_options) {
                        let oid = Tree::write_tree(repo, children, ignore_options);
                        entries.push(Entry { path: path.clone(), oid, obj_type: TypeObject::Tree });
                    }
                },
            }
            proof {
                if entries@.len() > before.len() {
                    assert(entry_views(entries@) =~= before.push(entries@.last()@));
                } else {
                    assert(entry_views(entries@) =~= before);
                }
            }
            i += 1;
        }
        let sorted = sort_entries(entries);
        let text = serialize(&sorted);
        hash_object(repo, text.as_str(), TypeObject::Tree)
    }

    /// The text of the tree object of a directory that holds `dir`.
    /// Nothing is stored.
    pub fn tree_text(dir: &Vec<Node>, ignore_options: &[String]) -> (text: String)
        ensures
            text@ == snapshot_text(dir@, patterns(ignore_options@)),
        decreases dir,
    {
        let ghost options = patterns(ignore_options@);
        let mut entries: Vec<Entry> = Vec::new();
        let mut i: usize = 0;
        assert(entry_views(entries@) =~= snapshot_entries(dir@, options, 0));
        while i < dir.len()
            invariant
                i <= dir.len(),
                options == patterns(ignore_options@),
                entry_views(entries@) == snapshot_entries(dir@, options, i as nat),
            decreases dir.len() - i,
        {
            let ghost before = entry_views(entries@);
            match &dir[i] {
                Node::File { path, content } => {
                    if !Tree::is_ignored(path.as_str(), ignore_options) {
                        let oid = object_id(content.as_str(), TypeObject::Blob);
                        entries.push(Entry { path: path.clone(), oid, obj_type: TypeObject::Blob });
                    }
                },
                Node::Dir { path, children } => {
                    if !Tree::is_ignored(path.as_str(), ignore_options) {
                        let below = Tree::tree_text(children, ignore_options);
                        let oid = object_id(below.as_str(), TypeObject::Tree);
                        entries.push(Entry { path: path.clone(), oid, obj_type: TypeObject::Tree });
                    }
                },
            }
            proof {
                if entries@.len() > before.len() {
                    assert(entry_views(entries@) =~= before.push(entries@.last()@));
                } else {
                    assert(entry_views(entries@) =~= before);
                }
            }
            i += 1;
        }
        serialize(&sort_entries(entries))
    }

    /// Whether the store holds all that is below `dir` in its snapshot:
    /// the blob of every file and the tree object of every directory
    /// that is not ignored.
    fn holds_below(repo: &Repository, dir: &Vec<Node>, ignore_options: &[String]) -> (r: bool)
        ensures
            r == intact(repo.objects@, dir@, patterns(ignore_options@), dir@.len()),
        decreases dir,
    {
        let ghost options = patterns(ignore_options@);
        let mut all: bool = true;
        let mut i: usize = 0;
        while i < dir.len()
            invariant
                i <= dir.len(),
                options == patterns(ignore_options@),
                all == intact(repo.objects@, dir@, options, i as nat),
            decreases dir.len() - i,
        {
            match &dir[i] {
                Node::File { path, content } => {
                    if !Tree::is_ignored(path.as_str(), ignore_options) {
                        if !holds_object(repo, content.as_str(), TypeObject::Blob) {
                            all = false;
                        }
                    }
                },
                Node::Dir { path, children } => {
                    if !Tree::is_ignored(path.as_str(), ignore_options) {
                        let below = Tree::tree_text(children, ignore_options);
                        if !holds_object(repo, below.as_str(), TypeObject::Tree) {
                            all = false;
                        } else if !Tree::holds_below(repo, children, ignore_options) {
                            all = false;
                        }
                    }
                },
            }
            i += 1;
        }
        all
    }

    /// Whether the store holds the snapshot of a directory that holds
    /// `dir`: every object of the snapshot is stored under its id, as it
    /// is after `write_tree` unless two different objects met at one id.
    /// From a store that holds the snapshot, the tree object is restored
    /// as the files of `dir` that are not ignored, each at its path with
    /// its content, where the paths hold no space and no line feed.
    pub fn holds_snapshot(repo: &Repository, dir: &Vec<Node>, ignore_options: &[String]) -> (r:
        bool)
        ensures
            r == held(repo.objects@, dir@, patterns(ignore_options@)),
            r && plain_paths(dir@, patterns(ignore_options@), dir@.len()) ==> {
                let restored = restored_files(
                    repo.objects@,
                    tree_oid(dir@, patterns(ignore_options@)),
                    repo.objects.spec_len(),
                );
                &&& restored.1 is None
                &&& restored.0.to_multiset() == working_files(
                    dir@,
                    patterns(ignore_options@),
                    dir@.len(),
                ).to_multiset()
            },
    {
        let text = Tree::tree_text(dir, ignore_options);
        let r = holds_object(repo, text.as_str(), TypeObject::Tree) && Tree::holds_below(
            repo,
            dir,
            ignore_options,
        );
        let size = repo.objects.len();
        proof {
            if r && plain_paths(dir@, patterns(ignore_options@), dir@.len()) {
                law_restore_tested(repo.objects@, dir@, patterns(ignore_options@));
            }
        }
        r
    }

    /// The files below `dir` that are not ignored, each with the id of
    /// its blob, which is written to the object store.
    pub fn new(repo: &mut Repository, dir: &Vec<Node>, ignore_options: &[String]) -> (tree: Tree)
        ensures
            entry_views(tree.entries@) == working_entries(
                dir@,
                patterns(ignore_options@),
                dir@.len(),
            ),
            final(repo).objects@ == working_objects(
                old(repo).objects@,
                dir@,
                patterns(ignore_options@),
                dir@.len(),
            ),
            final(repo).refs == old(repo).refs,
        decreases dir,
    {
        let ghost start = repo.objects@;
        let ghost options = patterns(ignore_options@);
        let mut entries: Vec<Entry> = Vec::new();
        let mut i: usize = 0;
        assert(entry_views(entries@) =~= working_entries(dir@, options, 0));
        while i < dir.len()
            invariant
                i <= dir.len(),
                options == patterns(ignore_options@),
                entry_views(entries@) == working_entries(dir@, options, i as nat),
                repo.objects@ == working_objects(start, dir@, options, i as nat),
                repo.refs == old(repo).refs,
            decreases dir.len() - i,
        {
            let ghost before = entry_views(entries@);
            match &dir[i] {
                Node::File { path, content } => {
                    if !Tree::is_ignored(path.as_str(), ignore_options) {
                        let oid = hash_object(repo, content.as_str(), TypeObject::Blob);
                        entries.push(Entry { path: path.clone(), oid, obj_type: TypeObject::Blob });
                        assert(entry_views(entries@) =~= before.push(entries@.last()@));
                    }
                },
                Node::Dir { path, children } => {
                    if !Tree::is_ignored(path.as_str(), ignore_options) {
                        let mut sub = Tree::new(repo, children, ignore_options);
                        let ghost below = entry_views(sub.entries@);
                        entries.append(&mut sub.entries);
                        assert(entry_views(entries@) =~= before + below);
                    }
                },
            }
            i += 1;
        }
        Tree { entries }
    }

    /// The files of the working directory `dir` that are not ignored.
    pub fn get_working_tree(repo: &mut Repository, dir: &Vec<Node>, ignore_options: &[String]) -> (tree:
        Tree)
        ensures
            entry_views(tree.entries@) == working_entries(
                dir@,
                patterns(ignore_options@),
                dir@.len(),
            ),
            final(repo).objects@ == working_objects(
                old(repo).objects@,
                dir@,
                patterns(ignore_options@),
                dir@.len(),
            ),
            final(repo).refs == old(repo).refs,
    {
        Tree::new(repo, dir, ignore_options)
    }

    /// The files that the characters `text` of a tree object stand for.
    fn flatten_chars(repo: &Repository, text: &Vec<char>, fuel: usize) -> (r: Result<Tree, Error>)
        ensures
            same_tree_outcome(r, flatten(repo.objects@, text@, fuel as nat)),
        decreases fuel,
    {
        let ls = line_chars(text);
        let ghost all = views(ls@);
        let mut out: Vec<Entry> = Vec::new();
        let mut i: usize = 0;
        proof {
            assert(all.skip(0) =~= all);
            assert(entry_views(out@) =~= Seq::<EntryView>::empty());
            lemma_prepend_nothing(flatten_lines(repo.objects@, all, fuel as nat));
        }
        while i < ls.len()
            invariant
                i <= ls.len(),
                all == views(ls@),
                all == lines(text@),
                flatten_lines(repo.objects@, all, fuel as nat) == prepend(
                    entry_views(out@),
                    flatten_lines(repo.objects@, all.skip(i as int), fuel as nat),
                ),
            decreases ls.len() - i,
        {
            let ghost before = entry_views(out@);
            let ghost rest = all.skip(i as int);
            proof {
                reveal_with_fuel(flatten_lines, 2);
                reveal_with_fuel(flatten_line, 2);
                assert(rest[0] == ls@[i as int]@);
                assert(rest.skip(1) =~= all.skip(i + 1));
                assert(flatten_lines(repo.objects@, rest, fuel as nat) == match flatten_line(
                    repo.objects@,
                    rest[0],
                    fuel as nat,
                ) {
                    Err(e) => Err(e),
                    Ok(first) => prepend(
                        first,
                        flatten_lines(repo.objects@, all.skip(i + 1), fuel as nat),
                    ),
                });
            }
            let entry = match Entry::from_line(&ls[i]) {
                Ok(entry) => entry,
                Err(e) => { return Err(e); },
            };
            match entry.obj_type {
                TypeObject::Blob => {
                    out.push(entry);
                    proof {
                        assert(entry_views(out@) =~= before + seq![entry@]);
                        lemma_prepend_twice(
                            before,
                            seq![entry@],
                            flatten_lines(repo.objects@, all.skip(i + 1), fuel as nat),
                        );
                    }
                },
                TypeObject::Commit => { return Err(Error::Corrupt); },
                TypeObject::Tree => {
                    let sub = match get_object(repo, entry.oid.as_str(), TypeObject::Tree) {
                        Ok(sub) => sub,
                        Err(e) => { return Err(e); },
                    };
                    if fuel == 0 {
                        return Err(Error::Corrupt);
                    }
                    let mut below = match Tree::flatten_chars(
                        repo,
                        &to_chars(sub.as_str()),
                        fuel - 1,
                    ) {
                        Ok(below) => below,
                        Err(e) => { return Err(e); },
                    };
                    let ghost first = entry_views(below.entries@);
                    out.append(&mut below.entries);
                    proof {
                        assert(entry_views(out@) =~= before + first);
                        lemma_prepend_twice(
                            before,
                            first,
                            flatten_lines(repo.objects@, all.skip(i + 1), fuel as nat),
                        );
                    }
                },
            }
            i += 1;
        }
        proof {
            assert(all.skip(ls.len() as int).len() == 0);
            assert(entry_views(out@) + Seq::<EntryView>::empty() =~= entry_views(out@));
        }
        Ok(Tree { entries: out })
    }

    /// The files that the tree object with text `tree` stands for: its
    /// blob entries, and in place of each tree entry the files of the
    /// tree object that it names. A line that is no entry or names a
    /// commit is corrupt, and so are tree objects that are nested deeper
    /// than there are objects in the store, as a tree object is that
    /// holds itself.
    pub fn get_tree(repo: &Repository, tree: &str) -> (r: Result<Tree, Error>)
        ensures
            same_tree_outcome(r, flatten(repo.objects@, tree@, repo.objects.spec_len())),
    {
        Tree::flatten_chars(repo, &to_chars(tree), repo.objects.len())
    }

    /// The files of the tree of the commit that `HEAD` leads to.
    pub fn get_head_tree(repo: &Repository) -> (r: Result<Tree, Error>)
        ensures
            same_tree_outcome(r, head_tree(repo)),
    {
        let oid = match RefValue::get_ref(repo, "HEAD", true) {
            Err(e) => { return Err(e); },
            Ok(None) => { return Err(Error::NotFound); },
            Ok(Some(head)) => head.value,
        };
        let commit = match Commit::get_commit(repo, oid.as_str()) {
            Err(e) => { return Err(e); },
            Ok(commit) => commit,
        };
        match get_object(repo, commit.tree.as_str(), TypeObject::Tree) {
            Err(e) => Err(e),
            Ok(text) => Tree::get_tree(repo, text.as_str()),
        }
    }

    /// The paths of the files and directories of `dir` that a restore
    /// removes: those that are not ignored.
    pub fn clear_current_directory(dir: &Vec<Node>, ignore_options: &[String]) -> (cleared: Vec<
        String,
    >)
        ensures
            string_views(cleared@) == cleared_paths(dir@, patterns(ignore_options@), dir@.len()),
    {
        let ghost options = patterns(ignore_options@);
        let mut cleared: Vec<String> = Vec::new();
        let mut i: usize = 0;
        assert(string_views(cleared@) =~= cleared_paths(dir@, options, 0));
        while i < dir.len()
            invariant
                i <= dir.len(),
                options == patterns(ignore_options@),
                string_views(cleared@) == cleared_paths(dir@, options, i as nat),
            decreases dir.len() - i,
        {
            let ghost before = string_views(cleared@);
            let path = match &dir[i] {
                Node::File { path, content } => path,
                Node::Dir { path, children } => path,
            };
            if !Tree::is_ignored(path.as_str(), ignore_options) {
                cleared.push(path.clone());
                assert(string_views(cleared@) =~= before.push(path@));
            }
            i += 1;
        }
        cleared
    }

    /// What restoring the tree object `oid` into the working directory
    /// `dir` does: everything in `dir` that is not ignored is removed,
    /// then every file of the tree is written with the content of its
    /// blob. An object that is missing or corrupt stops the restore;
    /// what came before it is still done.
    pub fn read_tree(repo: &Repository, oid: &str, dir: &Vec<Node>, ignore_options: &[String]) -> (plan:
        Restore)
        ensures
            string_views(plan.cleared@) == cleared_paths(
                dir@,
                patterns(ignore_options@),
                dir@.len(),
            ),
            file_views(plan.written@) == restored_files(
                repo.objects@,
                oid@,
                repo.objects.spec_len(),
            ).0,
            plan.failure == restored_files(repo.objects@, oid@, repo.objects.spec_len()).1,
    {
        let cleared = Tree::clear_current_directory(dir, ignore_options);
        let mut written: Vec<FileWrite> = Vec::new();
        assert(file_views(written@) =~= Seq::<(Seq<char>, Seq<char>)>::empty());
        let text = match get_object(repo, oid, TypeObject::Tree) {
            Ok(text) => text,
            Err(e) => { return Restore { cleared, written, failure: Some(e) }; },
        };
        let tree = match Tree::get_tree(repo, text.as_str()) {
            Ok(tree) => tree,
            Err(e) => { return Restore { cleared, written, failure: Some(e) }; },
        };
        let ghost all = entry_views(tree.entries@);
        let mut i: usize = 0;
        assert(all.skip(0) =~= all);
        assert(Seq::<(Seq<char>, Seq<char>)>::empty() + blob_files(repo.objects@, all).0
            =~= blob_files(repo.objects@, all).0);
        while i < tree.entries.len()
            invariant
                i <= tree.entries.len(),
                all == entry_views(tree.entries@),
                string_views(cleared@) == cleared_paths(
                    dir@,
                    patterns(ignore_options@),
                    dir@.len(),
                ),
                restored_files(repo.objects@, oid@, repo.objects.spec_len()) == blob_files(
                    repo.objects@,
                    all,
                ),
                blob_files(repo.objects@, all).0 == file_views(written@) + blob_files(
                    repo.objects@,
                    all.skip(i as int),
                ).0,
                blob_files(repo.objects@, all).1 == blob_files(
                    repo.objects@,
                    all.skip(i as int),
                ).1,
            decreases tree.entries.len() - i,
        {
            let ghost before = file_views(written@);
            let ghost rest = all.skip(i as int);
            proof {
                assert(rest[0] == tree.entries@[i as int]@);
                assert(rest.skip(1) =~= all.skip(i + 1));
            }
            let entry = &tree.entries[i];
            let content = match get_object(repo, entry.oid.as_str(), TypeObject::Blob) {
                Ok(content) => content,
                Err(e) => {
                    assert(before + Seq::<(Seq<char>, Seq<char>)>::empty() =~= before);
                    return Restore { cleared, written, failure: Some(e) };
                },
            };
            written.push(FileWrite { path: entry.path.clone(), content });
            proof {
                let tail = blob_files(repo.objects@, all.skip(i + 1)).0;
                assert(file_views(written@) =~= before + seq![(entry.path@, content@)]);
                assert(before + (seq![(entry.path@, content@)] + tail) =~= file_views(written@)
                    + tail);
            }
            i += 1;
        }
        proof {
            assert(all.skip(tree.entries.len() as int).len() == 0);
            assert(file_views(written@) + Seq::<(Seq<char>, Seq<char>)>::empty() =~= file_views(
                written@,
            ));
        }
        Restore { cleared, written, failure: None }
    }
}

/// Nothing put before an outcome leaves the outcome as it is.
pub proof fn lemma_prepend_nothing<T>(r: Result<Seq<T>, Error>)
    ensures
        prepend(Seq::<T>::empty(), r) == r,
{
    match r {
        Ok(rest) => {
            assert(Seq::<T>::empty() + rest =~= rest);
        },
        Err(e) => {},
    }
}

/// Putting `b` and then `a` before an outcome puts `a + b` before it.
pub proof fn lemma_prepend_twice<T>(a: Seq<T>, b: Seq<T>, r: Result<Seq<T>, Error>)
    ensures
        prepend(a, prepend(b, r)) == prepend(a + b, r),
{
    match r {
        Ok(rest) => {
            assert(a + (b + rest) =~= (a + b) + rest);
        },
        Err(e) => {},
    }
}

} // verus!
