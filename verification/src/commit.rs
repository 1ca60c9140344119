//! Commits: a tree, the commit before it, and a message.

use crate::data::{
    get_object, get_oid, hash_object, is_oid, object_text, oid_of, read_object, resolve_name,
    Error, Repository, TypeObject,
};
use crate::entry::{
    lemma_prepend_nothing, lemma_prepend_twice, patterns, prepend, snapshot_text, tree_oid,
    write_tree_objects, Node, Tree,
};
use crate::roundtrip::lemma_oid_plain;
use crate::reference::{is_written, resolve, write_target, RefValue};
use crate::text::{
    free_of, from_chars, lemma_lines_joined, lemma_split_joined, lemma_split_whole, line_chars,
    lines, plain, same, split, split_chars, to_chars, views,
};
use vstd::prelude::*;

verus! {

/// A commit: the id of its tree, the id of the commit before it, if
/// there is one, and its message.
#[derive(Debug, PartialEq)]
pub struct Commit {
    pub tree: String,
    pub parent: Option<String>,
    pub message: String,
}

/// A `Commit` with its strings taken as character sequences.
pub struct CommitView {
    pub tree: Seq<char>,
    pub parent: Option<Seq<char>>,
    pub message: Seq<char>,
}

impl View for Commit {
    type V = CommitView;

    open spec fn view(&self) -> CommitView {
        CommitView {
            tree: self.tree@,
            parent: match self.parent {
                Some(p) => Some(p@),
                None => None,
            },
            message: self.message@,
        }
    }
}

/// The word with which the line of the parent begins.
pub open spec fn parent_word() -> Seq<char> {
    seq!['p', 'a', 'r', 'e', 'n', 't']
}

/// The line of the parent, where there is one.
pub open spec fn parent_line(parent: Option<Seq<char>>) -> Seq<char> {
    match parent {
        Some(p) => parent_word() + seq![' '] + p + seq!['\n'],
        None => Seq::empty(),
    }
}

/// The content of the commit object for `c`: the line of the tree, the
/// line of the parent where there is one, an empty line, the message.
pub open spec fn commit_text(c: CommitView) -> Seq<char> {
    TypeObject::Tree.tag() + seq![' '] + c.tree + seq!['\n'] + parent_line(c.parent) + seq!['\n']
        + c.message + seq!['\n']
}

/// The parent that the second line of a commit object names. A line that
/// does not begin with the word for it names none.
pub open spec fn parse_parent(ls: Seq<Seq<char>>) -> Result<Option<Seq<char>>, Error> {
    if ls.len() < 2 {
        Ok(None)
    } else {
        let fields = split(ls[1], ' ');
        if fields[0] != parent_word() {
            Ok(None)
        } else if fields.len() < 2 {
            Err(Error::Corrupt)
        } else {
            Ok(Some(fields[1]))
        }
    }
}

/// The commit that the content `text` of a commit object stands for. The
/// first line names the tree and the second may name the parent. Then
/// comes an empty line, and at least one line more: the last line is the
/// message. A text that lacks one of these lines is corrupt.
pub open spec fn parse_commit(text: Seq<char>) -> Result<CommitView, Error> {
    let ls = lines(text);
    if ls.len() == 0 {
        Err(Error::Corrupt)
    } else {
        let fields = split(ls[0], ' ');
        if fields[0] != TypeObject::Tree.tag() || fields.len() < 2 {
            Err(Error::Corrupt)
        } else {
            match parse_parent(ls) {
                Err(e) => Err(e),
                Ok(parent) => {
                    let blank: int = if parent is Some {
                        2
                    } else {
                        1
                    };
                    if ls.len() < blank + 2 || ls[blank].len() != 0 {
                        Err(Error::Corrupt)
                    } else {
                        Ok(CommitView { tree: fields[1], parent, message: ls.last() })
                    }
                },
            }
        }
    }
}

/// The commit stored under `oid`.
pub open spec fn read_commit(objects: Map<Seq<char>, Seq<char>>, oid: Seq<char>) -> Result<
    CommitView,
    Error,
> {
    match read_object(objects, oid, TypeObject::Commit) {
        Err(e) => Err(e),
        Ok(text) => parse_commit(text),
    }
}

/// Whether the outcome `r` is the outcome `expected`.
pub open spec fn same_commit_outcome(r: Result<Commit, Error>, expected: Result<CommitView, Error>) -> bool {
    match r {
        Ok(c) => expected == Ok::<CommitView, Error>(c@),
        Err(e) => expected == Err::<CommitView, Error>(e),
    }
}

/// The parent of the next commit: the id that `HEAD` leads to, if it
/// leads to one.
pub open spec fn head_parent(refs: Map<Seq<char>, Seq<char>>, fuel: nat) -> Result<
    Option<Seq<char>>,
    Error,
> {
    match resolve(refs, "HEAD"@, true, fuel) {
        Err(e) => Err(e),
        Ok(None) => Ok(None),
        Ok(Some(v)) => Ok(Some(v.value)),
    }
}

/// A commit of the history with its id.
#[derive(Debug, PartialEq)]
pub struct LogEntry {
    pub oid: String,
    pub commit: Commit,
}

/// The entries of `s`, each as its id and its commit.
pub open spec fn log_views(s: Seq<LogEntry>) -> Seq<(Seq<char>, CommitView)> {
    Seq::new(s.len(), |i: int| (s[i].oid@, s[i].commit@))
}

/// The commit `oid` and the commits before it, the latest first. A
/// history of more than `fuel` parents is corrupt.
pub open spec fn history(objects: Map<Seq<char>, Seq<char>>, oid: Seq<char>, fuel: nat) -> Result<
    Seq<(Seq<char>, CommitView)>,
    Error,
>
    decreases fuel,
{
    match read_commit(objects, oid) {
        Err(e) => Err(e),
        Ok(c) => match c.parent {
            None => Ok(seq![(oid, c)]),
            Some(p) => if fuel == 0 {
                Err(Error::Corrupt)
            } else {
                prepend(seq![(oid, c)], history(objects, p, (fuel - 1) as nat))
            },
        },
    }
}

/// The content of a commit object is read back as the commit that it was
/// written for, where the ids hold no space and no line feed and the
/// message is a single line.
pub proof fn law_commit_text_parses(c: CommitView)
    requires
        plain(c.tree),
        c.parent matches Some(p) ==> plain(p),
        free_of(c.message, '\n'),
    ensures
        parse_commit(commit_text(c)) == Ok::<CommitView, Error>(c),
{
    let tag = TypeObject::Tree.tag();
    let first = tag + seq![' '] + c.tree;
    let end = c.message + seq!['\n'];
    let empty = Seq::<char>::empty();
    assert(free_of(tag, ' ') && free_of(tag, '\n'));
    assert(free_of(first, '\n'));
    lemma_split_joined(tag, ' ', c.tree);
    lemma_split_whole(c.tree, ' ');
    assert(split(first, ' ') =~= seq![tag, c.tree]);
    assert(end =~= c.message + seq!['\n'] + empty);
    lemma_lines_joined(c.message, empty);
    assert(lines(end) =~= seq![c.message]);
    assert(seq!['\n'] + end =~= empty + seq!['\n'] + end);
    lemma_lines_joined(empty, end);
    let tail = seq!['\n'] + end;
    assert(lines(tail) =~= seq![empty, c.message]);
    lemma_split_whole(empty, ' ');
    match c.parent {
        None => {
            assert(commit_text(c) =~= first + seq!['\n'] + tail);
            lemma_lines_joined(first, tail);
            let ls = lines(commit_text(c));
            assert(ls =~= seq![first, empty, c.message]);
            assert(split(ls[1], ' ')[0].len() == 0);
        },
        Some(p) => {
            let word = parent_word();
            let second = word + seq![' '] + p;
            assert(free_of(word, ' ') && free_of(word, '\n'));
            assert(free_of(second, '\n'));
            lemma_split_joined(word, ' ', p);
            lemma_split_whole(p, ' ');
            assert(split(second, ' ') =~= seq![word, p]);
            assert(commit_text(c) =~= first + seq!['\n'] + (second + seq!['\n'] + tail));
            lemma_lines_joined(second, tail);
            lemma_lines_joined(first, second + seq!['\n'] + tail);
            let ls = lines(commit_text(c));
            assert(ls =~= seq![first, second, empty, c.message]);
        },
    }
}

/// A commit that was just written reads back as it was written,
/// whatever the store held before.
pub proof fn law_commit_reads_back(objects: Map<Seq<char>, Seq<char>>, c: CommitView)
    requires
        plain(c.tree),
        c.parent matches Some(p) ==> plain(p),
        free_of(c.message, '\n'),
    ensures
        read_commit(
            objects.insert(
                oid_of(TypeObject::Commit, commit_text(c)),
                object_text(TypeObject::Commit, commit_text(c)),
            ),
            oid_of(TypeObject::Commit, commit_text(c)),
        ) == Ok::<CommitView, Error>(c),
{
    crate::data::law_written_reads_back(objects, TypeObject::Commit, commit_text(c));
    law_commit_text_parses(c);
}

/// The characters of the word for the parent.
fn parent_chars() -> (v: Vec<char>)
    ensures
        v@ == parent_word(),
{
    let v = vec!['p', 'a', 'r', 'e', 'n', 't'];
    assert(v@ =~= parent_word());
    v
}

/// Where a chain of references can be read to its end, it can be
/// written to.
pub proof fn lemma_readable_is_writable(refs: Map<Seq<char>, Seq<char>>, name: Seq<char>, fuel: nat)
    requires
        resolve(refs, name, true, fuel) is Ok,
    ensures
        write_target(refs, name, fuel) is Ok,
    decreases fuel,
{
    if refs.contains_key(name) && crate::reference::is_symbolic(refs[name]) && fuel > 0 {
        lemma_readable_is_writable(refs, refs[name].skip(4), (fuel - 1) as nat);
    }
}

impl Commit {
    /// The commit of the characters `text` of a commit object.
    fn from_chars(text: &Vec<char>) -> (r: Result<Commit, Error>)
        ensures
            same_commit_outcome(r, parse_commit(text@)),
    {
        let ls = line_chars(text);
        if ls.len() == 0 {
            return Err(Error::Corrupt);
        }
        let fields = split_chars(&ls[0], ' ');
        assert(views(ls@)[0] == ls@[0]@);
        assert(views(fields@)[0] == fields@[0]@);
        if !same(&fields[0], &TypeObject::Tree.tag_chars()) || fields.len() < 2 {
            return Err(Error::Corrupt);
        }
        assert(views(fields@)[1] == fields@[1]@);
        let tree = from_chars(&fields[1]);
        let mut parent: Option<String> = None;
        if ls.len() >= 2 {
            let second = split_chars(&ls[1], ' ');
            assert(views(ls@)[1] == ls@[1]@);
            assert(views(second@)[0] == second@[0]@);
            if same(&second[0], &parent_chars()) {
                if second.len() < 2 {
                    return Err(Error::Corrupt);
                }
                assert(views(second@)[1] == second@[1]@);
                parent = Some(from_chars(&second[1]));
            }
        }
        let blank: usize = if parent.is_some() {
            2
        } else {
            1
        };
        if ls.len() < blank + 2 {
            return Err(Error::Corrupt);
        }
        assert(views(ls@)[blank as int] == ls@[blank as int]@);
        if ls[blank].len() != 0 {
            return Err(Error::Corrupt);
        }
        assert(views(ls@).last() == ls@[ls.len() - 1]@);
        let message = from_chars(&ls[ls.len() - 1]);
        Ok(Commit { tree, parent, message })
    }

    /// Reads the commit stored under `oid`. An object whose first line
    /// does not name a tree, or that lacks the empty line or the line of
    /// the message after it, is corrupt.
    pub fn get_commit(repo: &Repository, oid: &str) -> (r: Result<Commit, Error>)
        ensures
            same_commit_outcome(r, read_commit(repo.objects@, oid@)),
    {
        match get_object(repo, oid, TypeObject::Commit) {
            Err(e) => Err(e),
            Ok(text) => Commit::from_chars(&to_chars(text.as_str())),
        }
    }

    /// The content of the commit object for a tree, a parent and a
    /// message.
    fn text_of(tree: &String, parent: &Option<String>, message: &str) -> (s: String)
        ensures
            s@ == commit_text(
                CommitView {
                    tree: tree@,
                    parent: match parent {
                        Some(p) => Some(p@),
                        None => None,
                    },
                    message: message@,
                },
            ),
    {
        let mut v = TypeObject::Tree.tag_chars();
        v.push(' ');
        let mut tree_chars = to_chars(tree.as_str());
        v.append(&mut tree_chars);
        v.push('\n');
        match parent {
            Some(p) => {
                let mut word = parent_chars();
                v.append(&mut word);
                v.push(' ');
                let mut parent_chars = to_chars(p.as_str());
                v.append(&mut parent_chars);
                v.push('\n');
            },
            None => {},
        }
        v.push('\n');
        let mut message_chars = to_chars(message);
        v.append(&mut message_chars);
        v.push('\n');
        assert(v@ =~= commit_text(
            CommitView {
                tree: tree@,
                parent: match parent {
                    Some(p) => Some(p@),
                    None => None,
                },
                message: message@,
            },
        ));
        from_chars(&v)
    }

    /// Records the working directory `dir` as a new commit and returns
    /// its id. The snapshot of `dir` is written first. The parent of the
    /// new commit is the commit that `HEAD` leads to; where `HEAD` leads
    /// to none, the new commit has no parent. Then the reference that
    /// `HEAD` leads to, or `HEAD` itself where it is not symbolic, is set
    /// to the new commit. A commit whose message is a single line reads
    /// back as it was written. A cycle among the references is an error;
    /// the snapshot is then written, and nothing else.
    pub fn commit(repo: &mut Repository, dir: &Vec<Node>, message: &str, ignore_options: &[String]) -> (r:
        Result<String, Error>)
        ensures
            match head_parent(old(repo).refs@, old(repo).refs.spec_len()) {
                Err(e) => {
                    &&& r == Err::<String, Error>(e)
                    &&& final(repo).refs == old(repo).refs
                    &&& final(repo).objects@ == write_tree_objects(
                        old(repo).objects@,
                        dir@,
                        patterns(ignore_options@),
                    )
                },
                Ok(parent) => {
                    let text = commit_text(
                        CommitView {
                            tree: tree_oid(dir@, patterns(ignore_options@)),
                            parent,
                            message: message@,
                        },
                    );
                    &&& r matches Ok(oid)
                    &&& oid@ == oid_of(TypeObject::Commit, text)
                    &&& is_oid(oid@)
                    &&& final(repo).objects@ == write_tree_objects(
                        old(repo).objects@,
                        dir@,
                        patterns(ignore_options@),
                    ).insert(oid@, object_text(TypeObject::Commit, text))
                    &&& write_target(old(repo).refs@, "HEAD"@, old(repo).refs.spec_len())
                        matches Ok(target)
                    &&& is_written(old(repo).refs, final(repo).refs, target, oid@)
                    &&& free_of(message@, '\n') && (parent matches Some(p) ==> plain(p))
                        ==> read_commit(final(repo).objects@, oid@) == Ok::<CommitView, Error>(
                        CommitView {
                            tree: tree_oid(dir@, patterns(ignore_options@)),
                            parent,
                            message: message@,
                        },
                    )
                },
            },
    {
        let ghost before = write_tree_objects(
            repo.objects@,
            dir@,
            patterns(ignore_options@),
        );
        let tree = Tree::write_tree(repo, dir, ignore_options);
        let parent = match RefValue::get_ref(repo, "HEAD", true) {
            Err(e) => { return Err(e); },
            Ok(None) => None,
            Ok(Some(head)) => Some(head.value),
        };
        let text = Commit::text_of(&tree, &parent, message);
        let oid = hash_object(repo, text.as_str(), TypeObject::Commit);
        let value = RefValue { ref_oid: Some(oid.clone()), symbolic: false, value: oid };
        proof {
            lemma_readable_is_writable(repo.refs@, "HEAD"@, repo.refs.spec_len());
            let c = CommitView {
                tree: tree@,
                parent: match parent {
                    Some(p) => Some(p@),
                    None => None,
                },
                message: message@,
            };
            lemma_oid_plain(TypeObject::Tree, snapshot_text(dir@, patterns(ignore_options@)));
            if free_of(message@, '\n') && (c.parent matches Some(p) ==> plain(p)) {
                law_commit_reads_back(before, c);
            }
        }
        RefValue::update_ref(repo, "HEAD", &value, true)
    }
}

/// The history that starts at `name`, the latest commit first; without a
/// name, the history that starts at the commit that `HEAD` leads to, which
/// is empty where `HEAD` leads to none. A history with more parents than
/// there are objects in the store is corrupt, as one is that leads back
/// into itself.
pub fn log(repo: &Repository, name: Option<&str>) -> (r: Result<Vec<LogEntry>, Error>)
    ensures
        match log_start(repo, name) {
            Err(e) => r == Err::<Vec<LogEntry>, Error>(e),
            Ok(None) => r matches Ok(entries) && entries@.len() == 0,
            Ok(Some(oid)) => match history(repo.objects@, oid, repo.objects.spec_len()) {
                Err(e) => r == Err::<Vec<LogEntry>, Error>(e),
                Ok(h) => r matches Ok(entries) && log_views(entries@) == h,
            },
        },
{
    let start = match name {
        Some(name) => match get_oid(repo, name) {
            Err(e) => { return Err(e); },
            Ok(oid) => oid,
        },
        None => match RefValue::get_ref(repo, "HEAD", true) {
            Err(e) => { return Err(e); },
            Ok(None) => { return Ok(Vec::new()); },
            Ok(Some(head)) => head.value,
        },
    };
    let mut entries: Vec<LogEntry> = Vec::new();
    let mut oid = start;
    let mut fuel: usize = repo.objects.len();
    proof {
        assert(log_views(entries@) =~= Seq::<(Seq<char>, CommitView)>::empty());
        lemma_prepend_nothing(history(repo.objects@, oid@, fuel as nat));
    }
    loop
        invariant
            log_start(repo, name) == Ok::<Option<Seq<char>>, Error>(Some(start@)),
            history(repo.objects@, start@, repo.objects.spec_len()) == prepend(
                log_views(entries@),
                history(repo.objects@, oid@, fuel as nat),
            ),
        decreases fuel,
    {
        let ghost before = log_views(entries@);
        let ghost here = oid@;
        let commit = match Commit::get_commit(repo, oid.as_str()) {
            Err(e) => { return Err(e); },
            Ok(commit) => commit,
        };
        let ghost c = commit@;
        let parent = match &commit.parent {
            None => None,
            Some(p) => Some(p.clone()),
        };
        entries.push(LogEntry { oid, commit });
        assert(log_views(entries@) =~= before + seq![(here, c)]);
        match parent {
            None => {
                return Ok(entries);
            },
            Some(p) => {
                if fuel == 0 {
                    return Err(Error::Corrupt);
                }
                proof {
                    lemma_prepend_twice(
                        before,
                        seq![(here, c)],
                        history(repo.objects@, p@, (fuel - 1) as nat),
                    );
                }
                fuel -= 1;
                oid = p;
            },
        }
    }
}

/// The id at which `log` starts.
pub open spec fn log_start(repo: &Repository, name: Option<&str>) -> Result<Option<Seq<char>>, Error> {
    match name {
        Some(name) => match resolve_name(repo.refs@, name@, repo.refs.spec_len()) {
            Err(e) => Err(e),
            Ok(oid) => Ok(Some(oid)),
        },
        None => head_parent(repo.refs@, repo.refs.spec_len()),
    }
}

} // verus!
