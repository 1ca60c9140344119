//! The difference between two flattened trees.

use crate::data::{get_object, read_object, Error, Repository, TypeObject};
use crate::entry::{entry_views, string_views, EntryView, Tree};
use crate::store::TextMap;
use crate::text::from_chars;
use similar::{ChangeTag, TextDiff};
use vstd::prelude::*;

verus! {

/// The id at each path of `entries`; of two entries with one path the
/// later one counts.
pub open spec fn path_index(entries: Seq<EntryView>) -> Map<Seq<char>, Seq<char>>
    decreases entries.len(),
{
    if entries.len() == 0 {
        Map::empty()
    } else {
        path_index(entries.drop_last()).insert(entries.last().path, entries.last().oid)
    }
}

/// Whether `path` stands in both trees, with different ids.
pub open spec fn is_modified(
    from: Map<Seq<char>, Seq<char>>,
    to: Map<Seq<char>, Seq<char>>,
    path: Seq<char>,
) -> bool {
    from.contains_key(path) && to.contains_key(path) && from[path] != to[path]
}

/// Whether `path` stands in the second tree only.
pub open spec fn is_created(
    from: Map<Seq<char>, Seq<char>>,
    to: Map<Seq<char>, Seq<char>>,
    path: Seq<char>,
) -> bool {
    !from.contains_key(path) && to.contains_key(path)
}

/// Whether `path` stands in the first tree only.
pub open spec fn is_removed(
    from: Map<Seq<char>, Seq<char>>,
    to: Map<Seq<char>, Seq<char>>,
    path: Seq<char>,
) -> bool {
    from.contains_key(path) && !to.contains_key(path)
}

/// The index of a tree: the id at each of its paths.
pub fn convert_dict(tree: &Tree) -> (dict: TextMap)
    ensures
        dict@ == path_index(entry_views(tree.entries@)),
{
    let mut dict = TextMap::new();
    let ghost all = entry_views(tree.entries@);
    let mut i: usize = 0;
    assert(all.take(0) =~= Seq::<EntryView>::empty());
    while i < tree.entries.len()
        invariant
            i <= tree.entries.len(),
            all == entry_views(tree.entries@),
            dict@ == path_index(all.take(i as int)),
        decreases tree.entries.len() - i,
    {
        dict.insert(tree.entries[i].path.as_str(), tree.entries[i].oid.as_str());
        proof {
            assert(all.take(i + 1).drop_last() =~= all.take(i as int));
            assert(all.take(i + 1).last() == tree.entries@[i as int]@);
        }
        i += 1;
    }
    assert(all.take(tree.entries.len() as int) =~= all);
    dict
}

/// Whether `changed`, `created` and `removed` are the difference between
/// the trees `from` and `to`: each list holds once every path of its
/// kind, and nothing else. A path with equal ids in both trees is in
/// none of them.
pub open spec fn is_diff(
    changed: Seq<Seq<char>>,
    created: Seq<Seq<char>>,
    removed: Seq<Seq<char>>,
    from: Seq<EntryView>,
    to: Seq<EntryView>,
) -> bool {
    let old_index = path_index(from);
    let new_index = path_index(to);
    &&& changed.no_duplicates()
    &&& created.no_duplicates()
    &&& removed.no_duplicates()
    &&& forall|p: Seq<char>| #[trigger] changed.contains(p) <==> is_modified(old_index, new_index, p)
    &&& forall|p: Seq<char>| #[trigger] created.contains(p) <==> is_created(old_index, new_index, p)
    &&& forall|p: Seq<char>| #[trigger] removed.contains(p) <==> is_removed(old_index, new_index, p)
}

/// The difference between a tree and itself is empty.
pub proof fn law_diff_of_equal_trees(
    changed: Seq<Seq<char>>,
    created: Seq<Seq<char>>,
    removed: Seq<Seq<char>>,
    tree: Seq<EntryView>,
)
    requires
        is_diff(changed, created, removed, tree, tree),
    ensures
        changed.len() == 0,
        created.len() == 0,
        removed.len() == 0,
{
    if changed.len() > 0 {
        assert(changed.contains(changed[0]));
    }
    if created.len() > 0 {
        assert(created.contains(created[0]));
    }
    if removed.len() > 0 {
        assert(removed.contains(removed[0]));
    }
}

/// The difference from `b` to `a` holds the same changed paths as the
/// difference from `a` to `b`, and has its created and removed paths
/// swapped.
pub proof fn law_diff_swapped(
    there: (Seq<Seq<char>>, Seq<Seq<char>>, Seq<Seq<char>>),
    back: (Seq<Seq<char>>, Seq<Seq<char>>, Seq<Seq<char>>),
    a: Seq<EntryView>,
    b: Seq<EntryView>,
)
    requires
        is_diff(there.0, there.1, there.2, a, b),
        is_diff(back.0, back.1, back.2, b, a),
    ensures
        there.0.to_set() == back.0.to_set(),
        there.1.to_set() == back.2.to_set(),
        there.2.to_set() == back.1.to_set(),
{
    assert forall|p: Seq<char>| there.0.to_set().contains(p) <==> back.0.to_set().contains(p) by {
        assert(there.0.contains(p) <==> back.0.contains(p));
    }
    assert forall|p: Seq<char>| there.1.to_set().contains(p) <==> back.2.to_set().contains(p) by {
        assert(there.1.contains(p) <==> back.2.contains(p));
    }
    assert forall|p: Seq<char>| there.2.to_set().contains(p) <==> back.1.to_set().contains(p) by {
        assert(there.2.contains(p) <==> back.1.contains(p));
    }
    assert(there.0.to_set() =~= back.0.to_set());
    assert(there.1.to_set() =~= back.2.to_set());
    assert(there.2.to_set() =~= back.1.to_set());
}

/// The paths in which the trees `from` and `to` differ: those that stand
/// in both with different ids, those that stand in `to` only, and those
/// that stand in `from` only, in this order. Equal trees give three
/// empty lists.
pub fn diff_trees(from: &Tree, to: &Tree) -> (r: (Vec<String>, Vec<String>, Vec<String>))
    ensures
        is_diff(
            string_views(r.0@),
            string_views(r.1@),
            string_views(r.2@),
            entry_views(from.entries@),
            entry_views(to.entries@),
        ),
        entry_views(from.entries@) == entry_views(to.entries@) ==> r.0@.len() == 0 && r.1@.len()
            == 0 && r.2@.len() == 0,
{
    let from_tree = convert_dict(from);
    let to_tree = convert_dict(to);
    let mut changed: Vec<String> = Vec::new();
    let mut created: Vec<String> = Vec::new();
    let mut removed: Vec<String> = Vec::new();
    let ghost old_index = from_tree@;
    let ghost new_index = to_tree@;
    let ghost old_keys = from_tree.key_seq();
    let ghost new_keys = to_tree.key_seq();
    proof {
        from_tree.lemma_keys();
        to_tree.lemma_keys();
    }
    let n = from_tree.len();
    let m = to_tree.len();
    let mut i: usize = 0;
    while i < n
        invariant
            i <= n,
            old_index == from_tree@,
            new_index == to_tree@,
            old_keys == from_tree.key_seq(),
            old_keys.len() == n,
            old_keys.no_duplicates(),
            forall|k: Seq<char>| #[trigger] old_index.contains_key(k) <==> old_keys.contains(k),
            created@.len() == 0,
            string_views(changed@).no_duplicates(),
            string_views(removed@).no_duplicates(),
            forall|p: Seq<char>|
                #[trigger] string_views(changed@).contains(p) <==> old_keys.take(i as int).contains(p)
                    && is_modified(old_index, new_index, p),
            forall|p: Seq<char>|
                #[trigger] string_views(removed@).contains(p) <==> old_keys.take(i as int).contains(p)
                    && is_removed(old_index, new_index, p),
        decreases n - i,
    {
        let path = from_tree.key_at(i);
        let from_oid = from_tree.value_at(i);
        let ghost changed_before = string_views(changed@);
        let ghost removed_before = string_views(removed@);
        let ghost seen = old_keys.take(i as int);
        proof {
            assert(old_keys.take(i + 1) =~= seen.push(path@));
            lemma_fresh(old_keys, i as int);
            assert(!changed_before.contains(path@));
            assert(!removed_before.contains(path@));
        }
        match to_tree.get(path.as_str()) {
            Some(to_oid) => {
                if *from_oid != *to_oid {
                    changed.push(path.clone());
                    proof {
                        assert(string_views(changed@) =~= changed_before.push(path@));
                        lemma_push_no_duplicates(changed_before, path@);
                    }
                }
            },
            None => {
                removed.push(path.clone());
                proof {
                    assert(string_views(removed@) =~= removed_before.push(path@));
                    lemma_push_no_duplicates(removed_before, path@);
                }
            },
        }
        proof {
            assert forall|p: Seq<char>|
                #[trigger] string_views(changed@).contains(p) <==> old_keys.take(i + 1).contains(p)
                    && is_modified(old_index, new_index, p) by {
                lemma_push_contains(seen, path@, p);
                lemma_push_contains(changed_before, path@, p);
                assert(changed_before.contains(p) <==> seen.contains(p) && is_modified(
                    old_index,
                    new_index,
                    p,
                ));
            }
            assert forall|p: Seq<char>|
                #[trigger] string_views(removed@).contains(p) <==> old_keys.take(i + 1).contains(p)
                    && is_removed(old_index, new_index, p) by {
                lemma_push_contains(seen, path@, p);
                lemma_push_contains(removed_before, path@, p);
                assert(removed_before.contains(p) <==> seen.contains(p) && is_removed(
                    old_index,
                    new_index,
                    p,
                ));
            }
        }
        i += 1;
    }
    assert(old_keys.take(n as int) =~= old_keys);
    let mut j: usize = 0;
    assert(string_views(created@) =~= Seq::<Seq<char>>::empty());
    while j < m
        invariant
            j <= m,
            old_index == from_tree@,
            new_index == to_tree@,
            new_keys == to_tree.key_seq(),
            new_keys.len() == m,
            new_keys.no_duplicates(),
            forall|k: Seq<char>| #[trigger] new_index.contains_key(k) <==> new_keys.contains(k),
            string_views(created@).no_duplicates(),
            forall|p: Seq<char>|
                #[trigger] string_views(created@).contains(p) <==> new_keys.take(j as int).contains(p)
                    && is_created(old_index, new_index, p),
        decreases m - j,
    {
        let path = to_tree.key_at(j);
        let ghost created_before = string_views(created@);
        let ghost seen = new_keys.take(j as int);
        proof {
            assert(new_keys.take(j + 1) =~= seen.push(path@));
            lemma_fresh(new_keys, j as int);
            assert(!created_before.contains(path@));
            assert(new_keys.contains(path@));
        }
        if !from_tree.contains(path.as_str()) {
            created.push(path.clone());
            proof {
                assert(string_views(created@) =~= created_before.push(path@));
                lemma_push_no_duplicates(created_before, path@);
            }
        }
        proof {
            assert forall|p: Seq<char>|
                #[trigger] string_views(created@).contains(p) <==> new_keys.take(j + 1).contains(p)
                    && is_created(old_index, new_index, p) by {
                lemma_push_contains(seen, path@, p);
                lemma_push_contains(created_before, path@, p);
                assert(created_before.contains(p) <==> seen.contains(p) && is_created(
                    old_index,
                    new_index,
                    p,
                ));
            }
        }
        j += 1;
    }
    assert(new_keys.take(m as int) =~= new_keys);
    proof {
        if entry_views(from.entries@) == entry_views(to.entries@) {
            law_diff_of_equal_trees(
                string_views(changed@),
                string_views(created@),
                string_views(removed@),
                entry_views(from.entries@),
            );
        }
    }
    (changed, created, removed)
}

/// A sequence with one more item holds what it held, and that item.
proof fn lemma_push_contains(s: Seq<Seq<char>>, x: Seq<char>, p: Seq<char>)
    ensures
        s.push(x).contains(p) <==> s.contains(p) || p == x,
{
    if s.contains(p) {
        let i = choose|i: int| 0 <= i < s.len() && s[i] == p;
        assert(s.push(x)[i] == p);
    }
    if p == x {
        assert(s.push(x)[s.len() as int] == p);
    }
    if s.push(x).contains(p) {
        let i = choose|i: int| 0 <= i < s.push(x).len() && s.push(x)[i] == p;
        if i < s.len() {
            assert(s[i] == p);
        }
    }
}

/// In a sequence without duplicates, an item does not stand before
/// itself.
proof fn lemma_fresh(s: Seq<Seq<char>>, i: int)
    requires
        s.no_duplicates(),
        0 <= i < s.len(),
    ensures
        !s.take(i).contains(s[i]),
        s.contains(s[i]),
{
    if s.take(i).contains(s[i]) {
        let j = choose|j: int| 0 <= j < i && s.take(i)[j] == s[i];
        assert(s[j] == s[i]);
    }
}

/// A new item at the end of a sequence without duplicates leaves it
/// without duplicates.
proof fn lemma_push_no_duplicates(s: Seq<Seq<char>>, x: Seq<char>)
    requires
        s.no_duplicates(),
        !s.contains(x),
    ensures
        s.push(x).no_duplicates(),
{
    assert forall|i: int, j: int| 0 <= i < j < s.push(x).len() implies s.push(x)[i] != s.push(x)[j] by {
        if j == s.len() {
            assert(s[i] != x);
        }
    }
}

/// What a line of a line-by-line comparison is: in both texts, in the
/// old text only, or in the new text only.
#[derive(Debug, Clone, Copy, PartialEq, Eq, Structural)]
pub enum ChangeKind {
    Equal,
    Delete,
    Insert,
}

/// A stretch of a line, and whether the comparison singles it out.
#[derive(Debug, PartialEq, Eq)]
pub struct Part {
    pub emphasized: bool,
    pub text: String,
}

/// A line of a comparison: its kind, its place in the old and in the new
/// text, counted from 0, its stretches, and whether it lacks a line end.
#[derive(Debug, PartialEq, Eq)]
pub struct LineChange {
    pub tag: ChangeKind,
    pub old_index: Option<usize>,
    pub new_index: Option<usize>,
    pub parts: Vec<Part>,
    pub missing_newline: bool,
}

/// How a piece of the rendered comparison is to look.
#[derive(Debug, Clone, Copy, PartialEq, Eq, Structural)]
pub enum Look {
    /// As it is.
    Plain,
    /// A line number: dimmed.
    Number,
    /// The sign of a line: bold, in the colour of its kind.
    Sign(ChangeKind),
    /// Text of a line: in the colour of its kind.
    Text(ChangeKind),
    /// Text that is singled out: underlined as well.
    Emphasis(ChangeKind),
}

/// A piece of the rendered comparison.
#[derive(Debug, PartialEq, Eq)]
pub struct Piece {
    pub look: Look,
    pub text: String,
}

/// A `Piece` with its text taken as a character sequence.
pub struct PieceView {
    pub look: Look,
    pub text: Seq<char>,
}

impl View for Piece {
    type V = PieceView;

    open spec fn view(&self) -> PieceView {
        PieceView { look: self.look, text: self.text@ }
    }
}

/// The pieces of `s`, each by its view.
pub open spec fn piece_views(s: Seq<Piece>) -> Seq<PieceView> {
    Seq::new(s.len(), |i: int| s[i]@)
}

/// The digit for `n`, which is below 10.
pub open spec fn digit(n: nat) -> char {
    seq!['0', '1', '2', '3', '4', '5', '6', '7', '8', '9'][n as int]
}

/// `n` in decimal.
pub open spec fn decimal(n: nat) -> Seq<char>
    decreases n,
{
    if n < 10 {
        seq![digit(n)]
    } else {
        decimal(n / 10).push(digit(n % 10))
    }
}

/// `count` spaces.
pub open spec fn spaces(count: nat) -> Seq<char> {
    Seq::new(count, |i: int| ' ')
}

/// The column that holds a line number: four spaces where the line has
/// no place in the text, else the place counted from 1, filled up with
/// spaces to four characters.
pub open spec fn line_number(index: Option<usize>) -> Seq<char> {
    match index {
        None => spaces(4),
        Some(i) => {
            let number = decimal((i + 1) as nat);
            if number.len() >= 4 {
                number
            } else {
                number + spaces((4 - number.len()) as nat)
            }
        },
    }
}

/// The sign that stands before a line of kind `tag`.
pub open spec fn sign(tag: ChangeKind) -> char {
    match tag {
        ChangeKind::Delete => '-',
        ChangeKind::Insert => '+',
        ChangeKind::Equal => ' ',
    }
}

/// The piece for one stretch of a line of kind `tag`.
pub open spec fn part_piece(tag: ChangeKind, part: Part) -> PieceView {
    PieceView {
        look: if part.emphasized {
            Look::Emphasis(tag)
        } else {
            Look::Text(tag)
        },
        text: part.text@,
    }
}

/// The pieces for one line: the two line numbers, a bar, the sign, the
/// stretches of the line, and a line end where the line lacks one.
pub open spec fn change_pieces(c: LineChange) -> Seq<PieceView> {
    seq![
        PieceView { look: Look::Number, text: line_number(c.old_index) },
        PieceView { look: Look::Number, text: line_number(c.new_index) },
        PieceView { look: Look::Plain, text: seq![' ', '|'] },
        PieceView { look: Look::Sign(c.tag), text: seq![sign(c.tag)] },
    ] + Seq::new(c.parts@.len(), |i: int| part_piece(c.tag, c.parts@[i])) + if c.missing_newline {
        seq![PieceView { look: Look::Plain, text: seq!['\n'] }]
    } else {
        Seq::empty()
    }
}

/// The pieces for the first `n` lines of a group.
pub open spec fn group_pieces(group: Seq<LineChange>, n: nat) -> Seq<PieceView>
    decreases n,
{
    if n == 0 || n > group.len() {
        Seq::empty()
    } else {
        group_pieces(group, (n - 1) as nat) + change_pieces(group[n - 1])
    }
}

/// The line that parts two groups: eighty dashes.
pub open spec fn rule() -> Seq<char> {
    Seq::new(80, |i: int| '-').push('\n')
}

/// The pieces for the first `n` groups: the lines of each group, and a
/// rule before every group but the first.
pub open spec fn rendered(groups: Seq<Vec<LineChange>>, n: nat) -> Seq<PieceView>
    decreases n,
{
    if n == 0 || n > groups.len() {
        Seq::empty()
    } else {
        rendered(groups, (n - 1) as nat) + (if n > 1 {
            seq![PieceView { look: Look::Plain, text: rule() }]
        } else {
            Seq::empty()
        }) + group_pieces(groups[n - 1]@, groups[n - 1]@.len())
    }
}

/// The content of the blob `oid`, or the empty text where there is no
/// blob on that side.
pub open spec fn side_content(objects: Map<Seq<char>, Seq<char>>, oid: Option<&str>) -> Result<
    Seq<char>,
    Error,
> {
    match oid {
        Some(oid) => read_object(objects, oid@, TypeObject::Blob),
        None => Ok(Seq::empty()),
    }
}

/// A line of a comparison as a whole: its kind, its place in the old
/// and in the new text, its text, and whether it lacks a line end.
pub struct ChangedLine {
    pub tag: ChangeKind,
    pub old_index: Option<usize>,
    pub new_index: Option<usize>,
    pub text: Seq<char>,
    pub missing_newline: bool,
}

/// The texts of the first `n` of `parts`, one after the other.
pub open spec fn joined(parts: Seq<Part>, n: nat) -> Seq<char>
    decreases n,
{
    if n == 0 || n > parts.len() {
        Seq::empty()
    } else {
        joined(parts, (n - 1) as nat) + parts[n - 1].text@
    }
}

/// The line `c` as a whole, without its cutting into parts.
pub open spec fn line_view(c: LineChange) -> ChangedLine {
    ChangedLine {
        tag: c.tag,
        old_index: c.old_index,
        new_index: c.new_index,
        text: joined(c.parts@, c.parts@.len()),
        missing_newline: c.missing_newline,
    }
}

/// The lines of `groups`, each as a whole.
pub open spec fn group_views(groups: Seq<Vec<LineChange>>) -> Seq<Seq<ChangedLine>> {
    Seq::new(groups.len(), |g: int| Seq::new(groups[g]@.len(), |i: int| line_view(groups[g]@[i])))
}

/// The comparison of `old` and `new` line by line: the changed lines in
/// groups, each with up to `context` equal lines around it.
pub uninterp spec fn line_comparison(old: Seq<char>, new: Seq<char>, context: nat) -> Seq<
    Seq<ChangedLine>,
>;

/// The lines in which `old` and `new` differ, in groups, each with
/// `context` equal lines around it, and within each changed line the
/// stretches that differ. This is `TextDiff::from_lines`, `grouped_ops`
/// and `iter_inline_changes` of the `similar` crate, each line turned
/// into a `LineChange`.
///
/// The comparison of the lines has no time limit, so which lines are
/// shown, with which kind and at which places, is a function of the two
/// texts and the context: it is named `line_comparison`. Equal texts
/// give no group, different texts give at least one, and no group is
/// empty. The comparison within a changed line gives up after a time
/// limit: how a line is cut into parts, and which parts are singled
/// out, is not claimed.
#[verifier::external_body]
fn inline_changes(old: &str, new: &str, context: usize) -> (groups: Vec<Vec<LineChange>>)
    requires
        2 * context <= usize::MAX,
    ensures
        group_views(groups@) == line_comparison(old@, new@, context as nat),
        groups@.len() == 0 <==> old@ == new@,
        forall|g: int| 0 <= g < groups@.len() ==> (#[trigger] groups@[g])@.len() > 0,
{
    let diff = TextDiff::from_lines(old, new);
    diff.grouped_ops(context).iter().map(|group| group.iter().flat_map(|op| diff.iter_inline_changes(op)).map(|c| LineChange {
        tag: match c.tag() { ChangeTag::Equal => ChangeKind::Equal, ChangeTag::Delete => ChangeKind::Delete, ChangeTag::Insert => ChangeKind::Insert },
        old_index: c.old_index(),
        new_index: c.new_index(),
        parts: c.iter_strings_lossy().map(|(emphasized, text)| Part { emphasized, text: text.into_owned() }).collect(),
        missing_newline: c.missing_newline(),
    }).collect()).collect()
}

/// `n` in decimal.
fn decimal_chars(n: u128) -> (v: Vec<char>)
    ensures
        v@ == decimal(n as nat),
    decreases n,
{
    let digits = vec!['0', '1', '2', '3', '4', '5', '6', '7', '8', '9'];
    assert(digits@ =~= seq!['0', '1', '2', '3', '4', '5', '6', '7', '8', '9']);
    if n < 10 {
        let v = vec![digits[n as usize]];
        assert(v@ =~= decimal(n as nat));
        v
    } else {
        let mut v = decimal_chars(n / 10);
        v.push(digits[(n % 10) as usize]);
        v
    }
}

/// The column that holds the line number for `index`.
fn number_column(index: Option<usize>) -> (s: String)
    ensures
        s@ == line_number(index),
{
    let mut v: Vec<char> = match index {
        None => Vec::new(),
        Some(i) => decimal_chars(i as u128 + 1),
    };
    let ghost number = v@;
    assert(v@ =~= number + spaces(0));
    while v.len() < 4
        invariant
            number.len() <= v@.len(),
            number.len() < 4 ==> v@.len() <= 4,
            number.len() >= 4 ==> v@.len() == number.len(),
            v@ == number + spaces((v@.len() - number.len()) as nat),
        decreases 4 - v.len(),
    {
        v.push(' ');
        assert(v@ =~= number + spaces((v@.len() - number.len()) as nat));
    }
    proof {
        if number.len() >= 4 {
            assert(v@ =~= number);
        }
        if index is None {
            assert(v@ =~= spaces(4));
        }
    }
    from_chars(&v)
}

/// The pieces that show one line of a comparison.
fn render_change(c: &LineChange, pieces: &mut Vec<Piece>)
    ensures
        piece_views(final(pieces)@) == piece_views(old(pieces)@) + change_pieces(*c),
{
    let ghost before = piece_views(pieces@);
    pieces.push(Piece { look: Look::Number, text: number_column(c.old_index) });
    pieces.push(Piece { look: Look::Number, text: number_column(c.new_index) });
    let bar = vec![' ', '|'];
    assert(bar@ =~= seq![' ', '|']);
    pieces.push(Piece { look: Look::Plain, text: from_chars(&bar) });
    let mark = match c.tag {
        ChangeKind::Delete => vec!['-'],
        ChangeKind::Insert => vec!['+'],
        ChangeKind::Equal => vec![' '],
    };
    assert(mark@ =~= seq![sign(c.tag)]);
    pieces.push(Piece { look: Look::Sign(c.tag), text: from_chars(&mark) });
    let ghost head = seq![
        PieceView { look: Look::Number, text: line_number(c.old_index) },
        PieceView { look: Look::Number, text: line_number(c.new_index) },
        PieceView { look: Look::Plain, text: seq![' ', '|'] },
        PieceView { look: Look::Sign(c.tag), text: seq![sign(c.tag)] },
    ];
    assert(piece_views(pieces@) =~= before + head);
    let ghost parts = Seq::new(c.parts@.len(), |i: int| part_piece(c.tag, c.parts@[i]));
    let mut i: usize = 0;
    while i < c.parts.len()
        invariant
            i <= c.parts.len(),
            parts == Seq::new(c.parts@.len(), |i: int| part_piece(c.tag, c.parts@[i])),
            piece_views(pieces@) == before + head + parts.take(i as int),
        decreases c.parts.len() - i,
    {
        let look = if c.parts[i].emphasized {
            Look::Emphasis(c.tag)
        } else {
            Look::Text(c.tag)
        };
        let ghost so_far = piece_views(pieces@);
        let text = c.parts[i].text.clone();
        pieces.push(Piece { look, text });
        assert(pieces@.last()@ == parts[i as int]);
        assert(piece_views(pieces@) =~= so_far.push(parts[i as int]));
        assert(parts.take(i + 1) =~= parts.take(i as int).push(parts[i as int]));
        assert(piece_views(pieces@) =~= before + head + parts.take(i + 1));
        i += 1;
    }
    assert(parts.take(c.parts.len() as int) =~= parts);
    if c.missing_newline {
        let end = vec!['\n'];
        assert(end@ =~= seq!['\n']);
        let ghost so_far = piece_views(pieces@);
        assert(so_far == before + head + parts);
        pieces.push(Piece { look: Look::Plain, text: from_chars(&end) });
        assert(pieces@.last()@ == (PieceView { look: Look::Plain, text: seq!['\n'] }));
        assert(piece_views(pieces@) =~= so_far.push(pieces@.last()@));
        assert(piece_views(pieces@) =~= before + (head + parts + seq![
            PieceView { look: Look::Plain, text: seq!['\n'] },
        ]));
    } else {
        assert(piece_views(pieces@) =~= before + (head + parts + Seq::<PieceView>::empty()));
    }
}

/// The pieces that show a comparison of two texts: for each group of
/// changed lines its lines, each with the numbers of the line in the old
/// and in the new text, its sign and its text; and a rule of eighty
/// dashes between two groups.
pub fn render_changes(groups: &Vec<Vec<LineChange>>) -> (pieces: Vec<Piece>)
    ensures
        piece_views(pieces@) == rendered(groups@, groups@.len()),
{
    let mut pieces: Vec<Piece> = Vec::new();
    let mut g: usize = 0;
    assert(piece_views(pieces@) =~= rendered(groups@, 0));
    while g < groups.len()
        invariant
            g <= groups.len(),
            piece_views(pieces@) == rendered(groups@, g as nat),
        decreases groups.len() - g,
    {
        let ghost before = piece_views(pieces@);
        if g > 0 {
            let mut dashes: Vec<char> = Vec::new();
            let mut k: usize = 0;
            while k < 80
                invariant
                    k <= 80,
                    dashes@ == Seq::new(k as nat, |i: int| '-'),
                decreases 80 - k,
            {
                dashes.push('-');
                assert(dashes@ =~= Seq::new((k + 1) as nat, |i: int| '-'));
                k += 1;
            }
            dashes.push('\n');
            pieces.push(Piece { look: Look::Plain, text: from_chars(&dashes) });
            assert(piece_views(pieces@) =~= before + seq![
                PieceView { look: Look::Plain, text: rule() },
            ]);
        } else {
            assert(piece_views(pieces@) =~= before + Seq::<PieceView>::empty());
        }
        let ghost start = piece_views(pieces@);
        let group = &groups[g];
        let mut i: usize = 0;
        assert(start + group_pieces(group@, 0) =~= start);
        while i < group.len()
            invariant
                i <= group.len(),
                piece_views(pieces@) == start + group_pieces(group@, i as nat),
            decreases group.len() - i,
        {
            render_change(&group[i], &mut pieces);
            assert(start + group_pieces(group@, i as nat) + change_pieces(group@[i as int])
                =~= start + group_pieces(group@, (i + 1) as nat));
            i += 1;
        }
        g += 1;
    }
    pieces
}

/// Groups that are not empty are rendered as pieces, and no groups as
/// none.
proof fn lemma_rendered_len(groups: Seq<Vec<LineChange>>)
    requires
        forall|g: int| 0 <= g < groups.len() ==> (#[trigger] groups[g])@.len() > 0,
    ensures
        rendered(groups, groups.len()).len() == 0 <==> groups.len() == 0,
{
    if groups.len() > 0 {
        let last = groups[groups.len() - 1]@;
        assert(last.len() > 0);
        assert(group_pieces(last, last.len()).len() >= change_pieces(last[last.len() - 1]).len());
        assert(change_pieces(last[last.len() - 1]).len() >= 4);
    }
}

/// The comparison of the blobs `old_oid` and `new_oid`, line by line,
/// with three equal lines around each group of changes, as pieces to
/// print. A side without a blob counts as the empty text. The result is
/// an error where a blob cannot be read, the old one first. In every
/// other case it is the rendering of the lines that the comparison of the
/// two contents gives, and it is empty where the contents are equal and
/// nowhere else. How a changed line is cut into parts is for the
/// comparison to say.
pub fn display_diff_file(repo: &Repository, old_oid: Option<&str>, new_oid: Option<&str>) -> (r:
    Result<Vec<Piece>, Error>)
    ensures
        match side_content(repo.objects@, old_oid) {
            Err(e) => r == Err::<Vec<Piece>, Error>(e),
            Ok(a) => match side_content(repo.objects@, new_oid) {
                Err(e) => r == Err::<Vec<Piece>, Error>(e),
                Ok(b) => {
                    &&& r matches Ok(pieces)
                    &&& pieces@.len() == 0 <==> a == b
                    &&& exists|groups: Seq<Vec<LineChange>>|
                        piece_views(pieces@) == #[trigger] rendered(groups, groups.len())
                            && group_views(groups) == line_comparison(a, b, 3)
                },
            },
        },
{
    let old_contents = match old_oid {
        Some(oid) => match get_object(repo, oid, TypeObject::Blob) {
            Ok(content) => content,
            Err(e) => { return Err(e); },
        },
        None => String::new(),
    };
    let new_contents = match new_oid {
        Some(oid) => match get_object(repo, oid, TypeObject::Blob) {
            Ok(content) => content,
            Err(e) => { return Err(e); },
        },
        None => String::new(),
    };
    let groups = inline_changes(old_contents.as_str(), new_contents.as_str(), 3);
    let pieces = render_changes(&groups);
    proof {
        lemma_rendered_len(groups@);
        assert(piece_views(pieces@) == rendered(groups@, groups@.len()));
        assert(piece_views(pieces@).len() == pieces@.len());
    }
    Ok(pieces)
}

} // verus!
