//! Restoring a snapshot gives back the files that were snapshot.

use crate::data::{
    kind_of_tag, lemma_hex_chars, lemma_tags_differ, object_text, oid_of, read_object, stored,
    Error, TypeObject,
};
use crate::entry::{
    blob_files, entry_line, entry_order, flatten, flatten_line, flatten_lines, ignored,
    lemma_entry_order_total, lemma_nothing, parse_entry, restored_files, snapshot_entries,
    snapshot_objects, snapshot_text, tree_oid, tree_text, working_entries, write_tree_objects,
    EntryView, Node,
};
use crate::text::{
    free_of, lemma_lines_joined, lemma_split_joined, lemma_split_whole, lines, plain, split,
};
use vstd::multiset::Multiset;
use vstd::prelude::*;
use vstd::seq_lib::{lemma_multiset_commutative, to_multiset_build, to_multiset_remove};

verus! {

/// Whether both text fields of `e` can stand in a tree line.
pub open spec fn plain_entry(e: EntryView) -> bool {
    plain(e.oid) && plain(e.path)
}

/// The line of `e` without its line feed.
pub open spec fn line_body(e: EntryView) -> Seq<char> {
    e.obj_type.tag() + seq![' '] + e.oid + seq![' '] + e.path
}

/// The lines of the entries `es`, without their line feeds.
pub open spec fn bodies(es: Seq<EntryView>) -> Seq<Seq<char>> {
    Seq::new(es.len(), |i: int| line_body(es[i]))
}

/// An object id holds neither a space nor a line feed.
pub proof fn lemma_oid_plain(kind: TypeObject, content: Seq<char>)
    ensures
        plain(oid_of(kind, content)),
{
    let oid = oid_of(kind, content);
    lemma_hex_chars(crate::data::sha1_digest(vstd::utf8::encode_utf8(object_text(kind, content))));
    assert forall|k: int| 0 <= k < oid.len() implies oid[k] != ' ' && oid[k] != '\n' by {
        assert(crate::data::is_hex_digit(oid[k]));
    }
}

/// A line whose fields are plain is read back as the entry that it was
/// written for.
pub proof fn lemma_parse_body(e: EntryView)
    requires
        plain_entry(e),
    ensures
        parse_entry(line_body(e)) == Some(e),
        free_of(line_body(e), '\n'),
        entry_line(e) == line_body(e) + seq!['\n'],
{
    let tag = e.obj_type.tag();
    assert(free_of(tag, ' ') && free_of(tag, '\n'));
    let tail = e.oid + seq![' '] + e.path;
    assert(line_body(e) =~= tag + seq![' '] + tail);
    lemma_split_joined(tag, ' ', tail);
    lemma_split_joined(e.oid, ' ', e.path);
    lemma_split_whole(e.path, ' ');
    let fields = split(line_body(e), ' ');
    assert(fields =~= seq![tag, e.oid, e.path]);
    lemma_tags_differ();
    assert(kind_of_tag(tag) == Some(e.obj_type));
    assert(entry_line(e) =~= line_body(e) + seq!['\n']);
}

/// The text of a tree object begins with the line of its first entry.
proof fn lemma_tree_text_front(e: EntryView, rest: Seq<EntryView>)
    ensures
        tree_text(seq![e] + rest) == entry_line(e) + tree_text(rest),
    decreases rest.len(),
{
    let all = seq![e] + rest;
    if rest.len() == 0 {
        assert(all.drop_last() =~= Seq::<EntryView>::empty());
        assert(tree_text(all.drop_last()) =~= Seq::<char>::empty());
        assert(tree_text(all) =~= entry_line(e) + tree_text(rest));
    } else {
        lemma_tree_text_front(e, rest.drop_last());
        assert(all.drop_last() =~= seq![e] + rest.drop_last());
        assert(all.last() == rest.last());
        assert(tree_text(all) =~= entry_line(e) + tree_text(rest));
    }
}

/// The lines of a tree object are the lines of its entries.
pub proof fn lemma_tree_lines(es: Seq<EntryView>)
    requires
        forall|i: int| 0 <= i < es.len() ==> plain_entry(#[trigger] es[i]),
    ensures
        lines(tree_text(es)) == bodies(es),
    decreases es.len(),
{
    if es.len() == 0 {
        assert(lines(tree_text(es)) =~= bodies(es));
    } else {
        let e = es[0];
        let rest = es.skip(1);
        assert(es =~= seq![e] + rest);
        lemma_tree_text_front(e, rest);
        lemma_parse_body(e);
        assert forall|i: int| 0 <= i < rest.len() implies plain_entry(#[trigger] rest[i]) by {
            assert(rest[i] == es[i + 1]);
        }
        lemma_tree_lines(rest);
        lemma_lines_joined(line_body(e), tree_text(rest));
        assert(tree_text(es) =~= line_body(e) + seq!['\n'] + tree_text(rest));
        assert(bodies(es) =~= seq![line_body(e)] + bodies(rest));
    }
}

/// What `f` gives for the items of `s`, taken together.
pub open spec fn gather<A, B>(s: Seq<A>, f: spec_fn(A) -> Multiset<B>) -> Multiset<B>
    decreases s.len(),
{
    if s.len() == 0 {
        Multiset::empty()
    } else {
        f(s[0]).add(gather(s.skip(1), f))
    }
}

/// What is gathered from a sequence with one more item at its end.
proof fn lemma_gather_push<A, B>(s: Seq<A>, x: A, f: spec_fn(A) -> Multiset<B>)
    ensures
        gather(s.push(x), f) == gather(s, f).add(f(x)),
    decreases s.len(),
{
    if s.len() == 0 {
        assert(s.push(x).skip(1) =~= Seq::<A>::empty());
        assert(gather(s.push(x).skip(1), f) =~= Multiset::<B>::empty());
        assert(gather(s.push(x), f) =~= gather(s, f).add(f(x)));
    } else {
        lemma_gather_push(s.skip(1), x, f);
        assert(s.push(x).skip(1) =~= s.skip(1).push(x));
        assert(gather(s.push(x), f) =~= gather(s, f).add(f(x)));
    }
}

/// What is gathered from a sequence is what is gathered from it without
/// one item, and from that item.
proof fn lemma_gather_remove<A, B>(s: Seq<A>, i: int, f: spec_fn(A) -> Multiset<B>)
    requires
        0 <= i < s.len(),
    ensures
        gather(s, f) == gather(s.remove(i), f).add(f(s[i])),
    decreases s.len(),
{
    if i == 0 {
        assert(s.remove(0) =~= s.skip(1));
        assert(gather(s, f) =~= gather(s.remove(i), f).add(f(s[i])));
    } else {
        lemma_gather_remove(s.skip(1), i - 1, f);
        assert(s.remove(i).skip(1) =~= s.skip(1).remove(i - 1));
        assert(s.remove(i)[0] == s[0]);
        assert(gather(s, f) =~= gather(s.remove(i), f).add(f(s[i])));
    }
}

/// What is gathered from a sequence does not depend on the order of the
/// sequence.
pub proof fn lemma_gather_any_order<A, B>(a: Seq<A>, b: Seq<A>, f: spec_fn(A) -> Multiset<B>)
    requires
        a.to_multiset() == b.to_multiset(),
    ensures
        gather(a, f) == gather(b, f),
    decreases a.len(),
{
    a.to_multiset_ensures();
    b.to_multiset_ensures();
    if a.len() == 0 {
        assert(b.len() == 0);
    } else {
        let x = a[0];
        assert(a.contains(x));
        assert(b.to_multiset().count(x) > 0);
        assert(b.contains(x));
        let j = choose|j: int| 0 <= j < b.len() && b[j] == x;
        to_multiset_remove(a, 0);
        to_multiset_remove(b, j);
        assert(a.remove(0) =~= a.skip(1));
        lemma_gather_any_order(a.skip(1), b.remove(j), f);
        lemma_gather_remove(b, j, f);
        assert(gather(a, f) =~= gather(b, f));
    }
}

/// What is gathered from two sequences in a row.
proof fn lemma_gather_concat<A, B>(a: Seq<A>, b: Seq<A>, f: spec_fn(A) -> Multiset<B>)
    ensures
        gather(a + b, f) == gather(a, f).add(gather(b, f)),
    decreases b.len(),
{
    if b.len() == 0 {
        assert(a + b =~= a);
        assert(gather(a + b, f) =~= gather(a, f).add(gather(b, f)));
    } else {
        lemma_gather_concat(a, b.drop_last(), f);
        lemma_gather_push(a + b.drop_last(), b.last(), f);
        lemma_gather_push(b.drop_last(), b.last(), f);
        assert(b =~= b.drop_last().push(b.last()));
        assert(a + b =~= (a + b.drop_last()).push(b.last()));
        assert(gather(a + b, f) =~= gather(a, f).add(gather(b, f)));
    }
}

/// The files that the entry `e` of a tree object stands for.
pub open spec fn expand(objects: Map<Seq<char>, Seq<char>>, fuel: nat, e: EntryView) -> Result<
    Seq<EntryView>,
    Error,
> {
    flatten_line(objects, line_body(e), fuel)
}

/// The files that an entry stands for, in no order.
pub open spec fn expanded(objects: Map<Seq<char>, Seq<char>>, fuel: nat) -> spec_fn(
    EntryView,
) -> Multiset<EntryView> {
    |e: EntryView|
        match expand(objects, fuel, e) {
            Ok(files) => files.to_multiset(),
            Err(_) => Multiset::empty(),
        }
}

/// Where every entry stands for files, so do all of them together.
proof fn lemma_flatten_all(objects: Map<Seq<char>, Seq<char>>, es: Seq<EntryView>, fuel: nat)
    requires
        forall|i: int| 0 <= i < es.len() ==> expand(objects, fuel, #[trigger] es[i]) is Ok,
    ensures
        flatten_lines(objects, bodies(es), fuel) is Ok,
        flatten_lines(objects, bodies(es), fuel)->Ok_0.to_multiset() == gather(
            es,
            expanded(objects, fuel),
        ),
    decreases es.len(),
{
    reveal_with_fuel(flatten_lines, 2);
    if es.len() == 0 {
        lemma_nothing(flatten_lines(objects, bodies(es), fuel)->Ok_0);
    } else {
        let rest = es.skip(1);
        assert(bodies(es)[0] == line_body(es[0]));
        assert(bodies(es).skip(1) =~= bodies(rest));
        assert forall|i: int| 0 <= i < rest.len() implies expand(
            objects,
            fuel,
            #[trigger] rest[i],
        ) is Ok by {
            assert(rest[i] == es[i + 1]);
        }
        lemma_flatten_all(objects, rest, fuel);
        let first = expand(objects, fuel, es[0])->Ok_0;
        let tail = flatten_lines(objects, bodies(rest), fuel)->Ok_0;
        assert(flatten_lines(objects, bodies(es), fuel) == Ok::<Seq<EntryView>, Error>(
            first + tail,
        ));
        lemma_multiset_commutative(first, tail);
    }
}

/// Whether `objects` holds the snapshot of the first `n` of `children`:
/// the blob of every file and the tree object of every directory that
/// is not ignored is stored under its id.
pub open spec fn intact(
    objects: Map<Seq<char>, Seq<char>>,
    children: Seq<Node>,
    options: Seq<Seq<char>>,
    n: nat,
) -> bool
    decreases children, n,
{
    if n == 0 || n > children.len() {
        true
    } else {
        intact(objects, children, options, (n - 1) as nat) && match children[n - 1] {
            Node::File { path, content } => ignored(path@, options) || stored(
                objects,
                TypeObject::Blob,
                content@,
            ),
            Node::Dir { path, children: sub } => ignored(path@, options) || (stored(
                objects,
                TypeObject::Tree,
                snapshot_text(sub@, options),
            ) && intact(objects, sub@, options, sub@.len())),
        }
    }
}

/// Whether the paths of the first `n` of `children` and of all that is
/// below them, as far as it is not ignored, are plain.
pub open spec fn plain_paths(children: Seq<Node>, options: Seq<Seq<char>>, n: nat) -> bool
    decreases children, n,
{
    if n == 0 || n > children.len() {
        true
    } else {
        plain_paths(children, options, (n - 1) as nat) && match children[n - 1] {
            Node::File { path, content } => ignored(path@, options) || plain(path@),
            Node::Dir { path, children: sub } => ignored(path@, options) || (plain(path@)
                && plain_paths(sub@, options, sub@.len())),
        }
    }
}

/// How deep directories are nested below the first `n` of `children`.
pub open spec fn depth(children: Seq<Node>, options: Seq<Seq<char>>, n: nat) -> nat
    decreases children, n,
{
    if n == 0 || n > children.len() {
        0
    } else {
        let before = depth(children, options, (n - 1) as nat);
        match children[n - 1] {
            Node::File { path, content } => before,
            Node::Dir { path, children: sub } => if ignored(path@, options) {
                before
            } else if before > depth(sub@, options, sub@.len()) {
                before
            } else {
                depth(sub@, options, sub@.len()) + 1
            },
        }
    }
}

/// The files below the first `n` of `children` that are not ignored,
/// each with its path and its content.
pub open spec fn working_files(children: Seq<Node>, options: Seq<Seq<char>>, n: nat) -> Seq<
    (Seq<char>, Seq<char>),
>
    decreases children, n,
{
    if n == 0 || n > children.len() {
        Seq::empty()
    } else {
        let before = working_files(children, options, (n - 1) as nat);
        match children[n - 1] {
            Node::File { path, content } => if ignored(path@, options) {
                before
            } else {
                before.push((path@, content@))
            },
            Node::Dir { path, children: sub } => if ignored(path@, options) {
                before
            } else {
                before + working_files(sub@, options, sub@.len())
            },
        }
    }
}

/// Whether `objects` holds the snapshot of a directory that holds
/// `children`: its tree object and all that is below it.
pub open spec fn held(
    objects: Map<Seq<char>, Seq<char>>,
    children: Seq<Node>,
    options: Seq<Seq<char>>,
) -> bool {
    stored(objects, TypeObject::Tree, snapshot_text(children, options)) && intact(
        objects,
        children,
        options,
        children.len(),
    )
}

/// An object that is stored under its id reads back as its content.
pub proof fn lemma_read_stored(
    objects: Map<Seq<char>, Seq<char>>,
    kind: TypeObject,
    content: Seq<char>,
)
    requires
        stored(objects, kind, content),
    ensures
        read_object(objects, oid_of(kind, content), kind) == Ok::<Seq<char>, Error>(content),
{
    crate::data::law_written_reads_back(objects, kind, content);
    assert(objects.insert(oid_of(kind, content), object_text(kind, content)) =~= objects);
}

/// Every entry of a snapshot that is held stands for the files below it.
proof fn lemma_entries_expand(
    objects: Map<Seq<char>, Seq<char>>,
    children: Seq<Node>,
    options: Seq<Seq<char>>,
    n: nat,
    fuel: nat,
)
    requires
        n <= children.len(),
        intact(objects, children, options, n),
        plain_paths(children, options, n),
        depth(children, options, n) <= fuel,
    ensures
        forall|i: int|
            0 <= i < snapshot_entries(children, options, n).len() ==> plain_entry(
                #[trigger] snapshot_entries(children, options, n)[i],
            ) && expand(objects, fuel, snapshot_entries(children, options, n)[i]) is Ok,
        gather(snapshot_entries(children, options, n), expanded(objects, fuel))
            == working_entries(children, options, n).to_multiset(),
    decreases children, n,
{
    let u = snapshot_entries(children, options, n);
    let f = expanded(objects, fuel);
    if n == 0 {
        lemma_nothing(working_entries(children, options, n));
    } else {
        let before = snapshot_entries(children, options, (n - 1) as nat);
        let files_before = working_entries(children, options, (n - 1) as nat);
        lemma_entries_expand(objects, children, options, (n - 1) as nat, fuel);
        match children[n - 1] {
            Node::File { path, content } => {
                if !ignored(path@, options) {
                    let e = EntryView {
                        path: path@,
                        oid: oid_of(TypeObject::Blob, content@),
                        obj_type: TypeObject::Blob,
                    };
                    lemma_oid_plain(TypeObject::Blob, content@);
                    lemma_parse_body(e);
                    assert(expand(objects, fuel, e) == Ok::<Seq<EntryView>, Error>(seq![e]));
                    assert(u == before.push(e));
                    lemma_gather_push(before, e, f);
                    to_multiset_build(files_before, e);
                    assert(seq![e] =~= Seq::<EntryView>::empty().push(e));
                    to_multiset_build(Seq::<EntryView>::empty(), e);
                    lemma_nothing(Seq::<EntryView>::empty());
                    assert(f(e) =~= Multiset::<EntryView>::empty().insert(e));
                    assert(gather(u, f) =~= working_entries(children, options, n).to_multiset());
                    assert forall|i: int| 0 <= i < u.len() implies plain_entry(#[trigger] u[i])
                        && expand(objects, fuel, u[i]) is Ok by {
                        if i < before.len() {
                            assert(u[i] == before[i]);
                        }
                    }
                }
            },
            Node::Dir { path, children: sub } => {
                if !ignored(path@, options) {
                    let text = snapshot_text(sub@, options);
                    let e = EntryView {
                        path: path@,
                        oid: tree_oid(sub@, options),
                        obj_type: TypeObject::Tree,
                    };
                    lemma_oid_plain(TypeObject::Tree, text);
                    lemma_parse_body(e);
                    lemma_read_stored(objects, TypeObject::Tree, text);
                    lemma_flatten_snapshot(objects, sub@, options, (fuel - 1) as nat);
                    let below = flatten(objects, text, (fuel - 1) as nat)->Ok_0;
                    assert(expand(objects, fuel, e) == Ok::<Seq<EntryView>, Error>(below));
                    assert(u == before.push(e));
                    lemma_gather_push(before, e, f);
                    lemma_multiset_commutative(
                        files_before,
                        working_entries(sub@, options, sub@.len()),
                    );
                    assert(gather(u, f) =~= working_entries(children, options, n).to_multiset());
                    assert forall|i: int| 0 <= i < u.len() implies plain_entry(#[trigger] u[i])
                        && expand(objects, fuel, u[i]) is Ok by {
                        if i < before.len() {
                            assert(u[i] == before[i]);
                        }
                    }
                }
            },
        }
    }
}

/// The tree object of a snapshot that is held stands for the files of
/// the directory, in some order.
pub proof fn lemma_flatten_snapshot(
    objects: Map<Seq<char>, Seq<char>>,
    children: Seq<Node>,
    options: Seq<Seq<char>>,
    fuel: nat,
)
    requires
        intact(objects, children, options, children.len()),
        plain_paths(children, options, children.len()),
        depth(children, options, children.len()) <= fuel,
    ensures
        flatten(objects, snapshot_text(children, options), fuel) is Ok,
        flatten(objects, snapshot_text(children, options), fuel)->Ok_0.to_multiset()
            == working_entries(children, options, children.len()).to_multiset(),
    decreases children, children.len() + 1,
{
    let u = snapshot_entries(children, options, children.len());
    let s = u.sort_by(entry_order());
    let f = expanded(objects, fuel);
    lemma_entries_expand(objects, children, options, children.len(), fuel);
    lemma_entry_order_total();
    u.lemma_sort_by_ensures(entry_order());
    u.to_multiset_ensures();
    s.to_multiset_ensures();
    assert forall|j: int| 0 <= j < s.len() implies plain_entry(#[trigger] s[j]) && expand(
        objects,
        fuel,
        s[j],
    ) is Ok by {
        assert(s.contains(s[j]));
        assert(u.to_multiset().count(s[j]) > 0);
        assert(u.contains(s[j]));
        let i = choose|i: int| 0 <= i < u.len() && u[i] == s[j];
        assert(plain_entry(u[i]));
    }
    lemma_tree_lines(s);
    lemma_flatten_all(objects, s, fuel);
    lemma_gather_any_order(s, u, f);
}

/// The file that a blob entry stands for: its path with the content of
/// its blob.
pub open spec fn file_of(objects: Map<Seq<char>, Seq<char>>) -> spec_fn(EntryView) -> Multiset<
    (Seq<char>, Seq<char>),
> {
    |e: EntryView|
        match read_object(objects, e.oid, TypeObject::Blob) {
            Ok(content) => Multiset::singleton((e.path, content)),
            Err(_) => Multiset::empty(),
        }
}

/// Where the blob of every entry can be read, every file is written.
proof fn lemma_blob_files_all(objects: Map<Seq<char>, Seq<char>>, es: Seq<EntryView>)
    requires
        forall|i: int|
            0 <= i < es.len() ==> read_object(
                objects,
                (#[trigger] es[i]).oid,
                TypeObject::Blob,
            ) is Ok,
    ensures
        blob_files(objects, es).1 is None,
        blob_files(objects, es).0.to_multiset() == gather(es, file_of(objects)),
    decreases es.len(),
{
    if es.len() == 0 {
        lemma_nothing(blob_files(objects, es).0);
    } else {
        let rest = es.skip(1);
        assert forall|i: int| 0 <= i < rest.len() implies read_object(
            objects,
            (#[trigger] rest[i]).oid,
            TypeObject::Blob,
        ) is Ok by {
            assert(rest[i] == es[i + 1]);
        }
        lemma_blob_files_all(objects, rest);
        let content = read_object(objects, es[0].oid, TypeObject::Blob)->Ok_0;
        let first = seq![(es[0].path, content)];
        lemma_multiset_commutative(first, blob_files(objects, rest).0);
        lemma_single(first[0]);
    }
}

/// A sequence of one item holds that item once.
proof fn lemma_single<A>(x: A)
    ensures
        seq![x].to_multiset() == Multiset::singleton(x),
{
    assert(seq![x] =~= Seq::<A>::empty().push(x));
    to_multiset_build(Seq::<A>::empty(), x);
    lemma_nothing(Seq::<A>::empty());
    assert(seq![x].to_multiset() =~= Multiset::singleton(x));
}

/// The blob of every file of a snapshot that is held can be read, and
/// holds the content of the file.
proof fn lemma_working_files(
    objects: Map<Seq<char>, Seq<char>>,
    children: Seq<Node>,
    options: Seq<Seq<char>>,
    n: nat,
)
    requires
        n <= children.len(),
        intact(objects, children, options, n),
    ensures
        forall|i: int|
            0 <= i < working_entries(children, options, n).len() ==> read_object(
                objects,
                (#[trigger] working_entries(children, options, n)[i]).oid,
                TypeObject::Blob,
            ) is Ok,
        gather(working_entries(children, options, n), file_of(objects)) == working_files(
            children,
            options,
            n,
        ).to_multiset(),
    decreases children, n,
{
    let w = working_entries(children, options, n);
    let g = file_of(objects);
    if n == 0 {
        lemma_nothing(working_files(children, options, n));
    } else {
        let before = working_entries(children, options, (n - 1) as nat);
        let files_before = working_files(children, options, (n - 1) as nat);
        lemma_working_files(objects, children, options, (n - 1) as nat);
        match children[n - 1] {
            Node::File { path, content } => {
                if !ignored(path@, options) {
                    let e = EntryView {
                        path: path@,
                        oid: oid_of(TypeObject::Blob, content@),
                        obj_type: TypeObject::Blob,
                    };
                    lemma_read_stored(objects, TypeObject::Blob, content@);
                    assert(w == before.push(e));
                    lemma_gather_push(before, e, g);
                    to_multiset_build(files_before, (path@, content@));
                    assert(gather(w, g) =~= working_files(children, options, n).to_multiset());
                    assert forall|i: int| 0 <= i < w.len() implies read_object(
                        objects,
                        (#[trigger] w[i]).oid,
                        TypeObject::Blob,
                    ) is Ok by {
                        if i < before.len() {
                            assert(w[i] == before[i]);
                        }
                    }
                }
            },
            Node::Dir { path, children: sub } => {
                if !ignored(path@, options) {
                    let below = working_entries(sub@, options, sub@.len());
                    lemma_working_files(objects, sub@, options, sub@.len());
                    assert(w == before + below);
                    lemma_gather_concat(before, below, g);
                    lemma_multiset_commutative(
                        files_before,
                        working_files(sub@, options, sub@.len()),
                    );
                    assert forall|i: int| 0 <= i < w.len() implies read_object(
                        objects,
                        (#[trigger] w[i]).oid,
                        TypeObject::Blob,
                    ) is Ok by {
                        if i < before.len() {
                            assert(w[i] == before[i]);
                        } else {
                            assert(w[i] == below[i - before.len()]);
                        }
                    }
                }
            },
        }
    }
}

/// Restoring a snapshot from a store that holds it writes the files of
/// the directory that are not ignored, each at its path with its
/// content, and nothing else. This holds where the paths hold no space
/// and no line feed and where the directories are not nested deeper
/// than `fuel`.
pub proof fn law_restore_held(
    objects: Map<Seq<char>, Seq<char>>,
    children: Seq<Node>,
    options: Seq<Seq<char>>,
    fuel: nat,
)
    requires
        plain_paths(children, options, children.len()),
        held(objects, children, options),
        depth(children, options, children.len()) <= fuel,
    ensures
        restored_files(objects, tree_oid(children, options), fuel).1 is None,
        restored_files(objects, tree_oid(children, options), fuel).0.to_multiset()
            == working_files(children, options, children.len()).to_multiset(),
{
    let text = snapshot_text(children, options);
    lemma_read_stored(objects, TypeObject::Tree, text);
    lemma_flatten_snapshot(objects, children, options, fuel);
    let r = flatten(objects, text, fuel)->Ok_0;
    let w = working_entries(children, options, children.len());
    lemma_working_files(objects, children, options, children.len());
    r.to_multiset_ensures();
    w.to_multiset_ensures();
    assert forall|i: int| 0 <= i < r.len() implies read_object(
        objects,
        (#[trigger] r[i]).oid,
        TypeObject::Blob,
    ) is Ok by {
        assert(r.contains(r[i]));
        assert(w.to_multiset().count(r[i]) > 0);
        assert(w.contains(r[i]));
        let k = choose|k: int| 0 <= k < w.len() && w[k] == r[i];
        assert(read_object(objects, w[k].oid, TypeObject::Blob) is Ok);
    }
    lemma_blob_files_all(objects, r);
    lemma_gather_any_order(r, w, file_of(objects));
}

/// Restoring the snapshot of a directory writes the files of the
/// directory, each at its path with its content, and nothing else. This
/// holds where the paths hold no space and no line feed, where the
/// objects that the snapshot wrote are still stored under their ids, so
/// that no two of them met at one id, and where the directories are not
/// nested deeper than `fuel`.
pub proof fn law_restore_snapshot(
    objects: Map<Seq<char>, Seq<char>>,
    children: Seq<Node>,
    options: Seq<Seq<char>>,
    fuel: nat,
)
    requires
        plain_paths(children, options, children.len()),
        intact(write_tree_objects(objects, children, options), children, options, children.len()),
        depth(children, options, children.len()) <= fuel,
    ensures
        ({
            let after = write_tree_objects(objects, children, options);
            let restored = restored_files(after, tree_oid(children, options), fuel);
            &&& restored.1 is None
            &&& restored.0.to_multiset() == working_files(
                children,
                options,
                children.len(),
            ).to_multiset()
        }),
{
    let after = write_tree_objects(objects, children, options);
    assert(stored(after, TypeObject::Tree, snapshot_text(children, options)));
    law_restore_held(after, children, options, fuel);
}

/// The entry that a file or directory adds to the tree object of the
/// directory that holds it, if it adds one.
pub open spec fn entry_bag(options: Seq<Seq<char>>) -> spec_fn(Node) -> Multiset<EntryView> {
    |node: Node|
        {
            let one = snapshot_entries(seq![node], options, 1);
            one.to_multiset()
        }
}

/// The entries of a tree object are gathered from the files and
/// directories, one by one.
proof fn lemma_entries_gathered(children: Seq<Node>, options: Seq<Seq<char>>, n: nat)
    requires
        n <= children.len(),
    ensures
        snapshot_entries(children, options, n).to_multiset() == gather(
            children.take(n as int),
            entry_bag(options),
        ),
    decreases n,
{
    let f = entry_bag(options);
    if n == 0 {
        lemma_nothing(snapshot_entries(children, options, n));
        assert(children.take(0).len() == 0);
    } else {
        let before = snapshot_entries(children, options, (n - 1) as nat);
        lemma_entries_gathered(children, options, (n - 1) as nat);
        let node = children[n - 1];
        assert(children.take(n as int) =~= children.take(n - 1).push(node));
        lemma_gather_push(children.take(n - 1), node, f);
        let one = snapshot_entries(seq![node], options, 1);
        assert(snapshot_entries(seq![node], options, 0) =~= Seq::<EntryView>::empty());
        assert(seq![node][0] == node);
        if one.len() == 0 {
            lemma_nothing(one);
            assert(snapshot_entries(children, options, n) == before);
            assert(before.to_multiset().add(Multiset::<EntryView>::empty())
                =~= before.to_multiset());
        } else {
            let e = one[0];
            assert(one =~= seq![e]);
            lemma_single(e);
            assert(snapshot_entries(children, options, n) == before.push(e));
            to_multiset_build(before, e);
            assert(before.to_multiset().insert(e) =~= before.to_multiset().add(
                Multiset::singleton(e),
            ));
        }
    }
}

/// Two listings of one directory, which hold the same files and
/// directories in different orders, have the same tree object.
pub proof fn law_snapshot_listing_order(
    first: Seq<Node>,
    second: Seq<Node>,
    options: Seq<Seq<char>>,
)
    requires
        first.to_multiset() == second.to_multiset(),
    ensures
        snapshot_text(first, options) == snapshot_text(second, options),
        tree_oid(first, options) == tree_oid(second, options),
{
    lemma_entries_gathered(first, options, first.len());
    lemma_entries_gathered(second, options, second.len());
    assert(first.take(first.len() as int) =~= first);
    assert(second.take(second.len() as int) =~= second);
    lemma_gather_any_order(first, second, entry_bag(options));
    crate::entry::law_snapshot_order(first, second, options);
}

/// The objects that the snapshot of the first `n` of `children` writes,
/// each as its kind and its content.
pub open spec fn written(children: Seq<Node>, options: Seq<Seq<char>>, n: nat) -> Set<
    (TypeObject, Seq<char>),
>
    decreases children, n,
{
    if n == 0 || n > children.len() {
        Set::empty()
    } else {
        let before = written(children, options, (n - 1) as nat);
        match children[n - 1] {
            Node::File { path, content } => if ignored(path@, options) {
                before
            } else {
                before.insert((TypeObject::Blob, content@))
            },
            Node::Dir { path, children: sub } => if ignored(path@, options) {
                before
            } else {
                before.union(written(sub@, options, sub@.len())).insert(
                    (TypeObject::Tree, snapshot_text(sub@, options)),
                )
            },
        }
    }
}

/// Whether no two different objects of `objects` have the same id.
pub open spec fn clash_free(objects: Set<(TypeObject, Seq<char>)>) -> bool {
    forall|a: (TypeObject, Seq<char>), b: (TypeObject, Seq<char>)|
        #![trigger objects.contains(a), objects.contains(b)]
        objects.contains(a) && objects.contains(b) && oid_of(a.0, a.1) == oid_of(b.0, b.1) ==> a
            == b
}

/// Whether every object of `set` is stored under its id.
pub open spec fn all_stored(
    objects: Map<Seq<char>, Seq<char>>,
    set: Set<(TypeObject, Seq<char>)>,
) -> bool {
    forall|o: (TypeObject, Seq<char>)| #[trigger] set.contains(o) ==> stored(objects, o.0, o.1)
}

/// Writing an object leaves stored what was stored, where no two of the
/// objects meet at one id.
proof fn lemma_write_keeps(
    objects: Map<Seq<char>, Seq<char>>,
    held: Set<(TypeObject, Seq<char>)>,
    all: Set<(TypeObject, Seq<char>)>,
    o: (TypeObject, Seq<char>),
)
    requires
        clash_free(all),
        held.subset_of(all),
        all.contains(o),
        all_stored(objects, held),
    ensures
        all_stored(objects.insert(oid_of(o.0, o.1), object_text(o.0, o.1)), held.insert(o)),
{
    let after = objects.insert(oid_of(o.0, o.1), object_text(o.0, o.1));
    assert forall|x: (TypeObject, Seq<char>)| #[trigger] held.insert(o).contains(x) implies stored(
        after,
        x.0,
        x.1,
    ) by {
        if x != o {
            assert(held.contains(x));
            assert(all.contains(x) && all.contains(o));
            assert(stored(objects, x.0, x.1));
        }
    }
}

/// After a snapshot, every object that it wrote is stored under its id,
/// and so is what was stored before, where no two of all these objects
/// meet at one id.
proof fn lemma_written_stored(
    objects: Map<Seq<char>, Seq<char>>,
    children: Seq<Node>,
    options: Seq<Seq<char>>,
    n: nat,
    held: Set<(TypeObject, Seq<char>)>,
    all: Set<(TypeObject, Seq<char>)>,
)
    requires
        n <= children.len(),
        clash_free(all),
        held.subset_of(all),
        written(children, options, n).subset_of(all),
        all_stored(objects, held),
    ensures
        all_stored(
            snapshot_objects(objects, children, options, n),
            held.union(written(children, options, n)),
        ),
    decreases children, n,
{
    if n == 0 {
        assert(held.union(written(children, options, n)) =~= held);
    } else {
        let before = written(children, options, (n - 1) as nat);
        let store = snapshot_objects(objects, children, options, (n - 1) as nat);
        assert(before.subset_of(written(children, options, n)));
        lemma_written_stored(objects, children, options, (n - 1) as nat, held, all);
        let so_far = held.union(before);
        match children[n - 1] {
            Node::File { path, content } => {
                if !ignored(path@, options) {
                    let o = (TypeObject::Blob, content@);
                    assert(written(children, options, n).contains(o));
                    lemma_write_keeps(store, so_far, all, o);
                    assert(held.union(written(children, options, n)) =~= so_far.insert(o));
                }
            },
            Node::Dir { path, children: sub } => {
                if !ignored(path@, options) {
                    let below = written(sub@, options, sub@.len());
                    let o = (TypeObject::Tree, snapshot_text(sub@, options));
                    assert(written(children, options, n).contains(o));
                    assert(below.subset_of(written(children, options, n)));
                    lemma_written_stored(store, sub@, options, sub@.len(), so_far, all);
                    let inner = snapshot_objects(store, sub@, options, sub@.len());
                    lemma_write_keeps(inner, so_far.union(below), all, o);
                    assert(held.union(written(children, options, n)) =~= so_far.union(
                        below,
                    ).insert(o));
                }
            },
        }
    }
}

/// A store in which every object of a snapshot is stored under its id
/// holds the snapshot.
proof fn lemma_stored_is_intact(
    objects: Map<Seq<char>, Seq<char>>,
    children: Seq<Node>,
    options: Seq<Seq<char>>,
    n: nat,
)
    requires
        n <= children.len(),
        all_stored(objects, written(children, options, n)),
    ensures
        intact(objects, children, options, n),
    decreases children, n,
{
    if n > 0 {
        let before = written(children, options, (n - 1) as nat);
        assert(before.subset_of(written(children, options, n)));
        assert(all_stored(objects, before)) by {
            assert forall|o: (TypeObject, Seq<char>)| #[trigger] before.contains(o) implies stored(
                objects,
                o.0,
                o.1,
            ) by {
                assert(written(children, options, n).contains(o));
            }
        }
        lemma_stored_is_intact(objects, children, options, (n - 1) as nat);
        match children[n - 1] {
            Node::File { path, content } => {
                if !ignored(path@, options) {
                    assert(written(children, options, n).contains((TypeObject::Blob, content@)));
                }
            },
            Node::Dir { path, children: sub } => {
                if !ignored(path@, options) {
                    let below = written(sub@, options, sub@.len());
                    assert(written(children, options, n).contains(
                        (TypeObject::Tree, snapshot_text(sub@, options)),
                    ));
                    assert(all_stored(objects, below)) by {
                        assert forall|o: (TypeObject, Seq<char>)| #[trigger]
                            below.contains(o) implies stored(objects, o.0, o.1) by {
                            assert(written(children, options, n).contains(o));
                        }
                    }
                    lemma_stored_is_intact(objects, sub@, options, sub@.len());
                }
            },
        }
    }
}

/// After a snapshot, every object that it wrote is stored under its id,
/// whatever the store held before, where no two different objects of
/// the snapshot have the same id.
pub proof fn lemma_snapshot_stored(
    objects: Map<Seq<char>, Seq<char>>,
    children: Seq<Node>,
    options: Seq<Seq<char>>,
)
    requires
        clash_free(
            written(children, options, children.len()).insert(
                (TypeObject::Tree, snapshot_text(children, options)),
            ),
        ),
    ensures
        all_stored(
            write_tree_objects(objects, children, options),
            written(children, options, children.len()).insert(
                (TypeObject::Tree, snapshot_text(children, options)),
            ),
        ),
{
    let below = written(children, options, children.len());
    let root = (TypeObject::Tree, snapshot_text(children, options));
    let all = below.insert(root);
    let nothing = Set::<(TypeObject, Seq<char>)>::empty();
    lemma_written_stored(objects, children, options, children.len(), nothing, all);
    assert(nothing.union(below) =~= below);
    let inner = snapshot_objects(objects, children, options, children.len());
    lemma_write_keeps(inner, below, all, root);
}

/// The store holds a snapshot that was just written, whatever it held
/// before, where no two different objects of the snapshot have the same
/// id.
pub proof fn law_snapshot_held(
    objects: Map<Seq<char>, Seq<char>>,
    children: Seq<Node>,
    options: Seq<Seq<char>>,
)
    requires
        clash_free(
            written(children, options, children.len()).insert(
                (TypeObject::Tree, snapshot_text(children, options)),
            ),
        ),
    ensures
        intact(write_tree_objects(objects, children, options), children, options, children.len()),
{
    let below = written(children, options, children.len());
    let root = (TypeObject::Tree, snapshot_text(children, options));
    let after = write_tree_objects(objects, children, options);
    lemma_snapshot_stored(objects, children, options);
    assert(all_stored(after, below)) by {
        assert forall|o: (TypeObject, Seq<char>)| #[trigger] below.contains(o) implies stored(
            after,
            o.0,
            o.1,
        ) by {
            assert(below.insert(root).contains(o));
        }
    }
    lemma_stored_is_intact(after, children, options, children.len());
}

/// A store that holds a snapshot has every object of the snapshot
/// stored under its id.
pub proof fn lemma_intact_is_stored(
    objects: Map<Seq<char>, Seq<char>>,
    children: Seq<Node>,
    options: Seq<Seq<char>>,
    n: nat,
)
    requires
        n <= children.len(),
        intact(objects, children, options, n),
    ensures
        all_stored(objects, written(children, options, n)),
    decreases children, n,
{
    if n > 0 {
        lemma_intact_is_stored(objects, children, options, (n - 1) as nat);
        match children[n - 1] {
            Node::File { path, content } => {},
            Node::Dir { path, children: sub } => {
                if !ignored(path@, options) {
                    lemma_intact_is_stored(objects, sub@, options, sub@.len());
                }
            },
        }
    }
}

/// Two objects with the same stored text are the same object.
pub proof fn lemma_text_gives_object(a: (TypeObject, Seq<char>), b: (TypeObject, Seq<char>))
    requires
        object_text(a.0, a.1) == object_text(b.0, b.1),
    ensures
        a == b,
{
    let s = object_text(a.0, a.1);
    let t = object_text(b.0, b.1);
    assert(s[0] == a.0.tag()[0]);
    assert(t[0] == b.0.tag()[0]);
    assert(a.0 == b.0);
    let n = a.0.tag().len() as int + 1;
    assert(s.skip(n) =~= a.1);
    assert(t.skip(n) =~= b.1);
}

/// Objects that are all stored under their ids are different objects
/// under different ids.
pub proof fn lemma_stored_no_clash(
    objects: Map<Seq<char>, Seq<char>>,
    set: Set<(TypeObject, Seq<char>)>,
)
    requires
        all_stored(objects, set),
    ensures
        clash_free(set),
{
    assert forall|a: (TypeObject, Seq<char>), b: (TypeObject, Seq<char>)|
        #![trigger set.contains(a), set.contains(b)]
        set.contains(a) && set.contains(b) && oid_of(a.0, a.1) == oid_of(b.0, b.1) implies a
        == b by {
        assert(stored(objects, a.0, a.1));
        assert(stored(objects, b.0, b.1));
        lemma_text_gives_object(a, b);
    }
}

} // verus!
