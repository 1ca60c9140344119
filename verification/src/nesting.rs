//! Directories are never nested deeper than the store has objects: a
//! directory and a directory below it have different tree objects.

use crate::data::TypeObject;
use crate::entry::{
    entry_order, ignored, lemma_entry_order_total, snapshot_entries, snapshot_objects,
    snapshot_text, tree_oid, write_tree_objects, EntryView, Node,
};
use crate::entry::restored_files;
use crate::data::stored;
use crate::roundtrip::{
    all_stored, bodies, clash_free, depth, held, law_restore_held, law_restore_snapshot,
    law_snapshot_held, lemma_intact_is_stored, lemma_oid_plain, lemma_parse_body,
    lemma_stored_no_clash, lemma_tree_lines, line_body, plain_entry, plain_paths, working_files,
    written,
};
use vstd::prelude::*;

verus! {

/// Every entry of a snapshot whose paths are plain is plain.
pub proof fn lemma_entries_plain(children: Seq<Node>, options: Seq<Seq<char>>, n: nat)
    requires
        n <= children.len(),
        plain_paths(children, options, n),
    ensures
        forall|i: int|
            0 <= i < snapshot_entries(children, options, n).len() ==> plain_entry(
                #[trigger] snapshot_entries(children, options, n)[i],
            ),
    decreases n,
{
    if n > 0 {
        let u = snapshot_entries(children, options, n);
        let before = snapshot_entries(children, options, (n - 1) as nat);
        lemma_entries_plain(children, options, (n - 1) as nat);
        match children[n - 1] {
            Node::File { path, content } => {
                lemma_oid_plain(TypeObject::Blob, content@);
            },
            Node::Dir { path, children: sub } => {
                lemma_oid_plain(TypeObject::Tree, snapshot_text(sub@, options));
            },
        }
        assert forall|i: int| 0 <= i < u.len() implies plain_entry(#[trigger] u[i]) by {
            if i < before.len() {
                assert(u[i] == before[i]);
            }
        }
    }
}

/// Two directories with the same tree object have the same entries.
pub proof fn lemma_text_gives_entries(
    first: Seq<Node>,
    second: Seq<Node>,
    options: Seq<Seq<char>>,
)
    requires
        plain_paths(first, options, first.len()),
        plain_paths(second, options, second.len()),
        snapshot_text(first, options) == snapshot_text(second, options),
    ensures
        snapshot_entries(first, options, first.len()).to_multiset() == snapshot_entries(
            second,
            options,
            second.len(),
        ).to_multiset(),
{
    let u1 = snapshot_entries(first, options, first.len());
    let u2 = snapshot_entries(second, options, second.len());
    let s1 = u1.sort_by(entry_order());
    let s2 = u2.sort_by(entry_order());
    lemma_entry_order_total();
    u1.lemma_sort_by_ensures(entry_order());
    u2.lemma_sort_by_ensures(entry_order());
    lemma_entries_plain(first, options, first.len());
    lemma_entries_plain(second, options, second.len());
    lemma_sorted_plain(u1, s1);
    lemma_sorted_plain(u2, s2);
    lemma_tree_lines(s1);
    lemma_tree_lines(s2);
    assert(bodies(s1) == bodies(s2));
    assert(s1.len() == s2.len());
    assert forall|i: int| 0 <= i < s1.len() implies s1[i] == s2[i] by {
        assert(bodies(s1)[i] == line_body(s1[i]));
        assert(bodies(s2)[i] == line_body(s2[i]));
        lemma_parse_body(s1[i]);
        lemma_parse_body(s2[i]);
    }
    assert(s1 =~= s2);
}

/// A sequence with the same items as a sequence of plain entries holds
/// plain entries.
proof fn lemma_sorted_plain(u: Seq<EntryView>, s: Seq<EntryView>)
    requires
        u.to_multiset() == s.to_multiset(),
        forall|i: int| 0 <= i < u.len() ==> plain_entry(#[trigger] u[i]),
    ensures
        forall|i: int| 0 <= i < s.len() ==> plain_entry(#[trigger] s[i]),
{
    u.to_multiset_ensures();
    s.to_multiset_ensures();
    assert forall|j: int| 0 <= j < s.len() implies plain_entry(#[trigger] s[j]) by {
        assert(s.contains(s[j]));
        assert(u.to_multiset().count(s[j]) > 0);
        assert(u.contains(s[j]));
        let i = choose|i: int| 0 <= i < u.len() && u[i] == s[j];
        assert(plain_entry(u[i]));
    }
}

/// Whether the node `node` is a directory that is not ignored and holds
/// `inner`.
pub open spec fn holds_dir(node: Node, options: Seq<Seq<char>>, inner: Seq<Node>) -> bool {
    match node {
        Node::File { path, content } => false,
        Node::Dir { path, children } => !ignored(path@, options) && children@ == inner,
    }
}

/// Every tree entry of a snapshot is the entry of a directory.
pub proof fn lemma_tree_entry_has_dir(
    children: Seq<Node>,
    options: Seq<Seq<char>>,
    n: nat,
    e: EntryView,
)
    requires
        n <= children.len(),
        snapshot_entries(children, options, n).contains(e),
        e.obj_type == TypeObject::Tree,
    ensures
        exists|k: int, inner: Seq<Node>|
            0 <= k < n && #[trigger] holds_dir(children[k], options, inner) && tree_oid(
                inner,
                options,
            ) == e.oid,
    decreases n,
{
    let u = snapshot_entries(children, options, n);
    let i = choose|i: int| 0 <= i < u.len() && u[i] == e;
    if n == 0 {
    } else {
        let before = snapshot_entries(children, options, (n - 1) as nat);
        if i < before.len() && before[i] == e {
            lemma_tree_entry_has_dir(children, options, (n - 1) as nat, e);
            let (k, inner) = choose|k: int, inner: Seq<Node>|
                0 <= k < n - 1 && #[trigger] holds_dir(children[k], options, inner) && tree_oid(
                    inner,
                    options,
                ) == e.oid;
            assert(holds_dir(children[k], options, inner));
        } else {
            match children[n - 1] {
                Node::File { path, content } => {
                    if !ignored(path@, options) {
                        assert(u == before.push(u.last()));
                        assert(u[i] == u.last());
                    }
                },
                Node::Dir { path, children: sub } => {
                    if !ignored(path@, options) {
                        assert(u == before.push(u.last()));
                        assert(u[i] == u.last());
                        assert(holds_dir(children[n - 1], options, sub@));
                    }
                },
            }
        }
    }
}

/// Every directory that is not ignored has its entry in the snapshot of
/// the directory that holds it.
pub proof fn lemma_dir_has_tree_entry(
    children: Seq<Node>,
    options: Seq<Seq<char>>,
    n: nat,
    k: int,
    inner: Seq<Node>,
)
    requires
        n <= children.len(),
        0 <= k < n,
        holds_dir(children[k], options, inner),
    ensures
        exists|i: int|
            0 <= i < snapshot_entries(children, options, n).len() && (#[trigger] snapshot_entries(
                children,
                options,
                n,
            )[i]).oid == tree_oid(inner, options) && snapshot_entries(
                children,
                options,
                n,
            )[i].obj_type == TypeObject::Tree,
    decreases n,
{
    let u = snapshot_entries(children, options, n);
    let before = snapshot_entries(children, options, (n - 1) as nat);
    if k == n - 1 {
        assert(u == before.push(u.last()));
        assert(u[u.len() - 1].oid == tree_oid(inner, options));
    } else {
        lemma_dir_has_tree_entry(children, options, (n - 1) as nat, k, inner);
        let i = choose|i: int|
            0 <= i < before.len() && (#[trigger] before[i]).oid == tree_oid(inner, options)
                && before[i].obj_type == TypeObject::Tree;
        assert(before.len() <= u.len());
        assert(u[i] == before[i]);
    }
}

/// Whether the directory `inner` lies below one of the first `n` of
/// `outer`, at any depth, with nothing ignored on the way.
pub open spec fn inside(outer: Seq<Node>, options: Seq<Seq<char>>, n: nat, inner: Seq<Node>) -> bool
    decreases outer, n,
{
    if n == 0 || n > outer.len() {
        false
    } else {
        inside(outer, options, (n - 1) as nat, inner) || match outer[n - 1] {
            Node::File { path, content } => false,
            Node::Dir { path, children: sub } => !ignored(path@, options) && (sub@ == inner
                || inside(sub@, options, sub@.len(), inner)),
        }
    }
}

/// What lies below a directory lies in or below one of the directories
/// that it holds.
proof fn lemma_inside_child(outer: Seq<Node>, options: Seq<Seq<char>>, n: nat, inner: Seq<Node>)
    requires
        n <= outer.len(),
        inside(outer, options, n, inner),
    ensures
        exists|k: int, c: Seq<Node>|
            0 <= k < n && #[trigger] holds_dir(outer[k], options, c) && (c == inner || inside(
                c,
                options,
                c.len(),
                inner,
            )),
    decreases n,
{
    if inside(outer, options, (n - 1) as nat, inner) {
        lemma_inside_child(outer, options, (n - 1) as nat, inner);
        let (k, c) = choose|k: int, c: Seq<Node>|
            0 <= k < n - 1 && #[trigger] holds_dir(outer[k], options, c) && (c == inner || inside(
                c,
                options,
                c.len(),
                inner,
            ));
        assert(holds_dir(outer[k], options, c));
    } else {
        match outer[n - 1] {
            Node::File { path, content } => {},
            Node::Dir { path, children: sub } => {
                assert(holds_dir(outer[n - 1], options, sub@));
            },
        }
    }
}

/// What lies in or below a directory that `outer` holds lies below
/// `outer`.
proof fn lemma_child_inside(
    outer: Seq<Node>,
    options: Seq<Seq<char>>,
    n: nat,
    k: int,
    c: Seq<Node>,
    inner: Seq<Node>,
)
    requires
        n <= outer.len(),
        0 <= k < n,
        holds_dir(outer[k], options, c),
        c == inner || inside(c, options, c.len(), inner),
    ensures
        inside(outer, options, n, inner),
    decreases n,
{
    if k < n - 1 {
        lemma_child_inside(outer, options, (n - 1) as nat, k, c, inner);
    }
}

/// A directory that something below `outer` holds lies below `outer`.
proof fn lemma_inside_step(
    outer: Seq<Node>,
    options: Seq<Seq<char>>,
    middle: Seq<Node>,
    j: int,
    inner: Seq<Node>,
)
    requires
        inside(outer, options, outer.len(), middle),
        0 <= j < middle.len(),
        holds_dir(middle[j], options, inner),
    ensures
        inside(outer, options, outer.len(), inner),
    decreases outer,
{
    lemma_inside_child(outer, options, outer.len(), middle);
    let (k, c) = choose|k: int, c: Seq<Node>|
        0 <= k < outer.len() && #[trigger] holds_dir(outer[k], options, c) && (c == middle
            || inside(c, options, c.len(), middle));
    lemma_child_inside(middle, options, middle.len(), j, inner, inner);
    if c != middle {
        match outer[k] {
            Node::File { path, content } => {},
            Node::Dir { path, children: sub } => {
                assert(sub@ == c);
                lemma_inside_step(sub@, options, middle, j, inner);
            },
        }
    }
    lemma_child_inside(outer, options, outer.len(), k, c, inner);
}

/// The snapshot of a directory writes the tree object of every directory
/// below it, and all that the snapshot of that directory writes.
proof fn lemma_inside_written(
    outer: Seq<Node>,
    options: Seq<Seq<char>>,
    n: nat,
    inner: Seq<Node>,
)
    requires
        n <= outer.len(),
        inside(outer, options, n, inner),
    ensures
        written(outer, options, n).contains((TypeObject::Tree, snapshot_text(inner, options))),
        written(inner, options, inner.len()).subset_of(written(outer, options, n)),
    decreases outer, n,
{
    assert(written(outer, options, (n - 1) as nat).subset_of(written(outer, options, n)));
    if inside(outer, options, (n - 1) as nat, inner) {
        lemma_inside_written(outer, options, (n - 1) as nat, inner);
    } else {
        match outer[n - 1] {
            Node::File { path, content } => {},
            Node::Dir { path, children: sub } => {
                if sub@ != inner {
                    lemma_inside_written(sub@, options, sub@.len(), inner);
                }
            },
        }
    }
}

/// Below a directory whose paths are plain, the paths are plain.
proof fn lemma_inside_plain(outer: Seq<Node>, options: Seq<Seq<char>>, n: nat, inner: Seq<Node>)
    requires
        n <= outer.len(),
        inside(outer, options, n, inner),
        plain_paths(outer, options, n),
    ensures
        plain_paths(inner, options, inner.len()),
    decreases outer, n,
{
    if inside(outer, options, (n - 1) as nat, inner) {
        lemma_inside_plain(outer, options, (n - 1) as nat, inner);
    } else {
        match outer[n - 1] {
            Node::File { path, content } => {},
            Node::Dir { path, children: sub } => {
                if sub@ != inner {
                    lemma_inside_plain(sub@, options, sub@.len(), inner);
                }
            },
        }
    }
}

/// A directory and a directory below it have different tree objects,
/// where the paths are plain and no two different objects of the
/// snapshot have the same id.
pub proof fn lemma_below_differs(
    outer: Seq<Node>,
    options: Seq<Seq<char>>,
    inner: Seq<Node>,
    all: Set<(TypeObject, Seq<char>)>,
)
    requires
        inside(outer, options, outer.len(), inner),
        plain_paths(outer, options, outer.len()),
        clash_free(all),
        written(outer, options, outer.len()).subset_of(all),
    ensures
        snapshot_text(outer, options) != snapshot_text(inner, options),
    decreases outer,
{
    if snapshot_text(outer, options) == snapshot_text(inner, options) {
        lemma_inside_child(outer, options, outer.len(), inner);
        let (k, c) = choose|k: int, c: Seq<Node>|
            0 <= k < outer.len() && #[trigger] holds_dir(outer[k], options, c) && (c == inner
                || inside(c, options, c.len(), inner));
        lemma_dir_has_tree_entry(outer, options, outer.len(), k, c);
        let u = snapshot_entries(outer, options, outer.len());
        let v = snapshot_entries(inner, options, inner.len());
        let i = choose|i: int|
            0 <= i < u.len() && (#[trigger] u[i]).oid == tree_oid(c, options) && u[i].obj_type
                == TypeObject::Tree;
        lemma_inside_plain(outer, options, outer.len(), inner);
        lemma_text_gives_entries(outer, inner, options);
        u.to_multiset_ensures();
        v.to_multiset_ensures();
        assert(u.contains(u[i]));
        assert(v.to_multiset().count(u[i]) > 0);
        assert(v.contains(u[i]));
        lemma_tree_entry_has_dir(inner, options, inner.len(), u[i]);
        let (j, d) = choose|j: int, d: Seq<Node>|
            0 <= j < inner.len() && #[trigger] holds_dir(inner[j], options, d) && tree_oid(
                d,
                options,
            ) == u[i].oid;
        lemma_child_inside(outer, options, outer.len(), k, c, c);
        lemma_inside_written(outer, options, outer.len(), c);
        lemma_inside_step(outer, options, inner, j, d);
        lemma_inside_written(outer, options, outer.len(), d);
        let one = (TypeObject::Tree, snapshot_text(c, options));
        let other = (TypeObject::Tree, snapshot_text(d, options));
        assert(all.contains(one) && all.contains(other));
        assert(one == other);
        lemma_inside_plain(outer, options, outer.len(), c);
        match outer[k] {
            Node::File { path, content } => {},
            Node::Dir { path, children: sub } => {
                assert(sub@ == c);
                if c == inner {
                    lemma_child_inside(inner, options, inner.len(), j, d, d);
                } else {
                    lemma_inside_step(c, options, inner, j, d);
                }
                lemma_below_differs(sub@, options, d, all);
            },
        }
    }
}

/// Whether `oid` is the id of the tree object of a directory below one
/// of the first `n` of `outer`.
pub open spec fn is_tree_below(
    outer: Seq<Node>,
    options: Seq<Seq<char>>,
    n: nat,
    oid: Seq<char>,
) -> bool {
    exists|inner: Seq<Node>| #[trigger]
        inside(outer, options, n, inner) && oid == tree_oid(inner, options)
}

/// As many different tree objects lie below a directory as directories
/// are nested in it: the ids of the directories along the deepest way
/// down are all different.
proof fn lemma_chain(
    outer: Seq<Node>,
    options: Seq<Seq<char>>,
    n: nat,
    all: Set<(TypeObject, Seq<char>)>,
) -> (keys: Set<Seq<char>>)
    requires
        n <= outer.len(),
        plain_paths(outer, options, n),
        clash_free(all),
        written(outer, options, n).subset_of(all),
    ensures
        keys.finite(),
        keys.len() >= depth(outer, options, n),
        forall|oid: Seq<char>| #[trigger] keys.contains(oid) ==> is_tree_below(outer, options, n, oid),
    decreases outer, n,
{
    if n == 0 {
        Set::empty()
    } else {
        assert(written(outer, options, (n - 1) as nat).subset_of(written(outer, options, n)));
        let before = lemma_chain(outer, options, (n - 1) as nat, all);
        assert forall|oid: Seq<char>| #[trigger] before.contains(oid) implies is_tree_below(
            outer,
            options,
            n,
            oid,
        ) by {
            assert(is_tree_below(outer, options, (n - 1) as nat, oid));
            let x = choose|x: Seq<Node>| #[trigger]
                inside(outer, options, (n - 1) as nat, x) && oid == tree_oid(x, options);
            assert(inside(outer, options, n, x));
        }
        match outer[n - 1] {
            Node::File { path, content } => before,
            Node::Dir { path, children: sub } => {
                if ignored(path@, options) || depth(outer, options, (n - 1) as nat) > depth(
                    sub@,
                    options,
                    sub@.len(),
                ) {
                    before
                } else {
                    let c = sub@;
                    let top = tree_oid(c, options);
                    assert(written(c, options, c.len()).subset_of(written(outer, options, n)));
                    let below = lemma_chain(c, options, c.len(), all);
                    if below.contains(top) {
                        assert(is_tree_below(c, options, c.len(), top));
                        let x = choose|x: Seq<Node>| #[trigger]
                            inside(c, options, c.len(), x) && top == tree_oid(x, options);
                        lemma_inside_written(c, options, c.len(), x);
                        let one = (TypeObject::Tree, snapshot_text(c, options));
                        let other = (TypeObject::Tree, snapshot_text(x, options));
                        assert(written(outer, options, n).contains(one));
                        assert(all.contains(one) && all.contains(other));
                        assert(one == other);
                        lemma_below_differs(c, options, x, all);
                    }
                    let keys = below.insert(top);
                    assert forall|oid: Seq<char>| #[trigger] keys.contains(oid) implies is_tree_below(
                        outer,
                        options,
                        n,
                        oid,
                    ) by {
                        if oid == top {
                            assert(inside(outer, options, n, c));
                        } else {
                            assert(is_tree_below(c, options, c.len(), oid));
                            let x = choose|x: Seq<Node>| #[trigger]
                                inside(c, options, c.len(), x) && oid == tree_oid(x, options);
                            assert(inside(outer, options, n, x));
                        }
                    }
                    keys
                }
            },
        }
    }
}

/// A snapshot leaves the store finite.
proof fn lemma_snapshot_finite(
    objects: Map<Seq<char>, Seq<char>>,
    children: Seq<Node>,
    options: Seq<Seq<char>>,
    n: nat,
)
    requires
        n <= children.len(),
        objects.dom().finite(),
    ensures
        snapshot_objects(objects, children, options, n).dom().finite(),
    decreases children, n,
{
    if n > 0 {
        lemma_snapshot_finite(objects, children, options, (n - 1) as nat);
        let before = snapshot_objects(objects, children, options, (n - 1) as nat);
        match children[n - 1] {
            Node::File { path, content } => {},
            Node::Dir { path, children: sub } => {
                lemma_snapshot_finite(before, sub@, options, sub@.len());
            },
        }
    }
}

/// A store that holds a snapshot holds more objects than directories
/// are nested in what was snapshot, where the paths are plain.
pub proof fn lemma_depth_below_held(
    objects: Map<Seq<char>, Seq<char>>,
    children: Seq<Node>,
    options: Seq<Seq<char>>,
)
    requires
        objects.dom().finite(),
        plain_paths(children, options, children.len()),
        held(objects, children, options),
    ensures
        depth(children, options, children.len()) < objects.dom().len(),
{
    let below = written(children, options, children.len());
    let root = (TypeObject::Tree, snapshot_text(children, options));
    let all = below.insert(root);
    let top = tree_oid(children, options);
    lemma_intact_is_stored(objects, children, options, children.len());
    assert(all_stored(objects, all)) by {
        assert forall|o: (TypeObject, Seq<char>)| #[trigger] all.contains(o) implies stored(
            objects,
            o.0,
            o.1,
        ) by {
            if o != root {
                assert(below.contains(o));
            }
        }
    }
    lemma_stored_no_clash(objects, all);
    let chain = lemma_chain(children, options, children.len(), all);
    if chain.contains(top) {
        assert(is_tree_below(children, options, children.len(), top));
        let x = choose|x: Seq<Node>| #[trigger]
            inside(children, options, children.len(), x) && top == tree_oid(x, options);
        lemma_inside_written(children, options, children.len(), x);
        let other = (TypeObject::Tree, snapshot_text(x, options));
        assert(all.contains(root) && all.contains(other));
        assert(root == other);
        lemma_below_differs(children, options, x, all);
    }
    let keys = chain.insert(top);
    assert(keys.subset_of(objects.dom())) by {
        assert forall|oid: Seq<char>| keys.contains(oid) implies objects.dom().contains(oid) by {
            if oid != top {
                assert(is_tree_below(children, options, children.len(), oid));
                let x = choose|x: Seq<Node>| #[trigger]
                    inside(children, options, children.len(), x) && oid == tree_oid(x, options);
                lemma_inside_written(children, options, children.len(), x);
                let o = (TypeObject::Tree, snapshot_text(x, options));
                assert(all.contains(o));
                assert(stored(objects, o.0, o.1));
            }
        }
    }
    vstd::set_lib::lemma_len_subset(keys, objects.dom());
}

/// After a snapshot, the store holds more objects than directories are
/// nested in what was snapshot, where the paths are plain and no two
/// different objects of the snapshot have the same id.
pub proof fn lemma_depth_below_size(
    objects: Map<Seq<char>, Seq<char>>,
    children: Seq<Node>,
    options: Seq<Seq<char>>,
)
    requires
        objects.dom().finite(),
        plain_paths(children, options, children.len()),
        clash_free(
            written(children, options, children.len()).insert(
                (TypeObject::Tree, snapshot_text(children, options)),
            ),
        ),
    ensures
        write_tree_objects(objects, children, options).dom().finite(),
        depth(children, options, children.len()) < write_tree_objects(
            objects,
            children,
            options,
        ).dom().len(),
{
    let after = write_tree_objects(objects, children, options);
    lemma_snapshot_finite(objects, children, options, children.len());
    law_snapshot_held(objects, children, options);
    assert(stored(after, TypeObject::Tree, snapshot_text(children, options)));
    lemma_depth_below_held(after, children, options);
}

/// Restoring a snapshot from a store that holds it writes the files of
/// the directory that are not ignored, each at its path with its
/// content, and nothing else, where the paths hold no space and no line
/// feed.
pub proof fn law_restore_tested(
    objects: Map<Seq<char>, Seq<char>>,
    children: Seq<Node>,
    options: Seq<Seq<char>>,
)
    requires
        objects.dom().finite(),
        plain_paths(children, options, children.len()),
        held(objects, children, options),
    ensures
        restored_files(objects, tree_oid(children, options), objects.dom().len()).1 is None,
        restored_files(objects, tree_oid(children, options), objects.dom().len()).0.to_multiset()
            == working_files(children, options, children.len()).to_multiset(),
{
    lemma_depth_below_held(objects, children, options);
    law_restore_held(objects, children, options, objects.dom().len());
}

/// Restoring the snapshot of a directory, right after it was written,
/// writes the files of the directory that are not ignored, each at its
/// path with its content, and nothing else. This holds where the paths
/// hold no space and no line feed and where no two different objects of
/// the snapshot have the same id, whatever the store held before.
pub proof fn law_restore_after_snapshot(
    objects: Map<Seq<char>, Seq<char>>,
    children: Seq<Node>,
    options: Seq<Seq<char>>,
)
    requires
        objects.dom().finite(),
        plain_paths(children, options, children.len()),
        clash_free(
            written(children, options, children.len()).insert(
                (TypeObject::Tree, snapshot_text(children, options)),
            ),
        ),
    ensures
        ({
            let after = write_tree_objects(objects, children, options);
            let restored = restored_files(after, tree_oid(children, options), after.dom().len());
            &&& restored.1 is None
            &&& restored.0.to_multiset() == working_files(
                children,
                options,
                children.len(),
            ).to_multiset()
        }),
{
    let after = write_tree_objects(objects, children, options);
    lemma_depth_below_size(objects, children, options);
    law_snapshot_held(objects, children, options);
    law_restore_snapshot(objects, children, options, after.dom().len());
}

} // verus!
