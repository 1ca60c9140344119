use dsgit::commit::{log, Commit};
use dsgit::data::{self, get_object, TypeObject};
use dsgit::diff::diff_trees;
use dsgit::entry::{Node, Tree};

fn tree_of(repo: &dsgit::data::Repository, commit: &str) -> Tree {
    let commit = Commit::get_commit(repo, commit).unwrap();
    let text = get_object(repo, &commit.tree, TypeObject::Tree).unwrap();
    Tree::get_tree(repo, &text).unwrap()
}

#[test]
fn two_commits_end_to_end() {
    let mut repo = data::init();
    let first = vec![Node::File { path: "a.txt".to_string(), content: "hello\n".to_string() }];
    let c1 = Commit::commit(&mut repo, &first, "init", &[]).unwrap();
    assert_eq!(Commit::get_commit(&repo, &c1).unwrap().parent, None);
    assert_eq!(c1, "8f7c8320e57d8089abd0647dcd1033faed257c61");

    let second = vec![Node::File { path: "a.txt".to_string(), content: "world\n".to_string() }];
    let c2 = Commit::commit(&mut repo, &second, "update", &[]).unwrap();
    assert_eq!(Commit::get_commit(&repo, &c2).unwrap().parent, Some(c1.clone()));
    assert_eq!(c2, "86a516570fee3d8c8ab7a5e4bc4225b5c4f15e9a");

    let history = log(&repo, Some(&c2)).unwrap();
    let oids: Vec<&str> = history.iter().map(|e| e.oid.as_str()).collect();
    assert_eq!(oids, vec![c2.as_str(), c1.as_str()]);

    let diffs = diff_trees(&tree_of(&repo, &c1), &tree_of(&repo, &c2));
    assert_eq!(diffs.0, vec!["a.txt"]);
    assert!(diffs.1.is_empty());
    assert!(diffs.2.is_empty());

    let head = Tree::get_head_tree(&repo).unwrap();
    assert_eq!(head.entries.len(), 1);
    assert_eq!(head.entries[0].oid, "19747b55e5cd85449fb13dc593c4bec92023ac5b");
}

#[test]
fn restore_gives_back_what_was_snapshot() {
    let mut repo = data::init();
    let files = vec![
        Node::File { path: "./z.txt".to_string(), content: "last\n".to_string() },
        Node::Dir {
            path: "./sub".to_string(),
            children: vec![
                Node::File { path: "./sub/b".to_string(), content: "".to_string() },
                Node::Dir {
                    path: "./sub/deep".to_string(),
                    children: vec![Node::File {
                        path: "./sub/deep/c".to_string(),
                        content: "text with \0 inside\nand lines\n".to_string(),
                    }],
                },
                Node::File { path: "./sub/a".to_string(), content: "first".to_string() },
            ],
        },
        Node::File { path: "./a.txt".to_string(), content: "caf\u{e9}\n".to_string() },
    ];
    let oid = Tree::write_tree(&mut repo, &files, &[]);
    let plan = Tree::read_tree(&repo, &oid, &Vec::new(), &[]);
    assert_eq!(plan.failure, None);
    let mut written: Vec<(String, String)> =
        plan.written.into_iter().map(|f| (f.path, f.content)).collect();
    written.sort();
    assert_eq!(
        written,
        vec![
            ("./a.txt".to_string(), "caf\u{e9}\n".to_string()),
            ("./sub/a".to_string(), "first".to_string()),
            ("./sub/b".to_string(), "".to_string()),
            ("./sub/deep/c".to_string(), "text with \0 inside\nand lines\n".to_string()),
            ("./z.txt".to_string(), "last\n".to_string()),
        ]
    );
}

#[test]
fn head_tree_without_a_commit() {
    let repo = data::init();
    assert_eq!(Tree::get_head_tree(&repo).unwrap_err(), dsgit::data::Error::NotFound);
}

#[test]
fn deep_directories_are_restored() {
    let mut repo = data::init();
    repo.refs = dsgit::store::TextMap::new();
    let mut files = vec![Node::File { path: "./a/b/c/d/e/f".to_string(), content: "x".to_string() }];
    for path in ["./a/b/c/d/e", "./a/b/c/d", "./a/b/c", "./a/b", "./a"] {
        files = vec![Node::Dir { path: path.to_string(), children: files }];
    }
    let oid = Tree::write_tree(&mut repo, &files, &[]);
    assert_eq!(repo.objects.len(), 7);
    let plan = Tree::read_tree(&repo, &oid, &files, &[]);
    assert_eq!(plan.failure, None);
    assert_eq!(plan.cleared, vec!["./a"]);
    assert_eq!(plan.written.len(), 1);
    assert_eq!(plan.written[0].path, "./a/b/c/d/e/f");
    assert_eq!(plan.written[0].content, "x");

    let mut empty = vec![];
    for path in ["./a/b", "./a"] {
        empty = vec![Node::Dir { path: path.to_string(), children: empty }];
    }
    let mut bare = data::init();
    let oid = Tree::write_tree(&mut bare, &empty, &[]);
    assert_eq!(bare.objects.len(), 3);
    let plan = Tree::read_tree(&bare, &oid, &empty, &[]);
    assert_eq!(plan.failure, None);
    assert!(plan.written.is_empty());
}

#[test]
fn a_path_with_a_space_is_not_restored() {
    let mut repo = data::init();
    let files = vec![Node::File { path: "./my file.txt".to_string(), content: "x".to_string() }];
    let oid = Tree::write_tree(&mut repo, &files, &[]);
    let plan = Tree::read_tree(&repo, &oid, &files, &[]);
    assert_eq!(plan.failure, Some(dsgit::data::Error::Corrupt));
    assert_eq!(plan.cleared, vec!["./my file.txt"]);
    assert!(plan.written.is_empty());
}

#[test]
fn holds_snapshot_tells_a_store_that_lost_an_object() {
    let mut repo = data::init();
    let files = vec![
        Node::File { path: "./a.txt".to_string(), content: "a\n".to_string() },
        Node::Dir {
            path: "./sub".to_string(),
            children: vec![Node::File { path: "./sub/b".to_string(), content: "b".to_string() }],
        },
        Node::Dir {
            path: "./.git".to_string(),
            children: vec![Node::File { path: "./.git/x".to_string(), content: "x".to_string() }],
        },
    ];
    assert!(!Tree::holds_snapshot(&repo, &files, &[]));
    let oid = Tree::write_tree(&mut repo, &files, &[]);
    assert!(Tree::holds_snapshot(&repo, &files, &[]));
    assert_eq!(data::object_id(&Tree::tree_text(&files, &[]), TypeObject::Tree), oid);
    assert_eq!(Tree::tree_text(&files, &[]), get_object(&repo, &oid, TypeObject::Tree).unwrap());
    assert!(data::holds_object(&repo, "b", TypeObject::Blob));
    assert!(!data::holds_object(&repo, "x", TypeObject::Blob));
    assert!(!data::holds_object(&repo, "b", TypeObject::Tree));

    let blob = data::object_id("b", TypeObject::Blob);
    repo.objects.insert(&blob, "blob\0other");
    assert!(!Tree::holds_snapshot(&repo, &files, &[]));
    assert!(!data::holds_object(&repo, "b", TypeObject::Blob));
    repo.objects.insert(&blob, "blob\0b");
    assert!(Tree::holds_snapshot(&repo, &files, &[]));
    repo.objects.insert(&oid, "tree\0");
    assert!(!Tree::holds_snapshot(&repo, &files, &[]));

    let mut other = data::init();
    Tree::write_tree(&mut other, &files, &["sub".to_string()]);
    assert!(Tree::holds_snapshot(&other, &files, &["sub".to_string()]));
    assert!(!Tree::holds_snapshot(&other, &files, &[]));
}
