use dsgit::data::{self, get_object, hash_object, Error, TypeObject};
use dsgit::entry::{Entry, FileWrite, Node, Tree};

fn file(path: &str, content: &str) -> Node {
    Node::File { path: path.to_string(), content: content.to_string() }
}

fn dir(path: &str, children: Vec<Node>) -> Node {
    Node::Dir { path: path.to_string(), children }
}

/// The working directory of the tests, in an order that is not sorted.
fn test_files() -> Vec<Node> {
    vec![
        file("./hello.txt", "Hello World!\n"),
        dir("./other", vec![file("./other/shoes.txt", "shoes\n")]),
        file("./cat.txt", "cat cat\n"),
        dir("./.dsgit", vec![file("./.dsgit/HEAD", "ref:refs/heads/main")]),
        file("./dogs.txt", "dog dog dog\n"),
    ]
}

fn test_data(other: &str) -> [Entry; 4] {
    [
        Entry {
            path: "./cat.txt".to_string(),
            oid: "38d458fa6e384e24e7f15c5d17be0e9cee67f823".to_string(),
            obj_type: TypeObject::Blob,
        },
        Entry {
            path: "./dogs.txt".to_string(),
            oid: "bdb10d71fac51e4952b37042faa62640cd7847db".to_string(),
            obj_type: TypeObject::Blob,
        },
        Entry {
            path: "./hello.txt".to_string(),
            oid: "4963f4ed0612f7242d9d92bf59b4fb8ac8d29ec2".to_string(),
            obj_type: TypeObject::Blob,
        },
        Entry { path: "./other".to_string(), oid: other.to_string(), obj_type: TypeObject::Tree },
    ]
}

fn file_write(path: &str, content: &str) -> FileWrite {
    FileWrite { path: path.to_string(), content: content.to_string() }
}

#[test]
fn write_tree() {
    let mut repo = data::init();
    let expect_result = test_data("ea84d2eee1a93af5a2cfa3177956eb6a60d18ca4");
    let oid = Tree::write_tree(&mut repo, &test_files(), &[]);
    assert_eq!(oid, "cbc62e4fc0d4fa511442154f2f7788d95e5b3597");

    let obj = get_object(&repo, &oid, TypeObject::Tree).unwrap();
    assert_eq!(obj.lines().count(), 4);
    for (i, line) in obj.lines().enumerate() {
        let entry = Entry::from(line).unwrap();
        assert_eq!(entry, expect_result[i]);
    }
}

#[test]
fn write_tree_text_gives_the_recorded_id() {
    let mut repo = data::init();
    let expect_result = test_data("b19cdcfa8e09aed887a25d11d73fbe68261dbfc3");
    let mut text = String::new();
    for entry in expect_result.iter() {
        text = text + &entry.to_string();
    }
    let oid = hash_object(&mut repo, &text, TypeObject::Tree);
    assert_eq!(oid, "cfafd0b3d132774e6c44b39d2e2bfc3635ec49ef");

    let obj = get_object(&repo, &oid, TypeObject::Tree).unwrap();
    for (i, line) in obj.lines().enumerate() {
        let entry = Entry::from(line).unwrap();
        assert_eq!(entry, expect_result[i]);
    }
}

#[test]
fn test_write_tree() {
    let mut repo = data::init();
    let expect_result = [
        Entry {
            path: "./tests/cat.txt".to_string(),
            oid: "38d458fa6e384e24e7f15c5d17be0e9cee67f823".to_string(),
            obj_type: TypeObject::Blob,
        },
        Entry {
            path: "./tests/dogs.txt".to_string(),
            oid: "bdb10d71fac51e4952b37042faa62640cd7847db".to_string(),
            obj_type: TypeObject::Blob,
        },
        Entry {
            path: "./tests/hello.txt".to_string(),
            oid: "4963f4ed0612f7242d9d92bf59b4fb8ac8d29ec2".to_string(),
            obj_type: TypeObject::Blob,
        },
        Entry {
            path: "./tests/other".to_string(),
            oid: "0e1ca2a42b0b2934261acd1e9c056b71f7ce405f".to_string(),
            obj_type: TypeObject::Tree,
        },
    ];
    let mut text = String::new();
    for entry in expect_result.iter() {
        text = text + &entry.to_string();
    }
    let oid = hash_object(&mut repo, &text, TypeObject::Tree);
    assert_eq!(oid, "758e8e0c0eae49610531a22c1778e10baece4415");

    let obj = get_object(&repo, &oid, TypeObject::Tree).unwrap();
    for (i, line) in obj.lines().enumerate() {
        let entry = Entry::from(line).unwrap();
        assert_eq!(entry, expect_result[i]);
    }
}

#[test]
fn write_tree_skips_ignored_paths() {
    let mut repo = data::init();
    let ignore = vec!["dogs".to_string(), "other".to_string()];
    let oid = Tree::write_tree(&mut repo, &test_files(), &ignore);
    let obj = get_object(&repo, &oid, TypeObject::Tree).unwrap();
    assert_eq!(
        obj,
        "blob 38d458fa6e384e24e7f15c5d17be0e9cee67f823 ./cat.txt\n\
         blob 4963f4ed0612f7242d9d92bf59b4fb8ac8d29ec2 ./hello.txt\n"
    );
}

#[test]
fn write_tree_of_an_empty_directory() {
    let mut repo = data::init();
    let oid = Tree::write_tree(&mut repo, &Vec::new(), &[]);
    assert_eq!(oid, "d28c5ff92df044a522508a29cf3fad0b812f672f");
    assert_eq!(get_object(&repo, &oid, TypeObject::Tree).unwrap(), "");
}

#[test]
fn write_tree_does_not_depend_on_listing_order() {
    let mut first = data::init();
    let mut second = data::init();
    let mut reversed = test_files();
    reversed.reverse();
    let a = Tree::write_tree(&mut first, &test_files(), &[]);
    let b = Tree::write_tree(&mut second, &reversed, &[]);
    assert_eq!(a, b);
}

#[test]
fn read_tree() {
    let mut repo = data::init();
    let files = test_files();
    let oid = Tree::write_tree(&mut repo, &files, &[]);
    assert_eq!(oid, "cbc62e4fc0d4fa511442154f2f7788d95e5b3597");

    // The working directory has lost a file meanwhile.
    let now: Vec<Node> = test_files().into_iter().filter(|n| match n {
        Node::File { path, .. } => path != "./cat.txt",
        Node::Dir { .. } => true,
    }).collect();
    assert_eq!(now.len(), 4);

    let plan = Tree::read_tree(&repo, &oid, &now, &[]);
    assert_eq!(plan.failure, None);
    assert_eq!(plan.cleared, vec!["./hello.txt", "./other", "./dogs.txt"]);
    assert_eq!(
        plan.written,
        vec![
            file_write("./cat.txt", "cat cat\n"),
            file_write("./dogs.txt", "dog dog dog\n"),
            file_write("./hello.txt", "Hello World!\n"),
            file_write("./other/shoes.txt", "shoes\n"),
        ]
    );
}

#[test]
fn test_read_tree() {
    let mut repo = data::init();
    let tests = vec![dir(
        "./tests",
        vec![
            file("./tests/cat.txt", "cat cat\n"),
            file("./tests/dogs.txt", "dog dog dog\n"),
            file("./tests/hello.txt", "Hello World!\n"),
            dir("./tests/other", vec![file("./tests/other/shoes.txt", "shoes\n")]),
        ],
    )];
    let ignore: Vec<String> =
        ["target", "Cargo.toml", "Cargo.lock", "src", "LICENSE", "README.md", "Makefile"]
            .iter()
            .map(|f| f.to_string())
            .collect();
    let oid = Tree::write_tree(&mut repo, &tests, &ignore);
    let plan = Tree::read_tree(&repo, &oid, &tests, &ignore);
    assert_eq!(plan.failure, None);
    assert_eq!(plan.cleared, vec!["./tests"]);
    let paths: Vec<&str> = plan.written.iter().map(|f| f.path.as_str()).collect();
    assert_eq!(
        paths,
        vec![
            "./tests/cat.txt",
            "./tests/dogs.txt",
            "./tests/hello.txt",
            "./tests/other/shoes.txt"
        ]
    );
}

#[test]
fn read_tree_stops_at_a_missing_blob() {
    let mut repo = data::init();
    let cat = hash_object(&mut repo, "cat cat\n", TypeObject::Blob);
    let text = format!("blob {} ./cat.txt\nblob {} ./gone.txt\nblob {} ./late.txt\n", cat, "0".repeat(40), cat);
    let oid = hash_object(&mut repo, &text, TypeObject::Tree);
    let plan = Tree::read_tree(&repo, &oid, &test_files(), &[]);
    assert_eq!(plan.failure, Some(Error::NotFound));
    assert_eq!(plan.cleared.len(), 4);
    assert_eq!(plan.written, vec![file_write("./cat.txt", "cat cat\n")]);
}

#[test]
fn read_tree_of_a_missing_tree_still_clears() {
    let repo = data::init();
    let plan = Tree::read_tree(&repo, "nothing", &test_files(), &[]);
    assert_eq!(plan.failure, Some(Error::NotFound));
    assert_eq!(plan.cleared, vec!["./hello.txt", "./other", "./cat.txt", "./dogs.txt"]);
    assert!(plan.written.is_empty());
}

#[test]
fn get_tree_expands_nested_trees() {
    let mut repo = data::init();
    let oid = Tree::write_tree(&mut repo, &test_files(), &[]);
    let text = get_object(&repo, &oid, TypeObject::Tree).unwrap();
    let tree = Tree::get_tree(&repo, &text).unwrap();
    let paths: Vec<&str> = tree.entries.iter().map(|e| e.path.as_str()).collect();
    assert_eq!(paths, vec!["./cat.txt", "./dogs.txt", "./hello.txt", "./other/shoes.txt"]);
    assert!(tree.entries.iter().all(|e| e.obj_type == TypeObject::Blob));
}

#[test]
fn get_tree_rejects_what_is_no_tree() {
    let mut repo = data::init();
    assert_eq!(Tree::get_tree(&repo, "blob abc\n").unwrap_err(), Error::Corrupt);
    assert_eq!(Tree::get_tree(&repo, "blob abc a b\n").unwrap_err(), Error::Corrupt);
    assert_eq!(Tree::get_tree(&repo, "blub abc path\n").unwrap_err(), Error::Corrupt);
    assert_eq!(Tree::get_tree(&repo, "commit abc path\n").unwrap_err(), Error::Corrupt);
    assert_eq!(Tree::get_tree(&repo, "tree abc path\n").unwrap_err(), Error::NotFound);
    let blob = hash_object(&mut repo, "x", TypeObject::Blob);
    let text = format!("tree {} path\n", blob);
    assert_eq!(Tree::get_tree(&repo, &text).unwrap_err(), Error::TypeMismatch);
    assert!(Tree::get_tree(&repo, "").unwrap().entries.is_empty());
}

#[test]
fn get_tree_rejects_a_tree_that_holds_itself() {
    let mut repo = data::init();
    repo.objects.insert("loop", "tree\0tree loop ./again\n");
    assert_eq!(Tree::get_tree(&repo, "tree loop ./again\n").unwrap_err(), Error::Corrupt);
}

#[test]
fn working_tree_lists_files_in_listing_order() {
    let mut repo = data::init();
    let tree = Tree::new(&mut repo, &test_files(), &[]);
    let paths: Vec<&str> = tree.entries.iter().map(|e| e.path.as_str()).collect();
    assert_eq!(paths, vec!["./hello.txt", "./other/shoes.txt", "./cat.txt", "./dogs.txt"]);
    assert_eq!(tree.entries[2].oid, "38d458fa6e384e24e7f15c5d17be0e9cee67f823");
    assert_eq!(get_object(&repo, &tree.entries[0].oid, TypeObject::Blob).unwrap(), "Hello World!\n");
    let again = Tree::get_working_tree(&mut repo, &test_files(), &[]);
    assert_eq!(again.entries, tree.entries);
}

#[test]
fn is_ignored_matches_anywhere_in_the_path() {
    assert!(Tree::is_ignored("./.dsgit", &[]));
    assert!(Tree::is_ignored("./sub/.git/config", &[]));
    assert!(Tree::is_ignored("./.github", &[]));
    assert!(Tree::is_ignored("./my.gitignore.bak", &[]));
    assert!(!Tree::is_ignored("./src/main.rs", &[]));
    let ignore = vec!["target".to_string(), "src".to_string()];
    assert!(Tree::is_ignored("./src/main.rs", &ignore));
    assert!(Tree::is_ignored("./my_target_dir/x", &ignore));
    assert!(!Tree::is_ignored("./README.md", &ignore));
    assert!(Tree::is_ignored("./README.md", &["".to_string()]));
}

#[test]
fn entry_line_and_back() {
    let entry = Entry {
        path: "./a.txt".to_string(),
        oid: "4963f4ed0612f7242d9d92bf59b4fb8ac8d29ec2".to_string(),
        obj_type: TypeObject::Blob,
    };
    assert_eq!(entry.to_string(), "blob 4963f4ed0612f7242d9d92bf59b4fb8ac8d29ec2 ./a.txt\n");
    assert_eq!(Entry::from("blob 4963f4ed0612f7242d9d92bf59b4fb8ac8d29ec2 ./a.txt").unwrap(), entry);
    assert_eq!(Entry::from("blob  x").unwrap().oid, "");
    assert_eq!(Entry::from("blob a b c").unwrap_err(), Error::Corrupt);
    assert_eq!(Entry::from("").unwrap_err(), Error::Corrupt);
}
