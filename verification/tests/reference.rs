use dsgit::commit::Commit;
use dsgit::data::{self, Error, TypeObject};
use dsgit::entry::Node;
use dsgit::reference::{self, RefValue};

fn file(path: &str, content: &str) -> Node {
    Node::File { path: path.to_string(), content: content.to_string() }
}

fn test_files() -> Vec<Node> {
    vec![
        file("./cat.txt", "cat cat\n"),
        file("./dogs.txt", "dog dog dog\n"),
        file("./hello.txt", "Hello World!\n"),
        Node::Dir {
            path: "./other".to_string(),
            children: vec![file("./other/shoes.txt", "shoes\n")],
        },
        Node::Dir { path: "./.dsgit".to_string(), children: Vec::new() },
    ]
}

#[test]
fn switch() {
    let mut repo = data::init();
    let mut files = test_files();
    let oid1 = Commit::commit(&mut repo, &files, "1st commit", &[]).unwrap();
    assert_eq!(files.len(), 5);

    // Create a new file.
    files.push(file("./foo.txt", "foo bar"));
    Commit::commit(&mut repo, &files, "2nd commit", &[]).unwrap();
    assert_eq!(files.len(), 6);

    // Switch `1st commit` hash.
    let plan = RefValue::switch(&mut repo, &oid1, &files, &[]).unwrap();
    assert_eq!(plan.failure, None);
    assert_eq!(
        plan.cleared,
        vec!["./cat.txt", "./dogs.txt", "./hello.txt", "./other", "./foo.txt"]
    );
    let written: Vec<&str> = plan.written.iter().map(|f| f.path.as_str()).collect();
    assert_eq!(written, vec!["./cat.txt", "./dogs.txt", "./hello.txt", "./other/shoes.txt"]);
    assert_eq!(repo.refs.get("HEAD").unwrap(), &oid1);

    // Switch branch.
    reference::create_branch(&mut repo, "branch1", &oid1).unwrap();
    RefValue::switch(&mut repo, "branch1", &files, &[]).unwrap();
    let expect_val = "ref:refs/heads/branch1".to_string();
    assert_eq!(repo.refs.get("HEAD").unwrap(), &expect_val);
}

#[test]
fn test_checkout() {
    let mut repo = data::init();
    let mut files = test_files();
    let oid1 = Commit::commit(&mut repo, &files, "1st commit", &[]).unwrap();
    files.push(file("./foo.txt", "foo bar"));
    Commit::commit(&mut repo, &files, "2nd commit", &[]).unwrap();

    // Checkout `1st commit` hash.
    let plan = reference::checkout(&mut repo, &oid1, &files, &[]).unwrap();
    assert_eq!(plan.failure, None);
    assert_eq!(plan.cleared.len(), 5);
    assert_eq!(plan.written.len(), 4);
    assert_eq!(repo.refs.get("HEAD").unwrap(), &oid1);
}

#[test]
fn switch_errors_change_nothing() {
    let mut repo = data::init();
    let files = test_files();
    assert_eq!(
        RefValue::switch(&mut repo, "nothing", &files, &[]).unwrap_err(),
        Error::NameResolutionFailure
    );
    let blob = data::hash_object(&mut repo, "x", TypeObject::Blob);
    assert_eq!(RefValue::switch(&mut repo, &blob, &files, &[]).unwrap_err(), Error::TypeMismatch);
    assert_eq!(
        RefValue::switch(&mut repo, &"0".repeat(40), &files, &[]).unwrap_err(),
        Error::NotFound
    );
    assert_eq!(repo.refs.get("HEAD").unwrap(), "ref:refs/heads/main");
}

#[test]
fn switch_keeps_head_when_the_restore_fails() {
    let mut repo = data::init();
    let commit = data::hash_object(&mut repo, "tree missing\n\nmsg\n", TypeObject::Commit);
    let plan = RefValue::switch(&mut repo, &commit, &test_files(), &[]).unwrap();
    assert_eq!(plan.failure, Some(Error::NotFound));
    assert_eq!(repo.refs.get("HEAD").unwrap(), "ref:refs/heads/main");
}

#[test]
fn create_tag() {
    let mut repo = data::init();
    let files = test_files();
    let oid1 = Commit::commit(&mut repo, &files, "1st commit", &[]).unwrap();
    let oid2 = Commit::commit(&mut repo, &files, "2nd commit", &[]).unwrap();

    reference::create_tag(&mut repo, "tag1", &oid1).unwrap();
    assert!(repo.refs.contains("refs/tags/tag1"));
    assert_eq!(repo.refs.get("refs/tags/tag1").unwrap(), &oid1);

    reference::create_tag(&mut repo, "tag2", &oid2).unwrap();
    assert!(repo.refs.contains("refs/tags/tag2"));
    assert_eq!(repo.refs.get("refs/tags/tag2").unwrap(), &oid2);
}

#[test]
fn test_create_tag() {
    let mut repo = data::init();
    let tests = vec![Node::Dir { path: "./tests".to_string(), children: test_files() }];
    let ignore = vec!["target".to_string(), "src".to_string()];
    let oid1 = Commit::commit(&mut repo, &tests, "1st commit", &ignore).unwrap();
    let oid2 = Commit::commit(&mut repo, &tests, "2nd commit", &ignore).unwrap();

    reference::create_tag(&mut repo, "tag1", &oid1).unwrap();
    assert_eq!(repo.refs.get("refs/tags/tag1").unwrap(), &oid1);
    reference::create_tag(&mut repo, "tag2", &oid2).unwrap();
    assert_eq!(repo.refs.get("refs/tags/tag2").unwrap(), &oid2);
}

#[test]
fn create_branch() {
    let mut repo = data::init();
    let files = test_files();
    let oid1 = Commit::commit(&mut repo, &files, "1st commit", &[]).unwrap();
    let oid2 = Commit::commit(&mut repo, &files, "2nd commit", &[]).unwrap();

    reference::create_branch(&mut repo, "branch1", &oid1).unwrap();
    assert!(repo.refs.contains("refs/heads/branch1"));
    assert_eq!(repo.refs.get("refs/heads/branch1").unwrap(), &oid1);

    reference::create_branch(&mut repo, "branch2", &oid2).unwrap();
    assert!(repo.refs.contains("refs/heads/branch2"));
    assert_eq!(repo.refs.get("refs/heads/branch2").unwrap(), &oid2);
    assert_eq!(repo.refs.get("HEAD").unwrap(), "ref:refs/heads/main");
}

#[test]
fn test_create_branch() {
    let mut repo = data::init();
    let tests = vec![Node::Dir { path: "./tests".to_string(), children: test_files() }];
    let ignore = vec!["target".to_string(), "src".to_string()];
    let oid1 = Commit::commit(&mut repo, &tests, "1st commit", &ignore).unwrap();
    let oid2 = Commit::commit(&mut repo, &tests, "2nd commit", &ignore).unwrap();

    reference::create_branch(&mut repo, "branch1", &oid1).unwrap();
    assert_eq!(repo.refs.get("refs/heads/branch1").unwrap(), &oid1);
    reference::create_branch(&mut repo, "branch2", &oid2).unwrap();
    assert_eq!(repo.refs.get("refs/heads/branch2").unwrap(), &oid2);
}

#[test]
fn get_all_branches() {
    let mut repo = data::init();
    // `HEAD` holds an id, so that the commits move `HEAD` and make no branch.
    reference::reset(&mut repo, &"0".repeat(40));
    let files = test_files();
    let oid1 = Commit::commit(&mut repo, &files, "1st commit", &[]).unwrap();
    let oid2 = Commit::commit(&mut repo, &files, "2nd commit", &[]).unwrap();
    reference::create_branch(&mut repo, "branch1", &oid1).unwrap();
    reference::create_branch(&mut repo, "branch2", &oid2).unwrap();

    let mut branches = RefValue::get_refs(&repo, Some("."), "refs/heads").unwrap();
    branches.sort();
    assert_eq!(branches, vec!["HEAD", "branch1", "branch2"]);
}

#[test]
fn get_all_branches_on_a_branch() {
    let mut repo = data::init();
    let files = test_files();
    let oid1 = Commit::commit(&mut repo, &files, "1st commit", &[]).unwrap();
    let oid2 = Commit::commit(&mut repo, &files, "2nd commit", &[]).unwrap();
    reference::create_branch(&mut repo, "branch1", &oid1).unwrap();
    reference::create_branch(&mut repo, "branch2", &oid2).unwrap();

    let mut branches = RefValue::get_refs(&repo, Some("."), "refs/heads").unwrap();
    branches.sort();
    assert_eq!(branches, vec!["HEAD", "branch1", "branch2", "main"]);
}

#[test]
fn get_refs_from_other_directories() {
    let mut repo = data::init();
    let oid = "0".repeat(40);
    reference::create_branch(&mut repo, "branch1", &oid).unwrap();
    reference::create_branch(&mut repo, ".hidden", &oid).unwrap();
    reference::create_branch(&mut repo, "feature/x", &oid).unwrap();
    assert_eq!(
        RefValue::get_refs(&repo, None, ".").unwrap(),
        vec!["HEAD", "refs/heads/branch1", "refs/heads/.hidden", "refs/heads/feature/x"]
    );
    assert_eq!(
        RefValue::get_refs(&repo, Some("."), "refs/heads/").unwrap(),
        vec!["HEAD", "branch1", "feature/x"]
    );
    assert_eq!(
        RefValue::get_refs(&repo, None, "refs//./heads").unwrap(),
        vec!["HEAD", "branch1", ".hidden", "feature/x"]
    );
    reference::create_tag(&mut repo, "v1", &oid).unwrap();
    assert_eq!(RefValue::get_refs(&repo, None, "refs/heads").unwrap_err(), Error::NotFound);
    assert_eq!(RefValue::get_refs(&repo, Some("v"), "refs/heads").unwrap().len(), 4);
}

#[test]
fn reset() {
    let mut repo = data::init();
    let files = test_files();
    let oid1 = Commit::commit(&mut repo, &files, "1st commit", &[]).unwrap();
    let _ = Commit::commit(&mut repo, &files, "2nd commit", &[]).unwrap();

    reference::reset(&mut repo, &oid1);
    assert_eq!(repo.refs.get("HEAD").unwrap(), &oid1);
    let head = RefValue::get_ref(&repo, "HEAD", false).unwrap().unwrap();
    assert!(!head.symbolic);

    // The recorded id of the first commit, from the recorded id of its tree.
    let text = "tree cfafd0b3d132774e6c44b39d2e2bfc3635ec49ef\n\n1st commit\n";
    let recorded = data::hash_object(&mut repo, text, TypeObject::Commit);
    assert_eq!(recorded, "924a1ce93c755545d46c95bb2ae8e3ea15367587");
    reference::reset(&mut repo, &recorded);
    let expect_val = "924a1ce93c755545d46c95bb2ae8e3ea15367587".to_owned();
    assert_eq!(repo.refs.get("HEAD").unwrap(), &expect_val);
}

#[test]
fn get_ref_follows_symbolic_references() {
    let mut repo = data::init();
    assert!(RefValue::get_ref(&repo, "HEAD", true).unwrap().is_none());
    let head = RefValue::get_ref(&repo, "HEAD", false).unwrap().unwrap();
    assert!(head.symbolic);
    assert_eq!(head.value, "refs/heads/main");
    assert_eq!(head.ref_oid, Some("HEAD".to_string()));
    assert!(RefValue::get_ref(&repo, "refs/heads/main", false).unwrap().is_none());

    repo.refs.insert("refs/heads/main", "abc");
    let head = RefValue::get_ref(&repo, "HEAD", true).unwrap().unwrap();
    assert!(!head.symbolic);
    assert_eq!(head.value, "abc");
    assert_eq!(head.ref_oid, Some("refs/heads/main".to_string()));

    repo.refs.insert("alias", "ref:HEAD");
    assert_eq!(RefValue::get_ref(&repo, "alias", true).unwrap().unwrap().value, "abc");
    assert_eq!(RefValue::get_ref(&repo, "alias", false).unwrap().unwrap().value, "HEAD");
}

#[test]
fn get_ref_reports_a_cycle() {
    let mut repo = data::init();
    repo.refs.insert("refs/heads/main", "ref:HEAD");
    assert_eq!(RefValue::get_ref(&repo, "HEAD", true).unwrap_err(), Error::CycleDetected);
    assert!(RefValue::get_ref(&repo, "HEAD", false).unwrap().unwrap().symbolic);
    repo.refs.insert("self", "ref:self");
    assert_eq!(RefValue::get_ref(&repo, "self", true).unwrap_err(), Error::CycleDetected);
    let value = RefValue::new(None, false, "abc");
    assert_eq!(RefValue::update_ref(&mut repo, "self", &value, true).unwrap_err(), Error::CycleDetected);
    assert_eq!(repo.refs.get("self").unwrap(), "ref:self");
}

#[test]
fn update_ref_writes_through_symbolic_references() {
    let mut repo = data::init();
    let value = RefValue::new(None, false, "abc");
    assert_eq!(RefValue::update_ref(&mut repo, "HEAD", &value, true).unwrap(), "abc");
    assert_eq!(repo.refs.get("HEAD").unwrap(), "ref:refs/heads/main");
    assert_eq!(repo.refs.get("refs/heads/main").unwrap(), "abc");

    let symbolic = RefValue::new(None, true, "refs/heads/dev");
    assert_eq!(
        RefValue::update_ref(&mut repo, "HEAD", &symbolic, false).unwrap(),
        "ref:refs/heads/dev"
    );
    assert_eq!(repo.refs.get("HEAD").unwrap(), "ref:refs/heads/dev");
    assert_eq!(repo.refs.get("refs/heads/main").unwrap(), "abc");
}

#[test]
fn get_branch_name() {
    let mut repo = data::init();
    assert_eq!(RefValue::get_branch_name(&repo).unwrap(), Some("main".to_string()));
    reference::reset(&mut repo, "abc");
    assert_eq!(RefValue::get_branch_name(&repo).unwrap(), None);
    repo.refs.insert("HEAD", "ref:refs/tags/v1");
    assert_eq!(RefValue::get_branch_name(&repo).unwrap_err(), Error::Corrupt);
    repo.refs.insert("HEAD", "ref:refs/heads/feature/x");
    assert_eq!(RefValue::get_branch_name(&repo).unwrap(), Some("feature/x".to_string()));
    let mut bare = data::init();
    bare.refs = dsgit::store::TextMap::new();
    assert_eq!(RefValue::get_branch_name(&bare).unwrap_err(), Error::NotFound);
}

#[test]
fn get_oid_tries_the_names_in_order() {
    let mut repo = data::init();
    let raw = "0123456789abcdefABCDEF0123456789abcdef01";
    assert_eq!(data::get_oid(&repo, raw).unwrap(), raw);
    assert_eq!(data::get_oid(&repo, "v1").unwrap_err(), Error::NameResolutionFailure);
    assert_eq!(data::get_oid(&repo, &raw[1..]).unwrap_err(), Error::NameResolutionFailure);
    assert_eq!(
        data::get_oid(&repo, "g123456789abcdefABCDEF0123456789abcdef01").unwrap_err(),
        Error::NameResolutionFailure
    );
    assert_eq!(data::get_oid(&repo, "HEAD").unwrap_err(), Error::NameResolutionFailure);

    repo.refs.insert("refs/heads/v1", "branch");
    assert_eq!(data::get_oid(&repo, "v1").unwrap(), "branch");
    assert_eq!(data::get_oid(&repo, "heads/v1").unwrap(), "branch");
    repo.refs.insert("refs/tags/v1", "tag");
    assert_eq!(data::get_oid(&repo, "v1").unwrap(), "tag");
    repo.refs.insert("refs/v1", "plain");
    assert_eq!(data::get_oid(&repo, "v1").unwrap(), "plain");
    repo.refs.insert("v1", "literal");
    assert_eq!(data::get_oid(&repo, "v1").unwrap(), "literal");

    repo.refs.insert("refs/heads/main", "commit");
    assert_eq!(data::get_oid(&repo, "HEAD").unwrap(), "commit");
    repo.refs.insert(raw, "named");
    assert_eq!(data::get_oid(&repo, raw).unwrap(), "named");
}

#[test]
fn long_chains_are_no_cycles() {
    let mut repo = data::init();
    repo.refs = dsgit::store::TextMap::new();
    repo.refs.insert("a", "ref:b");
    repo.refs.insert("b", "ref:c");
    repo.refs.insert("c", "ref:d");
    assert!(RefValue::get_ref(&repo, "a", true).unwrap().is_none());
    let value = RefValue::new(None, false, "abc");
    assert_eq!(RefValue::update_ref(&mut repo, "a", &value, true).unwrap(), "abc");
    assert_eq!(repo.refs.get("d").unwrap(), "abc");
    assert_eq!(repo.refs.get("a").unwrap(), "ref:b");
    let end = RefValue::get_ref(&repo, "a", true).unwrap().unwrap();
    assert_eq!(end.value, "abc");
    assert_eq!(end.ref_oid, Some("d".to_string()));
    repo.refs.insert("d", "ref:b");
    assert_eq!(RefValue::get_ref(&repo, "a", true).unwrap_err(), Error::CycleDetected);
}
