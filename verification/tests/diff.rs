use dsgit::data::{self, hash_object, Error, TypeObject};
use dsgit::diff::{
    convert_dict, diff_trees, display_diff_file, render_changes, ChangeKind, LineChange, Look,
    Part, Piece,
};
use dsgit::entry::{Node, Tree};

fn file(path: &str, content: &str) -> Node {
    Node::File { path: path.to_string(), content: content.to_string() }
}

fn test_files() -> Vec<Node> {
    vec![
        file("./cat.txt", "cat cat\n"),
        file("./dogs.txt", "dog dog dog\n"),
        file("./hello.txt", "Hello World!\n"),
        Node::Dir {
            path: "./other".to_string(),
            children: vec![file("./other/shoes.txt", "shoes\n")],
        },
    ]
}

#[test]
fn test_diff_trees() {
    let mut repo = data::init();
    let mut files = test_files();
    let from_tree = Tree::new(&mut repo, &files, &[]);

    // This diff pattern: a removed file and two new files.
    files.remove(0);
    files.push(file("./dragon.txt", "Ryuu"));
    files.push(file("./tiger.txt", "ToraTora"));
    let to_tree = Tree::new(&mut repo, &files, &[]);

    let mut diffs = diff_trees(&from_tree, &to_tree);
    diffs.1.sort();

    assert!(diffs.0.len() == 0);
    assert_eq!(diffs.1, vec!["./dragon.txt", "./tiger.txt"]);
    assert_eq!(diffs.2, vec!["./cat.txt"]);

    // This diff pattern: a update file.
    let from_tree = Tree::new(&mut repo, &files, &[]);
    files.pop();
    files.push(file("./tiger.txt", "gaoo"));
    let to_tree = Tree::new(&mut repo, &files, &[]);
    let diffs = diff_trees(&from_tree, &to_tree);

    assert_eq!(diffs.0, vec!["./tiger.txt"]);
    assert!(diffs.1.len() == 0);
    assert!(diffs.2.len() == 0);
}

#[test]
fn diff_of_a_tree_with_itself_is_empty() {
    let mut repo = data::init();
    let tree = Tree::new(&mut repo, &test_files(), &[]);
    let diffs = diff_trees(&tree, &tree);
    assert!(diffs.0.is_empty() && diffs.1.is_empty() && diffs.2.is_empty());
}

#[test]
fn diff_in_the_other_direction_swaps_created_and_removed() {
    let mut repo = data::init();
    let mut files = test_files();
    let a = Tree::new(&mut repo, &files, &[]);
    files.remove(1);
    files.push(file("./new.txt", "new"));
    files[0] = file("./cat.txt", "meow\n");
    let b = Tree::new(&mut repo, &files, &[]);
    let mut there = diff_trees(&a, &b);
    let mut back = diff_trees(&b, &a);
    there.0.sort();
    there.1.sort();
    there.2.sort();
    back.0.sort();
    back.1.sort();
    back.2.sort();
    assert_eq!(there.0, vec!["./cat.txt"]);
    assert_eq!(there.1, vec!["./new.txt"]);
    assert_eq!(there.2, vec!["./dogs.txt"]);
    assert_eq!(there.0, back.0);
    assert_eq!(there.1, back.2);
    assert_eq!(there.2, back.1);
}

#[test]
fn convert_dict_keeps_the_later_of_two_entries() {
    let mut repo = data::init();
    let files = vec![file("./a", "one"), file("./b", "two"), file("./a", "three")];
    let tree = Tree::new(&mut repo, &files, &[]);
    let dict = convert_dict(&tree);
    assert_eq!(dict.len(), 2);
    assert_eq!(dict.get("./a").unwrap(), &tree.entries[2].oid);
    assert_eq!(dict.get("./b").unwrap(), &tree.entries[1].oid);
    assert!(dict.get("./c").is_none());
}

fn text_of(pieces: &[Piece]) -> String {
    pieces.iter().map(|p| p.text.as_str()).collect()
}

#[test]
fn display_diff_file_shows_changed_lines() {
    let mut repo = data::init();
    let old = hash_object(&mut repo, "a\nb\n", TypeObject::Blob);
    let new = hash_object(&mut repo, "a\nc\n", TypeObject::Blob);
    let pieces = display_diff_file(&repo, Some(&old), Some(&new)).unwrap();
    assert_eq!(text_of(&pieces), "1   1    | a\n2        |-b\n    2    |+c\n");
    assert_eq!(pieces[0].look, Look::Number);
    assert_eq!(pieces[2].look, Look::Plain);
    assert_eq!(pieces[3].look, Look::Sign(ChangeKind::Equal));
    assert!(pieces.iter().any(|p| p.look == Look::Sign(ChangeKind::Delete) && p.text == "-"));
    assert!(pieces.iter().any(|p| p.look == Look::Sign(ChangeKind::Insert) && p.text == "+"));

    let created = display_diff_file(&repo, None, Some(&new)).unwrap();
    assert_eq!(text_of(&created), "    1    |+a\n    2    |+c\n");
    let removed = display_diff_file(&repo, Some(&old), None).unwrap();
    assert_eq!(text_of(&removed), "1        |-a\n2        |-b\n");
    assert!(display_diff_file(&repo, Some(&old), Some(&old)).unwrap().is_empty());
    assert!(display_diff_file(&repo, None, None).unwrap().is_empty());
}

#[test]
fn display_diff_file_errors() {
    let mut repo = data::init();
    let blob = hash_object(&mut repo, "a\n", TypeObject::Blob);
    let tree = hash_object(&mut repo, "", TypeObject::Tree);
    assert_eq!(display_diff_file(&repo, Some("nothing"), Some(&tree)).unwrap_err(), Error::NotFound);
    assert_eq!(display_diff_file(&repo, Some(&blob), Some(&tree)).unwrap_err(), Error::TypeMismatch);
    assert_eq!(display_diff_file(&repo, None, Some("nothing")).unwrap_err(), Error::NotFound);
}

#[test]
fn display_diff_file_parts_far_changes_by_a_rule() {
    let mut repo = data::init();
    let lines: Vec<String> = (1..=20).map(|i| format!("line {}\n", i)).collect();
    let mut changed = lines.clone();
    changed[0] = "first\n".to_string();
    changed[19] = "last".to_string();
    let old = hash_object(&mut repo, &lines.concat(), TypeObject::Blob);
    let new = hash_object(&mut repo, &changed.concat(), TypeObject::Blob);
    let pieces = display_diff_file(&repo, Some(&old), Some(&new)).unwrap();
    let text = text_of(&pieces);
    let rule = format!("{}\n", "-".repeat(80));
    assert_eq!(text.matches(&rule).count(), 1);
    assert!(text.starts_with("1        |-line 1\n    1    |+first\n2   2    | line 2\n"));
    assert!(text.contains("4   4    | line 4\n"));
    assert!(!text.contains("| line 5\n"));
    assert!(text.contains("17  17   | line 17\n"));
    assert!(text.ends_with("    20   |+last\n"));
}

#[test]
fn render_changes_lays_out_each_line() {
    let piece = |look: Look, text: &str| Piece { look, text: text.to_string() };
    let change = LineChange {
        tag: ChangeKind::Insert,
        old_index: None,
        new_index: Some(9999),
        parts: vec![
            Part { emphasized: false, text: "let x = ".to_string() },
            Part { emphasized: true, text: "2".to_string() },
            Part { emphasized: false, text: ";".to_string() },
        ],
        missing_newline: true,
    };
    let equal = LineChange {
        tag: ChangeKind::Equal,
        old_index: Some(0),
        new_index: Some(122),
        parts: vec![],
        missing_newline: false,
    };
    let pieces = render_changes(&vec![vec![change], vec![], vec![equal]]);
    assert_eq!(
        pieces,
        vec![
            piece(Look::Number, "    "),
            piece(Look::Number, "10000"),
            piece(Look::Plain, " |"),
            piece(Look::Sign(ChangeKind::Insert), "+"),
            piece(Look::Text(ChangeKind::Insert), "let x = "),
            piece(Look::Emphasis(ChangeKind::Insert), "2"),
            piece(Look::Text(ChangeKind::Insert), ";"),
            piece(Look::Plain, "\n"),
            piece(Look::Plain, &format!("{}\n", "-".repeat(80))),
            piece(Look::Plain, &format!("{}\n", "-".repeat(80))),
            piece(Look::Number, "1   "),
            piece(Look::Number, "123 "),
            piece(Look::Plain, " |"),
            piece(Look::Sign(ChangeKind::Equal), " "),
        ]
    );
    assert!(render_changes(&Vec::new()).is_empty());
}

/// The texts of the lines of `pieces` with one of the signs `signs`, one
/// after the other.
fn lines_with(pieces: &[Piece], signs: &[&str]) -> String {
    let mut text = String::new();
    let mut taken = false;
    for piece in pieces.iter() {
        match piece.look {
            Look::Sign(_) => taken = signs.contains(&piece.text.as_str()),
            Look::Text(_) | Look::Emphasis(_) => {
                if taken {
                    text.push_str(&piece.text);
                }
            }
            Look::Number | Look::Plain => {}
        }
    }
    text
}

#[test]
fn display_diff_file_is_empty_for_equal_contents_only() {
    let mut repo = data::init();
    let long: String = (0..150).map(|i| format!("line {}\n", i)).collect();
    let texts = [
        "",
        "a",
        "a\n",
        "a\r\n",
        "a\nb\n",
        "a\nb",
        "b\na\n",
        "let x = 1;\nlet y = 2;\n",
        "let x = 1;\nlet y = 3;\n",
        "\n",
        "\n\n",
        long.as_str(),
    ];
    for a in texts.iter() {
        for b in texts.iter() {
            let old = hash_object(&mut repo, a, TypeObject::Blob);
            let new = hash_object(&mut repo, b, TypeObject::Blob);
            let pieces = display_diff_file(&repo, Some(&old), Some(&new)).unwrap();
            assert_eq!(pieces.is_empty(), a == b, "{:?} against {:?}", a, b);
        }
    }
}

#[test]
fn display_diff_file_shows_the_lines_of_both_contents() {
    let mut repo = data::init();
    let texts = [
        "",
        "a\n",
        "a\nb\n",
        "a\nb",
        "let x = 1;\nlet y = 2;\n",
        "let x = 1;\nlet y = 3;\nlet z = 4;\n",
        "one two three four five\n",
        "one two 3 four five\n",
    ];
    for a in texts.iter() {
        for b in texts.iter() {
            if a == b {
                continue;
            }
            let old = hash_object(&mut repo, a, TypeObject::Blob);
            let new = hash_object(&mut repo, b, TypeObject::Blob);
            let pieces = display_diff_file(&repo, Some(&old), Some(&new)).unwrap();
            assert_eq!(&lines_with(&pieces, &[" ", "-"]), a);
            assert_eq!(&lines_with(&pieces, &[" ", "+"]), b);
        }
    }
    let old = hash_object(&mut repo, "one two three four five\n", TypeObject::Blob);
    let new = hash_object(&mut repo, "one two 3 four five\n", TypeObject::Blob);
    let pieces = display_diff_file(&repo, Some(&old), Some(&new)).unwrap();
    assert_eq!(
        text_of(&pieces),
        "1        |-one two three four five\n    1    |+one two 3 four five\n"
    );
}

#[test]
fn display_diff_file_on_many_short_texts() {
    let mut repo = data::init();
    let lines = ["a\n", "b\n", "c\n", "a b\n", "a c\n", "a  b c d e f g\n", "a  b x d e f g\n"];
    let mut seed: u64 = 17;
    let mut next = |limit: u64| {
        seed = seed.wrapping_mul(6364136223846793005).wrapping_add(1442695040888963407);
        (seed >> 33) % limit
    };
    let mut texts: Vec<String> = Vec::new();
    for _ in 0..40 {
        let count = next(5);
        let mut text = String::new();
        for _ in 0..count {
            text.push_str(lines[next(lines.len() as u64) as usize]);
        }
        if next(4) == 0 {
            text.push_str("end");
        }
        texts.push(text);
    }
    for a in texts.iter() {
        for b in texts.iter() {
            let old = hash_object(&mut repo, a, TypeObject::Blob);
            let new = hash_object(&mut repo, b, TypeObject::Blob);
            let pieces = display_diff_file(&repo, Some(&old), Some(&new)).unwrap();
            assert_eq!(pieces.is_empty(), a == b, "{:?} against {:?}", a, b);
            if a != b {
                assert_eq!(&lines_with(&pieces, &[" ", "-"]), a, "{:?} against {:?}", a, b);
                assert_eq!(&lines_with(&pieces, &[" ", "+"]), b, "{:?} against {:?}", a, b);
            }
        }
    }
}
