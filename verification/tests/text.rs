use dsgit::data::{self, sha1_hash, TypeObject};
use dsgit::entry::{sort_entries, Entry};
use dsgit::store::TextMap;
use dsgit::text;

fn chars(s: &str) -> Vec<char> {
    s.chars().collect()
}

fn strings(v: Vec<Vec<char>>) -> Vec<String> {
    v.into_iter().map(|p| p.into_iter().collect()).collect()
}

#[test]
fn chars_and_back() {
    assert_eq!(text::to_chars("caf\u{e9} \0"), vec!['c', 'a', 'f', '\u{e9}', ' ', '\0']);
    assert_eq!(text::from_chars(&chars("caf\u{e9}")), "caf\u{e9}");
    assert_eq!(text::to_chars(""), Vec::<char>::new());
    assert_eq!(text::subrange(&chars("abcdef"), 2, 4), chars("cd"));
    assert!(text::same(&chars("abc"), &chars("abc")));
    assert!(!text::same(&chars("abc"), &chars("abd")));
    assert!(!text::same(&chars("abc"), &chars("ab")));
}

#[test]
fn split_gives_a_piece_more_than_separators() {
    assert_eq!(strings(text::split_chars(&chars("a b c"), ' ')), vec!["a", "b", "c"]);
    assert_eq!(strings(text::split_chars(&chars(""), ' ')), vec![""]);
    assert_eq!(strings(text::split_chars(&chars(" a  b "), ' ')), vec!["", "a", "", "b", ""]);
    assert_eq!(strings(text::split_chars(&chars("abc"), ' ')), vec!["abc"]);
}

#[test]
fn lines_end_at_line_feeds() {
    assert_eq!(strings(text::line_chars(&chars("a\nb\n"))), vec!["a", "b"]);
    assert_eq!(strings(text::line_chars(&chars("a\nb"))), vec!["a", "b"]);
    assert_eq!(strings(text::line_chars(&chars("a\n\nb\n"))), vec!["a", "", "b"]);
    assert_eq!(strings(text::line_chars(&chars("\n"))), vec![""]);
    assert!(text::line_chars(&chars("")).is_empty());
}

#[test]
fn prefixes_and_substrings() {
    assert!(text::has_prefix(&chars("ref:refs"), &chars("ref:")));
    assert!(!text::has_prefix(&chars("ref"), &chars("ref:")));
    assert!(text::has_prefix(&chars("abc"), &chars("")));
    assert!(text::has_substring(&chars("./a/.git/b"), &chars(".git")));
    assert!(text::has_substring(&chars(".git"), &chars(".git")));
    assert!(!text::has_substring(&chars(".gi"), &chars(".git")));
    assert!(!text::has_substring(&chars("./a/git"), &chars(".git")));
    assert!(text::has_substring(&chars(""), &chars("")));
}

#[test]
fn dictionary_order() {
    assert!(text::chars_le(&chars("a"), &chars("b")));
    assert!(!text::chars_le(&chars("b"), &chars("a")));
    assert!(text::chars_le(&chars("ab"), &chars("abc")));
    assert!(!text::chars_le(&chars("abc"), &chars("ab")));
    assert!(text::chars_le(&chars("abc"), &chars("abc")));
    assert!(text::chars_le(&chars(""), &chars("")));
    assert!(text::chars_le(&chars("Z"), &chars("a")));
}

#[test]
fn sort_entries_orders_by_path_then_id_then_kind() {
    let entry = |path: &str, oid: &str, obj_type: TypeObject| Entry {
        path: path.to_string(),
        oid: oid.to_string(),
        obj_type,
    };
    let sorted = sort_entries(vec![
        entry("b", "1", TypeObject::Blob),
        entry("a", "2", TypeObject::Tree),
        entry("a", "2", TypeObject::Blob),
        entry("a", "1", TypeObject::Commit),
        entry("", "9", TypeObject::Blob),
        entry("ab", "0", TypeObject::Blob),
    ]);
    assert_eq!(
        sorted,
        vec![
            entry("", "9", TypeObject::Blob),
            entry("a", "1", TypeObject::Commit),
            entry("a", "2", TypeObject::Blob),
            entry("a", "2", TypeObject::Tree),
            entry("ab", "0", TypeObject::Blob),
            entry("b", "1", TypeObject::Blob),
        ]
    );
    let mut std_sorted = vec![
        entry("b", "1", TypeObject::Blob),
        entry("a", "2", TypeObject::Tree),
        entry("a", "2", TypeObject::Blob),
    ];
    std_sorted.sort();
    assert_eq!(
        sort_entries(vec![
            entry("b", "1", TypeObject::Blob),
            entry("a", "2", TypeObject::Tree),
            entry("a", "2", TypeObject::Blob),
        ]),
        std_sorted
    );
}

#[test]
fn type_object_names() {
    assert_eq!(TypeObject::Blob.to_string(), "blob");
    assert_eq!(TypeObject::Tree.to_string(), "tree");
    assert_eq!(TypeObject::Commit.to_string(), "commit");
    assert_eq!(TypeObject::from_str("blob"), Ok(TypeObject::Blob));
    assert_eq!(TypeObject::from_str("tree"), Ok(TypeObject::Tree));
    assert_eq!(TypeObject::from_str("commit"), Ok(TypeObject::Commit));
    assert_eq!(TypeObject::from_str("Blob"), Err(()));
    assert_eq!(TypeObject::from_str(""), Err(()));
}

#[test]
fn sha1_hash_of_known_texts() {
    let mut out = [0u8; 20];
    sha1_hash(b"hello world", &mut out);
    assert_eq!(
        out,
        [
            0x2a, 0xae, 0x6c, 0x35, 0xc9, 0x4f, 0xcf, 0xb4, 0x15, 0xdb, 0xe9, 0x5f, 0x40, 0x8b,
            0x9c, 0xe9, 0x1e, 0xe8, 0x46, 0xed
        ]
    );
    sha1_hash(b"", &mut out);
    assert_eq!(out[0], 0xda);
    assert_eq!(out[19], 0x09);
}

#[test]
fn put_is_deterministic_and_get_returns_what_was_put() {
    let mut first = data::init();
    let mut second = data::init();
    for content in ["", "x", "line\n", "with \0 nul", "caf\u{e9}", "blob\0blob"] {
        for kind in [TypeObject::Blob, TypeObject::Tree, TypeObject::Commit] {
            let a = data::hash_object(&mut first, content, kind);
            let b = data::hash_object(&mut second, content, kind);
            let again = data::hash_object(&mut first, content, kind);
            assert_eq!(a, b);
            assert_eq!(a, again);
            assert_eq!(a.len(), 40);
            assert_eq!(data::get_object(&first, &a, kind).unwrap(), content);
        }
    }
    assert_eq!(first.objects.len(), 18);
    assert_ne!(
        data::hash_object(&mut first, "x", TypeObject::Blob),
        data::hash_object(&mut first, "x", TypeObject::Tree)
    );
    assert_eq!(
        data::hash_object(&mut first, "", TypeObject::Blob),
        "48ede76ef68a65b7292840b4ad4d1f111359d82a"
    );
}

#[test]
fn text_map_keeps_insertion_order() {
    let mut map = TextMap::new();
    assert_eq!(map.len(), 0);
    assert!(map.get("a").is_none());
    map.insert("b", "1");
    map.insert("a", "2");
    map.insert("b", "3");
    assert_eq!(map.len(), 2);
    assert_eq!(map.get("b").unwrap(), "3");
    assert_eq!(map.get("a").unwrap(), "2");
    assert!(map.contains("a"));
    assert!(!map.contains("c"));
    assert_eq!(map.key_at(0), "b");
    assert_eq!(map.value_at(0), "3");
    assert_eq!(map.key_at(1), "a");
    assert_eq!(map.value_at(1), "2");
}
