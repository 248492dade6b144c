use nephrite4::error::Error;
use nephrite4::git::{Blob, Commit, HasType, Object, Tag, Tree, TreeEntry, Type};

fn id(b: u8) -> [u8; 32] {
    [b; 32]
}

fn entry(name: &str, b: u8, mode: Type) -> TreeEntry {
    TreeEntry { name: name.to_string(), oid: id(b), mode }
}

#[test]
fn modes_of_the_kinds() {
    assert_eq!(Type::Commit.mode(), 0o160000);
    assert_eq!(Type::Tree.mode(), 0o040000);
    assert_eq!(Type::Blob(0o100644).mode(), 0o100644);
    assert_eq!(Type::Blob(0o100755).mode(), 0o100755);
    assert_eq!(Type::Blob(0o120000).mode(), 0o120000);
    assert_eq!(Type::Tag.mode(), 0);
}

#[test]
fn from_mode_takes_unknown_modes_as_blobs() {
    assert_eq!(Type::from_mode(0o160000), Type::Commit);
    assert_eq!(Type::from_mode(0o040000), Type::Tree);
    assert_eq!(Type::from_mode(0o100644), Type::Blob(0o100644));
    assert_eq!(Type::from_mode(0), Type::Blob(0));
    assert_eq!(Type::from_mode(-1), Type::Blob(-1));
    assert_eq!(Type::from_mode(12345), Type::Blob(12345));
    for m in [0o160000, 0o040000, 0o100644, 7, -5] {
        assert_eq!(Type::from_mode(m).mode(), m);
    }
}

#[test]
fn kinds_of_objects() {
    let c = Commit { parent: vec![], tree: id(1), comment: String::new() };
    assert_eq!(c.otype(), Type::Commit);
    assert_eq!(Tree::new().otype(), Type::Tree);
    let b = Blob { mode: 0o100755, data: None };
    assert_eq!(b.otype(), Type::Blob(0o100755));
    let t: Tag = Some(vec![1, 2]);
    assert_eq!(t.otype(), Type::Tag);
    assert_eq!(Object::Commit(c).otype(), Type::Commit);
    assert_eq!(Object::Blob(b).otype(), Type::Blob(0o100755));
    assert_eq!(Object::Tree(Tree::new()).otype(), Type::Tree);
    assert_eq!(Object::Tag(None).otype(), Type::Tag);
}

#[test]
fn tree_entries_are_written_in_name_order() {
    let mut tree = Tree::new();
    assert!(tree.insert(entry("b", 2, Type::Blob(0o100644))));
    assert!(tree.insert(entry("a", 1, Type::Blob(0o100644))));
    assert!(tree.insert(entry("c", 3, Type::Blob(0o100644))));
    assert_eq!(tree.len(), 3);
    assert_eq!(tree.entry(0).name, "a");
    assert_eq!(tree.entry(1).name, "b");
    assert_eq!(tree.entry(2).name, "c");

    let mut want: Vec<u8> = Vec::new();
    for (name, b) in [("a", 1u8), ("b", 2), ("c", 3)] {
        want.extend_from_slice(b"100644 ");
        want.extend_from_slice(name.as_bytes());
        want.push(0);
        want.extend_from_slice(&id(b));
    }
    assert_eq!(tree.encode(), want);
}

#[test]
fn tree_refuses_a_second_entry_of_a_name() {
    let mut tree = Tree::new();
    assert!(tree.insert(entry("a", 1, Type::Commit)));
    assert!(!tree.insert(entry("a", 2, Type::Tree)));
    assert_eq!(tree.len(), 1);
    assert_eq!(tree.get("a"), Some((id(1), Type::Commit)));
    assert_eq!(tree.get("b"), None);
}

#[test]
fn tree_orders_names_by_their_bytes() {
    let mut tree = Tree::new();
    for name in ["z", "Z", "ab", "a", "\u{e9}", "a b", ""] {
        assert!(tree.insert(entry(name, 0, Type::Tree)));
    }
    let names: Vec<String> = (0..tree.len()).map(|i| tree.entry(i).name).collect();
    assert_eq!(names, vec!["", "Z", "a", "a b", "ab", "z", "\u{e9}"]);
}

#[test]
fn tree_modes_are_written_in_octal() {
    let mut tree = Tree::new();
    tree.insert(entry("c", 1, Type::Commit));
    tree.insert(entry("t", 2, Type::Tree));
    tree.insert(entry("z", 3, Type::Blob(0)));
    let bytes = tree.encode();
    let mut want: Vec<u8> = Vec::new();
    want.extend_from_slice(b"160000 c\0");
    want.extend_from_slice(&id(1));
    want.extend_from_slice(b"40000 t\0");
    want.extend_from_slice(&id(2));
    want.extend_from_slice(b"0 z\0");
    want.extend_from_slice(&id(3));
    assert_eq!(bytes, want);
}

#[test]
fn tree_reads_back_what_it_wrote() {
    let mut tree = Tree::new();
    tree.insert(entry("b", 2, Type::Blob(0o100755)));
    tree.insert(entry("a", 1, Type::Commit));
    tree.insert(entry("dir", 3, Type::Tree));
    let back = Tree::parse(&tree.encode()).unwrap();
    assert_eq!(back.len(), 3);
    assert_eq!(back.get("a"), Some((id(1), Type::Commit)));
    assert_eq!(back.get("b"), Some((id(2), Type::Blob(0o100755))));
    assert_eq!(back.get("dir"), Some((id(3), Type::Tree)));
    assert_eq!(back.encode(), tree.encode());
}

#[test]
fn tree_parse_sorts_and_keeps_the_first_of_a_name() {
    let mut raw: Vec<u8> = Vec::new();
    raw.extend_from_slice(b"100644 b\0");
    raw.extend_from_slice(&id(2));
    raw.extend_from_slice(b"100644 a\0");
    raw.extend_from_slice(&id(1));
    raw.extend_from_slice(b"160000 b\0");
    raw.extend_from_slice(&id(9));
    let tree = Tree::parse(&raw).unwrap();
    assert_eq!(tree.len(), 2);
    assert_eq!(tree.entry(0).name, "a");
    assert_eq!(tree.get("b"), Some((id(2), Type::Blob(0o100644))));
}

#[test]
fn tree_parse_of_nothing_and_of_a_tail_without_entry() {
    assert_eq!(Tree::parse(&[]).unwrap().len(), 0);
    assert_eq!(Tree::parse(b"garbage").unwrap().len(), 0);
    assert_eq!(Tree::parse(b"100644 name-without-end").unwrap().len(), 0);
    let mut raw: Vec<u8> = Vec::new();
    raw.extend_from_slice(b"100644 a\0");
    raw.extend_from_slice(&id(1));
    raw.extend_from_slice(b"tail");
    assert_eq!(Tree::parse(&raw).unwrap().len(), 1);
}

#[test]
fn tree_parse_refuses_malformed_entries() {
    let mut cut: Vec<u8> = Vec::new();
    cut.extend_from_slice(b"100644 a\0");
    cut.extend_from_slice(&[1u8; 31]);
    assert!(matches!(Tree::parse(&cut), Err(Error::Format(_))));

    let mut bad_mode: Vec<u8> = Vec::new();
    bad_mode.extend_from_slice(b"10064x a\0");
    bad_mode.extend_from_slice(&id(1));
    assert!(matches!(Tree::parse(&bad_mode), Err(Error::Format(_))));

    let mut no_mode: Vec<u8> = Vec::new();
    no_mode.extend_from_slice(b" a\0");
    no_mode.extend_from_slice(&id(1));
    assert!(matches!(Tree::parse(&no_mode), Err(Error::Format(_))));

    let mut big_mode: Vec<u8> = Vec::new();
    big_mode.extend_from_slice(b"20000000000 a\0");
    big_mode.extend_from_slice(&id(1));
    assert!(matches!(Tree::parse(&big_mode), Err(Error::Format(_))));

    let mut top_mode: Vec<u8> = Vec::new();
    top_mode.extend_from_slice(b"017777777777 a\0");
    top_mode.extend_from_slice(&id(1));
    assert_eq!(Tree::parse(&top_mode).unwrap().get("a"), Some((id(1), Type::Blob(i32::MAX))));

    let mut bad_name: Vec<u8> = Vec::new();
    bad_name.extend_from_slice(b"100644 \xff\0");
    bad_name.extend_from_slice(&id(1));
    assert!(matches!(Tree::parse(&bad_name), Err(Error::Format(_))));
}

fn hex_of(b: u8) -> String {
    hex::encode(id(b))
}

#[test]
fn commit_text_with_parents_and_message() {
    let text = format!(
        "tree {}\nparent {}\nparent {}\nauthor someone <s@x> 1 +0000\n\nname: a.txt\n\nsize: 3\n",
        hex_of(1),
        hex_of(2),
        hex_of(3)
    );
    let c = Commit::parse(&text).unwrap();
    assert_eq!(c.tree, id(1));
    assert_eq!(c.parent, vec![id(2), id(3)]);
    assert_eq!(c.comment, "name: a.txt\n\nsize: 3\n");
}

#[test]
fn commit_text_without_parents() {
    let text = format!("tree {}\n\nhello", hex_of(7));
    let c = Commit::parse(&text).unwrap();
    assert_eq!(c.tree, id(7));
    assert!(c.parent.is_empty());
    assert_eq!(c.comment, "hello");
}

#[test]
fn commit_text_edge_cases() {
    let c = Commit::parse("").unwrap();
    assert_eq!(c.tree, [0u8; 32]);
    assert!(c.parent.is_empty());
    assert_eq!(c.comment, "");

    // text that ends before a blank line: the unfinished line is the message
    let c = Commit::parse(&format!("tree {}\nrest", hex_of(1))).unwrap();
    assert_eq!(c.tree, id(1));
    assert_eq!(c.comment, "rest");

    // white space around lines and ids does not count; a blank line may hold spaces
    let c = Commit::parse(&format!("  tree   {}  \r\n \t \nmsg\n", hex_of(4))).unwrap();
    assert_eq!(c.tree, id(4));
    assert_eq!(c.comment, "msg\n");

    // a short id is filled up with zeros, upper case is read
    let c = Commit::parse("tree ABCD\n\n").unwrap();
    let mut want = [0u8; 32];
    want[0] = 0xab;
    want[1] = 0xcd;
    assert_eq!(c.tree, want);

    // the last tree line wins
    let c = Commit::parse(&format!("tree {}\ntree {}\n\n", hex_of(1), hex_of(2))).unwrap();
    assert_eq!(c.tree, id(2));
}

#[test]
fn commit_text_refuses_ids_that_are_not_hex() {
    assert!(matches!(Commit::parse("tree xyz\n\n"), Err(Error::Format(_))));
    assert!(matches!(Commit::parse("tree abc\n\n"), Err(Error::Format(_))));
    let text = format!("tree {}\nparent 12 34\n\n", hex_of(1));
    assert!(matches!(Commit::parse(&text), Err(Error::Format(_))));
}
