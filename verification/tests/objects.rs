use g1t::object::Object;
use sha1::Digest;

fn sha1_bytes(data: &[u8]) -> Vec<u8> {
    sha1::Sha1::digest(data).to_vec()
}

fn hello_digest() -> Vec<u8> {
    vec![
        0xaa, 0xf4, 0xc6, 0x1d, 0xdc, 0xc5, 0xe8, 0xa2, 0xda, 0xbe, 0xde, 0x0f, 0x3b, 0x48, 0x2c,
        0xd9, 0xae, 0xa9, 0x43, 0x4d,
    ]
}

#[test]
fn blob_hash_is_sha1_of_content() {
    let blob = Object::blob("hello".to_string());
    assert_eq!(blob.hash().0, hello_digest());
    assert_eq!(blob.hash().0.len(), 20);
}

#[test]
fn blob_keeps_content() {
    match Object::blob("hello".to_string()) {
        Object::Blob { hash, content } => {
            assert_eq!(content, "hello");
            assert_eq!(hash.0 .0, hello_digest());
        }
        _ => panic!("not a blob"),
    }
}

#[test]
fn blob_hash_of_empty_content() {
    let blob = Object::blob(String::new());
    assert_eq!(blob.hash().0, sha1_bytes(b""));
}

#[test]
fn blob_hash_over_utf8_bytes() {
    let blob = Object::blob("héllo ☃".to_string());
    assert_eq!(blob.hash().0, sha1_bytes("héllo ☃".as_bytes()));
}

#[test]
fn hashing_is_deterministic() {
    let a = Object::blob("same content".to_string());
    let b = Object::blob("same content".to_string());
    assert_eq!(a.hash().0, b.hash().0);
    assert!(a.hash().same(&b.hash()));
}

#[test]
fn different_content_gives_different_hash() {
    let a = Object::blob("hello".to_string());
    let b = Object::blob("world".to_string());
    assert_ne!(a.hash().0, b.hash().0);
    assert!(!a.hash().same(&b.hash()));
}

#[test]
fn hash_accessor_returns_stored_hash() {
    let tree = Object::Tree { hash: g1t::object::Hash(vec![9, 8, 7]), contents: Vec::new() };
    assert_eq!(tree.hash().0, vec![9, 8, 7]);
}

#[test]
fn hash_from_vec_keeps_bytes() {
    let h = g1t::object::Hash::from_vec(vec![1, 2, 3]);
    assert_eq!(h.0, vec![1, 2, 3]);
    assert_eq!(h.clone().0, vec![1, 2, 3]);
}

#[test]
fn copy_bytes_copies() {
    assert_eq!(g1t::object::copy_bytes(&vec![0, 255, 7]), vec![0, 255, 7]);
}

#[test]
fn tree_hash_is_digest_of_hash_listing() {
    let pairs = vec![
        ("a.txt".to_string(), g1t::object::Hash(vec![1, 2])),
        ("b.txt".to_string(), g1t::object::Hash(vec![3])),
    ];
    let tree = Object::tree(pairs);
    assert_eq!(tree.hash().0, sha1_bytes(b"[[1, 2], [3]]"));
}

#[test]
fn tree_of_nothing_hashes_empty_listing() {
    let tree = Object::tree(Vec::new());
    assert_eq!(tree.hash().0, sha1_bytes(b"[]"));
}

#[test]
fn tree_hash_ignores_order_of_entries() {
    let ab = Object::tree(vec![
        ("a".to_string(), g1t::object::Hash(vec![1])),
        ("b".to_string(), g1t::object::Hash(vec![2])),
    ]);
    let ba = Object::tree(vec![
        ("b".to_string(), g1t::object::Hash(vec![2])),
        ("a".to_string(), g1t::object::Hash(vec![1])),
    ]);
    assert_eq!(ab.hash().0, sha1_bytes(b"[[1], [2]]"));
    assert_eq!(ba.hash().0, sha1_bytes(b"[[1], [2]]"));
}

#[test]
fn tree_entries_are_sorted_by_path_then_hash() {
    let tree = Object::tree(vec![
        ("b".to_string(), g1t::object::Hash(vec![1])),
        ("a/x".to_string(), g1t::object::Hash(vec![9])),
        ("a".to_string(), g1t::object::Hash(vec![2, 0])),
        ("a".to_string(), g1t::object::Hash(vec![2])),
        ("B".to_string(), g1t::object::Hash(vec![3])),
        ("a".to_string(), g1t::object::Hash(vec![1, 255])),
    ]);
    assert_eq!(tree.hash().0, sha1_bytes(b"[[3], [1, 255], [2], [2, 0], [9], [1]]"));
    match tree {
        Object::Tree { contents, .. } => {
            let order: Vec<(String, Vec<u8>)> =
                contents.into_iter().map(|e| (e.0, e.2 .0)).collect();
            assert_eq!(
                order,
                vec![
                    ("B".to_string(), vec![3]),
                    ("a".to_string(), vec![1, 255]),
                    ("a".to_string(), vec![2]),
                    ("a".to_string(), vec![2, 0]),
                    ("a/x".to_string(), vec![9]),
                    ("b".to_string(), vec![1]),
                ]
            );
        }
        _ => panic!("not a tree"),
    }
}

#[test]
fn sort_pairs_is_insertion_into_order() {
    let sorted = g1t::order::sort_pairs(vec![
        ("z".to_string(), g1t::object::Hash(vec![])),
        ("".to_string(), g1t::object::Hash(vec![7])),
        ("é".to_string(), g1t::object::Hash(vec![])),
        ("z".to_string(), g1t::object::Hash(vec![])),
    ]);
    let names: Vec<String> = sorted.into_iter().map(|p| p.0).collect();
    assert_eq!(names, vec!["", "z", "z", "é"]);
    assert!(g1t::order::chars_le(&vec!['a'], &vec!['a', 'b']));
    assert!(!g1t::order::chars_le(&vec!['b'], &vec!['a', 'b']));
    assert!(g1t::order::bytes_le(&vec![], &vec![]));
    assert!(!g1t::order::bytes_le(&vec![1], &vec![]));
}

#[test]
fn tree_entries_are_blobs_in_order() {
    let tree = Object::tree(vec![
        ("a.txt".to_string(), g1t::object::Hash(vec![1, 2])),
        ("b.txt".to_string(), g1t::object::Hash(vec![255, 0, 100])),
    ]);
    match tree {
        Object::Tree { contents, .. } => {
            assert_eq!(contents.len(), 2);
            assert_eq!(contents[0].0, "a.txt");
            assert_eq!(contents[0].1, g1t::object::ObjectMode::Blob);
            assert_eq!(contents[0].2 .0, vec![1, 2]);
            assert_eq!(contents[1].0, "b.txt");
            assert_eq!(contents[1].2 .0, vec![255, 0, 100]);
        }
        _ => panic!("not a tree"),
    }
}

#[test]
fn tree_listing_renders_all_digit_counts() {
    let tree = Object::tree(vec![("x".to_string(), g1t::object::Hash(vec![0, 9, 10, 99, 100, 255]))]);
    assert_eq!(tree.hash().0, sha1_bytes(b"[[0, 9, 10, 99, 100, 255]]"));
}

#[test]
fn commit_hash_is_digest_of_message() {
    let commit = Object::commit("first".to_string(), g1t::object::Hash(vec![1, 2, 3]), None);
    assert_eq!(commit.hash().0, sha1_bytes(b"first"));
}

#[test]
fn commits_with_same_message_share_hash() {
    let a = Object::commit("msg".to_string(), g1t::object::Hash(vec![1]), None);
    let b = Object::commit(
        "msg".to_string(),
        g1t::object::Hash(vec![2]),
        Some(g1t::object::Hash(vec![3])),
    );
    assert_eq!(a.hash().0, b.hash().0);
}

#[test]
fn commit_keeps_tree_and_parent() {
    let commit = Object::commit(
        "second".to_string(),
        g1t::object::Hash(vec![4, 5]),
        Some(g1t::object::Hash(vec![6])),
    );
    match commit {
        Object::Commit { message, tree_hash, parent_commit, .. } => {
            assert_eq!(message, "second");
            assert_eq!(tree_hash.0, vec![4, 5]);
            assert_eq!(parent_commit.map(|h| h.0), Some(vec![6]));
        }
        _ => panic!("not a commit"),
    }
}

#[test]
fn decimal_rendering_of_bytes() {
    let mut out: Vec<char> = Vec::new();
    g1t::text::push_decimal(&mut out, 0);
    out.push(' ');
    g1t::text::push_decimal(&mut out, 7);
    out.push(' ');
    g1t::text::push_decimal(&mut out, 42);
    out.push(' ');
    g1t::text::push_decimal(&mut out, 100);
    out.push(' ');
    g1t::text::push_decimal(&mut out, 255);
    assert_eq!(out.iter().collect::<String>(), "0 7 42 100 255");
}

#[test]
fn byte_list_with_and_without_space() {
    let mut spaced: Vec<char> = Vec::new();
    g1t::object::push_byte_list(&mut spaced, &vec![1, 20, 255], true);
    assert_eq!(spaced.iter().collect::<String>(), "[1, 20, 255]");
    let mut tight: Vec<char> = Vec::new();
    g1t::object::push_byte_list(&mut tight, &vec![1, 20, 255], false);
    assert_eq!(tight.iter().collect::<String>(), "[1,20,255]");
    let mut empty: Vec<char> = Vec::new();
    g1t::object::push_byte_list(&mut empty, &Vec::new(), false);
    assert_eq!(empty.iter().collect::<String>(), "[]");
}

#[test]
fn chars_round_trip() {
    let chars = g1t::text::to_chars("a☃b");
    assert_eq!(chars, vec!['a', '☃', 'b']);
    assert_eq!(g1t::text::from_chars(&chars), "a☃b");
    assert!(g1t::text::chars_eq(&chars, &vec!['a', '☃', 'b']));
    assert!(!g1t::text::chars_eq(&chars, &vec!['a', 'b']));
}
