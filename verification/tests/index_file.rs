use g1t::codec::encode_index;
use g1t::codec::encode_object;
use g1t::index::Content;
use g1t::index::Entry;
use g1t::index::Index;
use g1t::object::BlobHash;
use g1t::object::Object;
use g1t::parse::decode_index;

fn entry(name: &str, hash: Vec<u8>) -> Entry {
    Entry { file_name: name.to_string(), blob_hash: BlobHash(g1t::object::Hash(hash)) }
}

fn pairs(index: &Index) -> Vec<(String, Vec<u8>)> {
    index.entries.iter().map(|e| (e.file_name.clone(), e.blob_hash.0 .0.clone())).collect()
}

#[test]
fn empty_index_text() {
    assert_eq!(encode_index(&Index::new()), "{\"entries\":[]}");
    assert_eq!(encode_index(&Index::default()), "{\"entries\":[]}");
}

#[test]
fn index_text_of_entries() {
    let mut index = Index::new();
    index.append(entry("a.txt", vec![1, 2, 255]));
    index.append(entry("b.txt", vec![]));
    assert_eq!(
        encode_index(&index),
        "{\"entries\":[{\"file_name\":\"a.txt\",\"blob_hash\":[1,2,255]},{\"file_name\":\"b.txt\",\"blob_hash\":[]}]}"
    );
}

#[test]
fn index_text_escapes_names() {
    let mut index = Index::new();
    index.append(entry("q\"b\\n\nt\tr\rc\u{1}f\u{c}b\u{8}é\u{7f}", vec![0]));
    assert_eq!(
        encode_index(&index),
        "{\"entries\":[{\"file_name\":\"q\\\"b\\\\n\\nt\\tr\\rc\\u0001f\\fb\\bé\u{7f}\",\"blob_hash\":[0]}]}"
    );
}

#[test]
fn index_text_matches_json_reader() {
    let mut index = Index::new();
    index.append(entry("dir/a \"quoted\"\n\u{1f}\u{0}.txt", vec![0, 10, 200]));
    index.append(entry("☃", vec![255]));
    let value: serde_json::Value = serde_json::from_str(&encode_index(&index)).unwrap();
    let entries = value.get("entries").unwrap().as_array().unwrap();
    assert_eq!(entries.len(), 2);
    assert_eq!(
        entries[0].get("file_name").unwrap().as_str().unwrap(),
        "dir/a \"quoted\"\n\u{1f}\u{0}.txt"
    );
    let hash: Vec<u64> = entries[0]
        .get("blob_hash")
        .unwrap()
        .as_array()
        .unwrap()
        .iter()
        .map(|v| v.as_u64().unwrap())
        .collect();
    assert_eq!(hash, vec![0, 10, 200]);
    assert_eq!(entries[1].get("file_name").unwrap().as_str().unwrap(), "☃");
}

#[test]
fn index_text_is_what_json_writer_gives_for_strings() {
    let name = "a\"b\\c\nd\te\rf\u{8}g\u{c}h\u{1}i\u{1f}j\u{7f}k☃";
    let mut out: Vec<char> = Vec::new();
    g1t::codec::push_json_string(&mut out, name);
    let ours: String = out.iter().collect();
    assert_eq!(ours, serde_json::to_string(&serde_json::Value::String(name.to_string())).unwrap());
}

#[test]
fn decode_reads_back_what_encode_wrote() {
    let mut index = Index::new();
    index.append(entry("a.txt", vec![1, 2, 3]));
    index.append(entry("b \"x\"\\\n\u{2}.txt", vec![0, 99, 100, 255]));
    index.append(entry("", vec![]));
    index.append(entry("a.txt", vec![1, 2, 3]));
    let text = encode_index(&index);
    let back = decode_index(&text).unwrap();
    assert_eq!(pairs(&back), pairs(&index));
}

#[test]
fn decode_empty_index() {
    let back = decode_index("{\"entries\":[]}").unwrap();
    assert_eq!(back.len(), 0);
}

#[test]
fn decode_one_entry() {
    let back =
        decode_index("{\"entries\":[{\"file_name\":\"a.txt\",\"blob_hash\":[170,244,0]}]}").unwrap();
    assert_eq!(pairs(&back), vec![("a.txt".to_string(), vec![170, 244, 0])]);
}

#[test]
fn decode_rejects_malformed_text() {
    assert!(decode_index("").is_none());
    assert!(decode_index("{").is_none());
    assert!(decode_index("not json").is_none());
    assert!(decode_index("{\"entries\":[").is_none());
    assert!(decode_index("{\"entries\":[]}x").is_none());
    assert!(decode_index("{\"entries\":[,]}").is_none());
    assert!(decode_index("{\"entries\":[{\"file_name\":\"a\",\"blob_hash\":[256]}]}").is_none());
    assert!(decode_index("{\"entries\":[{\"file_name\":\"a\",\"blob_hash\":[1,]}]}").is_none());
    assert!(decode_index("{\"entries\":[{\"file_name\":\"a\"}]}").is_none());
    assert!(decode_index("{\"entries\":[{\"file_name\":\"a\\x\",\"blob_hash\":[]}]}").is_none());
    assert!(decode_index("{\"entries\":[{\"file_name\":\"a,\"blob_hash\":[]}]}").is_none());
}

#[test]
fn decode_rejects_what_is_no_json_for_an_index() {
    assert!(decode_index("{\"entries\":[{\"file_name\":\"a\",\"blob_hash\":[01]}]}").is_none());
    assert!(decode_index("{\"entries\":[{\"file_name\":\"a\",\"blob_hash\":[1 2]}]}").is_none());
    assert!(decode_index("{\"entries\":[{\"file_name\":\"a\",\"blob_hash\":[2 5 5]}]}").is_none());
    assert!(decode_index("{\"entries\":[{\"file_name\":\"a\nb\",\"blob_hash\":[]}]}").is_none());
    assert!(decode_index("{\"entries\":[{\"file_name\":\"\\ud83d\",\"blob_hash\":[]}]}").is_none());
    assert!(decode_index("{\"entries\":[{\"file_name\":\"\\ude00\",\"blob_hash\":[]}]}").is_none());
    assert!(decode_index("{\"entries\":[{\"file_name\":\"\\u00g1\",\"blob_hash\":[]}]}").is_none());
    assert!(decode_index("{\"entries\":[{\"file_name\":\"a\",\"blob_hash\":[1]}] } x").is_none());
    assert!(decode_index("{\"ent ries\":[]}").is_none());
}

#[test]
fn decode_accepts_white_space_between_tokens() {
    assert_eq!(decode_index("{\"entries\": []}").unwrap().len(), 0);
    assert_eq!(decode_index(" {\n  \"entries\" : [ ]\r\n}\t").unwrap().len(), 0);
    let back = decode_index(
        "{\n  \"entries\": [\n    {\n      \"file_name\": \"a b.txt\",\n      \"blob_hash\": [\n        1,\n        22 ,\n        255\n      ]\n    },\n    { \"file_name\" : \"\" , \"blob_hash\" : [ ] }\n  ]\n}\n",
    )
    .unwrap();
    assert_eq!(
        pairs(&back),
        vec![("a b.txt".to_string(), vec![1, 22, 255]), ("".to_string(), vec![])]
    );
}

#[test]
fn decode_accepts_any_spelling_of_an_escape() {
    let back = decode_index(
        "{\"entries\":[{\"file_name\":\"\\u0041\\u000a\\u000A\\/\\u00e9\\u2603\\ud83d\\ude00\\uD83D\\uDE00\\u0022\\u005c\",\"blob_hash\":[7]}]}",
    )
    .unwrap();
    assert_eq!(pairs(&back), vec![("A\n\n/é☃😀😀\"\\".to_string(), vec![7])]);
}

#[test]
fn decode_agrees_with_json_reader_on_spellings() {
    let text = " { \"entries\" : [ { \"file_name\" : \"x\\u0041\\/\\ud83d\\ude00 y\" , \"blob_hash\" : [ 0 , 10 ] } ] } ";
    let value: serde_json::Value = serde_json::from_str(text).unwrap();
    let entry = &value.get("entries").unwrap().as_array().unwrap()[0];
    let back = decode_index(text).unwrap();
    assert_eq!(back.entries[0].file_name, entry.get("file_name").unwrap().as_str().unwrap());
    assert_eq!(back.entries[0].blob_hash.0 .0, vec![0, 10]);
}

#[test]
fn canonical_spelling() {
    let spell = |t: &str| {
        g1t::canon::canonical(&t.chars().collect::<Vec<char>>()).map(|v| v.iter().collect::<String>())
    };
    assert_eq!(spell(" { \"a b\" : [ 1 , 2 ] } "), Some("{\"a b\":[1,2]}".to_string()));
    assert_eq!(spell("\"\\u0041\\n\\u000a\\/\""), Some("\"A\\n\\n/\"".to_string()));
    assert_eq!(spell("\"\\u0001\""), Some("\"\\u0001\"".to_string()));
    assert_eq!(spell("nu ll"), None);
    assert_eq!(spell("1 2"), None);
    assert_eq!(spell("\"open"), None);
    assert_eq!(spell("\"\\x\""), None);
    assert_eq!(spell("\"a\tb\""), None);
    assert_eq!(spell("null"), Some("null".to_string()));
    assert_eq!(spell("[1 ,2]"), Some("[1,2]".to_string()));
    assert_eq!(g1t::canon::read_hex4(&"00fF".chars().collect(), 0), Some(255));
    assert_eq!(g1t::canon::read_hex4(&"00f".chars().collect(), 0), None);
    assert_eq!(g1t::canon::scalar(0x2603), '☃');
    assert_eq!(g1t::canon::read_escape(&"\\ud83d\\ude00".chars().collect(), 0), Some(('😀', 12)));
}

#[test]
fn read_pieces() {
    let text: Vec<char> = "[1,22,255]\"a\\nb\"7".chars().collect();
    assert_eq!(g1t::parse::read_bytes(&text, 0), Some((vec![1, 22, 255], 10)));
    assert_eq!(g1t::parse::read_string(&text, 10), Some(("a\nb".to_string(), 16)));
    assert_eq!(g1t::parse::read_byte(&text, 16), Some((7, 17)));
    assert_eq!(g1t::parse::read_byte(&text, 0), None);
    assert_eq!(g1t::parse::expect(&text, 0, "[1,"), Some(3));
    assert_eq!(g1t::parse::expect(&text, 0, "[2"), None);
    assert_eq!(g1t::parse::read_bytes(&text, 1), None);
    assert_eq!(g1t::parse::read_string(&text, 0), None);
}

#[test]
fn blob_text() {
    let blob = Object::Blob {
        hash: BlobHash(g1t::object::Hash(vec![1, 2])),
        content: "hi \"there\"".to_string(),
    };
    assert_eq!(
        encode_object(&blob),
        "{\"Blob\":{\"hash\":[1,2],\"content\":\"hi \\\"there\\\"\"}}"
    );
}

#[test]
fn tree_text() {
    let tree = Object::Tree {
        hash: g1t::object::Hash(vec![3]),
        contents: vec![
            ("a.txt".to_string(), g1t::object::ObjectMode::Blob, g1t::object::Hash(vec![1, 2])),
            ("d".to_string(), g1t::object::ObjectMode::Tree, g1t::object::Hash(vec![4])),
            ("c".to_string(), g1t::object::ObjectMode::Commit, g1t::object::Hash(vec![])),
        ],
    };
    assert_eq!(
        encode_object(&tree),
        "{\"Tree\":{\"hash\":[3],\"contents\":[[\"a.txt\",\"Blob\",[1,2]],[\"d\",\"Tree\",[4]],[\"c\",\"Commit\",[]]]}}"
    );
    let empty = Object::Tree { hash: g1t::object::Hash(vec![3]), contents: Vec::new() };
    assert_eq!(encode_object(&empty), "{\"Tree\":{\"hash\":[3],\"contents\":[]}}");
}

#[test]
fn commit_text() {
    let first = Object::Commit {
        hash: g1t::object::Hash(vec![5]),
        message: "first".to_string(),
        tree_hash: g1t::object::Hash(vec![3]),
        parent_commit: None,
    };
    assert_eq!(
        encode_object(&first),
        "{\"Commit\":{\"hash\":[5],\"message\":\"first\",\"tree_hash\":[3],\"parent_commit\":null}}"
    );
    let second = Object::Commit {
        hash: g1t::object::Hash(vec![6]),
        message: "second".to_string(),
        tree_hash: g1t::object::Hash(vec![7]),
        parent_commit: Some(g1t::object::Hash(vec![5])),
    };
    assert_eq!(
        encode_object(&second),
        "{\"Commit\":{\"hash\":[6],\"message\":\"second\",\"tree_hash\":[7],\"parent_commit\":[5]}}"
    );
}

#[test]
fn object_text_is_json() {
    let blob = Object::blob("line\nwith \"quotes\"".to_string());
    let value: serde_json::Value = serde_json::from_str(&encode_object(&blob)).unwrap();
    let inner = value.get("Blob").unwrap();
    assert_eq!(inner.get("content").unwrap().as_str().unwrap(), "line\nwith \"quotes\"");
    assert_eq!(inner.get("hash").unwrap().as_array().unwrap().len(), 20);
}

#[test]
fn index_append_keeps_order_and_duplicates() {
    let mut index = Index::new();
    assert_eq!(index.len(), 0);
    index.append(entry("a", vec![1]));
    index.append(entry("b", vec![2]));
    index.append(entry("a", vec![1]));
    assert_eq!(index.len(), 3);
    assert_eq!(
        pairs(&index),
        vec![("a".to_string(), vec![1]), ("b".to_string(), vec![2]), ("a".to_string(), vec![1])]
    );
    assert_eq!(pairs(&index.clone()), pairs(&index));
    let listed = index.pairs();
    assert_eq!(listed.len(), 3);
    assert_eq!(listed[1].0, "b");
    assert_eq!(listed[1].1 .0, vec![2]);
}

#[test]
fn content_new_keeps_fields() {
    let c = Content::new("a.txt".to_string(), "hello".to_string());
    assert_eq!(c.file_name, "a.txt");
    assert_eq!(c.content, "hello");
}

fn object_round_trip(object: Object) {
    let text = encode_object(&object);
    let back = g1t::object_parse::decode_object(&text).unwrap();
    assert_eq!(encode_object(&back), text);
}

#[test]
fn decode_object_reads_back_each_kind() {
    object_round_trip(Object::blob("hi \"there\"\n\\ \u{3} ☃".to_string()));
    object_round_trip(Object::tree(Vec::new()));
    object_round_trip(Object::tree(vec![
        ("a.txt".to_string(), g1t::object::Hash(vec![1, 2])),
        ("b \"q\".txt".to_string(), g1t::object::Hash(vec![])),
    ]));
    object_round_trip(Object::Tree {
        hash: g1t::object::Hash(vec![3]),
        contents: vec![
            ("d".to_string(), g1t::object::ObjectMode::Tree, g1t::object::Hash(vec![4])),
            ("c".to_string(), g1t::object::ObjectMode::Commit, g1t::object::Hash(vec![5, 6])),
        ],
    });
    object_round_trip(Object::commit("first".to_string(), g1t::object::Hash(vec![9]), None));
    object_round_trip(Object::commit(
        "second".to_string(),
        g1t::object::Hash(vec![9]),
        Some(g1t::object::Hash(vec![0, 255])),
    ));
}

#[test]
fn decode_object_gives_fields() {
    let text = "{\"Commit\":{\"hash\":[6],\"message\":\"m\\n\",\"tree_hash\":[7,8],\"parent_commit\":[5]}}";
    match g1t::object_parse::decode_object(text).unwrap() {
        Object::Commit { hash, message, tree_hash, parent_commit } => {
            assert_eq!(hash.0, vec![6]);
            assert_eq!(message, "m\n");
            assert_eq!(tree_hash.0, vec![7, 8]);
            assert_eq!(parent_commit.map(|h| h.0), Some(vec![5]));
        }
        _ => panic!("not a commit"),
    }
    let text = "{\"Tree\":{\"hash\":[3],\"contents\":[[\"a\",\"Blob\",[1]],[\"d\",\"Tree\",[]]]}}";
    match g1t::object_parse::decode_object(text).unwrap() {
        Object::Tree { hash, contents } => {
            assert_eq!(hash.0, vec![3]);
            assert_eq!(contents.len(), 2);
            assert_eq!(contents[0].0, "a");
            assert_eq!(contents[0].1, g1t::object::ObjectMode::Blob);
            assert_eq!(contents[1].1, g1t::object::ObjectMode::Tree);
            assert_eq!(contents[1].2 .0, Vec::<u8>::new());
        }
        _ => panic!("not a tree"),
    }
    let text = "{\"Blob\":{\"hash\":[1,2],\"content\":\"x\"}}";
    assert!(matches!(
        g1t::object_parse::decode_object(text),
        Some(Object::Blob { content, .. }) if content == "x"
    ));
}

#[test]
fn decode_object_accepts_other_spellings() {
    let text = "{ \"Commit\" : {\n \"hash\" : [ 6 ],\n \"message\" : \"m\\u000a\\/\",\n \"tree_hash\":[7 , 8],\n \"parent_commit\" : null } }\n";
    match g1t::object_parse::decode_object(text).unwrap() {
        Object::Commit { hash, message, tree_hash, parent_commit } => {
            assert_eq!(hash.0, vec![6]);
            assert_eq!(message, "m\n/");
            assert_eq!(tree_hash.0, vec![7, 8]);
            assert!(parent_commit.is_none());
        }
        _ => panic!("not a commit"),
    }
    let text = "{\"Blob\":{\"hash\":[1],\"content\":\"x\"}} ";
    assert!(matches!(
        g1t::object_parse::decode_object(text),
        Some(Object::Blob { content, .. }) if content == "x"
    ));
    let text = "{\"Tree\": {\"hash\": [3], \"contents\": [[\"a\", \"Blob\", [1]]]}}";
    assert!(matches!(
        g1t::object_parse::decode_object(text),
        Some(Object::Tree { contents, .. }) if contents.len() == 1
    ));
}

#[test]
fn decode_object_rejects_malformed_text() {
    assert!(g1t::object_parse::decode_object("").is_none());
    assert!(g1t::object_parse::decode_object("{\"Blob\":{\"hash\":[1],\"content\":\"x\"}").is_none());
    assert!(g1t::object_parse::decode_object("{\"Blob\":{\"hash\":[1 1],\"content\":\"x\"}}").is_none());
    assert!(g1t::object_parse::decode_object("{\"Bl ob\":{\"hash\":[1],\"content\":\"x\"}}").is_none());
    assert!(g1t::object_parse::decode_object("{\"Blub\":{\"hash\":[1],\"content\":\"x\"}}").is_none());
    assert!(g1t::object_parse::decode_object(
        "{\"Tree\":{\"hash\":[3],\"contents\":[[\"a\",\"Blab\",[1]]]}}"
    )
    .is_none());
    assert!(g1t::object_parse::decode_object(
        "{\"Commit\":{\"hash\":[6],\"message\":\"m\",\"tree_hash\":[7],\"parent_commit\":nil}}"
    )
    .is_none());
}
