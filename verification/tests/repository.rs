use g1t::fs::FileSystem;
use g1t::fs::FsError;
use g1t::memfs::MemFs;
use g1t::runner::write_file;
use g1t::runner::Cmd;
use g1t::runner::FsMapedJson;
use g1t::runner::RunError;
use g1t::runner::Runner;
use g1t::runner::StorageError;
use g1t::runtime::ObjectsError;
use g1t::runtime::Runtime;
use g1t::runtime::RuntimeError;
use g1t::runtime::SubCommand;
use sha1::Digest;

fn sha1_bytes(data: &[u8]) -> Vec<u8> {
    sha1::Sha1::digest(data).to_vec()
}

fn json_bytes(bytes: &[u8]) -> String {
    let items: Vec<String> = bytes.iter().map(|b| b.to_string()).collect();
    format!("[{}]", items.join(","))
}

fn index_pairs<F: FileSystem>(rt: &Runtime<F>) -> Vec<(String, Vec<u8>)> {
    let index = rt.get_index().unwrap();
    index.entries.iter().map(|e| (e.file_name.clone(), e.blob_hash.0 .0.clone())).collect()
}

fn object_texts<F: FileSystem>(rt: &Runtime<F>) -> Vec<String> {
    rt.get_objects().unwrap().iter().map(g1t::codec::encode_object).collect()
}

fn fresh() -> Runtime<MemFs> {
    Runtime::new(".g1t".to_string(), MemFs::new())
}

#[test]
fn init_creates_layout() {
    let mut rt = fresh();
    assert_eq!(rt.run(SubCommand::Init), Ok("Success".to_string()));
    assert!(rt.infs.is_dir(".g1t"));
    assert!(rt.infs.is_dir(".g1t/objects"));
    assert_eq!(rt.infs.read_file(".g1t/index.json"), Ok("{\"entries\":[]}".to_string()));
    assert_eq!(rt.get_index().unwrap().len(), 0);
    assert_eq!(rt.get_objects().unwrap().len(), 0);
}

#[test]
fn init_twice_fails_and_changes_nothing() {
    let mut rt = fresh();
    rt.init().unwrap();
    write_file(&mut rt.infs, "a.txt", "hello").unwrap();
    rt.add("a.txt".to_string()).unwrap();
    let index_before = rt.infs.read_file(".g1t/index.json");
    let objects_before = object_texts(&rt);
    assert_eq!(rt.run(SubCommand::Init), Err(RuntimeError::AlreadyInitialized));
    assert_eq!(rt.infs.read_file(".g1t/index.json"), index_before);
    assert_eq!(object_texts(&rt), objects_before);
    assert_eq!(objects_before.len(), 1);
    assert_eq!(rt.infs.read_dir(".g1t"), Ok(vec!["objects".to_string(), "index.json".to_string()]));
}

#[test]
fn init_refused_where_index_path_is_a_directory() {
    let mut fs = MemFs::new();
    fs.create_dir(".g1t/index.json").unwrap();
    let mut rt = Runtime::new(".g1t".to_string(), fs);
    assert_eq!(rt.init(), Err(RuntimeError::Fs(FsError::NotAFile)));
    assert!(!rt.infs.is_present(".g1t"));
}

#[test]
fn add_missing_file_leaves_index_unchanged() {
    let mut rt = fresh();
    rt.init().unwrap();
    write_file(&mut rt.infs, "a.txt", "hello").unwrap();
    rt.add("a.txt".to_string()).unwrap();
    let before = index_pairs(&rt);
    let text_before = rt.infs.read_file(".g1t/index.json");
    assert_eq!(
        rt.run(SubCommand::Add { path: "missing.txt".to_string() }),
        Err(RuntimeError::FileNotFound)
    );
    assert_eq!(index_pairs(&rt), before);
    assert_eq!(index_pairs(&rt).len(), 1);
    assert_eq!(rt.infs.read_file(".g1t/index.json"), text_before);
}

#[test]
fn add_of_a_directory_is_file_not_found() {
    let mut rt = fresh();
    rt.init().unwrap();
    rt.infs.create_dir("dir").unwrap();
    assert_eq!(rt.add("dir".to_string()), Err(RuntimeError::FileNotFound));
    assert_eq!(index_pairs(&rt).len(), 0);
}

#[test]
fn add_stages_blob_and_entry() {
    let mut rt = fresh();
    rt.init().unwrap();
    write_file(&mut rt.infs, "a.txt", "hello").unwrap();
    assert_eq!(rt.run(SubCommand::Add { path: "a.txt".to_string() }), Ok("Success".to_string()));
    let digest = sha1_bytes(b"hello");
    assert_eq!(index_pairs(&rt), vec![("a.txt".to_string(), digest.clone())]);
    assert_eq!(
        rt.infs.read_file(".g1t/index.json"),
        Ok(format!(
            "{{\"entries\":[{{\"file_name\":\"a.txt\",\"blob_hash\":{}}}]}}",
            json_bytes(&digest)
        ))
    );
    assert_eq!(
        object_texts(&rt),
        vec![format!("{{\"Blob\":{{\"hash\":{},\"content\":\"hello\"}}}}", json_bytes(&digest))]
    );
    match &rt.get_objects().unwrap()[0] {
        g1t::object::Object::Blob { hash, content } => {
            assert_eq!(hash.0 .0, digest);
            assert_eq!(content, "hello");
        }
        _ => panic!("not a blob"),
    }
}

#[test]
fn adding_same_path_twice_lists_it_twice() {
    let mut rt = fresh();
    rt.init().unwrap();
    write_file(&mut rt.infs, "a.txt", "hello").unwrap();
    rt.add("a.txt".to_string()).unwrap();
    rt.add("a.txt".to_string()).unwrap();
    let digest = sha1_bytes(b"hello");
    assert_eq!(
        index_pairs(&rt),
        vec![("a.txt".to_string(), digest.clone()), ("a.txt".to_string(), digest)]
    );
    assert_eq!(rt.get_objects().unwrap().len(), 1);
}

#[test]
fn index_survives_a_new_runtime() {
    let mut rt = fresh();
    rt.init().unwrap();
    write_file(&mut rt.infs, "a.txt", "hello").unwrap();
    write_file(&mut rt.infs, "b.txt", "world").unwrap();
    rt.add("a.txt".to_string()).unwrap();
    rt.add("b.txt".to_string()).unwrap();
    rt.add("a.txt".to_string()).unwrap();
    let before = index_pairs(&rt);
    let restarted = Runtime::new(".g1t".to_string(), rt.infs);
    assert_eq!(index_pairs(&restarted), before);
    assert_eq!(
        before,
        vec![
            ("a.txt".to_string(), sha1_bytes(b"hello")),
            ("b.txt".to_string(), sha1_bytes(b"world")),
            ("a.txt".to_string(), sha1_bytes(b"hello")),
        ]
    );
}

#[test]
fn end_to_end() {
    let mut rt = fresh();
    assert_eq!(rt.run(SubCommand::Init), Ok("Success".to_string()));
    write_file(&mut rt.infs, "a.txt", "hello").unwrap();
    assert_eq!(rt.run(SubCommand::Add { path: "a.txt".to_string() }), Ok("Success".to_string()));
    let blob_a = sha1_bytes(b"hello");
    assert_eq!(index_pairs(&rt), vec![("a.txt".to_string(), blob_a.clone())]);

    assert_eq!(
        rt.run(SubCommand::Commit { message: "first".to_string() }),
        Ok("Success".to_string())
    );
    let tree_1 = sha1_bytes(
        format!("[{}]", format!("{:?}", blob_a)).as_bytes(),
    );
    let commit_1 = sha1_bytes(b"first");
    assert_eq!(rt.head.as_ref().map(|h| h.0.clone()), Some(commit_1.clone()));
    let mut objects = object_texts(&rt);
    objects.sort();
    let mut expected = vec![
        format!("{{\"Blob\":{{\"hash\":{},\"content\":\"hello\"}}}}", json_bytes(&blob_a)),
        format!(
            "{{\"Tree\":{{\"hash\":{},\"contents\":[[\"a.txt\",\"Blob\",{}]]}}}}",
            json_bytes(&tree_1),
            json_bytes(&blob_a)
        ),
        format!(
            "{{\"Commit\":{{\"hash\":{},\"message\":\"first\",\"tree_hash\":{},\"parent_commit\":null}}}}",
            json_bytes(&commit_1),
            json_bytes(&tree_1)
        ),
    ];
    expected.sort();
    assert_eq!(objects, expected);

    write_file(&mut rt.infs, "b.txt", "world").unwrap();
    assert_eq!(rt.run(SubCommand::Add { path: "b.txt".to_string() }), Ok("Success".to_string()));
    assert_eq!(
        rt.run(SubCommand::Commit { message: "second".to_string() }),
        Ok("Success".to_string())
    );
    let blob_b = sha1_bytes(b"world");
    let tree_2 = sha1_bytes(format!("[{:?}, {:?}]", blob_a, blob_b).as_bytes());
    let commit_2 = sha1_bytes(b"second");
    assert_eq!(rt.head.as_ref().map(|h| h.0.clone()), Some(commit_2.clone()));
    let store = g1t::fsmap::FsMap::open(".g1t/objects".to_string(), &rt.infs).unwrap();
    assert_eq!(
        store.get(g1t::object::Hash(commit_2.clone()), &rt.infs),
        Some(format!(
            "{{\"Commit\":{{\"hash\":{},\"message\":\"second\",\"tree_hash\":{},\"parent_commit\":{}}}}}",
            json_bytes(&commit_2),
            json_bytes(&tree_2),
            json_bytes(&commit_1)
        ))
    );
    assert_eq!(
        store.get(g1t::object::Hash(tree_2.clone()), &rt.infs),
        Some(format!(
            "{{\"Tree\":{{\"hash\":{},\"contents\":[[\"a.txt\",\"Blob\",{}],[\"b.txt\",\"Blob\",{}]]}}}}",
            json_bytes(&tree_2),
            json_bytes(&blob_a),
            json_bytes(&blob_b)
        ))
    );
    assert_eq!(rt.get_objects().unwrap().len(), 6);
    assert_eq!(index_pairs(&rt).len(), 2);
}

#[test]
fn commit_does_not_clear_index() {
    let mut rt = fresh();
    rt.init().unwrap();
    write_file(&mut rt.infs, "a.txt", "hello").unwrap();
    rt.add("a.txt".to_string()).unwrap();
    rt.commit("first".to_string()).unwrap();
    assert_eq!(index_pairs(&rt).len(), 1);
}

#[test]
fn reset_removes_repository() {
    let mut rt = fresh();
    rt.init().unwrap();
    write_file(&mut rt.infs, "a.txt", "hello").unwrap();
    rt.add("a.txt".to_string()).unwrap();
    rt.commit("first".to_string()).unwrap();
    assert_eq!(rt.run(SubCommand::Reset), Ok("Success".to_string()));
    assert!(!rt.infs.is_present(".g1t"));
    assert!(!rt.infs.is_present(".g1t/objects"));
    assert!(!rt.infs.is_present(".g1t/index.json"));
    assert!(rt.infs.is_present("a.txt"));
    assert!(rt.head.is_none());
    assert_eq!(rt.run(SubCommand::Init), Ok("Success".to_string()));
}

#[test]
fn reset_without_repository_fails() {
    let mut rt = fresh();
    assert_eq!(rt.run(SubCommand::Reset), Err(RuntimeError::Fs(FsError::NotFound)));
    write_file(&mut rt.infs, ".g1t/objects", "x").unwrap();
    assert_eq!(rt.reset(), Err(RuntimeError::Fs(FsError::NotADirectory)));
}

#[test]
fn get_index_without_repository_fails() {
    let rt = fresh();
    assert!(matches!(rt.get_index(), Err(StorageError::Fs(FsError::NotFound))));
    assert!(matches!(rt.get_objects(), Err(ObjectsError::Fs(FsError::NotFound))));
}

#[test]
fn corrupt_index_is_reported() {
    let mut rt = fresh();
    rt.init().unwrap();
    write_file(&mut rt.infs, ".g1t/index.json", "{\"entries\":").unwrap();
    write_file(&mut rt.infs, "a.txt", "hello").unwrap();
    assert!(matches!(rt.get_index(), Err(StorageError::CorruptIndex)));
    assert_eq!(rt.add("a.txt".to_string()), Err(RuntimeError::CorruptIndex));
    assert_eq!(rt.commit("m".to_string()), Err(RuntimeError::CorruptIndex));
    assert_eq!(rt.infs.read_file(".g1t/index.json"), Ok("{\"entries\":".to_string()));
}

#[test]
fn storage_opens_and_initializes_index() {
    let mut fs = MemFs::new();
    fs.create_dir("repo").unwrap();
    let storage = FsMapedJson::new("repo".to_string(), &mut fs).unwrap();
    assert_eq!(storage.index.len(), 0);
    assert_eq!(storage.mount, "repo");
    assert_eq!(storage.objects.mount, "repo/objects");
    assert_eq!(fs.read_file("repo/index.json"), Ok("{\"entries\":[]}".to_string()));
    assert!(fs.is_dir("repo/objects"));
}

#[test]
fn storage_open_errors() {
    let mut fs = MemFs::new();
    fs.create_dir("repo/index.json").unwrap();
    assert!(matches!(
        FsMapedJson::new("repo".to_string(), &mut fs),
        Err(StorageError::Fs(FsError::NotAFile))
    ));
    let mut fs = MemFs::new();
    write_file(&mut fs, "repo/index.json", "garbage").unwrap();
    assert!(matches!(
        FsMapedJson::new("repo".to_string(), &mut fs),
        Err(StorageError::CorruptIndex)
    ));
}

#[test]
fn storage_save_and_load() {
    let mut fs = MemFs::new();
    let mut storage = FsMapedJson::new("repo".to_string(), &mut fs).unwrap();
    storage
        .update_index(g1t::index::Content::new("a.txt".to_string(), "hello".to_string()), &mut fs)
        .unwrap();
    assert_eq!(storage.index.len(), 1);
    let mut again = FsMapedJson::new("repo".to_string(), &mut fs).unwrap();
    assert_eq!(again.index.len(), 1);
    assert_eq!(again.index.entries[0].file_name, "a.txt");
    assert_eq!(again.index.entries[0].blob_hash.0 .0, sha1_bytes(b"hello"));
    again.index = g1t::index::Index::new();
    assert_eq!(again.save(&mut fs), Ok(()));
    assert_eq!(storage.load(&fs), Ok(()));
    assert_eq!(storage.index.len(), 0);
}

#[test]
fn storage_hash_object_stores_text() {
    let mut fs = MemFs::new();
    let mut storage = FsMapedJson::new("repo".to_string(), &mut fs).unwrap();
    let blob = g1t::object::Object::blob("hello".to_string());
    let text = g1t::codec::encode_object(&blob);
    let hash = storage.hash_object(blob, &mut fs);
    assert_eq!(hash.0, sha1_bytes(b"hello"));
    assert_eq!(storage.objects.get(hash, &fs), Some(text));
}

#[test]
fn update_index_rolls_back_when_index_cannot_be_written() {
    let mut fs = MemFs::new();
    let mut storage = FsMapedJson::new("repo".to_string(), &mut fs).unwrap();
    fs.remove_dir("repo/objects").unwrap();
    let mut broken = MemFs::new();
    broken.create_dir("repo/index.json").unwrap();
    let r = storage.update_index(
        g1t::index::Content::new("a.txt".to_string(), "hello".to_string()),
        &mut broken,
    );
    assert_eq!(r, Err(FsError::NotAFile));
    assert_eq!(storage.index.len(), 0);
}

#[test]
fn runner_add_and_commit() {
    let mut fs = MemFs::new();
    write_file(&mut fs, "a.txt", "hello").unwrap();
    let mut runner = Runner::new(".g1t".to_string(), &mut fs).unwrap();
    assert!(runner.head.is_none());
    assert_eq!(
        runner.run(Cmd::Add { file_name: "nope".to_string() }, &mut fs),
        Err(RunError::FileNotFound)
    );
    assert_eq!(runner.storage.index.len(), 0);
    assert_eq!(runner.run(Cmd::Add { file_name: "a.txt".to_string() }, &mut fs), Ok(()));
    assert_eq!(runner.storage.index.len(), 1);
    assert_eq!(runner.run(Cmd::Commit { message: "first".to_string() }, &mut fs), Ok(()));
    assert_eq!(runner.head.as_ref().map(|h| h.0.clone()), Some(sha1_bytes(b"first")));
    let second = runner.commit("second".to_string(), &mut fs);
    assert_eq!(second.0, sha1_bytes(b"second"));
    assert_eq!(
        runner.storage.objects.get(second, &fs).unwrap().contains(&format!(
            "\"parent_commit\":{}",
            json_bytes(&sha1_bytes(b"first"))
        )),
        true
    );
}

#[test]
fn end_to_end_objects_by_kind() {
    let mut rt = fresh();
    rt.init().unwrap();
    write_file(&mut rt.infs, "a.txt", "hello").unwrap();
    rt.add("a.txt".to_string()).unwrap();
    rt.commit("first".to_string()).unwrap();
    let objects = rt.get_objects().unwrap();
    assert_eq!(objects.len(), 3);
    let blob_a = sha1_bytes(b"hello");
    let mut blobs = 0;
    let mut trees = 0;
    let mut commits = 0;
    let mut tree_hash_seen: Vec<u8> = Vec::new();
    for o in &objects {
        if let g1t::object::Object::Tree { hash, contents } = o {
            trees += 1;
            tree_hash_seen = hash.0.clone();
            assert_eq!(contents.len(), 1);
            assert_eq!(contents[0].0, "a.txt");
            assert_eq!(contents[0].2 .0, blob_a);
        }
    }
    for o in &objects {
        match o {
            g1t::object::Object::Blob { hash, content } => {
                blobs += 1;
                assert_eq!(hash.0 .0, blob_a);
                assert_eq!(content, "hello");
            }
            g1t::object::Object::Tree { .. } => {}
            g1t::object::Object::Commit { tree_hash, parent_commit, message, .. } => {
                commits += 1;
                assert_eq!(tree_hash.0, tree_hash_seen);
                assert!(parent_commit.is_none());
                assert_eq!(message, "first");
            }
        }
    }
    assert_eq!((blobs, trees, commits), (1, 1, 1));

    write_file(&mut rt.infs, "b.txt", "world").unwrap();
    rt.add("b.txt".to_string()).unwrap();
    rt.commit("second".to_string()).unwrap();
    let second = rt
        .get_objects()
        .unwrap()
        .into_iter()
        .find(|o| matches!(o, g1t::object::Object::Commit { message, .. } if message == "second"))
        .unwrap();
    match second {
        g1t::object::Object::Commit { parent_commit, .. } => {
            assert_eq!(parent_commit.map(|h| h.0), Some(sha1_bytes(b"first")));
        }
        _ => panic!("not a commit"),
    }
}

#[test]
fn corrupt_object_is_reported() {
    let mut rt = fresh();
    rt.init().unwrap();
    rt.infs.create_dir(".g1t/objects/1").unwrap();
    write_file(&mut rt.infs, ".g1t/objects/1/2", "{\"Blob\":").unwrap();
    assert!(matches!(rt.get_objects(), Err(ObjectsError::CorruptObject)));
}

#[test]
fn error_messages() {
    assert_eq!(RuntimeError::AlreadyInitialized.message(), "repository is already initialized");
    assert_eq!(RuntimeError::FileNotFound.message(), "File not found");
    assert_eq!(RuntimeError::CorruptIndex.message(), "index file is corrupt");
    assert_eq!(RuntimeError::Fs(FsError::NotFound).message(), "no such file or directory");
    assert_eq!(FsError::AlreadyExists.message(), "file or directory exists already");
    assert_eq!(FsError::NotAFile.message(), "is a directory");
    assert_eq!(FsError::NotADirectory.message(), "not a directory");
}

#[test]
fn runner_add_reports_refusal_of_the_file_system() {
    let mut fs = MemFs::new();
    let mut runner = Runner::new(".g1t".to_string(), &mut fs).unwrap();
    let mut other = MemFs::new();
    write_file(&mut other, "a.txt", "hello").unwrap();
    other.create_dir(".g1t/index.json").unwrap();
    assert_eq!(
        runner.run(Cmd::Add { file_name: "a.txt".to_string() }, &mut other),
        Err(RunError::Fs(FsError::NotAFile))
    );
    assert_eq!(runner.storage.index.len(), 0);
}

#[test]
fn storage_reads_an_index_in_another_spelling() {
    let mut fs = MemFs::new();
    write_file(&mut fs, "repo/index.json", "{\"entries\": []}").unwrap();
    let storage = FsMapedJson::new("repo".to_string(), &mut fs).unwrap();
    assert_eq!(storage.index.len(), 0);
    assert_eq!(fs.read_file("repo/index.json"), Ok("{\"entries\": []}".to_string()));
    write_file(
        &mut fs,
        "repo/index.json",
        "{ \"entries\" : [ { \"file_name\" : \"\\u0061.txt\", \"blob_hash\" : [ 1, 2 ] } ] }\n",
    )
    .unwrap();
    let storage = FsMapedJson::new("repo".to_string(), &mut fs).unwrap();
    assert_eq!(storage.index.len(), 1);
    assert_eq!(storage.index.entries[0].file_name, "a.txt");
    assert_eq!(storage.index.entries[0].blob_hash.0 .0, vec![1, 2]);
}

#[test]
fn storage_refuses_a_file_at_the_store_root() {
    let mut fs = MemFs::new();
    write_file(&mut fs, "repo/objects", "a file").unwrap();
    assert!(matches!(
        FsMapedJson::new("repo".to_string(), &mut fs),
        Err(StorageError::MountDirNotFound)
    ));
    assert!(!fs.is_present("repo/index.json"));
    let mut rt = Runtime::new("repo".to_string(), fs);
    assert_eq!(rt.init(), Err(RuntimeError::Fs(FsError::NotADirectory)));
    assert!(!rt.infs.is_present("repo"));
    write_file(&mut rt.infs, "a.txt", "hello").unwrap();
    assert_eq!(rt.add("a.txt".to_string()), Err(RuntimeError::Fs(FsError::NotADirectory)));
    assert_eq!(rt.commit("m".to_string()), Err(RuntimeError::Fs(FsError::NotADirectory)));
    assert!(!rt.infs.is_present("repo/index.json"));
}
