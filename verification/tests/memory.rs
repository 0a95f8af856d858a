use g1t::fs::FileSystem;
use g1t::fs::FsError;
use g1t::index::Content;
use g1t::memfs::MemFs;
use g1t::object::Object;
use g1t::storage::AbsStorage;
use g1t::storage::JsonStorage;
use g1t::storage::Storage;
use g1t::vfs_wrapper::VfsWrapper;
use g1t::vtree::Data;
use g1t::vtree::VFS;
use sha1::Digest;

fn sha1_bytes(data: &[u8]) -> Vec<u8> {
    sha1::Sha1::digest(data).to_vec()
}

#[test]
fn abs_storage_starts_empty() {
    let s = AbsStorage::new();
    assert_eq!(s.objects.len(), 0);
    assert_eq!(s.index.len(), 0);
    assert!(s.head.is_none());
}

#[test]
fn abs_storage_update_index_stages_each_file() {
    let mut s = AbsStorage::new();
    s.update_index(vec![
        Content::new("a.txt".to_string(), "hello".to_string()),
        Content::new("b.txt".to_string(), "world".to_string()),
    ]);
    assert_eq!(s.objects.len(), 2);
    assert_eq!(s.index.len(), 2);
    assert_eq!(s.index.entries[0].file_name, "a.txt");
    assert_eq!(s.index.entries[0].blob_hash.0 .0, sha1_bytes(b"hello"));
    assert_eq!(s.index.entries[1].file_name, "b.txt");
    assert_eq!(s.index.entries[1].blob_hash.0 .0, sha1_bytes(b"world"));
    assert_eq!(s.objects[1].hash().0, sha1_bytes(b"world"));
    assert!(s.head.is_none());
}

#[test]
fn abs_storage_commit_chains_heads() {
    let mut s = AbsStorage::new();
    s.update_index(vec![Content::new("a.txt".to_string(), "hello".to_string())]);
    s.commit("first".to_string());
    assert_eq!(s.objects.len(), 3);
    assert_eq!(s.head.as_ref().map(|h| h.0.clone()), Some(sha1_bytes(b"first")));
    match &s.objects[1] {
        Object::Tree { contents, .. } => {
            assert_eq!(contents.len(), 1);
            assert_eq!(contents[0].2 .0, sha1_bytes(b"hello"));
        }
        _ => panic!("not a tree"),
    }
    let tree_hash = s.objects[1].hash().0;
    match &s.objects[2] {
        Object::Commit { tree_hash: t, parent_commit, message, .. } => {
            assert_eq!(t.0, tree_hash);
            assert!(parent_commit.is_none());
            assert_eq!(message, "first");
        }
        _ => panic!("not a commit"),
    }
    s.commit("second".to_string());
    assert_eq!(s.index.len(), 1);
    match &s.objects[4] {
        Object::Commit { parent_commit, .. } => {
            assert_eq!(parent_commit.as_ref().map(|h| h.0.clone()), Some(sha1_bytes(b"first")));
        }
        _ => panic!("not a commit"),
    }
    assert_eq!(s.head.as_ref().map(|h| h.0.clone()), Some(sha1_bytes(b"second")));
}

#[test]
fn abs_storage_hash_object_appends() {
    let mut s = AbsStorage::new();
    let h = s.hash_object(Object::blob("x".to_string()));
    assert_eq!(h.0, sha1_bytes(b"x"));
    assert_eq!(s.objects.len(), 1);
}

#[test]
fn json_storage_stages_content() {
    let mut s = JsonStorage::new(MemFs::new());
    assert_eq!(s.index().len(), 0);
    assert_eq!(s.objects().len(), 0);
    s.update_index(Content::new("a.txt".to_string(), "hello".to_string()));
    assert_eq!(s.index().len(), 1);
    assert_eq!(s.objects().len(), 1);
    assert_eq!(s.index().entries[0].blob_hash.0 .0, sha1_bytes(b"hello"));
    let h = s.hash_object(Object::blob("world".to_string()));
    assert_eq!(h.0, sha1_bytes(b"world"));
    assert_eq!(s.objects().len(), 2);
    s.add_entry(g1t::index::Entry {
        file_name: "b".to_string(),
        blob_hash: g1t::object::BlobHash(h),
    });
    assert_eq!(s.index().len(), 2);
    s.modify_index(|mut index: g1t::index::Index| {
        index.entries.remove(0);
        index
    });
    assert_eq!(s.index().len(), 1);
    assert_eq!(s.index().entries[0].file_name, "b");
    assert_eq!(s.objects().len(), 2);
}

#[test]
fn vfs_builder_builds_tree() {
    let mut vfs = VFS::new();
    assert_eq!(vfs.datas.len(), 0);
    vfs.touch("a.txt".to_string(), "hello".to_string())
        .mkdir("dir".to_string(), |mut child: VFS| {
            child.touch("inner".to_string(), "x".to_string());
            child
        })
        .touch("b.txt".to_string(), "world".to_string());
    assert_eq!(vfs.datas.len(), 3);
    match &vfs.datas[0] {
        Data::File { name, content } => {
            assert_eq!(name, "a.txt");
            assert_eq!(content, "hello");
        }
        _ => panic!("not a file"),
    }
    match &vfs.datas[1] {
        Data::Directory { name, contents } => {
            assert_eq!(name, "dir");
            assert_eq!(contents.len(), 1);
            assert!(matches!(&contents[0], Data::File { name, .. } if name == "inner"));
        }
        _ => panic!("not a directory"),
    }
}

#[test]
fn data_constructors() {
    assert!(matches!(
        Data::file("n".to_string(), "c".to_string()),
        Data::File { name, content } if name == "n" && content == "c"
    ));
    assert!(matches!(
        Data::directory("d".to_string(), Vec::new()),
        Data::Directory { name, contents } if name == "d" && contents.is_empty()
    ));
}

#[test]
fn create_dir_all_makes_every_step() {
    let mut w = VfsWrapper::new(MemFs::new());
    w.create_dir_all("a/b/c");
    assert!(w.fs.is_dir("a"));
    assert!(w.fs.is_dir("a/b"));
    assert!(w.fs.is_dir("a/b/c"));
    assert!(!w.fs.is_present("a/"));
    w.create_dir_all("a/b/d");
    assert_eq!(w.fs.read_dir("a/b"), Ok(vec!["c".to_string(), "d".to_string()]));
    w.create_dir_all("");
    assert!(!w.fs.is_present(""));
}

#[test]
fn create_file_makes_parents_and_file() {
    let mut w = VfsWrapper::new(MemFs::new());
    let writer = w.create_file("x/y/file.txt");
    assert!(!writer.already_created());
    assert_eq!(writer.path, "x/y/file.txt");
    assert!(w.fs.is_dir("x/y"));
    assert_eq!(w.fs.read_file("x/y/file.txt"), Ok(String::new()));
    assert_eq!(writer.write(&mut w.fs, "ab"), Ok(()));
    assert_eq!(writer.write(&mut w.fs, "cd"), Ok(()));
    assert_eq!(w.fs.read_file("x/y/file.txt"), Ok("abcd".to_string()));
    let again = w.create_file("x/y/file.txt");
    assert!(again.already_created());
    assert_eq!(w.fs.read_file("x/y/file.txt"), Ok("abcd".to_string()));
    let top = w.create_file("top");
    assert!(!top.already_created());
    assert!(w.fs.is_present("top"));
}

#[test]
fn writer_on_a_directory_fails() {
    let mut w = VfsWrapper::new(MemFs::new());
    w.create_dir_all("d");
    let writer = w.create_file("d");
    assert!(writer.already_created());
    assert_eq!(writer.write(&mut w.fs, "x"), Err(FsError::NotAFile));
}
