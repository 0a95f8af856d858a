use g1t::fs::FileSystem;
use g1t::fs::FsError;
use g1t::fsmap::FsMap;
use g1t::fsmap::FsMapError;
use g1t::memfs::MemFs;
use g1t::runner::write_file;

fn store_fs() -> (MemFs, FsMap) {
    let mut fs = MemFs::new();
    fs.create_dir("store").unwrap();
    let store = FsMap::open("store".to_string(), &fs).unwrap();
    (fs, store)
}

#[test]
fn open_fails_without_mount() {
    let fs = MemFs::new();
    match FsMap::open("store".to_string(), &fs) {
        Err(e) => assert_eq!(e, FsMapError::MountDirNotFound),
        Ok(_) => panic!("opened a store that is not there"),
    }
}

#[test]
fn open_succeeds_with_mount() {
    let (_, store) = store_fs();
    assert_eq!(store.mount, "store");
}

#[test]
fn insert_writes_sharded_file() {
    let (mut fs, mut store) = store_fs();
    store.insert(g1t::object::Hash(vec![1, 2, 3]), "payload".to_string(), &mut fs);
    assert!(fs.is_dir("store/01"));
    assert_eq!(fs.read_file("store/01/0203"), Ok("payload".to_string()));
}

#[test]
fn paths_of_hash() {
    let (_, store) = store_fs();
    let (dir, file) = store.paths_of(&g1t::object::Hash(vec![170, 0, 255, 16]));
    assert_eq!(dir, "store/aa");
    assert_eq!(file, "store/aa/00ff10");
}

#[test]
fn get_returns_what_was_inserted() {
    let (mut fs, mut store) = store_fs();
    store.insert(g1t::object::Hash(vec![9, 9]), "some \"payload\"\n".to_string(), &mut fs);
    assert_eq!(
        store.get(g1t::object::Hash(vec![9, 9]), &fs),
        Some("some \"payload\"\n".to_string())
    );
}

#[test]
fn get_of_absent_hash_is_none() {
    let (fs, store) = store_fs();
    assert_eq!(store.get(g1t::object::Hash(vec![4, 5, 6]), &fs), None);
}

#[test]
fn insert_twice_is_idempotent() {
    let (mut fs, mut store) = store_fs();
    store.insert(g1t::object::Hash(vec![7, 8]), "once".to_string(), &mut fs);
    store.insert(g1t::object::Hash(vec![7, 8]), "once".to_string(), &mut fs);
    assert_eq!(store.get(g1t::object::Hash(vec![7, 8]), &fs), Some("once".to_string()));
    assert_eq!(fs.read_dir("store/07"), Ok(vec!["08".to_string()]));
    assert_eq!(store.get_all(&fs), Ok(vec!["once".to_string()]));
}

#[test]
fn insert_keeps_existing_file() {
    let (mut fs, mut store) = store_fs();
    store.insert(g1t::object::Hash(vec![7, 8]), "first".to_string(), &mut fs);
    store.insert(g1t::object::Hash(vec![7, 8]), "second".to_string(), &mut fs);
    assert_eq!(store.get(g1t::object::Hash(vec![7, 8]), &fs), Some("first".to_string()));
}

#[test]
fn insert_into_existing_shard() {
    let (mut fs, mut store) = store_fs();
    store.insert(g1t::object::Hash(vec![7, 1]), "one".to_string(), &mut fs);
    store.insert(g1t::object::Hash(vec![7, 2]), "two".to_string(), &mut fs);
    assert_eq!(store.get(g1t::object::Hash(vec![7, 1]), &fs), Some("one".to_string()));
    assert_eq!(store.get(g1t::object::Hash(vec![7, 2]), &fs), Some("two".to_string()));
    assert_eq!(fs.read_dir("store"), Ok(vec!["07".to_string()]));
}

#[test]
fn get_all_walks_shards_in_listing_order() {
    let (mut fs, mut store) = store_fs();
    store.insert(g1t::object::Hash(vec![1, 1]), "a".to_string(), &mut fs);
    store.insert(g1t::object::Hash(vec![2, 1]), "b".to_string(), &mut fs);
    store.insert(g1t::object::Hash(vec![1, 2]), "c".to_string(), &mut fs);
    assert_eq!(
        store.get_all(&fs),
        Ok(vec!["a".to_string(), "c".to_string(), "b".to_string()])
    );
}

#[test]
fn get_all_of_empty_store() {
    let (fs, store) = store_fs();
    assert_eq!(store.get_all(&fs), Ok(Vec::new()));
}

#[test]
fn get_all_fails_when_mount_is_gone() {
    let (mut fs, store) = store_fs();
    fs.remove_dir("store").unwrap();
    assert_eq!(store.get_all(&fs), Err(FsError::NotFound));
}

#[test]
fn ls_files_descends_to_depth() {
    let mut fs = MemFs::new();
    fs.create_dir("d").unwrap();
    write_file(&mut fs, "d/top", "t").unwrap();
    fs.create_dir("d/x").unwrap();
    write_file(&mut fs, "d/x/mid", "m").unwrap();
    fs.create_dir("d/x/y").unwrap();
    write_file(&mut fs, "d/x/y/low", "l").unwrap();
    assert_eq!(g1t::fsmap::ls_files(&fs, "d", 0), Ok(vec!["d/top".to_string()]));
    assert_eq!(
        g1t::fsmap::ls_files(&fs, "d", 1),
        Ok(vec!["d/top".to_string(), "d/x/mid".to_string()])
    );
    assert_eq!(
        g1t::fsmap::ls_files(&fs, "d", 2),
        Ok(vec!["d/top".to_string(), "d/x/mid".to_string(), "d/x/y/low".to_string()])
    );
}

#[test]
fn ls_files_of_a_file_fails() {
    let mut fs = MemFs::new();
    write_file(&mut fs, "f", "x").unwrap();
    assert_eq!(g1t::fsmap::ls_files(&fs, "f", 1), Err(FsError::NotADirectory));
    assert_eq!(g1t::fsmap::ls_files(&fs, "missing", 1), Err(FsError::NotFound));
}

#[test]
fn memfs_create_and_exists() {
    let mut fs = MemFs::new();
    assert!(!fs.is_present("a"));
    assert_eq!(fs.create_dir("a"), Ok(()));
    assert!(fs.is_present("a"));
    assert!(fs.is_dir("a"));
    assert_eq!(fs.create_dir("a"), Err(FsError::AlreadyExists));
}

#[test]
fn memfs_files() {
    let mut fs = MemFs::new();
    assert_eq!(fs.read_file("f"), Err(FsError::NotFound));
    assert_eq!(fs.append_file("f", "x"), Err(FsError::NotFound));
    assert_eq!(fs.create_file("f"), Ok(()));
    assert!(!fs.is_dir("f"));
    assert_eq!(fs.read_file("f"), Ok(String::new()));
    assert_eq!(fs.append_file("f", "ab"), Ok(()));
    assert_eq!(fs.append_file("f", "cd"), Ok(()));
    assert_eq!(fs.read_file("f"), Ok("abcd".to_string()));
    assert_eq!(fs.create_file("f"), Ok(()));
    assert_eq!(fs.read_file("f"), Ok(String::new()));
    fs.create_dir("d").unwrap();
    assert_eq!(fs.create_file("d"), Err(FsError::NotAFile));
    assert_eq!(fs.read_file("d"), Err(FsError::NotAFile));
    assert_eq!(fs.append_file("d", "x"), Err(FsError::NotAFile));
}

#[test]
fn memfs_read_dir_lists_children_only() {
    let mut fs = MemFs::new();
    fs.create_dir("d").unwrap();
    fs.create_dir("d/sub").unwrap();
    fs.create_file("d/file").unwrap();
    fs.create_file("d/sub/deep").unwrap();
    fs.create_file("dd").unwrap();
    assert_eq!(fs.read_dir("d"), Ok(vec!["sub".to_string(), "file".to_string()]));
    assert_eq!(fs.read_dir("d/sub"), Ok(vec!["deep".to_string()]));
    assert_eq!(fs.read_dir("dd"), Err(FsError::NotADirectory));
    assert_eq!(fs.read_dir("none"), Err(FsError::NotFound));
}

#[test]
fn memfs_remove_dir_removes_subtree() {
    let mut fs = MemFs::new();
    fs.create_dir("d").unwrap();
    fs.create_dir("d/sub").unwrap();
    fs.create_file("d/sub/deep").unwrap();
    fs.create_file("dx").unwrap();
    assert_eq!(fs.remove_dir("d"), Ok(()));
    assert!(!fs.is_present("d"));
    assert!(!fs.is_present("d/sub"));
    assert!(!fs.is_present("d/sub/deep"));
    assert!(fs.is_present("dx"));
    assert_eq!(fs.remove_dir("d"), Err(FsError::NotFound));
    assert_eq!(fs.remove_dir("dx"), Err(FsError::NotADirectory));
}

#[test]
fn write_file_replaces_content() {
    let mut fs = MemFs::new();
    assert_eq!(write_file(&mut fs, "f", "one"), Ok(()));
    assert_eq!(write_file(&mut fs, "f", "two"), Ok(()));
    assert_eq!(fs.read_file("f"), Ok("two".to_string()));
    fs.create_dir("d").unwrap();
    assert_eq!(write_file(&mut fs, "d", "x"), Err(FsError::NotAFile));
}

#[test]
fn join_path_puts_separator() {
    assert_eq!(g1t::fs::join_path(".g1t", "objects"), ".g1t/objects");
}

#[test]
fn open_fails_where_a_file_stands_at_the_mount() {
    let mut fs = MemFs::new();
    write_file(&mut fs, "store", "not a directory").unwrap();
    match FsMap::open("store".to_string(), &fs) {
        Err(e) => assert_eq!(e, FsMapError::MountDirNotFound),
        Ok(_) => panic!("opened a store on a file"),
    }
}

#[test]
fn different_hashes_have_different_paths() {
    let (mut fs, mut store) = store_fs();
    store.insert(g1t::object::Hash(vec![1, 2, 34]), "x".to_string(), &mut fs);
    assert_eq!(store.get(g1t::object::Hash(vec![1, 23, 4]), &fs), None);
    assert_eq!(store.get(g1t::object::Hash(vec![12, 34]), &fs), None);
    assert_eq!(store.get(g1t::object::Hash(vec![1, 2, 34]), &fs), Some("x".to_string()));
    let (_, a) = store.paths_of(&g1t::object::Hash(vec![1, 2, 34]));
    let (_, b) = store.paths_of(&g1t::object::Hash(vec![1, 23, 4]));
    assert_eq!(a, "store/01/0222");
    assert_eq!(b, "store/01/1704");
}

#[test]
fn byte_names_are_two_hex_digits() {
    assert_eq!(g1t::fsmap::numerals_from(&vec![0, 9, 10, 15, 16, 255], 0), "00090a0f10ff");
    assert_eq!(g1t::fsmap::numerals_from(&vec![0, 9, 10], 2), "0a");
    assert_eq!(g1t::fsmap::numerals_from(&vec![0, 9, 10], 3), "");
    assert_eq!(g1t::fsmap::shard_of(&g1t::object::Hash(vec![200, 1])), "c8");
}

#[test]
fn get_all_finds_files_at_any_depth() {
    let (mut fs, store) = store_fs();
    fs.create_dir("store/a").unwrap();
    fs.create_dir("store/a/b").unwrap();
    fs.create_dir("store/a/b/c").unwrap();
    write_file(&mut fs, "store/a/b/c/deep", "deep").unwrap();
    write_file(&mut fs, "store/top", "top").unwrap();
    write_file(&mut fs, "store/a/mid", "mid").unwrap();
    assert_eq!(
        store.get_all(&fs),
        Ok(vec!["deep".to_string(), "mid".to_string(), "top".to_string()])
    );
}

#[test]
fn get_all_lists_each_object_once() {
    let (mut fs, mut store) = store_fs();
    store.insert(g1t::object::Hash(vec![1, 1]), "a".to_string(), &mut fs);
    store.insert(g1t::object::Hash(vec![1, 1]), "a".to_string(), &mut fs);
    store.insert(g1t::object::Hash(vec![1, 2]), "b".to_string(), &mut fs);
    store.insert(g1t::object::Hash(vec![2, 1]), "c".to_string(), &mut fs);
    let mut all = store.get_all(&fs).unwrap();
    all.sort();
    assert_eq!(all, vec!["a".to_string(), "b".to_string(), "c".to_string()]);
}
