use vuefinder::memory::MemStorage;
use vuefinder::storage::{StorageAdapter, StorageError};

#[test]
fn test_local_storage() {
    let mut storage = MemStorage::new("local");

    storage.create_dir("test_dir").unwrap();
    assert!(storage.path_exists("test_dir").unwrap());

    storage.write("test_dir/test.txt", b"Hello".to_vec()).unwrap();
    assert!(storage.path_exists("test_dir/test.txt").unwrap());

    let contents = storage.read("test_dir/test.txt").unwrap();
    assert_eq!(contents, b"Hello");

    let entries = storage.list_contents("test_dir").unwrap();
    assert_eq!(entries.len(), 1);
    assert_eq!(entries[0].path, "local://test_dir/test.txt");
    assert_eq!(entries[0].node_type, "file");
    assert_eq!(entries[0].extension.as_deref(), Some("txt"));
    assert_eq!(entries[0].mime_type.as_deref(), Some("text/plain"));

    storage.delete("test_dir/test.txt").unwrap();
    assert!(!storage.path_exists("test_dir/test.txt").unwrap());

    storage.delete("test_dir").unwrap();
    assert!(!storage.path_exists("test_dir").unwrap());
}

#[test]
fn test_invalid_paths() {
    let mut storage = MemStorage::new("local");

    assert!(storage.read("../outside.txt").is_err());
    assert!(storage.read("test/../../outside.txt").is_err());
    assert!(storage.write("../outside.txt", vec![]).is_err());
    assert!(storage.write("test/../../outside.txt", vec![]).is_err());

    assert!(storage.read("/etc/passwd").is_err());

    assert!(matches!(
        storage.read("nonexistent.txt"),
        Err(StorageError::NotFound(_))
    ));
}

#[test]
fn write_read_round_trips_bytes() {
    let mut storage = MemStorage::new("local");
    let blobs: Vec<Vec<u8>> = vec![
        Vec::new(),
        vec![0u8],
        vec![0xff, 0x00, 0x80, 0x7f],
        (0u16..=255).map(|b| b as u8).collect(),
    ];
    for (i, blob) in blobs.iter().enumerate() {
        let path = format!("bin/blob{}.dat", i);
        storage.write(&path, blob.clone()).unwrap();
        assert_eq!(&storage.read(&path).unwrap(), blob);
    }
}

#[test]
fn write_overwrites_and_creates_parents() {
    let mut storage = MemStorage::new("local");
    storage.write("a/b/c.txt", b"one".to_vec()).unwrap();
    assert!(storage.path_exists("a").unwrap());
    assert!(storage.path_exists("a/b").unwrap());
    storage.write("a/b/c.txt", b"two".to_vec()).unwrap();
    assert_eq!(storage.read("a/b/c.txt").unwrap(), b"two");
}

#[test]
fn create_dir_is_idempotent() {
    let mut storage = MemStorage::new("local");
    storage.create_dir("x/y/z").unwrap();
    storage.create_dir("x/y/z").unwrap();
    assert!(storage.path_exists("x/y/z").unwrap());
    let entries = storage.list_contents("x/y").unwrap();
    assert_eq!(entries.len(), 1);
    assert_eq!(entries[0].basename, "z");
    assert_eq!(entries[0].node_type, "dir");
}

#[test]
fn exists_follows_resolution() {
    let mut storage = MemStorage::new("local");
    storage.write("docs/a.txt", b"hi".to_vec()).unwrap();
    assert!(storage.path_exists("local://docs/a.txt").unwrap());
    assert!(storage.path_exists("docs//a.txt").unwrap());
    assert!(storage.path_exists("docs/./a.txt").unwrap());
    assert!(!storage.path_exists("docs/b.txt").unwrap());
    assert!(storage.path_exists("").unwrap());
    assert!(matches!(
        storage.path_exists("../a.txt"),
        Err(StorageError::InvalidPath(_))
    ));
}

#[test]
fn reading_a_directory_fails_with_io() {
    let mut storage = MemStorage::new("local");
    storage.create_dir("d").unwrap();
    assert!(matches!(storage.read("d"), Err(StorageError::Io(_))));
    assert!(matches!(storage.read(""), Err(StorageError::Io(_))));
}

#[test]
fn delete_removes_whole_subtree() {
    let mut storage = MemStorage::new("local");
    storage.write("sub/x.txt", b"hi".to_vec()).unwrap();
    storage.write("sub/deep/y.txt", b"ho".to_vec()).unwrap();
    storage.delete("sub").unwrap();
    assert!(!storage.path_exists("sub").unwrap());
    assert!(!storage.path_exists("sub/x.txt").unwrap());
    assert!(!storage.path_exists("sub/deep/y.txt").unwrap());
    assert!(matches!(
        storage.delete("sub"),
        Err(StorageError::NotFound(_))
    ));
}

#[test]
fn scenario_sub_file_listing_and_delete() {
    let mut storage = MemStorage::new("local");
    storage.write("sub/x.txt", b"hi".to_vec()).unwrap();
    let entries = storage.list_contents("sub").unwrap();
    assert_eq!(entries.len(), 1);
    assert_eq!(entries[0].basename, "x.txt");
    assert_eq!(entries[0].size, Some(2));
    assert_eq!(entries[0].node_type, "file");
    storage.delete("sub").unwrap();
    assert!(!storage.path_exists("sub").unwrap());
}

#[test]
fn listing_a_missing_directory_is_not_found() {
    let storage = MemStorage::new("local");
    assert!(storage.list_contents("missing").is_err());
    let err = storage.list_contents("missing").err().unwrap();
    assert!(matches!(err, StorageError::NotFound(_)));
}

#[test]
fn extension_and_mime_follow_the_name() {
    let mut storage = MemStorage::new("local");
    storage.write("m/a.txt", b"x".to_vec()).unwrap();
    storage.write("m/b.json", b"x".to_vec()).unwrap();
    storage.write("m/noext", b"x".to_vec()).unwrap();
    storage.write("m/.gitignore", b"x".to_vec()).unwrap();
    let mut entries = storage.list_contents("m").unwrap();
    entries.sort_by(|a, b| a.basename.cmp(&b.basename));
    assert_eq!(entries.len(), 4);
    assert_eq!(entries[0].basename, ".gitignore");
    assert_eq!(entries[0].extension, None);
    assert_eq!(entries[1].basename, "a.txt");
    assert_eq!(entries[1].extension.as_deref(), Some("txt"));
    assert_eq!(entries[1].mime_type.as_deref(), Some("text/plain"));
    assert_eq!(entries[2].basename, "b.json");
    assert_eq!(entries[2].mime_type.as_deref(), Some("application/json"));
    assert_eq!(entries[3].basename, "noext");
    assert_eq!(entries[3].extension, None);
    assert_eq!(
        entries[3].mime_type.as_deref(),
        Some("application/octet-stream")
    );
}

#[test]
fn error_messages_carry_their_detail() {
    let storage = MemStorage::new("local");
    let err = storage.read("nonexistent.txt").err().unwrap();
    assert_eq!(err.message(), "Path not found: nonexistent.txt");
    let err = storage.read("../outside.txt").err().unwrap();
    assert_eq!(err.message(), "Invalid path: ../outside.txt");
}
