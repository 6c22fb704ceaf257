use vuefinder::local::LocalStorage;
use vuefinder::resolve::{basename_of, resolve_segments};
use vuefinder::storage::StorageError;

#[test]
fn resolution_strips_scheme_and_cleans() {
    let segs = resolve_segments("local://docs/a.txt").unwrap();
    assert_eq!(segs, vec!["docs".to_string(), "a.txt".to_string()]);

    let segs = resolve_segments("docs//.//a.txt").unwrap();
    assert_eq!(segs, vec!["docs".to_string(), "a.txt".to_string()]);

    let segs = resolve_segments("/docs/a.txt").unwrap();
    assert_eq!(segs, vec!["docs".to_string(), "a.txt".to_string()]);

    let segs = resolve_segments("local://").unwrap();
    assert!(segs.is_empty());

    let segs = resolve_segments("").unwrap();
    assert!(segs.is_empty());
}

#[test]
fn resolution_rejects_traversal() {
    assert!(matches!(
        resolve_segments("../outside.txt"),
        Err(StorageError::InvalidPath(_))
    ));
    assert!(matches!(
        resolve_segments("a/../b"),
        Err(StorageError::InvalidPath(_))
    ));
    assert!(matches!(
        resolve_segments("local://.."),
        Err(StorageError::InvalidPath(_))
    ));
    assert!(matches!(
        resolve_segments("a/b/../../../c"),
        Err(StorageError::InvalidPath(_))
    ));
    assert!(resolve_segments("a..b/c").is_ok());
    assert!(resolve_segments("..a/b..").is_ok());
}

#[test]
fn local_storage_resolves_below_its_root() {
    let storage = LocalStorage::new("/data");
    assert_eq!(storage.resolve_path("local://docs/a.txt").unwrap(), "/data/docs/a.txt");
    assert_eq!(storage.resolve_path("docs/a.txt").unwrap(), "/data/docs/a.txt");
    assert_eq!(storage.resolve_path("").unwrap(), "/data");
    assert_eq!(storage.resolve_path("/x").unwrap(), "/data/x");
    assert!(storage.resolve_path("../etc/passwd").is_err());
    assert!(storage.resolve_path("a/./../b").is_err());
    assert_eq!(storage.name(), "local");
}

#[test]
fn local_storage_setup_registers_one_backend() {
    let reg = LocalStorage::setup("/srv/files");
    assert_eq!(reg.len(), 1);
    assert_eq!(reg[0].0, "local");
    assert_eq!(reg[0].1.resolve_path("a").unwrap(), "/srv/files/a");
}

#[test]
fn basename_is_the_final_segment() {
    assert_eq!(basename_of("local://docs/a.txt"), "a.txt");
    assert_eq!(basename_of("docs/sub/"), "sub");
    assert_eq!(basename_of(""), "");
    assert_eq!(basename_of("../x"), "");
}
