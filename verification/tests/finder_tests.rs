use std::io::Read;

use vuefinder::finder::{FinderError, VueFinder, VueFinderConfig};
use vuefinder::memory::MemStorage;
use vuefinder::payload::{
    ArchiveRequest, DeleteRequest, FileItem, MoveRequest, NewFileRequest, NewFolderRequest,
    RenameRequest, SaveRequest, UnarchiveRequest,
};
use vuefinder::storage::StorageAdapter;

fn finder() -> VueFinder<MemStorage> {
    VueFinder {
        storages: vec![("local".to_string(), MemStorage::new("local"))],
        config: VueFinderConfig { public_links: None },
    }
}

fn adapter() -> Option<String> {
    Some("local".to_string())
}

#[test]
fn empty_registry_reports_no_adapter() {
    let vf: VueFinder<MemStorage> = VueFinder {
        storages: vec![],
        config: VueFinderConfig { public_links: None },
    };
    let err = vf.index(None, None).err().unwrap();
    assert!(matches!(err, FinderError::NoAdapter));
    assert_eq!(err.message(), "No storage adapters available");
}

#[test]
fn default_adapter_falls_back_to_first() {
    let vf = finder();
    assert_eq!(vf.get_default_adapter(None), "local");
    assert_eq!(vf.get_default_adapter(Some("local".to_string())), "local");
    assert_eq!(vf.get_default_adapter(Some("nope".to_string())), "local");
    assert!(vf.get_storage(Some("nope".to_string())).is_some());
}

#[test]
fn index_lists_the_backend_root() {
    let mut vf = finder();
    vf.storages[0].1.write("a.txt", b"one".to_vec()).unwrap();
    vf.storages[0].1.create_dir("docs").unwrap();
    let mut nodes = vf.index(adapter(), None).unwrap();
    nodes.sort_by(|a, b| a.storage_item.basename.cmp(&b.storage_item.basename));
    assert_eq!(nodes.len(), 2);
    assert_eq!(nodes[0].storage_item.basename, "a.txt");
    assert_eq!(nodes[0].storage_item.node_type, "file");
    assert_eq!(nodes[1].storage_item.basename, "docs");
    assert_eq!(nodes[1].storage_item.node_type, "dir");
}

#[test]
fn new_folder_and_newfile_show_in_listing() {
    let mut vf = finder();
    let nodes = vf
        .new_folder(adapter(), None, &NewFolderRequest { name: "docs".to_string() })
        .unwrap();
    assert_eq!(nodes.len(), 1);
    assert_eq!(nodes[0].storage_item.basename, "docs");
    let nodes = vf
        .newfile(
            adapter(),
            Some("docs".to_string()),
            &NewFileRequest { name: "empty.txt".to_string() },
        )
        .unwrap();
    assert_eq!(nodes.len(), 1);
    assert_eq!(nodes[0].storage_item.basename, "empty.txt");
    assert_eq!(nodes[0].storage_item.size, Some(0));
    assert_eq!(vf.storages[0].1.read("docs/empty.txt").unwrap(), b"");
}

#[test]
fn save_returns_the_stored_preview() {
    let mut vf = finder();
    let (data, mime) = vf
        .save(
            adapter(),
            Some("notes.txt".to_string()),
            &SaveRequest { content: "hello".to_string() },
        )
        .unwrap();
    assert_eq!(data, b"hello");
    assert_eq!(mime, "text/plain");
    assert_eq!(vf.storages[0].1.read("notes.txt").unwrap(), b"hello");
}

#[test]
fn download_and_preview_read_the_file() {
    let mut vf = finder();
    vf.storages[0].1.write("docs/a.txt", b"payload".to_vec()).unwrap();
    let (data, filename, mime) = vf.download(adapter(), Some("docs/a.txt".to_string())).unwrap();
    assert_eq!(data, b"payload");
    assert_eq!(filename, "a.txt");
    assert_eq!(mime, "text/plain");
    let (data, mime) = vf.preview(adapter(), Some("docs/a.txt".to_string())).unwrap();
    assert_eq!(data, b"payload");
    assert_eq!(mime, "text/plain");
    assert!(vf.download(adapter(), Some("docs/missing.txt".to_string())).is_err());
}

#[test]
fn rename_copies_then_deletes() {
    let mut vf = finder();
    vf.storages[0].1.write("old.txt", b"keep me".to_vec()).unwrap();
    vf.rename(
        adapter(),
        None,
        &RenameRequest { name: "new.txt".to_string(), item: "old.txt".to_string() },
    )
    .unwrap();
    assert!(!vf.storages[0].1.path_exists("old.txt").unwrap());
    assert_eq!(vf.storages[0].1.read("new.txt").unwrap(), b"keep me");
}

#[test]
fn delete_removes_each_item_in_order() {
    let mut vf = finder();
    vf.storages[0].1.write("a.txt", b"a".to_vec()).unwrap();
    vf.storages[0].1.write("b.txt", b"b".to_vec()).unwrap();
    let req = DeleteRequest {
        items: vec![
            FileItem { path: "a.txt".to_string() },
            FileItem { path: "b.txt".to_string() },
        ],
    };
    vf.delete(adapter(), None, &req).unwrap();
    assert!(!vf.storages[0].1.path_exists("a.txt").unwrap());
    assert!(!vf.storages[0].1.path_exists("b.txt").unwrap());
}

#[test]
fn move_aborts_untouched_on_any_collision() {
    let mut vf = finder();
    vf.storages[0].1.write("src/a.txt", b"a".to_vec()).unwrap();
    vf.storages[0].1.write("src/b.txt", b"b".to_vec()).unwrap();
    vf.storages[0].1.write("dest/b.txt", b"old".to_vec()).unwrap();
    let req = MoveRequest {
        item: "dest".to_string(),
        items: vec![
            FileItem { path: "src/a.txt".to_string() },
            FileItem { path: "src/b.txt".to_string() },
        ],
    };
    let err = vf.move_items(adapter(), None, &req).err().unwrap();
    assert!(matches!(err, FinderError::ItemExists));
    assert_eq!(err.message(), "One of the files already exists.");
    // nothing moved: both sources still in place, the target untouched
    assert_eq!(vf.storages[0].1.read("src/a.txt").unwrap(), b"a");
    assert_eq!(vf.storages[0].1.read("src/b.txt").unwrap(), b"b");
    assert!(!vf.storages[0].1.path_exists("dest/a.txt").unwrap());
    assert_eq!(vf.storages[0].1.read("dest/b.txt").unwrap(), b"old");
}

#[test]
fn move_without_collision_moves_all() {
    let mut vf = finder();
    vf.storages[0].1.write("src/a.txt", b"a".to_vec()).unwrap();
    vf.storages[0].1.write("src/b.txt", b"b".to_vec()).unwrap();
    vf.storages[0].1.create_dir("dest").unwrap();
    let req = MoveRequest {
        item: "dest".to_string(),
        items: vec![
            FileItem { path: "src/a.txt".to_string() },
            FileItem { path: "src/b.txt".to_string() },
        ],
    };
    vf.move_items(adapter(), None, &req).unwrap();
    assert_eq!(vf.storages[0].1.read("dest/a.txt").unwrap(), b"a");
    assert_eq!(vf.storages[0].1.read("dest/b.txt").unwrap(), b"b");
    assert!(!vf.storages[0].1.path_exists("src/a.txt").unwrap());
    assert!(!vf.storages[0].1.path_exists("src/b.txt").unwrap());
}

#[test]
fn upload_stores_under_the_given_name() {
    let mut vf = finder();
    let nodes = vf
        .upload(None, Some("up".to_string()), "file.bin", vec![1u8, 2, 3])
        .unwrap();
    assert_eq!(nodes.len(), 1);
    assert_eq!(nodes[0].storage_item.basename, "file.bin");
    assert_eq!(vf.storages[0].1.read("up/file.bin").unwrap(), vec![1u8, 2, 3]);
}

#[test]
fn subfolders_lists_directories_only() {
    let mut vf = finder();
    vf.storages[0].1.create_dir("root/d1").unwrap();
    vf.storages[0].1.create_dir("root/d2").unwrap();
    vf.storages[0].1.write("root/f.txt", b"x".to_vec()).unwrap();
    let mut dirs = vf.subfolders(adapter(), Some("root".to_string())).unwrap();
    dirs.sort_by(|a, b| a.basename.cmp(&b.basename));
    assert_eq!(dirs.len(), 2);
    assert_eq!(dirs[0].basename, "d1");
    assert_eq!(dirs[1].basename, "d2");
}

#[test]
fn search_matches_lowercased_names() {
    let mut vf = finder();
    vf.storages[0].1.write("docs/Meeting-NOTES.TXT", b"x".to_vec()).unwrap();
    vf.storages[0].1.write("docs/photo.png", b"x".to_vec()).unwrap();
    vf.storages[0].1.create_dir("docs/notes-dir").unwrap();
    let hits = vf
        .search(adapter(), Some("docs".to_string()), Some("notes".to_string()))
        .unwrap();
    assert_eq!(hits.len(), 1);
    assert_eq!(hits[0].basename, "Meeting-NOTES.TXT");
}

#[test]
fn public_links_rewrite_matching_prefixes() {
    let mut vf = VueFinder {
        storages: vec![("local".to_string(), MemStorage::new("local"))],
        config: VueFinderConfig {
            public_links: Some(vec![(
                "local://public".to_string(),
                "https://cdn.example".to_string(),
            )]),
        },
    };
    vf.storages[0].1.write("public/img.png", b"x".to_vec()).unwrap();
    vf.storages[0].1.write("private/img.png", b"x".to_vec()).unwrap();
    let nodes = vf.index(adapter(), Some("public".to_string())).unwrap();
    assert_eq!(nodes.len(), 1);
    assert_eq!(nodes[0].url.as_deref(), Some("https://cdn.example/img.png"));
    let nodes = vf.index(adapter(), Some("private".to_string())).unwrap();
    assert_eq!(nodes[0].url, None);
}

#[test]
fn scenario_archive_twice_keeps_the_first_bundle() {
    let mut vf = finder();
    vf.storages[0].1.write("a.txt", b"alpha".to_vec()).unwrap();
    vf.storages[0].1.write("b.txt", b"beta".to_vec()).unwrap();
    let req = ArchiveRequest {
        name: "bundle".to_string(),
        items: vec![
            FileItem { path: "a.txt".to_string() },
            FileItem { path: "b.txt".to_string() },
        ],
    };
    vf.archive(adapter(), Some("/".to_string()), &req).unwrap();
    let bytes = vf.storages[0].1.read("bundle.zip").unwrap();

    // the stored archive decodes with the zip crate itself
    let mut za = zip::ZipArchive::new(std::io::Cursor::new(bytes.clone())).unwrap();
    assert_eq!(za.len(), 2);
    let mut names: Vec<String> = Vec::new();
    let mut bodies: Vec<Vec<u8>> = Vec::new();
    for i in 0..za.len() {
        let mut f = za.by_index(i).unwrap();
        names.push(f.name().to_string());
        let mut buf = Vec::new();
        f.read_to_end(&mut buf).unwrap();
        bodies.push(buf);
    }
    assert_eq!(names, vec!["a.txt".to_string(), "b.txt".to_string()]);
    assert_eq!(bodies, vec![b"alpha".to_vec(), b"beta".to_vec()]);

    // a second archive with the same name fails and changes nothing
    let err = vf.archive(adapter(), Some("/".to_string()), &req).err().unwrap();
    assert!(matches!(err, FinderError::ArchiveExists));
    assert_eq!(
        err.message(),
        "Zip file already exists. Please use a different name."
    );
    assert_eq!(vf.storages[0].1.read("bundle.zip").unwrap(), bytes);
}

#[test]
fn archive_then_unarchive_round_trips_contents() {
    let mut vf = finder();
    vf.storages[0].1.write("data/a.txt", b"alpha".to_vec()).unwrap();
    vf.storages[0].1.write("data/deep/b.bin", vec![0u8, 255, 7]).unwrap();
    let req = ArchiveRequest {
        name: "bundle".to_string(),
        items: vec![
            FileItem { path: "data/a.txt".to_string() },
            FileItem { path: "data/deep/b.bin".to_string() },
        ],
    };
    vf.archive(adapter(), None, &req).unwrap();
    vf.unarchive(
        adapter(),
        Some("out".to_string()),
        &UnarchiveRequest { item: "bundle.zip".to_string() },
    )
    .unwrap();
    // the items come back flattened to their base names
    assert_eq!(vf.storages[0].1.read("out/bundle/a.txt").unwrap(), b"alpha");
    assert_eq!(
        vf.storages[0].1.read("out/bundle/b.bin").unwrap(),
        vec![0u8, 255, 7]
    );
    // the originals are untouched
    assert_eq!(vf.storages[0].1.read("data/a.txt").unwrap(), b"alpha");
}

#[test]
fn archive_fails_before_writing_when_a_read_fails() {
    let mut vf = finder();
    let req = ArchiveRequest {
        name: "bundle".to_string(),
        items: vec![FileItem { path: "missing.txt".to_string() }],
    };
    assert!(vf.archive(adapter(), None, &req).is_err());
    assert!(!vf.storages[0].1.path_exists("bundle.zip").unwrap());
}

#[test]
fn wrong_adapter_name_is_rejected_for_exact_requests() {
    let mut vf = finder();
    let err = vf
        .newfile(
            Some("other".to_string()),
            None,
            &NewFileRequest { name: "x".to_string() },
        )
        .err()
        .unwrap();
    assert!(matches!(err, FinderError::NoAdapter));
}

#[test]
fn unarchive_of_a_corrupt_archive_reports_the_decoder() {
    let mut vf = finder();
    vf.storages[0]
        .1
        .write("not-a.zip", b"this is no archive".to_vec())
        .unwrap();
    let err = vf
        .unarchive(
            adapter(),
            Some("out".to_string()),
            &UnarchiveRequest { item: "not-a.zip".to_string() },
        )
        .err()
        .unwrap();
    assert!(matches!(err, FinderError::Zip(_)));
    assert!(!vf.storages[0].1.path_exists("out/not-a").unwrap());
}

#[test]
fn unarchive_of_a_missing_archive_reports_storage() {
    let mut vf = finder();
    let err = vf
        .unarchive(adapter(), None, &UnarchiveRequest { item: "gone.zip".to_string() })
        .err()
        .unwrap();
    assert!(matches!(err, FinderError::Storage(_)));
}

#[test]
fn archive_bytes_depend_on_the_entries_alone() {
    let mut vf = finder();
    vf.storages[0].1.write("a.txt", b"alpha".to_vec()).unwrap();
    vf.storages[0].1.write("b.txt", b"beta".to_vec()).unwrap();
    let items = vec![
        FileItem { path: "a.txt".to_string() },
        FileItem { path: "b.txt".to_string() },
    ];
    let first = ArchiveRequest { name: "one".to_string(), items };
    vf.archive(adapter(), None, &first).unwrap();
    let second = ArchiveRequest {
        name: "two".to_string(),
        items: vec![
            FileItem { path: "a.txt".to_string() },
            FileItem { path: "b.txt".to_string() },
        ],
    };
    vf.archive(adapter(), None, &second).unwrap();
    assert_eq!(
        vf.storages[0].1.read("one.zip").unwrap(),
        vf.storages[0].1.read("two.zip").unwrap()
    );
}

#[test]
fn archive_rejects_a_name_beyond_the_format() {
    let mut vf = finder();
    let long_name = "a".repeat(70000);
    let long_path = format!("dir/{}", long_name);
    vf.storages[0].1.write(&long_path, b"x".to_vec()).unwrap();
    let req = ArchiveRequest {
        name: "bundle".to_string(),
        items: vec![FileItem { path: long_path }],
    };
    let err = vf.archive(adapter(), None, &req).err().unwrap();
    assert!(matches!(err, FinderError::Zip(_)));
    assert!(!vf.storages[0].1.path_exists("bundle.zip").unwrap());
}

#[test]
fn unarchive_refuses_a_password_protected_entry_without_panicking() {
    // a stored zip whose single entry flags AES encryption in its extra
    // field while its encryption bit is clear; decoding must refuse it
    // instead of stopping the process
    let name = b"x";
    let extra: Vec<u8> = vec![
        0x01, 0x99, // AES extra field marker
        0x07, 0x00, // length 7
        0x02, 0x00, // vendor version AE-2
        b'A', b'E', // vendor id
        0x01, // AES-128
        0x00, 0x00, // real method: stored
    ];
    let mut local: Vec<u8> = Vec::new();
    local.extend_from_slice(&[0x50, 0x4b, 0x03, 0x04]); // local header
    local.extend_from_slice(&[20, 0, 0, 0, 0, 0, 0, 0, 0, 0]); // version, flags, method, time, date
    local.extend_from_slice(&[0, 0, 0, 0]); // crc
    local.extend_from_slice(&[0, 0, 0, 0, 0, 0, 0, 0]); // sizes
    local.extend_from_slice(&[1, 0]); // name length
    local.extend_from_slice(&(extra.len() as u16).to_le_bytes()); // extra length
    local.extend_from_slice(name);
    local.extend_from_slice(&extra);
    let central_start = local.len() as u32;
    let mut central: Vec<u8> = Vec::new();
    central.extend_from_slice(&[0x50, 0x4b, 0x01, 0x02]); // central header
    central.extend_from_slice(&[20, 0, 20, 0, 0, 0, 0, 0, 0, 0, 0, 0]); // versions, flags, method, time, date
    central.extend_from_slice(&[0, 0, 0, 0]); // crc
    central.extend_from_slice(&[0, 0, 0, 0, 0, 0, 0, 0]); // sizes
    central.extend_from_slice(&[1, 0]); // name length
    central.extend_from_slice(&(extra.len() as u16).to_le_bytes()); // extra length
    central.extend_from_slice(&[0, 0, 0, 0, 0, 0]); // comment length, disk, internal attrs
    central.extend_from_slice(&[0, 0, 0, 0]); // external attrs
    central.extend_from_slice(&[0, 0, 0, 0]); // local header offset
    central.extend_from_slice(name);
    central.extend_from_slice(&extra);
    let central_size = central.len() as u32;
    let mut end: Vec<u8> = Vec::new();
    end.extend_from_slice(&[0x50, 0x4b, 0x05, 0x06]); // end of central directory
    end.extend_from_slice(&[0, 0, 0, 0, 1, 0, 1, 0]); // disks and entry counts
    end.extend_from_slice(&central_size.to_le_bytes());
    end.extend_from_slice(&central_start.to_le_bytes());
    end.extend_from_slice(&[0, 0]); // comment length
    let mut bytes = local;
    bytes.extend_from_slice(&central);
    bytes.extend_from_slice(&end);

    let mut probe = zip::ZipArchive::new(std::io::Cursor::new(bytes.clone())).unwrap();
    assert_eq!(probe.len(), 1);
    let inner = probe.by_index_decrypt(0, b"").unwrap();
    assert!(inner.is_err(), "entry unexpectedly readable");
    drop(inner);

    let mut vf = finder();
    vf.storages[0].1.write("crafted.zip", bytes).unwrap();
    let out = vf.unarchive(
        adapter(),
        Some("out".to_string()),
        &UnarchiveRequest { item: "crafted.zip".to_string() },
    );
    assert!(out.is_err());
}

#[test]
fn unarchive_extracts_a_foreign_archive() {
    // an archive built directly with the zip crate, not by the library's
    // own encoder: stored entries, a nested name, and a directory entry
    let mut zw = zip::ZipWriter::new(std::io::Cursor::new(Vec::new()));
    let opts = zip::write::FileOptions::default()
        .compression_method(zip::CompressionMethod::Stored);
    zw.start_file("inner/a.txt", opts).unwrap();
    std::io::Write::write_all(&mut zw, b"foreign").unwrap();
    zw.add_directory("sub/", opts).unwrap();
    let bytes = zw.finish().unwrap().into_inner();

    let mut vf = finder();
    vf.storages[0].1.write("pack.zip", bytes).unwrap();
    vf.unarchive(
        adapter(),
        Some("out".to_string()),
        &UnarchiveRequest { item: "pack.zip".to_string() },
    )
    .unwrap();
    assert_eq!(
        vf.storages[0].1.read("out/pack/inner/a.txt").unwrap(),
        b"foreign"
    );
    assert!(vf.storages[0].1.path_exists("out/pack/inner").unwrap());
    assert!(vf.storages[0].1.path_exists("out/pack/sub").unwrap());
}

#[test]
fn unarchive_refuses_an_aes_method_entry_without_panicking() {
    // an entry whose central header names the encryption method, with the
    // encryption bit set and an extra field naming the same method again;
    // decoding must refuse it instead of stopping the process
    let name = b"x";
    let extra: Vec<u8> = vec![
        0x01, 0x99, // AES extra field marker
        0x07, 0x00, // length 7
        0x02, 0x00, // vendor version AE-2
        b'A', b'E', // vendor id
        0x01, // AES-128
        99, 0, // "real" method: again the encryption method
    ];
    let mut local: Vec<u8> = Vec::new();
    local.extend_from_slice(&[0x50, 0x4b, 0x03, 0x04]); // local header
    local.extend_from_slice(&[20, 0, 1, 0, 99, 0, 0, 0, 0, 0]); // version, flags (encrypted), method, time, date
    local.extend_from_slice(&[0, 0, 0, 0]); // crc
    local.extend_from_slice(&[0, 0, 0, 0, 0, 0, 0, 0]); // sizes
    local.extend_from_slice(&[1, 0]); // name length
    local.extend_from_slice(&(extra.len() as u16).to_le_bytes()); // extra length
    local.extend_from_slice(name);
    local.extend_from_slice(&extra);
    let central_start = local.len() as u32;
    let mut central: Vec<u8> = Vec::new();
    central.extend_from_slice(&[0x50, 0x4b, 0x01, 0x02]); // central header
    central.extend_from_slice(&[20, 0, 20, 0, 1, 0, 99, 0, 0, 0, 0, 0]); // versions, flags (encrypted), method, time, date
    central.extend_from_slice(&[0, 0, 0, 0]); // crc
    central.extend_from_slice(&[0, 0, 0, 0, 0, 0, 0, 0]); // sizes
    central.extend_from_slice(&[1, 0]); // name length
    central.extend_from_slice(&(extra.len() as u16).to_le_bytes()); // extra length
    central.extend_from_slice(&[0, 0, 0, 0, 0, 0]); // comment length, disk, internal attrs
    central.extend_from_slice(&[0, 0, 0, 0]); // external attrs
    central.extend_from_slice(&[0, 0, 0, 0]); // local header offset
    central.extend_from_slice(name);
    central.extend_from_slice(&extra);
    let central_size = central.len() as u32;
    let mut end: Vec<u8> = Vec::new();
    end.extend_from_slice(&[0x50, 0x4b, 0x05, 0x06]); // end of central directory
    end.extend_from_slice(&[0, 0, 0, 0, 1, 0, 1, 0]); // disks and entry counts
    end.extend_from_slice(&central_size.to_le_bytes());
    end.extend_from_slice(&central_start.to_le_bytes());
    end.extend_from_slice(&[0, 0]); // comment length
    let mut bytes = local;
    bytes.extend_from_slice(&central);
    bytes.extend_from_slice(&end);

    let mut vf = finder();
    vf.storages[0].1.write("crafted2.zip", bytes).unwrap();
    let out = vf.unarchive(
        adapter(),
        Some("out".to_string()),
        &UnarchiveRequest { item: "crafted2.zip".to_string() },
    );
    assert!(out.is_err());
    assert!(!vf.storages[0].1.path_exists("out/crafted2/x").unwrap());
}
