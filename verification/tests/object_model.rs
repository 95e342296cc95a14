use gitobj::{Blob, FsEntry, FsNode, HexErrorKind, Mode, OIDError, Tree, TreeError, TreeItem, OID};

#[test]
fn as_bytes() {
    let blob = Blob::new(b"this is a test".to_vec());
    let bytes = blob.as_bytes();
    assert_eq!("blob 14\0this is a test".as_bytes().to_vec(), bytes);
}

#[test]
fn id() {
    let blob = Blob::new(b"this is a test".to_vec());
    let oid = blob.id();
    assert_eq!(
        OID::from_hex("a8a940627d132695a9769df883f85992f0ff4a43").unwrap(),
        oid
    );
}

#[test]
fn size() {
    let blob = Blob::new(b"this is a test".to_vec());
    let size = blob.size();
    assert_eq!(14, size);
}

#[test]
fn contents() {
    let blob = Blob::new(b"this is a test".to_vec());
    let contents = blob.contents();
    assert_eq!(b"this is a test".to_vec(), *contents);
}

#[test]
fn mode_octal_strings() {
    assert_eq!(&Mode::Directory.octal_string(), "040000");
    assert_eq!(&Mode::NonExecutableFile.octal_string(), "100644");
    assert_eq!(
        &Mode::NonExecutableGroupWriteableFile.octal_string(),
        "100664"
    );
    assert_eq!(&Mode::ExecutableFile.octal_string(), "100755");
    assert_eq!(&Mode::SymbolicLink.octal_string(), "120000");
    assert_eq!(&Mode::GitLink.octal_string(), "160000");
}

#[test]
fn as_hex() {
    let oid = Blob::new(b"this is a test".to_vec()).id();
    assert_eq!(&oid.as_hex(), "a8a940627d132695a9769df883f85992f0ff4a43");
}

#[test]
fn from_hex_too_short() {
    match OID::from_hex("aaa") {
        Ok(_) => unreachable!(),
        Err(OIDError::InvalidHex(HexErrorKind::InvalidIdentifierLength(3))) => {}
        Err(_) => unreachable!(),
    }
}

#[test]
fn from_hex_invalid() {
    match OID::from_hex("012g34567891abcdefabcdef1234567890123456") {
        Ok(_) => panic!("OID was somehow valid when it should not be"),
        Err(OIDError::InvalidHex(HexErrorKind::InvalidIdentifierCharacter(3, 'g'))) => {}
        Err(_) => panic!("OID failed with a different error"),
    }
}

#[test]
fn hex_round_trip() {
    let oid = Blob::new(b"round trip".to_vec()).id();
    let hex = oid.as_hex();
    assert_eq!(40, hex.len());
    assert_eq!(oid, OID::from_hex(&hex).unwrap());
}

#[test]
fn from_hex_normalizes_case() {
    let upper = "A8A940627D132695A9769DF883F85992F0FF4A43";
    let oid = OID::from_hex(upper).unwrap();
    assert_eq!(&oid.as_hex(), "a8a940627d132695a9769df883f85992f0ff4a43");
}

#[test]
fn from_digest_round_trips() {
    let oid = OID::from_digest(vec![0u8; 20]);
    assert_eq!(
        &oid.as_hex(),
        "0000000000000000000000000000000000000000"
    );
    assert_eq!(vec![0u8; 20], *oid.as_bytes());
}

#[test]
fn distinct_content_distinct_id() {
    let a = Blob::new(b"content one".to_vec());
    let b = Blob::new(b"content two".to_vec());
    assert_ne!(a.id(), b.id());
}

#[test]
fn empty_blob_encoding() {
    let blob = Blob::new(Vec::new());
    assert_eq!(0, blob.size());
    assert_eq!(b"blob 0\0".to_vec(), blob.as_bytes());
}

#[test]
fn empty_tree_fixed_id() {
    let tree = Tree::new();
    assert_eq!(
        &tree.id().as_hex(),
        "4b825dc642cb6eb9a060e54bf8d69288fbee4904"
    );
    assert_eq!(b"tree 0\0".to_vec(), tree.as_bytes());
}

#[test]
fn empty_tree_distinct_from_nonempty() {
    let empty = Tree::new();
    let mut tree = Tree::new();
    let oid = Blob::new(b"x".to_vec()).id();
    tree.add(b"a".to_vec(), Mode::NonExecutableFile, oid).unwrap();
    assert_ne!(empty.id(), tree.id());
}

#[test]
fn duplicate_entry_name_fails() {
    let mut tree = Tree::new();
    let oid = Blob::new(b"x".to_vec()).id();
    tree.add(b"a".to_vec(), Mode::NonExecutableFile, oid).unwrap();
    let oid2 = Blob::new(b"y".to_vec()).id();
    match tree.add(b"a".to_vec(), Mode::NonExecutableFile, oid2) {
        Err(TreeError::DuplicateEntryName) => {}
        _ => panic!("expected a duplicate-name failure"),
    }
    assert_eq!(1, tree.entries().len());
}

#[test]
fn empty_entry_name_fails() {
    let mut tree = Tree::new();
    let oid = Blob::new(b"x".to_vec()).id();
    match tree.add(Vec::new(), Mode::NonExecutableFile, oid) {
        Err(TreeError::EmptyName) => {}
        _ => panic!("expected an empty-name failure"),
    }
    assert_eq!(0, tree.entries().len());
}

#[test]
fn insertion_order_irrelevant() {
    let oid_a = Blob::new(b"one".to_vec()).id();
    let oid_b = Blob::new(b"two".to_vec()).id();

    let mut t1 = Tree::new();
    t1.add(b"b".to_vec(), Mode::NonExecutableFile, Blob::new(b"two".to_vec()).id())
        .unwrap();
    t1.add(b"a".to_vec(), Mode::ExecutableFile, Blob::new(b"one".to_vec()).id())
        .unwrap();

    let mut t2 = Tree::new();
    t2.add(b"a".to_vec(), Mode::ExecutableFile, oid_a).unwrap();
    t2.add(b"b".to_vec(), Mode::NonExecutableFile, oid_b).unwrap();

    assert_eq!(t1.id(), t2.id());
    assert_eq!(t1.as_bytes(), t2.as_bytes());
    let entries = t1.entries();
    assert_eq!(b"a".to_vec(), entries[0].name);
    assert_eq!(b"b".to_vec(), entries[1].name);
}

#[test]
fn tree_encoding_exact() {
    let mut tree = Tree::new();
    let oid = OID::from_hex("a8a940627d132695a9769df883f85992f0ff4a43").unwrap();
    tree.add(b"a".to_vec(), Mode::NonExecutableFile, oid).unwrap();
    let mut expected = b"tree 29\0100644 a\0".to_vec();
    let oid = OID::from_hex("a8a940627d132695a9769df883f85992f0ff4a43").unwrap();
    expected.extend_from_slice(oid.as_bytes());
    assert_eq!(expected, tree.as_bytes());
}

#[test]
fn get_entry_by_name() {
    let mut tree = Tree::new();
    let oid = Blob::new(b"x".to_vec()).id();
    tree.add(b"name".to_vec(), Mode::SymbolicLink, oid).unwrap();
    let entry = tree.get(&b"name".to_vec()).unwrap();
    assert_eq!(b"name".to_vec(), entry.name);
    assert_eq!("120000", &entry.mode.octal_string());
    assert!(tree.get(&b"other".to_vec()).is_none());
}

#[test]
fn classify_modes() {
    assert_eq!(Mode::Directory, Mode::classify(true, false, 0o755));
    assert_eq!(Mode::SymbolicLink, Mode::classify(false, true, 0o777));
    assert_eq!(Mode::ExecutableFile, Mode::classify(false, false, 0o755));
    assert_eq!(
        Mode::NonExecutableGroupWriteableFile,
        Mode::classify(false, false, 0o664)
    );
    assert_eq!(Mode::NonExecutableFile, Mode::classify(false, false, 0o644));
}

#[test]
fn tree_item_kinds() {
    let blob_item = TreeItem::Blob(Blob::new(b"x".to_vec()));
    assert!(blob_item.is_blob());
    assert!(!blob_item.is_tree());
    assert_eq!(Blob::new(b"x".to_vec()).id(), blob_item.id());

    let tree_item = TreeItem::Tree(Tree::new());
    assert!(tree_item.is_tree());
    assert!(!tree_item.is_blob());
    assert_eq!(Tree::new().id(), tree_item.id());
}

fn file(content: &[u8]) -> FsNode {
    FsNode::File {
        content: content.to_vec(),
        permissions: 0o644,
    }
}

fn four_files() -> Vec<FsEntry> {
    let mut children = Vec::new();
    for name in [b"a", b"b", b"c", b"d"] {
        children.push(FsEntry {
            name: name.to_vec(),
            node: file(b"testing 1 2 3"),
        });
    }
    children
}

fn nested_levels(depth: usize) -> FsNode {
    let mut children = four_files();
    if depth > 0 {
        children.push(FsEntry {
            name: format!("level{}", depth).into_bytes(),
            node: nested_levels(depth - 1),
        });
    }
    FsNode::Dir { children }
}

#[test]
fn from_fs_idempotent() {
    let root = nested_levels(3);
    let first = Tree::from_fs(&root).unwrap();
    let second = Tree::from_fs(&root).unwrap();
    assert_eq!(first.id(), second.id());
    assert_eq!(5, first.entries().len());
}

#[test]
fn from_fs_listing_order_irrelevant() {
    let forward = FsNode::Dir {
        children: four_files(),
    };
    let mut reversed_children = four_files();
    reversed_children.reverse();
    let reversed = FsNode::Dir {
        children: reversed_children,
    };
    let t1 = Tree::from_fs(&forward).unwrap();
    let t2 = Tree::from_fs(&reversed).unwrap();
    assert_eq!(t1.id(), t2.id());
    assert_eq!(t1.as_bytes(), t2.as_bytes());
}

#[test]
fn from_fs_modes_and_links() {
    let children = vec![
        FsEntry {
            name: b"run".to_vec(),
            node: FsNode::File {
                content: b"#!/bin/sh\n".to_vec(),
                permissions: 0o755,
            },
        },
        FsEntry {
            name: b"link".to_vec(),
            node: FsNode::Symlink {
                target: b"run".to_vec(),
            },
        },
        FsEntry {
            name: b"sub".to_vec(),
            node: FsNode::Dir { children: Vec::new() },
        },
    ];
    let tree = Tree::from_fs(&FsNode::Dir { children }).unwrap();
    let run = tree.get(&b"run".to_vec()).unwrap();
    assert_eq!("100755", &run.mode.octal_string());
    let link = tree.get(&b"link".to_vec()).unwrap();
    assert_eq!("120000", &link.mode.octal_string());
    assert_eq!(Blob::new(b"run".to_vec()).id(), link.oid);
    let sub = tree.get(&b"sub".to_vec()).unwrap();
    assert_eq!("040000", &sub.mode.octal_string());
    assert_eq!(Tree::new().id(), sub.oid);
}

#[test]
fn from_fs_rejects_non_directory() {
    match Tree::from_fs(&file(b"plain")) {
        Err(TreeError::NotADirectory) => {}
        _ => panic!("expected a not-a-directory failure"),
    }
}

#[test]
fn from_fs_rejects_duplicate_names() {
    let children = vec![
        FsEntry {
            name: b"same".to_vec(),
            node: file(b"one"),
        },
        FsEntry {
            name: b"same".to_vec(),
            node: file(b"two"),
        },
    ];
    match Tree::from_fs(&FsNode::Dir { children }) {
        Err(TreeError::DuplicateEntryName) => {}
        _ => panic!("expected a duplicate-name failure"),
    }
}
