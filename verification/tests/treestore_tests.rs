use treestore::builder::{build_tree, write_tree, ChildSource, SourceNode};
use treestore::hash::sha1_hex;
use treestore::hex::{bytes_to_hex, hex_to_bytes, HexError};
use treestore::store::{split_oid, ObjectStore};
use treestore::tree::{Entry, EntryId, Tree};

fn blob_child(name: &str, contents: &[u8]) -> ChildSource {
    ChildSource {
        name: String::from(name),
        node: SourceNode::File { oid: sha1_hex(contents) },
    }
}

fn dir_child(name: &str, children: Vec<ChildSource>) -> ChildSource {
    ChildSource { name: String::from(name), node: SourceNode::Dir { children } }
}

#[test]
fn test_sha1_bytes() {
    let sha1 = sha1_hex(b"hello world");
    let r = hex_to_bytes(&sha1).unwrap();
    println!("{:?}", r);
    assert_eq!(r.len(), 20);
    assert_eq!(bytes_to_hex(&r), sha1);
}

#[test]
fn test_calculate_sha1() {
    let hash = sha1_hex(b"hello world");
    assert_eq!(hash, "2aae6c35c94fcfb415dbe95f408b9ce91ee846ed");
}

#[test]
fn test_create_tree() {
    let children = vec![
        blob_child("file1.txt", b"hello world"),
        dir_child("subdir1", vec![blob_child("file2.txt", b"goodbye world")]),
        dir_child("subdir2", vec![blob_child("file3.txt", b"foo bar")]),
    ];
    let (tree, _objs) = build_tree(&children).unwrap();
    assert_eq!(tree.entries.len(), 3);
}

#[test]
fn hex_round_trip() {
    let samples: Vec<Vec<u8>> = vec![
        vec![],
        vec![0x00],
        vec![0xff],
        vec![0x2a, 0xae, 0x6c, 0x35, 0xc9, 0x4f, 0xcf, 0xb4, 0x15, 0xdb],
        (0u16..=255).map(|b| b as u8).collect(),
    ];
    for b in samples {
        let hex = bytes_to_hex(&b);
        assert_eq!(hex.len(), 2 * b.len());
        assert_eq!(hex_to_bytes(&hex).unwrap(), b);
    }
}

#[test]
fn hex_exact_values() {
    assert_eq!(bytes_to_hex(&[0x00, 0xff]), "00ff");
    assert_eq!(bytes_to_hex(&[0xab]), "ab");
    assert_eq!(hex_to_bytes("00ff").unwrap(), vec![0x00, 0xff]);
    assert_eq!(hex_to_bytes("AB").unwrap(), vec![0xab]);
    assert_eq!(hex_to_bytes("aB").unwrap(), vec![0xab]);
    // a final unpaired digit is dropped
    assert_eq!(hex_to_bytes("abc").unwrap(), vec![0xab]);
    assert_eq!(hex_to_bytes("").unwrap(), Vec::<u8>::new());
}

#[test]
fn hex_error_position() {
    assert!(matches!(hex_to_bytes("zz"), Err(HexError::InvalidHexDigit(0))));
    assert!(matches!(hex_to_bytes("az"), Err(HexError::InvalidHexDigit(1))));
    assert!(matches!(hex_to_bytes("abcg"), Err(HexError::InvalidHexDigit(3))));
    // an unpaired trailing byte is never examined
    assert!(hex_to_bytes("abz").is_ok());
}

#[test]
fn entry_record_layout() {
    let oid = sha1_hex(b"hello world");
    let raw = hex_to_bytes(&oid).unwrap();
    let entry = Entry { name: String::from("a"), oid: EntryId::Blob(oid.clone()) };
    let bytes = entry.bytes().unwrap();
    // kind byte, 2-byte big-endian record length, 20 hash bytes, name
    assert_eq!(bytes.len(), 24);
    assert_eq!(bytes[0], 0);
    assert_eq!(bytes[1], 0);
    assert_eq!(bytes[2], 24);
    assert_eq!(&bytes[3..23], raw.as_slice());
    assert_eq!(bytes[23], b'a');

    let tree_entry = Entry { name: String::from("a"), oid: EntryId::Tree(oid) };
    let tree_bytes = tree_entry.bytes().unwrap();
    assert_eq!(tree_bytes[0], 1);
}

#[test]
fn entry_bytes_rejects_bad_hex() {
    let entry = Entry { name: String::from("a"), oid: EntryId::Blob(String::from("zz")) };
    assert!(matches!(entry.bytes(), Err(HexError::InvalidHexDigit(0))));
}

#[test]
fn tree_serialization_layout() {
    let oid = sha1_hex(b"hello world");
    let mut tree = Tree {
        entries: vec![Entry { name: String::from("x"), oid: EntryId::Blob(oid) }],
    };
    tree.sort_entries();
    let bytes = tree.bytes().unwrap();
    // 2-byte big-endian entry count, then one 24-byte record
    assert_eq!(bytes[0], 0);
    assert_eq!(bytes[1], 1);
    assert_eq!(bytes.len(), 2 + 24);
}

#[test]
fn sort_puts_blobs_before_trees() {
    let h1 = sha1_hex(b"one");
    let h2 = sha1_hex(b"two");
    let mut tree = Tree {
        entries: vec![
            Entry { name: String::from("b"), oid: EntryId::Tree(h1) },
            Entry { name: String::from("a"), oid: EntryId::Blob(h2) },
        ],
    };
    tree.sort_entries();
    assert!(matches!(tree.entries[0].oid, EntryId::Blob(_)));
    assert!(matches!(tree.entries[1].oid, EntryId::Tree(_)));
    assert_eq!(tree.entries[0].name, "a");
    // the serialized bytes also start with the blob record
    let bytes = tree.bytes().unwrap();
    assert_eq!(bytes[2], 0);
}

#[test]
fn sort_orders_equal_kinds_by_oid() {
    let mut tree = Tree {
        entries: vec![
            Entry {
                name: String::from("x"),
                oid: EntryId::Blob(String::from("ffffffffffffffffffffffffffffffffffffffff")),
            },
            Entry {
                name: String::from("y"),
                oid: EntryId::Blob(String::from("0000000000000000000000000000000000000000")),
            },
        ],
    };
    tree.sort_entries();
    assert_eq!(tree.entries[0].name, "y");
    assert_eq!(tree.entries[1].name, "x");
}

#[test]
fn typeorder_blob_first() {
    let blob = Entry { name: String::from("a"), oid: EntryId::Blob(sha1_hex(b"a")) };
    let tree = Entry { name: String::from("b"), oid: EntryId::Tree(sha1_hex(b"b")) };
    assert_eq!(EntryId::typeOrder(&blob, &tree), std::cmp::Ordering::Less);
    assert_eq!(EntryId::typeOrder(&tree, &blob), std::cmp::Ordering::Greater);
    assert_eq!(EntryId::typeOrder(&blob, &blob), std::cmp::Ordering::Equal);
    assert_eq!(blob.oid.kind_byte(), 0);
    assert_eq!(tree.oid.kind_byte(), 1);
    assert_eq!(blob.oid.get_id(), sha1_hex(b"a"));
}

#[test]
fn build_is_deterministic_across_enumeration_orders() {
    let forwards = vec![
        blob_child("file1.txt", b"hello world"),
        dir_child("subdir1", vec![blob_child("file2.txt", b"goodbye world")]),
        blob_child("file3.txt", b"foo bar"),
    ];
    let backwards = vec![
        blob_child("file3.txt", b"foo bar"),
        dir_child("subdir1", vec![blob_child("file2.txt", b"goodbye world")]),
        blob_child("file1.txt", b"hello world"),
    ];
    let mut store1 = ObjectStore::new();
    let mut store2 = ObjectStore::new();
    let h1 = write_tree(&forwards, &mut store1).unwrap();
    let h2 = write_tree(&backwards, &mut store2).unwrap();
    assert_eq!(h1, h2);
}

#[test]
fn content_sensitivity() {
    let source = |inner: &[u8]| {
        vec![
            blob_child("file1.txt", b"hello world"),
            dir_child("sub1", vec![blob_child("inner.txt", inner)]),
            dir_child("sub2", vec![blob_child("other.txt", b"stable")]),
        ]
    };
    let before = source(b"AAAA");
    let after = source(b"AAAB");
    // the changed file's blob hash changes
    assert_ne!(sha1_hex(b"AAAA"), sha1_hex(b"AAAB"));
    let (_, objs_before) = build_tree(&before).unwrap();
    let (_, objs_after) = build_tree(&after).unwrap();
    // objects come back in post-order: sub1's tree, sub2's tree, the root
    assert_eq!(objs_before.len(), 3);
    assert_eq!(objs_after.len(), 3);
    // the changed file's parent tree and the root change
    assert_ne!(objs_before[0].oid, objs_after[0].oid);
    assert_ne!(objs_before[2].oid, objs_after[2].oid);
    // the sibling subtree's hash is unchanged
    assert_eq!(objs_before[1].oid, objs_after[1].oid);
}

#[test]
fn idempotent_writes() {
    let mut store = ObjectStore::new();
    let oid = sha1_hex(b"hello world");
    let first = store.put(oid.clone(), b"hello world".to_vec());
    assert!(first);
    assert_eq!(store.len(), 1);
    let second = store.put(oid.clone(), b"hello world".to_vec());
    assert!(!second);
    assert_eq!(store.len(), 1);
    assert!(store.contains(&oid));
}

#[test]
fn scenario_two_level_directory() {
    let children = vec![
        blob_child("file1.txt", b"hello world"),
        dir_child("subdir1", vec![blob_child("file2.txt", b"goodbye world")]),
    ];
    // the blob for file1.txt hashes to the SHA-1 of its literal bytes
    assert_eq!(sha1_hex(b"hello world"), "2aae6c35c94fcfb415dbe95f408b9ce91ee846ed");

    let (tree, objs) = build_tree(&children).unwrap();
    // the root tree has exactly two entries, one blob and one tree
    assert_eq!(tree.entries.len(), 2);
    let blobs = tree
        .entries
        .iter()
        .filter(|e| matches!(e.oid, EntryId::Blob(_)))
        .count();
    assert_eq!(blobs, 1);

    // both the subdirectory tree and the root tree are persisted, each
    // under its two-level hash path
    let mut store = ObjectStore::new();
    let root = write_tree(&children, &mut store).unwrap();
    assert_eq!(store.len(), 2);
    assert!(store.contains(&root));
    for o in &objs {
        assert!(store.contains(&o.oid));
        let (prefix, rest) = split_oid(&o.oid);
        assert_eq!(prefix.len(), 2);
        assert_eq!(rest.len(), 38);
        assert_eq!(format!("{}{}", prefix, rest), o.oid);
    }
}

#[test]
fn builder_rejects_bad_file_hash() {
    let children = vec![ChildSource {
        name: String::from("file1.txt"),
        node: SourceNode::File { oid: String::from("zz") },
    }];
    assert!(matches!(build_tree(&children), Err(HexError::InvalidHexDigit(0))));
    let mut store = ObjectStore::new();
    assert!(write_tree(&children, &mut store).is_err());
    assert_eq!(store.len(), 0);
}

#[test]
fn empty_directory_builds() {
    let children: Vec<ChildSource> = vec![];
    let (tree, objs) = build_tree(&children).unwrap();
    assert_eq!(tree.entries.len(), 0);
    assert_eq!(objs.len(), 1);
    assert_eq!(objs[0].oid.len(), 40);
}

#[test]
fn split_oid_parts() {
    let oid = "2aae6c35c94fcfb415dbe95f408b9ce91ee846ed";
    let (prefix, rest) = split_oid(oid);
    assert_eq!(prefix, "2a");
    assert_eq!(rest, "ae6c35c94fcfb415dbe95f408b9ce91ee846ed");
}

#[test]
fn duplicate_content_entries_stay_deterministic() {
    // two children with identical contents share one blob hash; the name
    // breaks the tie, so enumeration order still cannot change the root
    let forwards = vec![blob_child("a.txt", b"same"), blob_child("b.txt", b"same")];
    let backwards = vec![blob_child("b.txt", b"same"), blob_child("a.txt", b"same")];
    let (t1, o1) = build_tree(&forwards).unwrap();
    let (t2, o2) = build_tree(&backwards).unwrap();
    assert_eq!(o1[o1.len() - 1].oid, o2[o2.len() - 1].oid);
    assert_eq!(t1.entries[0].name, t2.entries[0].name);
}

#[test]
fn record_length_boundary() {
    // the largest record that still fits the 16-bit length field:
    // 1 kind byte + 2 length bytes + 20 hash bytes + the name
    let name: String = std::iter::repeat('n').take(65535 - 23).collect();
    let entry = Entry { name, oid: EntryId::Blob(sha1_hex(b"x")) };
    let bytes = entry.bytes().unwrap();
    assert_eq!(bytes.len(), 65535);
    assert_eq!(bytes[1], 0xff);
    assert_eq!(bytes[2], 0xff);
}
