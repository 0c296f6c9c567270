use kdbx_forum::container::{encode_database, open_database};
use kdbx_forum::kdf::{build_db_key, KdfParams, KDF_ITERATED_SHA256, MAX_MEMORY_KIB};
use kdbx_forum::payload::{decode_payload, encode_payload};
use kdbx_forum::storage::{DbHandle, MemStorage};
use kdbx_forum::tree::{Entry, Group, Node, Value};
use kdbx_forum::ContainerError;

fn params() -> KdfParams {
    KdfParams { kdf_id: KDF_ITERATED_SHA256, rounds: 8, memory_kib: 64 }
}

fn secret(pw: &str) -> Vec<u8> {
    build_db_key(&pw.to_string(), None)
}

fn post(id: u128, title: &str, author: &str, body: &str) -> Entry {
    Entry {
        uuid: id,
        fields: vec![
            ("Title".to_string(), Value::Unprotected(title.to_string())),
            ("UserName".to_string(), Value::Unprotected(author.to_string())),
            ("Notes".to_string(), Value::Unprotected(body.to_string())),
        ],
    }
}

fn fixture() -> Group {
    Group {
        uuid: 1,
        name: "root".to_string(),
        children: vec![
            Node::Group(Group {
                uuid: 10,
                name: "general".to_string(),
                children: vec![Node::Group(Group {
                    uuid: 100,
                    name: "hello".to_string(),
                    children: vec![Node::Entry(post(1000, "hello", "alice", "first post"))],
                })],
            }),
            Node::Group(Group {
                uuid: 20,
                name: "r\u{00e9}serv\u{00e9}".to_string(),
                children: vec![],
            }),
        ],
    }
}

fn fixture_bytes(pw: &str) -> Vec<u8> {
    encode_database(&fixture(), &secret(pw), &params()).unwrap()
}

fn assert_value_eq(a: &Value, b: &Value) {
    match (a, b) {
        (Value::Unprotected(x), Value::Unprotected(y)) => assert_eq!(x, y),
        (Value::Protected(x), Value::Protected(y)) => assert_eq!(x, y),
        _ => panic!("value protection flags differ"),
    }
}

fn assert_tree_eq(a: &Group, b: &Group) {
    assert_eq!(a.uuid, b.uuid);
    assert_eq!(a.name, b.name);
    assert_eq!(a.children.len(), b.children.len());
    for (ca, cb) in a.children.iter().zip(b.children.iter()) {
        match (ca, cb) {
            (Node::Group(ga), Node::Group(gb)) => assert_tree_eq(ga, gb),
            (Node::Entry(ea), Node::Entry(eb)) => {
                assert_eq!(ea.uuid, eb.uuid);
                assert_eq!(ea.fields.len(), eb.fields.len());
                for ((na, va), (nb, vb)) in ea.fields.iter().zip(eb.fields.iter()) {
                    assert_eq!(na, nb);
                    assert_value_eq(va, vb);
                }
            }
            _ => panic!("node kinds differ"),
        }
    }
}

#[test]
fn round_trip_returns_identical_tree() {
    let tree = fixture();
    let s = secret("correct-password");
    let bytes = encode_database(&tree, &s, &params()).unwrap();
    let back = open_database(&bytes, &s).unwrap();
    assert_tree_eq(&tree, &back);
}

#[test]
fn round_trip_keeps_protection_flags() {
    let tree = Group {
        uuid: 7,
        name: "vault".to_string(),
        children: vec![Node::Entry(Entry {
            uuid: 70,
            fields: vec![
                ("Password".to_string(), Value::Protected(vec![1, 2, 3, 255])),
                ("Url".to_string(), Value::Unprotected("plain".to_string())),
            ],
        })],
    };
    let s = secret("pw");
    let bytes = encode_database(&tree, &s, &params()).unwrap();
    let back = open_database(&bytes, &s).unwrap();
    assert_tree_eq(&tree, &back);
}

#[test]
fn payload_codec_round_trip() {
    let tree = fixture();
    let bytes = encode_payload(&tree);
    let back = decode_payload(&bytes).unwrap();
    assert_tree_eq(&tree, &back);
}

#[test]
fn payload_rejects_garbage() {
    assert_eq!(
        decode_payload(&vec![9u8, 9, 9, 9, 9]).unwrap_err(),
        ContainerError::SchemaViolation
    );
}

#[test]
fn derive_is_deterministic() {
    let s = secret("pw");
    let salt = vec![5u8; 16];
    let k1 = kdbx_forum::kdf::derive(&s, &salt, &params()).unwrap();
    let k2 = kdbx_forum::kdf::derive(&s, &salt, &params()).unwrap();
    assert_eq!(k1.enc_key, k2.enc_key);
    assert_eq!(k1.mac_key, k2.mac_key);
    assert_eq!(k1.enc_key.len(), 32);
    assert_eq!(k1.mac_key.len(), 32);
    assert_ne!(k1.enc_key, k1.mac_key);
}

#[test]
fn derive_rejects_unknown_algorithm() {
    let p = KdfParams { kdf_id: 9, rounds: 8, memory_kib: 64 };
    assert_eq!(
        kdbx_forum::kdf::derive(&secret("pw"), &vec![0u8; 16], &p).unwrap_err(),
        ContainerError::InvalidParameters
    );
}

#[test]
fn derive_rejects_excessive_memory_cost() {
    let p = KdfParams {
        kdf_id: KDF_ITERATED_SHA256,
        rounds: 8,
        memory_kib: MAX_MEMORY_KIB + 1,
    };
    assert_eq!(
        kdbx_forum::kdf::derive(&secret("pw"), &vec![0u8; 16], &p).unwrap_err(),
        ContainerError::DerivationError
    );
}

#[test]
fn derived_keys_can_be_wiped() {
    let mut ks = kdbx_forum::kdf::derive(&secret("pw"), &vec![3u8; 16], &params()).unwrap();
    ks.wipe();
    assert!(ks.enc_key.iter().all(|b| *b == 0));
    assert!(ks.mac_key.iter().all(|b| *b == 0));
}

#[test]
fn wrong_password_fails_with_integrity_check_failed() {
    let bytes = fixture_bytes("correct-password");
    let err = open_database(&bytes, &secret("wrong-password")).unwrap_err();
    assert_eq!(err, ContainerError::IntegrityCheckFailed);
}

#[test]
fn tampering_any_digest_byte_is_detected() {
    let s = secret("correct-password");
    let bytes = fixture_bytes("correct-password");
    for i in 45..77 {
        let mut tampered = bytes.clone();
        tampered[i] ^= 0x01;
        assert_eq!(
            open_database(&tampered, &s).unwrap_err(),
            ContainerError::IntegrityCheckFailed,
            "digest byte {i} not detected"
        );
    }
}

#[test]
fn tampering_any_payload_byte_is_detected() {
    let s = secret("correct-password");
    let bytes = fixture_bytes("correct-password");
    for i in 77..bytes.len() {
        let mut tampered = bytes.clone();
        tampered[i] ^= 0x01;
        assert_eq!(
            open_database(&tampered, &s).unwrap_err(),
            ContainerError::IntegrityCheckFailed,
            "payload byte {i} not detected"
        );
    }
}

#[test]
fn truncated_or_unmagical_bytes_are_malformed() {
    let s = secret("pw");
    assert_eq!(
        open_database(&vec![1u8, 2, 3], &s).unwrap_err(),
        ContainerError::MalformedHeader
    );
    let bytes = fixture_bytes("pw");
    let mut bad_magic = bytes.clone();
    bad_magic[0] ^= 0xff;
    assert_eq!(
        open_database(&bad_magic, &s).unwrap_err(),
        ContainerError::MalformedHeader
    );
    let mut bad_version = bytes.clone();
    bad_version[4] ^= 0xff;
    assert_eq!(
        open_database(&bad_version, &s).unwrap_err(),
        ContainerError::MalformedHeader
    );
    let mut bad_cipher = bytes.clone();
    bad_cipher[6] ^= 0xff;
    assert_eq!(
        open_database(&bad_cipher, &s).unwrap_err(),
        ContainerError::MalformedHeader
    );
}

#[test]
fn fresh_salts_and_nonces_on_every_save() {
    let tree = fixture();
    let s = secret("pw");
    let b1 = encode_database(&tree, &s, &params()).unwrap();
    let b2 = encode_database(&tree, &s, &params()).unwrap();
    assert_ne!(b1[17..45], b2[17..45], "salt and nonce must be fresh per save");
    assert_tree_eq(&open_database(&b1, &s).unwrap(), &open_database(&b2, &s).unwrap());
}

#[test]
fn interrupted_write_leaves_original_bytes() {
    let s = secret("pw");
    let mut storage = MemStorage::new();
    let mut handle = DbHandle::open(&fixture_bytes("pw"), &s).unwrap();
    handle.save(&s, &params(), &mut storage).unwrap();
    let before = storage.read_main().unwrap();
    handle
        .insert_child(100, Node::Entry(post(2000, "late", "bob", "late post")))
        .unwrap();
    storage.fail_write = true;
    let err = handle.save(&s, &params(), &mut storage).unwrap_err();
    assert_eq!(err, ContainerError::PersistenceError);
    assert_eq!(storage.read_main().unwrap(), before);
}

#[test]
fn interrupted_rename_leaves_original_bytes() {
    let s = secret("pw");
    let mut storage = MemStorage::new();
    let mut handle = DbHandle::open(&fixture_bytes("pw"), &s).unwrap();
    handle.save(&s, &params(), &mut storage).unwrap();
    let before = storage.read_main().unwrap();
    handle
        .insert_child(100, Node::Entry(post(2000, "late", "bob", "late post")))
        .unwrap();
    storage.fail_rename = true;
    let err = handle.save(&s, &params(), &mut storage).unwrap_err();
    assert_eq!(err, ContainerError::PersistenceError);
    assert_eq!(storage.read_main().unwrap(), before);
}

#[test]
fn failed_save_never_clears_the_dirty_flag() {
    let s = secret("pw");
    let mut storage = MemStorage::new();
    let mut handle = DbHandle::open(&fixture_bytes("pw"), &s).unwrap();
    assert!(!handle.dirty);
    handle
        .insert_child(100, Node::Entry(post(2000, "late", "bob", "late post")))
        .unwrap();
    assert!(handle.dirty);
    storage.fail_write = true;
    handle.save(&s, &params(), &mut storage).unwrap_err();
    assert!(handle.dirty, "a failed save must not mark the tree clean");
    handle.save(&s, &params(), &mut storage).unwrap();
    assert!(!handle.dirty);
}

#[test]
fn compressed_round_trip_returns_identical_tree() {
    let tree = fixture();
    let s = secret("correct-password");
    let bytes =
        kdbx_forum::container::encode_database_compressed(&tree, &s, &params()).unwrap();
    let back = open_database(&bytes, &s).unwrap();
    assert_tree_eq(&tree, &back);
}

#[test]
fn compressed_container_still_detects_tampering() {
    let s = secret("pw");
    let bytes =
        kdbx_forum::container::encode_database_compressed(&fixture(), &s, &params()).unwrap();
    for i in 45..bytes.len() {
        let mut tampered = bytes.clone();
        tampered[i] ^= 0x01;
        assert_eq!(
            open_database(&tampered, &s).unwrap_err(),
            ContainerError::IntegrityCheckFailed,
            "byte {i} not detected"
        );
    }
}

#[test]
fn run_length_codec_round_trips() {
    let cases: Vec<Vec<u8>> = vec![
        vec![],
        vec![7],
        vec![0, 0, 0, 0, 0, 1, 2, 2, 2],
        vec![9; 1000],
        (0..=255u8).collect(),
    ];
    for case in cases {
        let packed = kdbx_forum::compress::rle_compress(&case);
        assert_eq!(kdbx_forum::compress::rle_decompress(&packed).unwrap(), case);
    }
    let long_run = kdbx_forum::compress::rle_compress(&vec![9; 1000]);
    assert!(long_run.len() < 1000, "a long run must actually shrink");
}

#[test]
fn malformed_run_length_data_is_a_decompression_error() {
    assert_eq!(
        kdbx_forum::compress::rle_decompress(&vec![5u8]).unwrap_err(),
        ContainerError::DecompressionError,
        "a dangling half pair must be rejected"
    );
    assert_eq!(
        kdbx_forum::compress::rle_decompress(&vec![0u8, 42]).unwrap_err(),
        ContainerError::DecompressionError,
        "a zero count must be rejected"
    );
}

#[test]
fn secret_material_is_length_prefixed() {
    let no_keyfile = build_db_key(&"pw".to_string(), None);
    let mut expected = vec![2u8, 0, 0, 0, 0, 0, 0, 0];
    expected.extend_from_slice(b"pw");
    assert_eq!(no_keyfile, expected);

    let keyfile = vec![9u8, 8, 7];
    let with_keyfile = build_db_key(&"pw".to_string(), Some(&keyfile));
    expected.extend_from_slice(&[9, 8, 7]);
    assert_eq!(with_keyfile, expected);
}

#[test]
fn rename_without_a_temporary_file_fails() {
    let mut storage = MemStorage::new();
    assert_eq!(storage.rename_over().unwrap_err(), ContainerError::PersistenceError);
    assert!(storage.read_main().is_none());
}
