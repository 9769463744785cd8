use testutil::codec::{decode, DecodeError};
use testutil::digest::Digest;
use testutil::directory::{Directory, DirectoryNode, FileNode, StructuralError};

fn file(name: &str, content: &[u8], is_executable: bool) -> FileNode {
    FileNode { name: name.as_bytes().to_vec(), digest: Digest::of_bytes(content), is_executable }
}

fn dir_node(name: &str, child: &Directory) -> DirectoryNode {
    DirectoryNode { name: name.as_bytes().to_vec(), digest: child.digest() }
}

fn roland_dir() -> Directory {
    Directory::new(vec![file("roland", b"European Burmese", false)], vec![]).unwrap()
}

#[test]
fn round_trip_empty_directory() {
    let d = Directory::new(vec![], vec![]).unwrap();
    let bytes = d.encode();
    assert_eq!(decode(&bytes).unwrap(), d);
}

#[test]
fn round_trip_single_file() {
    let d = roland_dir();
    let bytes = d.encode();
    assert_eq!(decode(&bytes).unwrap(), d);
}

#[test]
fn round_trip_mixed_entries() {
    let inner = roland_dir();
    let d = Directory::new(
        vec![file("treats", b"catnip", false), file("feed", b"catnip", true)],
        vec![dir_node("cats", &inner), dir_node("birds", &inner)],
    )
    .unwrap();
    let bytes = d.encode();
    assert_eq!(decode(&bytes).unwrap(), d);
}

#[test]
fn encoding_is_idempotent() {
    let d = roland_dir();
    assert_eq!(d.encode(), d.encode());
    let e = Directory::new(
        vec![file("feed", b"catnip", true), file("food", b"catnip", false)],
        vec![],
    )
    .unwrap();
    assert_eq!(e.encode(), e.encode());
}

#[test]
fn construction_order_does_not_change_bytes_or_digest() {
    let inner = roland_dir();
    let d1 = Directory::new(
        vec![file("roland", b"European Burmese", false), file("treats", b"catnip", false)],
        vec![dir_node("birds", &inner), dir_node("cats", &inner)],
    )
    .unwrap();
    let d2 = Directory::new(
        vec![file("treats", b"catnip", false), file("roland", b"European Burmese", false)],
        vec![dir_node("cats", &inner), dir_node("birds", &inner)],
    )
    .unwrap();
    assert_eq!(d1, d2);
    assert_eq!(d1.encode(), d2.encode());
    assert_eq!(d1.digest(), d2.digest());
}

#[test]
fn duplicate_file_names_are_rejected() {
    let r = Directory::new(
        vec![file("roland", b"European Burmese", false), file("roland", b"catnip", false)],
        vec![],
    );
    assert_eq!(r.unwrap_err(), StructuralError::DuplicateName);
}

#[test]
fn duplicate_directory_names_are_rejected() {
    let inner = roland_dir();
    let r = Directory::new(vec![], vec![dir_node("cats", &inner), dir_node("cats", &inner)]);
    assert_eq!(r.unwrap_err(), StructuralError::DuplicateName);
}

#[test]
fn file_directory_name_collision_is_rejected() {
    let inner = roland_dir();
    let r = Directory::new(
        vec![file("roland", b"European Burmese", false)],
        vec![dir_node("roland", &inner)],
    );
    assert_eq!(r.unwrap_err(), StructuralError::NameCollision);
}

#[test]
fn invalid_names_are_rejected() {
    let r = Directory::new(vec![file("", b"x", false)], vec![]);
    assert_eq!(r.unwrap_err(), StructuralError::InvalidName);
    let r2 = Directory::new(vec![file("a/b", b"x", false)], vec![]);
    assert_eq!(r2.unwrap_err(), StructuralError::InvalidName);
}

#[test]
fn decoding_colliding_names_fails_structurally() {
    // Hand-built, bypassing the validating constructor: a file and a
    // subdirectory both named "roland".
    let inner = roland_dir();
    let bad = Directory {
        files: vec![file("roland", b"European Burmese", false)],
        directories: vec![dir_node("roland", &inner)],
    };
    let bytes = bad.encode();
    assert_eq!(
        decode(&bytes).unwrap_err(),
        DecodeError::Invalid(StructuralError::NameCollision)
    );
}

#[test]
fn decoding_duplicate_names_fails_structurally() {
    let bad = Directory {
        files: vec![file("roland", b"European Burmese", false), file("roland", b"catnip", false)],
        directories: vec![],
    };
    let bytes = bad.encode();
    assert_eq!(
        decode(&bytes).unwrap_err(),
        DecodeError::Invalid(StructuralError::DuplicateName)
    );
}

#[test]
fn decoding_unsorted_entries_fails_structurally() {
    let bad = Directory {
        files: vec![file("treats", b"catnip", false), file("roland", b"European Burmese", false)],
        directories: vec![],
    };
    let bytes = bad.encode();
    assert_eq!(
        decode(&bytes).unwrap_err(),
        DecodeError::Invalid(StructuralError::OutOfOrder)
    );
}

#[test]
fn decoding_truncated_bytes_fails() {
    let d = roland_dir();
    let mut bytes = d.encode();
    bytes.pop();
    assert_eq!(decode(&bytes).unwrap_err(), DecodeError::Malformed);
    let short: Vec<u8> = vec![0, 0, 0];
    assert_eq!(decode(&short).unwrap_err(), DecodeError::Malformed);
}

#[test]
fn decoding_trailing_bytes_fails() {
    let d = roland_dir();
    let mut bytes = d.encode();
    bytes.push(0);
    assert_eq!(decode(&bytes).unwrap_err(), DecodeError::Malformed);
}

#[test]
fn decoding_bad_flag_byte_fails() {
    let d = roland_dir();
    let mut bytes = d.encode();
    // The executable flag of the single file entry is the last byte before
    // the trailing (empty) subdirectory count.
    let flag_index = bytes.len() - 9;
    assert_eq!(bytes[flag_index], 0);
    bytes[flag_index] = 2;
    assert_eq!(decode(&bytes).unwrap_err(), DecodeError::Malformed);
}

#[test]
fn executable_flag_changes_encoding_but_not_content_digest() {
    let feed = Directory::new(vec![file("feed", b"catnip", true)], vec![]).unwrap();
    let feed_plain = Directory::new(vec![file("feed", b"catnip", false)], vec![]).unwrap();
    assert_ne!(feed.encode(), feed_plain.encode());
    assert_eq!(feed.files[0].digest, feed_plain.files[0].digest);
}

#[test]
fn reencoding_a_decoded_directory_restores_the_bytes() {
    let inner = roland_dir();
    let d = Directory::new(
        vec![file("treats", b"catnip", false)],
        vec![dir_node("cats", &inner)],
    )
    .unwrap();
    let bytes = d.encode();
    let decoded = decode(&bytes).unwrap();
    assert_eq!(decoded.encode(), bytes);
}
