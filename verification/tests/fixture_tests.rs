use testutil::codec::decode;
use testutil::digest::Digest;
use testutil::directory::{Directory, DirectoryNode, FileNode};
use testutil::fixtures::{TestData, TestDirectory, TestTree};

const ROLAND_HEX: &str = "693d8db7b05e99c6b7a7c0616456039d89c555029026936248085193559a0b5d";
const ROLAND_DIR_HEX: &str = "f0e016bd5740f8cf1664686063b639e57639b64c374c4d67e1e6ecb056919086";
const EMPTY_DIR_HEX: &str = "374708fff7719dd5979ec875d56cd2286f6d3cf7ec317a3b25632aab28ec37bb";
const ROLAND_TREE_HEX: &str = "b7815087c1c8696eefac51638d7666392ce57d2813bf3c43c9e40d4db2f169ba";

#[test]
fn test_data_accessors() {
    let roland = TestData::roland();
    assert_eq!(roland.string(), "European Burmese");
    assert_eq!(roland.len(), 16);
    assert_eq!(roland.bytes().as_ref(), b"European Burmese");
    assert_eq!(roland.fingerprint().to_hex(), ROLAND_HEX);
    assert_eq!(roland.digest().size_bytes, 16);
    assert_eq!(TestData::empty().len(), 0);
    assert_eq!(TestData::catnip().string(), "catnip");
    assert_eq!(TestData::robin().string(), "Pug");
    assert_eq!(TestData::forty_chars().len(), 80);
    assert_eq!(TestData::new("kitty").string(), "kitty");
}

#[test]
fn stable_digest_across_independent_constructions() {
    let a = TestDirectory::containing_roland();
    let b = TestDirectory::containing_roland();
    assert_eq!(a.digest(), b.digest());
    assert_eq!(a.bytes().as_ref(), b.bytes().as_ref());
    assert_eq!(a.fingerprint().to_hex(), ROLAND_DIR_HEX);
}

#[test]
fn known_directory_encoding() {
    let a = TestDirectory::containing_roland();
    let mut expected: Vec<u8> = Vec::new();
    expected.extend_from_slice(&1u64.to_le_bytes());
    expected.extend_from_slice(&6u64.to_le_bytes());
    expected.extend_from_slice(b"roland");
    expected.extend_from_slice(&TestData::roland().fingerprint().bytes);
    expected.extend_from_slice(&16u64.to_le_bytes());
    expected.push(0);
    expected.extend_from_slice(&0u64.to_le_bytes());
    assert_eq!(a.bytes().as_ref(), expected.as_slice());
}

#[test]
fn empty_directory_digest() {
    let e = TestDirectory::empty();
    assert_eq!(e.fingerprint().to_hex(), EMPTY_DIR_HEX);
    assert_eq!(e.digest().size_bytes, 16);
}

#[test]
fn nesting_digest_depends_on_content_not_order() {
    let scenario_a = TestDirectory::containing_roland();
    let treats = FileNode {
        name: b"treats".to_vec(),
        digest: Digest::of_bytes(b"catnip"),
        is_executable: false,
    };
    let treats_changed = FileNode {
        name: b"treats".to_vec(),
        digest: Digest::of_bytes(b"catfood"),
        is_executable: false,
    };
    let cats = DirectoryNode {
        name: b"cats".to_vec(),
        digest: scenario_a.digest(),
    };
    let cats2 = DirectoryNode {
        name: b"cats".to_vec(),
        digest: scenario_a.digest(),
    };
    let roland_file = FileNode {
        name: b"roland".to_vec(),
        digest: Digest::of_bytes(b"European Burmese"),
        is_executable: false,
    };
    let roland_file2 = FileNode {
        name: b"roland".to_vec(),
        digest: Digest::of_bytes(b"European Burmese"),
        is_executable: false,
    };
    let d1 = Directory::new(vec![treats.clone(), roland_file], vec![cats]).unwrap();
    // The same entries handed over in the other order.
    let d2 = Directory::new(vec![roland_file2, treats.clone()], vec![cats2]).unwrap();
    assert_eq!(d1.digest(), d2.digest());
    assert_eq!(d1.encode(), d2.encode());
    let roland_file3 = FileNode {
        name: b"roland".to_vec(),
        digest: Digest::of_bytes(b"European Burmese"),
        is_executable: false,
    };
    let cats3 = DirectoryNode {
        name: b"cats".to_vec(),
        digest: scenario_a.digest(),
    };
    let d3 = Directory::new(vec![treats_changed, roland_file3], vec![cats3]).unwrap();
    assert_ne!(d1.digest(), d3.digest());
}

#[test]
fn recursive_fixture_digest_is_stable() {
    let a = TestDirectory::recursive();
    let b = TestDirectory::recursive();
    assert_eq!(a.digest(), b.digest());
    assert_eq!(
        a.fingerprint().to_hex(),
        "9bb16404e4be5d2104e9d39c14df0576035efe9af057c66215dd963fb428b01e"
    );
}

#[test]
fn mixed_executable_fixture() {
    let d = TestDirectory::with_mixed_executable_files();
    let files = &d.directory.files;
    assert_eq!(files.len(), 2);
    assert_eq!(files[0].name, b"feed".to_vec());
    assert!(files[0].is_executable);
    assert_eq!(files[1].name, b"food".to_vec());
    assert!(!files[1].is_executable);
    assert_eq!(files[0].digest, files[1].digest);
    assert_eq!(
        d.fingerprint().to_hex(),
        "fcbf3c4f86e9ea553ff49c9e02e4b2e2c6fa8b90ddfca1ac70906e8c57d326e8"
    );
}

#[test]
fn fixture_directories_round_trip() {
    for td in [
        TestDirectory::empty(),
        TestDirectory::containing_falcons_dir(),
        TestDirectory::nested_dir_and_file(),
        TestDirectory::double_nested_dir_and_file(),
        TestDirectory::containing_roland(),
        TestDirectory::containing_robin(),
        TestDirectory::containing_treats(),
        TestDirectory::nested(),
        TestDirectory::double_nested(),
        TestDirectory::containing_dnalor(),
        TestDirectory::containing_wrong_roland(),
        TestDirectory::containing_roland_and_treats(),
        TestDirectory::recursive(),
        TestDirectory::with_mixed_executable_files(),
    ] {
        let bytes = td.directory.encode();
        assert_eq!(decode(&bytes).unwrap(), td.directory);
    }
}

#[test]
fn distinct_fixtures_have_distinct_digests() {
    let roland = TestDirectory::containing_roland();
    let dnalor = TestDirectory::containing_dnalor();
    let wrong = TestDirectory::containing_wrong_roland();
    assert_ne!(roland.digest(), dnalor.digest());
    assert_ne!(roland.digest(), wrong.digest());
    assert_ne!(dnalor.digest(), wrong.digest());
}

#[test]
fn directory_accessor_returns_equal_value() {
    let td = TestDirectory::recursive();
    assert_eq!(td.directory(), td.directory);
}

#[test]
fn tree_fixtures() {
    let roland = TestTree::roland_at_root();
    let robin = TestTree::robin_at_root();
    assert_eq!(roland.fingerprint().to_hex(), ROLAND_TREE_HEX);
    assert_ne!(roland.digest(), robin.digest());
    let again = TestTree::roland_at_root();
    assert_eq!(roland.digest(), again.digest());
    assert_eq!(roland.bytes().as_ref(), again.bytes().as_ref());
    assert_eq!(roland.digest().size_bytes, 79);
}
