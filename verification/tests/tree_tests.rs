use testutil::directory::StructuralError;
use testutil::tree::{assemble, SourceDir, SourceFile};

fn sf(name: &str, content: &[u8], is_executable: bool) -> SourceFile {
    SourceFile { name: name.as_bytes().to_vec(), content: content.to_vec(), is_executable }
}

fn leaf(files: Vec<SourceFile>) -> SourceDir {
    SourceDir { files, subdirs: vec![] }
}

fn nested_source() -> SourceDir {
    // animals/
    //   birds/falcons/        (falcons empty)
    //   cats/roland
    // treats
    let falcons = leaf(vec![]);
    let birds = SourceDir { files: vec![], subdirs: vec![(b"birds_inner".to_vec(), falcons)] };
    let cats = leaf(vec![sf("roland", b"European Burmese", false)]);
    let animals = SourceDir {
        files: vec![],
        subdirs: vec![(b"birds".to_vec(), birds), (b"cats".to_vec(), cats)],
    };
    SourceDir {
        files: vec![sf("treats", b"catnip", false)],
        subdirs: vec![(b"animals".to_vec(), animals)],
    }
}

#[test]
fn assembled_tree_is_complete() {
    let tree = assemble(&nested_source()).unwrap();
    // Every subdirectory digest in the root resolves.
    for node in &tree.root.directories {
        assert!(tree.get(&node.digest).is_some());
    }
    // Every subdirectory digest in every collected child resolves.
    for (_, dir) in &tree.children {
        for node in &dir.directories {
            assert!(tree.get(&node.digest).is_some());
        }
    }
}

#[test]
fn children_are_keyed_by_their_own_digest() {
    let tree = assemble(&nested_source()).unwrap();
    assert_eq!(tree.children.len(), 4);
    for (digest, dir) in &tree.children {
        assert_eq!(dir.digest(), digest.clone());
    }
}

#[test]
fn resolved_child_matches_recursive_assembly() {
    let tree = assemble(&nested_source()).unwrap();
    // The root's single subdirectory is "animals"; resolving its digest
    // yields a directory with the two nested subdirectories.
    assert_eq!(tree.root.directories.len(), 1);
    assert_eq!(tree.root.directories[0].name, b"animals".to_vec());
    let animals = tree.get(&tree.root.directories[0].digest).unwrap();
    assert_eq!(animals.directories.len(), 2);
    assert_eq!(animals.directories[0].name, b"birds".to_vec());
    assert_eq!(animals.directories[1].name, b"cats".to_vec());
}

#[test]
fn file_only_assembly_collects_no_children() {
    let tree = assemble(&leaf(vec![sf("roland", b"European Burmese", false)])).unwrap();
    assert!(tree.children.is_empty());
    assert_eq!(tree.root.files.len(), 1);
    assert_eq!(tree.root.files[0].name, b"roland".to_vec());
}

#[test]
fn assembly_sorts_entries() {
    let src = SourceDir {
        files: vec![sf("zebra", b"stripes", false), sf("ant", b"small", false)],
        subdirs: vec![(b"deep".to_vec(), leaf(vec![])), (b"attic".to_vec(), leaf(vec![]))],
    };
    let tree = assemble(&src).unwrap();
    assert_eq!(tree.root.files[0].name, b"ant".to_vec());
    assert_eq!(tree.root.files[1].name, b"zebra".to_vec());
    assert_eq!(tree.root.directories[0].name, b"attic".to_vec());
    assert_eq!(tree.root.directories[1].name, b"deep".to_vec());
}

#[test]
fn assembly_rejects_duplicate_names() {
    let src = SourceDir {
        files: vec![sf("roland", b"a", false), sf("roland", b"b", false)],
        subdirs: vec![],
    };
    assert_eq!(assemble(&src).unwrap_err(), StructuralError::DuplicateName);
}

#[test]
fn assembly_rejects_name_collisions_across_kinds() {
    let src = SourceDir {
        files: vec![sf("roland", b"a", false)],
        subdirs: vec![(b"roland".to_vec(), leaf(vec![]))],
    };
    assert_eq!(assemble(&src).unwrap_err(), StructuralError::NameCollision);
}

#[test]
fn assembly_rejects_invalid_names_at_depth() {
    let bad_child = leaf(vec![sf("a/b", b"x", false)]);
    let src = SourceDir { files: vec![], subdirs: vec![(b"ok".to_vec(), bad_child)] };
    assert_eq!(assemble(&src).unwrap_err(), StructuralError::InvalidName);
}

#[test]
fn identical_subtrees_share_a_digest() {
    let src = SourceDir {
        files: vec![],
        subdirs: vec![
            (b"left".to_vec(), leaf(vec![sf("roland", b"European Burmese", false)])),
            (b"right".to_vec(), leaf(vec![sf("roland", b"European Burmese", false)])),
        ],
    };
    let tree = assemble(&src).unwrap();
    assert_eq!(tree.root.directories[0].digest, tree.root.directories[1].digest);
    assert!(tree.get(&tree.root.directories[0].digest).is_some());
}
