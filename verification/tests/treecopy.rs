use init_task::fstree::{copy_into, copy_node, find_child, node_equal, CopyError, FsEntry, FsNode};

fn file(bytes: &[u8]) -> FsNode {
    FsNode::File { bytes: bytes.to_vec() }
}

fn dir(entries: Vec<(&str, FsNode)>) -> FsNode {
    FsNode::Dir {
        entries: entries
            .into_iter()
            .map(|(name, node)| FsEntry { name: name.to_string(), node })
            .collect(),
    }
}

fn sample_layout() -> FsNode {
    dir(vec![
        ("readme.txt", file(b"hello")),
        (
            "sub",
            dir(vec![("data.bin", file(&[0, 1, 2, 255])), ("empty", dir(vec![]))]),
        ),
    ])
}

#[test]
fn copied_tree_matches_the_source() {
    let layout = sample_layout();
    let copy = copy_node(&layout);
    assert!(node_equal(&layout, &copy));
}

#[test]
fn copy_into_appends_a_matching_child() {
    let layout = sample_layout();
    let mut dest: Vec<FsEntry> = Vec::new();
    copy_into(&mut dest, "001_task".to_string(), &layout).unwrap();
    assert_eq!(dest.len(), 1);
    let found = find_child(&dest, &"001_task".to_string()).unwrap();
    assert!(node_equal(found, &layout));
}

#[test]
fn copy_into_refuses_an_existing_destination() {
    let layout = sample_layout();
    let mut dest: Vec<FsEntry> = vec![FsEntry {
        name: "001_task".to_string(),
        node: file(b"precious"),
    }];
    let r = copy_into(&mut dest, "001_task".to_string(), &layout);
    assert!(matches!(r, Err(CopyError::DestinationExists)));
    assert_eq!(dest.len(), 1);
    let kept = find_child(&dest, &"001_task".to_string()).unwrap();
    assert!(node_equal(kept, &file(b"precious")));
}

#[test]
fn differing_trees_do_not_match() {
    let layout = sample_layout();
    assert!(!node_equal(&layout, &file(b"hello")));
    assert!(!node_equal(&layout, &dir(vec![])));
    assert!(!node_equal(&file(b"hello"), &file(b"hellO")));
}
