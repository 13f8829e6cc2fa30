use note_tree::commands::FsError;
use note_tree::file_node::FileNodeType;
use note_tree::fs_model::{Fs, FsEntry};
use note_tree::scanner::{open_folder, scan_folder, scan_recursive_flat, scan_recursive_nested,
    ScanEvent};

fn entry(path: &[&str], kind: FileNodeType) -> FsEntry {
    FsEntry {
        path: path.iter().map(|c| c.to_string()).collect(),
        kind,
        content: String::new(),
    }
}

fn root() -> Vec<String> {
    Vec::new()
}

#[test]
fn empty_directory_emits_only_framing_events() {
    let fs = Fs { entries: vec![entry(&["empty"], FileNodeType::Folder)] };
    let target = vec!["empty".to_string()];
    let events = scan_folder(&fs, &target).unwrap();
    assert_eq!(events.len(), 2);
    match &events[0] {
        ScanEvent::PathChanged(p) => assert_eq!(p, "empty"),
        _ => panic!("first event must be path-changed"),
    }
    match &events[1] {
        ScanEvent::ScanComplete(p) => assert_eq!(p, "empty"),
        _ => panic!("last event must be scan-complete"),
    }
}

#[test]
fn scan_delivers_one_sorted_batch_between_framing_events() {
    let fs = Fs {
        entries: vec![
            entry(&["Note (2).md"], FileNodeType::Md),
            entry(&["alpha"], FileNodeType::Folder),
            entry(&["Note.md"], FileNodeType::Md),
        ],
    };
    let events = scan_folder(&fs, &root()).unwrap();
    assert_eq!(events.len(), 3);
    assert!(matches!(&events[0], ScanEvent::PathChanged(_)));
    match &events[1] {
        ScanEvent::AddNodes(nodes) => {
            let names: Vec<&str> = nodes.iter().map(|n| n.name.as_str()).collect();
            assert_eq!(names, vec!["alpha", "Note.md", "Note (2).md"]);
        }
        _ => panic!("second event must carry the batch"),
    }
    assert!(matches!(&events[2], ScanEvent::ScanComplete(_)));
}

#[test]
fn scan_of_missing_root_fails_with_partial_scan() {
    let fs = Fs { entries: Vec::new() };
    let target = vec!["missing".to_string()];
    match scan_folder(&fs, &target) {
        Err(FsError::PartialScan(p)) => assert_eq!(p, "missing"),
        _ => panic!("expected PartialScan"),
    }
}

#[test]
fn open_folder_returns_children_fully_sorted() {
    let fs = Fs {
        entries: vec![
            entry(&["Note (10).md"], FileNodeType::Md),
            entry(&["zeta"], FileNodeType::Folder),
            entry(&["Note (2).md"], FileNodeType::Md),
            entry(&["alpha"], FileNodeType::Folder),
            entry(&["Note.md"], FileNodeType::Md),
            entry(&["alpha", "inner.md"], FileNodeType::Md),
        ],
    };
    let nodes = open_folder(&fs, &root()).unwrap();
    let names: Vec<&str> = nodes.iter().map(|n| n.name.as_str()).collect();
    assert_eq!(names, vec!["alpha", "zeta", "Note.md", "Note (2).md", "Note (10).md"]);
    assert!(matches!(nodes[0].node_type, FileNodeType::Folder));
    assert!(!nodes[0].expanded);
    assert_eq!(nodes[2].path, "Note.md");
}

#[test]
fn open_folder_lists_one_level_only() {
    let fs = Fs {
        entries: vec![
            entry(&["a"], FileNodeType::Folder),
            entry(&["a", "deep.md"], FileNodeType::Md),
        ],
    };
    let nodes = open_folder(&fs, &root()).unwrap();
    assert_eq!(nodes.len(), 1);
    assert_eq!(nodes[0].name, "a");
    let base = vec!["a".to_string()];
    let inner = open_folder(&fs, &base).unwrap();
    assert_eq!(inner.len(), 1);
    assert_eq!(inner[0].name, "deep.md");
    assert_eq!(inner[0].path, "a/deep.md");
}

#[test]
fn flat_scan_links_every_child_to_its_folder() {
    let fs = Fs {
        entries: vec![
            entry(&["A"], FileNodeType::Folder),
            entry(&["A", "x.md"], FileNodeType::Md),
            entry(&["A", "B"], FileNodeType::Folder),
            entry(&["A", "B", "y.md"], FileNodeType::Md),
            entry(&["top.md"], FileNodeType::Md),
        ],
    };
    let nodes = scan_recursive_flat(&fs, &root()).unwrap();
    assert_eq!(nodes.len(), 5);
    for (i, n) in nodes.iter().enumerate() {
        assert_eq!(n.id, i as u64);
        assert!(!n.expanded);
    }
    assert_eq!(nodes[0].name, "A");
    assert_eq!(nodes[0].parent_id, None);
    assert_eq!(nodes[1].name, "x.md");
    assert_eq!(nodes[1].parent_id, Some(0));
    assert_eq!(nodes[2].name, "B");
    assert_eq!(nodes[2].parent_id, Some(0));
    assert_eq!(nodes[3].name, "y.md");
    assert_eq!(nodes[3].parent_id, Some(2));
    assert_eq!(nodes[3].path, "A/B/y.md");
    assert_eq!(nodes[4].name, "top.md");
    assert_eq!(nodes[4].parent_id, None);
}

#[test]
fn flat_scan_parent_ids_name_exactly_one_folder() {
    let fs = Fs {
        entries: vec![
            entry(&["A"], FileNodeType::Folder),
            entry(&["A", "x.md"], FileNodeType::Md),
            entry(&["A", "B"], FileNodeType::Folder),
            entry(&["A", "B", "y.md"], FileNodeType::Md),
        ],
    };
    let nodes = scan_recursive_flat(&fs, &root()).unwrap();
    for n in nodes.iter() {
        if let Some(pid) = n.parent_id {
            let owners: Vec<_> = nodes.iter().filter(|m| m.id == pid).collect();
            assert_eq!(owners.len(), 1);
            assert!(matches!(owners[0].node_type, FileNodeType::Folder));
        }
    }
}

#[test]
fn nested_scan_owns_sorted_children() {
    let fs = Fs {
        entries: vec![
            entry(&["A", "x.md"], FileNodeType::Md),
            entry(&["top.md"], FileNodeType::Md),
            entry(&["A"], FileNodeType::Folder),
            entry(&["A", "B"], FileNodeType::Folder),
            entry(&["A", "B", "y.md"], FileNodeType::Md),
        ],
    };
    let nodes = scan_recursive_nested(&fs, &root()).unwrap();
    assert_eq!(nodes.len(), 2);
    assert_eq!(nodes[0].name, "A");
    assert!(matches!(nodes[0].node_type, FileNodeType::Folder));
    assert_eq!(nodes[1].name, "top.md");
    assert!(nodes[1].children.is_empty());
    let a = &nodes[0];
    assert_eq!(a.children.len(), 2);
    assert_eq!(a.children[0].name, "B");
    assert_eq!(a.children[1].name, "x.md");
    let b = &a.children[0];
    assert_eq!(b.children.len(), 1);
    assert_eq!(b.children[0].name, "y.md");
    assert_eq!(b.children[0].path, "A/B/y.md");
    assert!(b.children[0].children.is_empty());
}

#[test]
fn nested_scan_of_missing_root_fails() {
    let fs = Fs { entries: Vec::new() };
    let target = vec!["gone".to_string()];
    assert!(matches!(
        scan_recursive_nested(&fs, &target),
        Err(FsError::PartialScan(_))
    ));
}

#[test]
fn flat_scan_of_subtree_root_scopes_descendants() {
    let fs = Fs {
        entries: vec![
            entry(&["A"], FileNodeType::Folder),
            entry(&["A", "x.md"], FileNodeType::Md),
            entry(&["other.md"], FileNodeType::Md),
        ],
    };
    let base = vec!["A".to_string()];
    let nodes = scan_recursive_flat(&fs, &base).unwrap();
    assert_eq!(nodes.len(), 1);
    assert_eq!(nodes[0].name, "x.md");
    assert_eq!(nodes[0].parent_id, None);
}
