use note_tree::commands::{add_folder, add_md_file, delete_node, FsError};
use note_tree::file_node::FileNodeType;
use note_tree::fs_model::{Fs, FsEntry};

fn entry(path: &[&str], kind: FileNodeType, content: &str) -> FsEntry {
    FsEntry {
        path: path.iter().map(|c| c.to_string()).collect(),
        kind,
        content: content.to_string(),
    }
}

fn root() -> Vec<String> {
    Vec::new()
}

#[test]
fn add_folder_twice_disambiguates() {
    let mut fs = Fs { entries: Vec::new() };
    let first = add_folder(&mut fs, &root(), "Notes").unwrap();
    assert_eq!(first, "Notes");
    let second = add_folder(&mut fs, &root(), "Notes").unwrap();
    assert_eq!(second, "Notes (1)");
    assert_eq!(fs.entries.len(), 2);
    assert_eq!(fs.entries[0].path, vec!["Notes".to_string()]);
    assert!(matches!(fs.entries[0].kind, FileNodeType::Folder));
    assert_eq!(fs.entries[1].path, vec!["Notes (1)".to_string()]);
}

#[test]
fn add_md_file_twice_keeps_first_content() {
    let mut fs = Fs { entries: Vec::new() };
    let first = add_md_file(&mut fs, &root(), "draft", "hello".to_string()).unwrap();
    assert_eq!(first, "draft.md");
    assert_eq!(fs.entries[0].content, "hello");
    let second = add_md_file(&mut fs, &root(), "draft", "other".to_string()).unwrap();
    assert_eq!(second, "draft (1).md");
    assert_eq!(fs.entries[0].path, vec!["draft.md".to_string()]);
    assert_eq!(fs.entries[0].content, "hello");
    assert_eq!(fs.entries[1].path, vec!["draft (1).md".to_string()]);
    assert_eq!(fs.entries[1].content, "other");
}

#[test]
fn add_md_file_normalizes_extension() {
    let mut fs = Fs { entries: Vec::new() };
    let made = add_md_file(&mut fs, &root(), "draft.MD", "x".to_string()).unwrap();
    assert_eq!(made, "draft.md");
    let doubled = add_md_file(&mut fs, &root(), "twice.md.MD", "y".to_string()).unwrap();
    assert_eq!(doubled, "twice.md");
}

#[test]
fn add_folder_under_nested_base() {
    let mut fs = Fs { entries: vec![entry(&["Notes"], FileNodeType::Folder, "")] };
    let base = vec!["Notes".to_string()];
    let made = add_folder(&mut fs, &base, "Sub").unwrap();
    assert_eq!(made, "Notes/Sub");
    assert_eq!(fs.entries[1].path, vec!["Notes".to_string(), "Sub".to_string()]);
}

#[test]
fn add_folder_needs_existing_base() {
    let mut fs = Fs { entries: Vec::new() };
    let base = vec!["missing".to_string()];
    let r = add_folder(&mut fs, &base, "Sub");
    assert!(matches!(r, Err(FsError::IOFailure(_))));
    assert_eq!(fs.entries.len(), 0);
}

#[test]
fn delete_missing_node_is_not_found_and_changes_nothing() {
    let mut fs = Fs { entries: vec![entry(&["keep.md"], FileNodeType::Md, "k")] };
    let r = delete_node(&mut fs, &root(), "missing");
    match r {
        Err(FsError::NotFound(p)) => assert_eq!(p, "missing"),
        _ => panic!("expected NotFound"),
    }
    assert_eq!(fs.entries.len(), 1);
    assert_eq!(fs.entries[0].path, vec!["keep.md".to_string()]);
    assert_eq!(fs.entries[0].content, "k");
}

#[test]
fn delete_folder_removes_every_descendant() {
    let mut fs = Fs {
        entries: vec![
            entry(&["folderWithChildren"], FileNodeType::Folder, ""),
            entry(&["folderWithChildren", "a.md"], FileNodeType::Md, "a"),
            entry(&["folderWithChildren", "sub"], FileNodeType::Folder, ""),
            entry(&["folderWithChildren", "sub", "b.md"], FileNodeType::Md, "b"),
            entry(&["other.md"], FileNodeType::Md, "o"),
        ],
    };
    let r = delete_node(&mut fs, &root(), "folderWithChildren").unwrap();
    assert_eq!(r, "folderWithChildren");
    assert_eq!(fs.entries.len(), 1);
    assert_eq!(fs.entries[0].path, vec!["other.md".to_string()]);
}

#[test]
fn delete_file_removes_only_that_file() {
    let mut fs = Fs {
        entries: vec![
            entry(&["a.md"], FileNodeType::Md, "a"),
            entry(&["b.md"], FileNodeType::Md, "b"),
        ],
    };
    let r = delete_node(&mut fs, &root(), "a.md").unwrap();
    assert_eq!(r, "a.md");
    assert_eq!(fs.entries.len(), 1);
    assert_eq!(fs.entries[0].path, vec!["b.md".to_string()]);
}

#[test]
fn delete_is_not_idempotent() {
    let mut fs = Fs { entries: vec![entry(&["once"], FileNodeType::Folder, "")] };
    assert!(delete_node(&mut fs, &root(), "once").is_ok());
    assert!(matches!(delete_node(&mut fs, &root(), "once"), Err(FsError::NotFound(_))));
}

#[test]
fn error_message_names_the_path() {
    let e = FsError::NotFound("Notes/missing".to_string());
    assert_eq!(e.message(), "node does not exist: Notes/missing");
    let e = FsError::IOFailure("nope".to_string());
    assert_eq!(e.message(), "not a directory: nope");
    let e = FsError::AlreadyExists("base".to_string());
    assert_eq!(e.message(), "no free name under: base");
    let e = FsError::PartialScan("gone".to_string());
    assert_eq!(e.message(), "cannot access scan root: gone");
}
