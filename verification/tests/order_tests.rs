use core::cmp::Ordering;
use note_tree::file_node::{FileNode, FileNodeType};
use note_tree::order::{is_markdown, natural_cmp, node_cmp_exec, sort_nodes, split_base_index};

#[test]
fn duplicate_markers_order_numerically() {
    assert_eq!(natural_cmp("Note.md", "Note (1).md"), Ordering::Less);
    assert_eq!(natural_cmp("Note (1).md", "Note (2).md"), Ordering::Less);
    assert_eq!(natural_cmp("Note (2).md", "Note (10).md"), Ordering::Less);
}

#[test]
fn naive_lexicographic_order_is_not_used() {
    assert_eq!(natural_cmp("Note (10).md", "Note (2).md"), Ordering::Greater);
}

#[test]
fn comparison_is_case_insensitive() {
    assert_eq!(natural_cmp("note.md", "NOTE.md"), Ordering::Equal);
    assert_eq!(natural_cmp("b.md", "A.md"), Ordering::Greater);
}

#[test]
fn unindexed_name_precedes_indexed() {
    assert_eq!(natural_cmp("draft", "draft (1)"), Ordering::Less);
    assert_eq!(natural_cmp("draft (1)", "draft"), Ordering::Greater);
}

#[test]
fn split_finds_marker() {
    let (base, idx) = split_base_index("note (3)");
    assert_eq!(base, "note");
    assert_eq!(idx, Some(3));
}

#[test]
fn split_requires_the_literal_space() {
    let (base, idx) = split_base_index("note(3)");
    assert_eq!(base, "note(3)");
    assert_eq!(idx, None);
}

#[test]
fn split_requires_digits() {
    let (base, idx) = split_base_index("note (x)");
    assert_eq!(base, "note (x)");
    assert_eq!(idx, None);
}

#[test]
fn split_trims_extra_whitespace_from_base() {
    let (base, idx) = split_base_index("note   (2)");
    assert_eq!(base, "note");
    assert_eq!(idx, Some(2));
}

#[test]
fn split_overflowing_index_is_no_marker() {
    let (base, idx) = split_base_index("a (99999999999999999999999)");
    assert_eq!(base, "a (99999999999999999999999)");
    assert_eq!(idx, None);
}

#[test]
fn split_accepts_largest_index() {
    let (base, idx) = split_base_index("a (18446744073709551615)");
    assert_eq!(base, "a");
    assert_eq!(idx, Some(u64::MAX));
}

#[test]
fn markdown_extension_is_case_insensitive() {
    assert!(is_markdown("a.md"));
    assert!(is_markdown("a.MD"));
    assert!(is_markdown("a.mD"));
    assert!(!is_markdown("a.txt"));
    assert!(!is_markdown(".md"));
    assert!(!is_markdown("a"));
    assert!(!is_markdown("a.md.txt"));
}

#[test]
fn folders_precede_files_regardless_of_name() {
    assert_eq!(
        node_cmp_exec("zzz", FileNodeType::Folder, "aaa.md", FileNodeType::Md),
        Ordering::Less
    );
    assert_eq!(
        node_cmp_exec("aaa.md", FileNodeType::Md, "zzz", FileNodeType::Folder),
        Ordering::Greater
    );
}

#[test]
fn comparator_behaves_as_a_strict_order_on_samples() {
    let a = "Alpha.md";
    let b = "alpha (1).md";
    let c = "beta.md";
    assert_eq!(natural_cmp(a, a), Ordering::Equal);
    assert_eq!(natural_cmp(a, b), Ordering::Less);
    assert_eq!(natural_cmp(b, a), Ordering::Greater);
    assert_eq!(natural_cmp(b, c), Ordering::Less);
    assert_eq!(natural_cmp(a, c), Ordering::Less);
}

fn node(name: &str, t: FileNodeType) -> FileNode {
    FileNode::new(name.to_string(), name.to_string(), t)
}

#[test]
fn sort_orders_a_mixed_directory() {
    let input = vec![
        node("Note (10).md", FileNodeType::Md),
        node("zeta", FileNodeType::Folder),
        node("Note (2).md", FileNodeType::Md),
        node("alpha", FileNodeType::Folder),
        node("Note.md", FileNodeType::Md),
    ];
    let sorted = sort_nodes(input);
    let names: Vec<&str> = sorted.iter().map(|n| n.name.as_str()).collect();
    assert_eq!(names, vec!["alpha", "zeta", "Note.md", "Note (2).md", "Note (10).md"]);
}

#[test]
fn sort_keeps_every_node() {
    let input = vec![
        node("b.md", FileNodeType::Md),
        node("a.md", FileNodeType::Md),
        node("a.md", FileNodeType::Md),
    ];
    let sorted = sort_nodes(input);
    assert_eq!(sorted.len(), 3);
    assert_eq!(sorted[0].name, "a.md");
    assert_eq!(sorted[1].name, "a.md");
    assert_eq!(sorted[2].name, "b.md");
}
