//! The node type surfaced to the consumer: a folder or a markdown file.

use vstd::prelude::*;

verus! {

/// Classification of a trackable filesystem entry.
#[derive(Clone, Copy, Debug, PartialEq, Eq, Structural)]
pub enum FileNodeType {
    Folder,
    Md,
}

/// A single entry of a scan result, in the shape handed to the consumer.
#[derive(Clone, Debug)]
pub struct FileNode {
    pub name: String,
    pub path: String,
    pub node_type: FileNodeType,
    pub expanded: bool,
}

/// Mathematical image of a `FileNode`: the string fields as char sequences.
pub struct NodeView {
    pub name: Seq<char>,
    pub path: Seq<char>,
    pub node_type: FileNodeType,
    pub expanded: bool,
}

impl View for FileNode {
    type V = NodeView;

    open spec fn view(&self) -> NodeView {
        NodeView {
            name: self.name@,
            path: self.path@,
            node_type: self.node_type,
            expanded: self.expanded,
        }
    }
}

impl FileNode {
    /// A fresh node starts collapsed: `expanded` is reset on every scan.
    pub fn new(name: String, path: String, node_type: FileNodeType) -> (r: FileNode)
        ensures
            r@.name == name@,
            r@.path == path@,
            r@.node_type == node_type,
            r@.expanded == false,
    {
        FileNode { name, path, node_type, expanded: false }
    }
}

} // verus!
