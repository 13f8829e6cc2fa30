//! Scanning the modeled tree: one-level listing fully sorted, the ordered
//! scan event stream, and the recursive flat mode with generated ids and
//! parent links.

use vstd::prelude::*;

use crate::commands::FsError;
use crate::file_node::{FileNode, FileNodeType, NodeView};
use crate::fs_model::{child_of, dir_exists, join_path, join_spec, Fs, FsEntry};
use crate::order::{node_le, nodes_sorted, sort_nodes, views_of};

verus! {

/// The node a scanned entry surfaces as: named by its last path component,
/// displayed under its joined path, collapsed.
pub open spec fn node_of_entry(e: crate::fs_model::EntryView) -> NodeView {
    NodeView { name: e.path.last(), path: join_spec(e.path), node_type: e.kind, expanded: false }
}

/// The children of `dir` among `entries`, as nodes, in entry order.
pub open spec fn child_nodes_of(entries: Seq<FsEntry>, dir: Seq<Seq<char>>) -> Seq<NodeView> {
    entries.filter(|e: FsEntry| child_of(dir, e@.path)).map_values(
        |e: FsEntry| node_of_entry(e@),
    )
}

/// The children of `dir` in the model, as nodes.
pub open spec fn child_nodes(fs: Fs, dir: Seq<Seq<char>>) -> Seq<NodeView> {
    child_nodes_of(fs.entries@, dir)
}

/// In a sorted sibling list every folder precedes every markdown file.
pub proof fn lemma_folders_precede_files(s: Seq<NodeView>)
    requires
        nodes_sorted(s),
    ensures
        forall|i: int, j: int|
            0 <= i < j < s.len() ==> !((#[trigger] s[i]).node_type == FileNodeType::Md && (
            #[trigger] s[j]).node_type == FileNodeType::Folder),
{
    assert forall|i: int, j: int|
        0 <= i < j < s.len() implies !((#[trigger] s[i]).node_type == FileNodeType::Md && (
    #[trigger] s[j]).node_type == FileNodeType::Folder) by {
        assert(node_le(s[i], s[j]));
    }
}

/// Whether `p` is a direct child of `dir`.
pub fn is_child(dir: &Vec<String>, p: &Vec<String>) -> (r: bool)
    ensures
        r == child_of(dir.deep_view(), p.deep_view()),
{
    let n = dir.len();
    proof {
        assert(p.deep_view().len() == p@.len());
        assert(dir.deep_view().len() == dir@.len());
    }
    if p.len() == 0 || p.len() - 1 != n {
        return false;
    }
    let mut i: usize = 0;
    while i < n
        invariant
            i <= n,
            n == dir@.len(),
            p@.len() == n + 1,
            forall|j: int| 0 <= j < i ==> p.deep_view()[j] == dir.deep_view()[j],
        decreases n - i,
    {
        let ax: &String = &dir[i];
        let px: &String = &p[i];
        if !px.eq(ax) {
            proof {
                assert(p.deep_view()[i as int] != dir.deep_view()[i as int]);
                assert(p.deep_view().take(n as int)[i as int] == p.deep_view()[i as int]);
            }
            return false;
        }
        i = i + 1;
    }
    proof {
        assert(p.deep_view().take(n as int) =~~= dir.deep_view());
    }
    true
}

/// Lists the direct children of `root`, classified and fully sorted in the
/// natural sibling order: the same nodes the model holds under `root`, every
/// folder before every markdown file. Fails only when `root` itself is not a
/// directory of the tree.
pub fn open_folder(fs: &Fs, root: &Vec<String>) -> (r: Result<Vec<FileNode>, FsError>)
    ensures
        ({
            let rootv = root.deep_view();
            match r {
                Ok(nodes) => {
                    &&& fs.is_dir(rootv)
                    &&& nodes_sorted(views_of(nodes@))
                    &&& views_of(nodes@).to_multiset() == child_nodes(*fs, rootv).to_multiset()
                    &&& forall|i: int, j: int|
                        0 <= i < j < nodes@.len() ==> !((#[trigger] views_of(nodes@)[i]).node_type
                            == FileNodeType::Md && (#[trigger] views_of(nodes@)[j]).node_type
                            == FileNodeType::Folder)
                },
                Err(FsError::PartialScan(d)) => {
                    &&& !fs.is_dir(rootv)
                    &&& d@ == join_spec(rootv)
                },
                Err(_) => false,
            }
        }),
{
    if !dir_exists(fs, root) {
        return Err(FsError::PartialScan(join_path(root)));
    }
    let ghost orig = fs.entries@;
    let ghost rootv = root.deep_view();
    let ghost cpred = |e: FsEntry| child_of(rootv, e@.path);
    let mut nodes: Vec<FileNode> = Vec::new();
    let n = fs.entries.len();
    let mut m: usize = 0;
    proof {
        reveal(Seq::filter);
        assert(child_nodes_of(orig.take(0), rootv) =~= Seq::<NodeView>::empty());
        assert(views_of(nodes@) =~= child_nodes_of(orig.take(0), rootv));
    }
    while m < n
        invariant
            m <= n,
            n == orig.len(),
            orig == fs.entries@,
            rootv == root.deep_view(),
            cpred == (|e: FsEntry| child_of(rootv, e@.path)),
            views_of(nodes@) == child_nodes_of(orig.take(m as int), rootv),
        decreases n - m,
    {
        proof {
            reveal(Seq::filter);
            assert(orig.take(m as int + 1).drop_last() =~= orig.take(m as int));
            assert(orig.take(m as int + 1).last() == orig[m as int]);
        }
        let e = &fs.entries[m];
        if is_child(root, &e.path) {
            let last_ix = e.path.len() - 1;
            let name: String = e.path[last_ix].clone();
            let disp = join_path(&e.path);
            let node = FileNode::new(name, disp, e.kind);
            let ghost before = views_of(nodes@);
            nodes.push(node);
            proof {
                assert(node@ == node_of_entry(orig[m as int]@));
                assert(views_of(nodes@) =~= before.push(node@));
                assert(orig.take(m as int + 1).filter(cpred) =~= orig.take(m as int).filter(
                    cpred,
                ).push(orig[m as int]));
                assert(views_of(nodes@) =~= child_nodes_of(orig.take(m as int + 1), rootv));
            }
        } else {
            proof {
                assert(orig.take(m as int + 1).filter(cpred) =~= orig.take(m as int).filter(cpred));
                assert(views_of(nodes@) =~= child_nodes_of(orig.take(m as int + 1), rootv));
            }
        }
        m = m + 1;
    }
    proof {
        assert(orig.take(n as int) =~= orig);
    }
    let sorted = sort_nodes(nodes);
    proof {
        lemma_folders_precede_files(views_of(sorted@));
    }
    Ok(sorted)
}

/// A node of the flat-linked scan mode: a per-scan generated id and an
/// optional link to the parent folder's id.
pub struct LinkedNode {
    pub id: u64,
    pub parent_id: Option<u64>,
    pub name: String,
    pub path: String,
    pub node_type: FileNodeType,
    pub expanded: bool,
}

/// Mathematical image of a `LinkedNode`.
pub struct LinkedNodeView {
    pub id: u64,
    pub parent_id: Option<u64>,
    pub name: Seq<char>,
    pub path: Seq<char>,
    pub node_type: FileNodeType,
    pub expanded: bool,
}

impl View for LinkedNode {
    type V = LinkedNodeView;

    open spec fn view(&self) -> LinkedNodeView {
        LinkedNodeView {
            id: self.id,
            parent_id: self.parent_id,
            name: self.name@,
            path: self.path@,
            node_type: self.node_type,
            expanded: self.expanded,
        }
    }
}

/// The descendants of `root` among `entries`, in entry (traversal) order.
pub open spec fn descendants_of(entries: Seq<FsEntry>, root: Seq<Seq<char>>) -> Seq<FsEntry> {
    entries.filter(|e: FsEntry| crate::fs_model::strict_descendant(root, e@.path))
}

/// The path's components without the last one.
pub fn parent_vec(p: &Vec<String>) -> (r: Vec<String>)
    requires
        p@.len() >= 1,
    ensures
        r.deep_view() == p.deep_view().drop_last(),
{
    let n = p.len() - 1;
    let mut r: Vec<String> = Vec::new();
    let mut i: usize = 0;
    while i < n
        invariant
            i <= n,
            n == p@.len() - 1,
            r.deep_view() =~~= p.deep_view().take(i as int),
        decreases n - i,
    {
        let c: String = p[i].clone();
        let ghost mid = r.deep_view();
        r.push(c);
        proof {
            assert(r.deep_view() =~~= mid.push(c@));
            assert(r.deep_view() =~~= p.deep_view().take(i as int + 1));
        }
        i = i + 1;
    }
    proof {
        assert(p.deep_view().take(n as int) =~~= p.deep_view().drop_last());
    }
    r
}

/// Scans every descendant of `root` into the flat-linked shape: one node per
/// entry, in traversal order, ids assigned in that order, and each node
/// linked to the id of the first folder node whose path is its parent path
/// (no link for children of the root or when no such folder was scanned).
/// Every `parent_id` therefore names exactly one node of the result, and
/// that node is a folder. Fails only when `root` is not a directory.
#[verifier::rlimit(100)]
pub fn scan_recursive_flat(fs: &Fs, root: &Vec<String>) -> (r: Result<Vec<LinkedNode>, FsError>)
    ensures
        ({
            let rootv = root.deep_view();
            let desc = descendants_of(fs.entries@, rootv);
            match r {
                Ok(nodes) => {
                    &&& fs.is_dir(rootv)
                    &&& nodes@.len() == desc.len()
                    &&& forall|t: int|
                        0 <= t < nodes@.len() ==> (#[trigger] nodes@[t])@.id == t as u64
                    &&& forall|t: int|
                        0 <= t < nodes@.len() ==> {
                            let nv = (#[trigger] nodes@[t])@;
                            &&& nv.name == desc[t]@.path.last()
                            &&& nv.path == join_spec(desc[t]@.path)
                            &&& nv.node_type == desc[t]@.kind
                            &&& nv.expanded == false
                        }
                    &&& forall|t: int|
                        0 <= t < nodes@.len() ==> match (#[trigger] nodes@[t])@.parent_id {
                            Some(pid) => {
                                &&& 0 <= pid < nodes@.len()
                                &&& desc[pid as int]@.kind == FileNodeType::Folder
                                &&& desc[pid as int]@.path == desc[t]@.path.drop_last()
                                &&& desc[t]@.path.len() > rootv.len() + 1
                            },
                            None => desc[t]@.path.len() == rootv.len() + 1 || !(exists|s: int|
                                0 <= s < desc.len() && (#[trigger] desc[s])@.kind
                                    == FileNodeType::Folder && desc[s]@.path
                                    == desc[t]@.path.drop_last()),
                        }
                    &&& forall|t: int|
                        0 <= t < nodes@.len() && (#[trigger] nodes@[t])@.parent_id is Some ==> (
                        exists|j: int|
                            0 <= j < nodes@.len() && (#[trigger] nodes@[j])@.id
                                == nodes@[t]@.parent_id->0 && nodes@[j]@.node_type
                                == FileNodeType::Folder)
                },
                Err(FsError::PartialScan(d)) => {
                    &&& !fs.is_dir(rootv)
                    &&& d@ == join_spec(rootv)
                },
                Err(_) => false,
            }
        }),
{
    if !dir_exists(fs, root) {
        return Err(FsError::PartialScan(join_path(root)));
    }
    let ghost orig = fs.entries@;
    let ghost rootv = root.deep_view();
    let ghost dpred = |e: FsEntry| crate::fs_model::strict_descendant(rootv, e@.path);
    let n = fs.entries.len();
    let mut ix: Vec<usize> = Vec::new();
    let mut m: usize = 0;
    proof {
        reveal(Seq::filter);
        assert(orig.take(0).filter(dpred) =~= Seq::<FsEntry>::empty());
    }
    while m < n
        invariant
            m <= n,
            n == orig.len(),
            orig == fs.entries@,
            rootv == root.deep_view(),
            dpred == (|e: FsEntry| crate::fs_model::strict_descendant(rootv, e@.path)),
            ix@.len() == orig.take(m as int).filter(dpred).len(),
            forall|t: int|
                0 <= t < ix@.len() ==> (#[trigger] ix@[t]) < n && orig[ix@[t] as int] == orig.take(
                    m as int,
                ).filter(dpred)[t],
        decreases n - m,
    {
        proof {
            reveal(Seq::filter);
            assert(orig.take(m as int + 1).drop_last() =~= orig.take(m as int));
            assert(orig.take(m as int + 1).last() == orig[m as int]);
        }
        let e = &fs.entries[m];
        if crate::commands::is_descendant(root, &e.path) {
            ix.push(m);
            proof {
                assert(orig.take(m as int + 1).filter(dpred) =~= orig.take(m as int).filter(
                    dpred,
                ).push(orig[m as int]));
            }
        } else {
            proof {
                assert(orig.take(m as int + 1).filter(dpred) =~= orig.take(m as int).filter(dpred));
            }
        }
        m = m + 1;
    }
    proof {
        assert(orig.take(n as int) =~= orig);
    }
    let ghost desc = descendants_of(orig, rootv);
    let count = ix.len();
    let mut nodes: Vec<LinkedNode> = Vec::new();
    let mut t: usize = 0;
    while t < count
        invariant
            t <= count,
            count == desc.len(),
            orig == fs.entries@,
            rootv == root.deep_view(),
            dpred == (|e: FsEntry| crate::fs_model::strict_descendant(rootv, e@.path)),
            desc == descendants_of(orig, rootv),
            desc == orig.filter(dpred),
            ix@.len() == count,
            forall|s: int|
                0 <= s < count ==> (#[trigger] ix@[s]) < orig.len() && orig[ix@[s] as int]
                    == desc[s],
            nodes@.len() == t,
            forall|s: int| 0 <= s < t ==> (#[trigger] nodes@[s])@.id == s as u64,
            forall|s: int|
                0 <= s < t ==> {
                    let nv = (#[trigger] nodes@[s])@;
                    &&& nv.name == desc[s]@.path.last()
                    &&& nv.path == join_spec(desc[s]@.path)
                    &&& nv.node_type == desc[s]@.kind
                    &&& nv.expanded == false
                },
            forall|s: int|
                0 <= s < t ==> match (#[trigger] nodes@[s])@.parent_id {
                    Some(pid) => {
                        &&& 0 <= pid < count
                        &&& desc[pid as int]@.kind == FileNodeType::Folder
                        &&& desc[pid as int]@.path == desc[s]@.path.drop_last()
                        &&& desc[s]@.path.len() > rootv.len() + 1
                    },
                    None => desc[s]@.path.len() == rootv.len() + 1 || !(exists|q: int|
                        0 <= q < desc.len() && (#[trigger] desc[q])@.kind == FileNodeType::Folder
                            && desc[q]@.path == desc[s]@.path.drop_last()),
                },
        decreases count - t,
    {
        let eix = ix[t];
        let e = &fs.entries[eix];
        proof {
            assert(orig[eix as int] == desc[t as int]);
            orig.lemma_filter_pred(dpred, t as int);
            assert(desc[t as int]@.path.len() > rootv.len());
        }
        let last_ix = e.path.len() - 1;
        let name: String = e.path[last_ix].clone();
        let disp = join_path(&e.path);
        let parent_id: Option<u64> = if e.path.len() == root.len() + 1 {
            None
        } else {
            let par = parent_vec(&e.path);
            let mut s: usize = 0;
            let mut found: Option<u64> = None;
            while s < count && found.is_none()
                invariant
                    s <= count,
                    count == desc.len(),
                    orig == fs.entries@,
                    ix@.len() == count,
                    forall|q: int|
                        0 <= q < count ==> (#[trigger] ix@[q]) < orig.len() && orig[ix@[q] as int]
                            == desc[q],
                    par.deep_view() == desc[t as int]@.path.drop_last(),
                    match found {
                        None => forall|q: int|
                            0 <= q < s ==> !((#[trigger] desc[q])@.kind == FileNodeType::Folder
                                && desc[q]@.path == desc[t as int]@.path.drop_last()),
                        Some(pid) => {
                            &&& 0 <= pid < count
                            &&& desc[pid as int]@.kind == FileNodeType::Folder
                            &&& desc[pid as int]@.path == desc[t as int]@.path.drop_last()
                        },
                    },
                decreases count - s,
            {
                let f = &fs.entries[ix[s]];
                let f_is_folder = match f.kind {
                    FileNodeType::Folder => true,
                    FileNodeType::Md => false,
                };
                if f_is_folder && crate::fs_model::path_eq(&f.path, &par) {
                    found = Some(s as u64);
                }
                s = s + 1;
            }
            found
        };
        let node = LinkedNode {
            id: t as u64,
            parent_id,
            name,
            path: disp,
            node_type: e.kind,
            expanded: false,
        };
        nodes.push(node);
        t = t + 1;
    }
    proof {
        assert forall|s: int|
            0 <= s < nodes@.len() && (#[trigger] nodes@[s])@.parent_id is Some implies exists|
            j: int,
        |
            0 <= j < nodes@.len() && (#[trigger] nodes@[j])@.id == nodes@[s]@.parent_id->0
                && nodes@[j]@.node_type == FileNodeType::Folder by {
            let pid = nodes@[s]@.parent_id->0;
            assert(nodes@[pid as int]@.id == pid);
            assert(nodes@[pid as int]@.node_type == FileNodeType::Folder);
        }
    }
    Ok(nodes)
}

#[derive(Debug)]
/// A node of the nested-tree mode: children attached as an owned, sorted
/// sequence instead of parent links.
pub struct NestedNode {
    pub name: String,
    pub path: String,
    pub node_type: FileNodeType,
    pub expanded: bool,
    pub children: Vec<NestedNode>,
}

/// The flat image of one nested node, children aside.
pub open spec fn nested_view(n: NestedNode) -> NodeView {
    NodeView { name: n.name@, path: n.path@, node_type: n.node_type, expanded: n.expanded }
}

/// The flat images of a nested sibling list.
pub open spec fn nested_views(s: Seq<NestedNode>) -> Seq<NodeView> {
    s.map_values(|n: NestedNode| nested_view(n))
}

/// The longest entry path of the model, in components.
pub open spec fn max_depth(entries: Seq<FsEntry>) -> nat
    decreases entries.len(),
{
    if entries.len() == 0 {
        0
    } else {
        let rest = max_depth(entries.drop_last());
        if entries.last()@.path.len() > rest {
            entries.last()@.path.len()
        } else {
            rest
        }
    }
}

/// Every entry path is at most `max_depth` long.
pub proof fn lemma_max_depth(entries: Seq<FsEntry>, i: int)
    requires
        0 <= i < entries.len(),
    ensures
        (#[trigger] entries[i])@.path.len() <= max_depth(entries),
    decreases entries.len(),
{
    if i < entries.len() - 1 {
        lemma_max_depth(entries.drop_last(), i);
    }
}

/// A correct nested sibling list for `dir`, to recursion depth `fuel`: the
/// same nodes the model holds under `dir`, sorted; every markdown node is a
/// leaf; and (while fuel lasts) every folder node owns a correct nested list
/// for its own path. A scan picks its fuel larger than the deepest entry, so
/// no real subtree is ever cut short.
pub open spec fn nested_wf(fs: Fs, dir: Seq<Seq<char>>, s: Seq<NestedNode>, fuel: nat) -> bool
    decreases fuel,
{
    &&& nodes_sorted(nested_views(s))
    &&& nested_views(s).to_multiset() == child_nodes(fs, dir).to_multiset()
    &&& forall|i: int| 0 <= i < s.len() ==> ((#[trigger] s[i]).children@.len() == 0 || fuel > 0)
    &&& fuel > 0 ==> forall|i: int|
        0 <= i < s.len() ==> match (#[trigger] s[i]).node_type {
            FileNodeType::Folder => nested_wf(
                fs,
                dir.push(s[i].name@),
                s[i].children@,
                (fuel - 1) as nat,
            ),
            FileNodeType::Md => s[i].children@.len() == 0,
        }
}

/// The fuel a nested scan of `root` runs with: one more level than the
/// deepest entry could need.
pub open spec fn nested_fuel(fs: Fs, root: Seq<Seq<char>>) -> nat {
    if max_depth(fs.entries@) + 1 > root.len() {
        (max_depth(fs.entries@) + 1 - root.len()) as nat
    } else {
        1
    }
}

/// Scans `root` into the nested-tree shape: each folder node owns its
/// children, every level fully sorted. Fails only when `root` is not a
/// directory.
pub fn scan_recursive_nested(fs: &Fs, root: &Vec<String>) -> (r: Result<Vec<NestedNode>, FsError>)
    ensures
        ({
            let rootv = root.deep_view();
            match r {
                Ok(nodes) => {
                    &&& fs.is_dir(rootv)
                    &&& nested_wf(*fs, rootv, nodes@, nested_fuel(*fs, rootv))
                },
                Err(FsError::PartialScan(d)) => {
                    &&& !fs.is_dir(rootv)
                    &&& d@ == join_spec(rootv)
                },
                Err(_) => false,
            }
        }),
{
    if !dir_exists(fs, root) {
        return Err(FsError::PartialScan(join_path(root)));
    }
    let mut md: usize = 0;
    let mut t: usize = 0;
    let n = fs.entries.len();
    while t < n
        invariant
            t <= n,
            n == fs.entries@.len(),
            md as nat == max_depth(fs.entries@.take(t as int)),
        decreases n - t,
    {
        proof {
            assert(fs.entries@.take(t as int + 1).drop_last() =~= fs.entries@.take(t as int));
            assert(fs.entries@.take(t as int + 1).last() == fs.entries@[t as int]);
        }
        let l = fs.entries[t].path.len();
        if l > md {
            md = l;
        }
        t = t + 1;
    }
    proof {
        assert(fs.entries@.take(n as int) =~= fs.entries@);
    }
    let rl = root.len();
    let fuel: u128 = if (md as u128) + 1 > (rl as u128) {
        (md as u128) + 1 - (rl as u128)
    } else {
        1
    };
    proof {
        assert(fuel as nat == nested_fuel(*fs, root.deep_view()));
    }
    let nodes = build_nested(fs, root, fuel);
    Ok(nodes)
}

/// Builds the nested sibling list of `dir`, recursing into folder children
/// while the fuel shows the model can still hold deeper entries.
fn build_nested(fs: &Fs, dir: &Vec<String>, fuel: u128) -> (r: Vec<NestedNode>)
    requires
        fs.is_dir(dir.deep_view()),
        dir.deep_view().len() + fuel as nat > max_depth(fs.entries@),
    ensures
        nested_wf(*fs, dir.deep_view(), r@, fuel as nat),
    decreases fuel,
{
    broadcast use vstd::seq_lib::group_to_multiset_ensures;

    let ghost dirv = dir.deep_view();
    let mut kids: Vec<FileNode> = match open_folder(fs, dir) {
        Ok(k) => k,
        Err(_) => {
            proof {
                assert(false);
            }
            Vec::new()
        },
    };
    let ghost kidsv = kids@;
    let mut out: Vec<NestedNode> = Vec::new();
    let mut t: usize = 0;
    let count = kids.len();
    proof {
        assert(nested_views(out@) =~= views_of(kidsv).take(0));
        assert(kidsv.skip(0) =~= kidsv);
    }
    while t < count
        invariant
            t <= count,
            count == kidsv.len(),
            kids@ == kidsv.skip(t as int),
            dirv == dir.deep_view(),
            fs.is_dir(dirv),
            dirv.len() + fuel as nat > max_depth(fs.entries@),
            nodes_sorted(views_of(kidsv)),
            views_of(kidsv).to_multiset() == child_nodes(*fs, dirv).to_multiset(),
            nested_views(out@) == views_of(kidsv).take(t as int),
            forall|i: int|
                0 <= i < t ==> ((#[trigger] out@[i]).children@.len() == 0 || fuel > 0),
            forall|i: int|
                0 <= i < t ==> match (#[trigger] out@[i]).node_type {
                    FileNodeType::Folder => fuel >= 1 && nested_wf(
                        *fs,
                        dirv.push(out@[i].name@),
                        out@[i].children@,
                        (fuel - 1) as nat,
                    ),
                    FileNodeType::Md => out@[i].children@.len() == 0,
                },
        decreases count - t,
    {
        proof {
            assert(kids@[0] == kidsv[t as int]);
        }
        let kid = kids.remove(0);
        let is_folder = match kid.node_type {
            FileNodeType::Folder => true,
            FileNodeType::Md => false,
        };
        let children: Vec<NestedNode> = if is_folder {
            let cpath = crate::resolver::push_path(dir, kid.name.clone());
            proof {
                assert(views_of(kidsv)[t as int] == kid@);
                assert(views_of(kidsv).contains(kid@));
                vstd::seq_lib::to_multiset_contains(views_of(kidsv), kid@);
                assert(views_of(kidsv).to_multiset().count(kid@) > 0);
                assert(child_nodes(*fs, dirv).to_multiset().contains(kid@));
                lemma_kid_is_entry(*fs, dirv, kid@);
                assert(cpath.deep_view() =~~= dirv.push(kid@.name));
                assert(fs.is_dir(cpath.deep_view()));
                assert(dirv.len() + 1 <= max_depth(fs.entries@));
                assert(fuel >= 2);
            }
            build_nested(fs, &cpath, fuel - 1)
        } else {
            Vec::new()
        };
        let ghost childrenv = children@;
        let node = NestedNode {
            name: kid.name,
            path: kid.path,
            node_type: kid.node_type,
            expanded: kid.expanded,
            children,
        };
        let ghost before = out@;
        out.push(node);
        proof {
            assert(nested_view(out@.last()) == kidsv[t as int]@);
            assert(nested_views(out@) =~= nested_views(before).push(nested_view(out@.last())));
            assert(nested_views(out@) =~= views_of(kidsv).take(t as int + 1));
            assert(kids@ =~= kidsv.skip(t as int + 1));
        }
        t = t + 1;
    }
    proof {
        assert(views_of(kidsv).take(count as int) =~= views_of(kidsv));
        assert(nested_wf(*fs, dirv, out@, fuel as nat));
    }
    out
}

/// A child node of `dir` stems from a folder or file entry of the model at
/// exactly `dir` plus its name; for a folder child that entry makes the
/// child's path a directory of the model.
proof fn lemma_kid_is_entry(fs: Fs, dirv: Seq<Seq<char>>, kv: NodeView)
    requires
        child_nodes(fs, dirv).to_multiset().contains(kv),
    ensures
        kv.node_type == FileNodeType::Folder ==> fs.is_dir(dirv.push(kv.name)),
        dirv.len() + 1 <= max_depth(fs.entries@),
{
    broadcast use vstd::seq_lib::group_to_multiset_ensures;

    let cpred = |e: FsEntry| child_of(dirv, e@.path);
    let cf = fs.entries@.filter(cpred);
    assert(child_nodes(fs, dirv).contains(kv));
    let j = choose|j: int| 0 <= j < child_nodes(fs, dirv).len() && child_nodes(fs, dirv)[j] == kv;
    assert(child_nodes(fs, dirv)[j] == node_of_entry(cf[j]@));
    fs.entries@.lemma_filter_pred(cpred, j);
    crate::commands::lemma_filter_elem(fs.entries@, cpred, j);
    let m = choose|m: int|
        0 <= m < fs.entries@.len() && fs.entries@[m] == cf[j];
    assert(child_of(dirv, cf[j]@.path));
    assert(cf[j]@.path =~= dirv.push(kv.name));
    lemma_max_depth(fs.entries@, m);
}

/// One event of a scan's ordered delivery.
pub enum ScanEvent {
    /// Emitted once, first: the consumer discards prior state for this root.
    PathChanged(String),
    /// The complete, fully sorted batch of discovered nodes.
    AddNodes(Vec<FileNode>),
    /// Emitted once, last, even when nothing was found.
    ScanComplete(String),
}

/// Scans `root` one level deep and returns the ordered event sequence of the
/// scan: `path-changed` first, one batch of sorted nodes when the directory
/// is not empty, `scan-complete` last. An empty directory emits exactly the
/// two framing events. Fails only when `root` itself is not a directory.
pub fn scan_folder(fs: &Fs, root: &Vec<String>) -> (r: Result<Vec<ScanEvent>, FsError>)
    ensures
        ({
            let rootv = root.deep_view();
            match r {
                Ok(events) => {
                    &&& fs.is_dir(rootv)
                    &&& events@.len() == if child_nodes(*fs, rootv).len() == 0 {
                        2int
                    } else {
                        3int
                    }
                    &&& events@.first() matches ScanEvent::PathChanged(p) && p@ == join_spec(rootv)
                    &&& events@.last() matches ScanEvent::ScanComplete(p) && p@ == join_spec(rootv)
                    &&& child_nodes(*fs, rootv).len() > 0 ==> (events@[1] matches
                        ScanEvent::AddNodes(nodes) && nodes_sorted(views_of(nodes@)) && views_of(
                        nodes@,
                    ).to_multiset() == child_nodes(*fs, rootv).to_multiset())
                },
                Err(FsError::PartialScan(d)) => {
                    &&& !fs.is_dir(rootv)
                    &&& d@ == join_spec(rootv)
                },
                Err(_) => false,
            }
        }),
{
    broadcast use vstd::seq_lib::group_to_multiset_ensures;

    match open_folder(fs, root) {
        Err(e) => Err(e),
        Ok(nodes) => {
            let mut events: Vec<ScanEvent> = Vec::new();
            events.push(ScanEvent::PathChanged(join_path(root)));
            if nodes.len() > 0 {
                proof {
                    assert(views_of(nodes@).to_multiset().len() == views_of(nodes@).len());
                    assert(child_nodes(*fs, root.deep_view()).to_multiset().len() == child_nodes(
                        *fs,
                        root.deep_view(),
                    ).len());
                }
                events.push(ScanEvent::AddNodes(nodes));
            } else {
                proof {
                    assert(views_of(nodes@).to_multiset().len() == views_of(nodes@).len());
                    assert(child_nodes(*fs, root.deep_view()).to_multiset().len() == child_nodes(
                        *fs,
                        root.deep_view(),
                    ).len());
                }
            }
            events.push(ScanEvent::ScanComplete(join_path(root)));
            Ok(events)
        },
    }
}

} // verus!
