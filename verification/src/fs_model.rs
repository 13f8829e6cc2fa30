//! The modeled filesystem: a subtree below an implicit root directory, held
//! as plain data. Paths are component lists relative to the root; the root
//! itself is the empty path and always exists as a folder. The unverified
//! adapter reads the real directory tree into this shape and writes the
//! model's mutations back out.

use vstd::prelude::*;

use crate::file_node::FileNodeType;

verus! {

/// One entry of the modeled subtree: its path as components below the root,
/// its kind, and (for a markdown file) its content.
pub struct FsEntry {
    pub path: Vec<String>,
    pub kind: FileNodeType,
    pub content: String,
}

/// Mathematical image of an entry.
pub struct EntryView {
    pub path: Seq<Seq<char>>,
    pub kind: FileNodeType,
    pub content: Seq<char>,
}

impl View for FsEntry {
    type V = EntryView;

    open spec fn view(&self) -> EntryView {
        EntryView { path: self.path.deep_view(), kind: self.kind, content: self.content@ }
    }
}

/// The modeled filesystem.
pub struct Fs {
    pub entries: Vec<FsEntry>,
}

/// `p` lies strictly below `anc`.
pub open spec fn strict_descendant(anc: Seq<Seq<char>>, p: Seq<Seq<char>>) -> bool {
    p.len() > anc.len() && p.take(anc.len() as int) == anc
}

/// `p` is a direct child of `dir`.
pub open spec fn child_of(dir: Seq<Seq<char>>, p: Seq<Seq<char>>) -> bool {
    p.len() == dir.len() + 1 && p.take(dir.len() as int) == dir
}

impl Fs {
    /// Some entry has exactly this path.
    pub open spec fn contains_path(self, p: Seq<Seq<char>>) -> bool {
        exists|i: int| 0 <= i < self.entries@.len() && (#[trigger] self.entries@[i])@.path == p
    }

    /// `p` names a directory: the implicit root, or a folder entry.
    pub open spec fn is_dir(self, p: Seq<Seq<char>>) -> bool {
        p.len() == 0 || exists|i: int|
            0 <= i < self.entries@.len() && (#[trigger] self.entries@[i])@.path == p
                && self.entries@[i]@.kind == FileNodeType::Folder
    }

    /// Well-formed model: paths are unique and never empty (the root itself
    /// is not an entry).
    pub open spec fn wf(self) -> bool {
        (forall|i: int, j: int|
            0 <= i < j < self.entries@.len() ==> (#[trigger] self.entries@[i])@.path != (
            #[trigger] self.entries@[j])@.path) && (forall|i: int|
            0 <= i < self.entries@.len() ==> (#[trigger] self.entries@[i])@.path.len() >= 1)
    }
}

/// Compares two component paths.
pub fn path_eq(a: &Vec<String>, b: &Vec<String>) -> (r: bool)
    ensures
        r == (a.deep_view() == b.deep_view()),
{
    if a.len() != b.len() {
        proof {
            assert(a.deep_view().len() == a@.len());
            assert(b.deep_view().len() == b@.len());
        }
        return false;
    }
    let n = a.len();
    let mut i: usize = 0;
    while i < n
        invariant
            i <= n,
            n == a@.len() == b@.len(),
            forall|j: int| 0 <= j < i ==> a.deep_view()[j] == b.deep_view()[j],
        decreases n - i,
    {
        let ax: &String = &a[i];
        let bx: &String = &b[i];
        if !ax.eq(bx) {
            proof {
                assert(a.deep_view()[i as int] != b.deep_view()[i as int]);
            }
            return false;
        }
        i = i + 1;
    }
    proof {
        assert(a.deep_view() =~~= b.deep_view());
    }
    true
}

/// Finds the entry with the given path.
pub fn find_path(fs: &Fs, p: &Vec<String>) -> (r: Option<usize>)
    ensures
        match r {
            Some(i) => i < fs.entries@.len() && (fs.entries@[i as int])@.path == p.deep_view(),
            None => !fs.contains_path(p.deep_view()),
        },
{
    let n = fs.entries.len();
    let mut i: usize = 0;
    while i < n
        invariant
            i <= n,
            n == fs.entries@.len(),
            forall|j: int| 0 <= j < i ==> (#[trigger] fs.entries@[j])@.path != p.deep_view(),
        decreases n - i,
    {
        if path_eq(&fs.entries[i].path, p) {
            return Some(i);
        }
        i = i + 1;
    }
    None
}

/// Whether `p` names a directory of the model.
pub fn dir_exists(fs: &Fs, p: &Vec<String>) -> (r: bool)
    ensures
        r == fs.is_dir(p.deep_view()),
{
    if p.len() == 0 {
        proof {
            assert(p.deep_view().len() == 0);
        }
        return true;
    }
    proof {
        assert(p.deep_view().len() == p@.len());
    }
    let n = fs.entries.len();
    let mut i: usize = 0;
    while i < n
        invariant
            i <= n,
            n == fs.entries@.len(),
            forall|j: int|
                0 <= j < i ==> !((#[trigger] fs.entries@[j])@.path == p.deep_view()
                    && fs.entries@[j]@.kind == FileNodeType::Folder),
        decreases n - i,
    {
        let is_folder = match fs.entries[i].kind {
            FileNodeType::Folder => true,
            FileNodeType::Md => false,
        };
        if is_folder && path_eq(&fs.entries[i].path, p) {
            return true;
        }
        i = i + 1;
    }
    false
}

/// Whether some entry already has this path.
pub fn path_taken(fs: &Fs, p: &Vec<String>) -> (r: bool)
    ensures
        r == fs.contains_path(p.deep_view()),
{
    match find_path(fs, p) {
        Some(_) => true,
        None => false,
    }
}

/// The display form of a component path: components joined with `/`.
pub open spec fn join_spec(p: Seq<Seq<char>>) -> Seq<char>
    decreases p.len(),
{
    if p.len() == 0 {
        Seq::empty()
    } else if p.len() == 1 {
        p[0]
    } else {
        join_spec(p.drop_last()) + seq!['/'] + p.last()
    }
}

/// Joins a component path for display.
pub fn join_path(p: &Vec<String>) -> (r: String)
    ensures
        r@ == join_spec(p.deep_view()),
{
    proof {
        reveal_strlit("/");
    }
    let mut r = String::new();
    let n = p.len();
    let mut i: usize = 0;
    proof {
        assert(p.deep_view().take(0) =~~= Seq::<Seq<char>>::empty());
    }
    while i < n
        invariant
            i <= n,
            n == p@.len(),
            r@ == join_spec(p.deep_view().take(i as int)),
        decreases n - i,
    {
        proof {
            reveal_strlit("/");
            assert(p.deep_view().take(i as int + 1).drop_last() =~~= p.deep_view().take(i as int));
            assert(p.deep_view().take(i as int + 1).last() == p.deep_view()[i as int]);
        }
        if i > 0 {
            r.append("/");
        }
        r.append(p[i].as_str());
        proof {
            assert(r@ =~= join_spec(p.deep_view().take(i as int + 1)));
        }
        i = i + 1;
    }
    proof {
        assert(p.deep_view().take(n as int) =~~= p.deep_view());
    }
    r
}

} // verus!
