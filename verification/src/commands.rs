//! Mutation commands over the modeled filesystem: create a folder, create a
//! markdown file, delete a node. Each resolves names through the unique-name
//! resolver, mutates the model exactly as stated, and reports failures with
//! the offending display path.

use vstd::prelude::*;

use crate::file_node::FileNodeType;
use crate::fs_model::{dir_exists, find_path, join_path, join_spec, path_eq, strict_descendant, Fs,
    FsEntry};
use crate::resolver::{dir_candidate, first_free_dir, first_free_md, md_candidate, norm_stem,
    unique_dir_path, unique_md_path};

verus! {

/// Why a mutation or scan failed; each variant carries the display form of
/// the offending path.
#[derive(Debug)]
pub enum FsError {
    /// The delete target does not exist.
    NotFound(String),
    /// The unique-name probe budget was exhausted: every candidate is taken.
    AlreadyExists(String),
    /// The operation's base directory is not a directory of the tree.
    IOFailure(String),
    /// The scanned root itself is inaccessible.
    PartialScan(String),
}

impl FsError {
    /// The human-readable text of the error: a short description and the
    /// offending path.
    pub open spec fn message_spec(self) -> Seq<char> {
        match self {
            FsError::NotFound(p) => "node does not exist: "@ + p@,
            FsError::AlreadyExists(p) => "no free name under: "@ + p@,
            FsError::IOFailure(p) => "not a directory: "@ + p@,
            FsError::PartialScan(p) => "cannot access scan root: "@ + p@,
        }
    }

    /// Renders the error for display.
    pub fn message(&self) -> (r: String)
        ensures
            r@ == self.message_spec(),
    {
        match self {
            FsError::NotFound(p) => {
                let mut s = String::from_str("node does not exist: ");
                s.append(p.as_str());
                s
            },
            FsError::AlreadyExists(p) => {
                let mut s = String::from_str("no free name under: ");
                s.append(p.as_str());
                s
            },
            FsError::IOFailure(p) => {
                let mut s = String::from_str("not a directory: ");
                s.append(p.as_str());
                s
            },
            FsError::PartialScan(p) => {
                let mut s = String::from_str("cannot access scan root: ");
                s.append(p.as_str());
                s
            },
        }
    }
}

/// Elements of a filtered sequence occur in the original.
pub(crate) proof fn lemma_filter_elem<A>(s: Seq<A>, pred: spec_fn(A) -> bool, i: int)
    requires
        0 <= i < s.filter(pred).len(),
    ensures
        s.contains(s.filter(pred)[i]),
    decreases s.len(),
{
    reveal(Seq::filter);
    if s.len() > 0 {
        let dl = s.drop_last();
        if pred(s.last()) && i == s.filter(pred).len() - 1 {
            assert(s[s.len() - 1] == s.filter(pred)[i]);
        } else {
            lemma_filter_elem(dl, pred, i);
            let j = choose|j: int| 0 <= j < dl.len() && dl[j] == dl.filter(pred)[i];
            assert(s[j] == s.filter(pred)[i]);
        }
    }
}

/// Filtering keeps entry paths pairwise distinct.
proof fn lemma_filter_keeps_distinct(s: Seq<FsEntry>, pred: spec_fn(FsEntry) -> bool)
    requires
        forall|i: int, j: int| 0 <= i < j < s.len() ==> (#[trigger] s[i])@.path != (
        #[trigger] s[j])@.path,
    ensures
        forall|i: int, j: int|
            0 <= i < j < s.filter(pred).len() ==> (#[trigger] s.filter(pred)[i])@.path != (
            #[trigger] s.filter(pred)[j])@.path,
    decreases s.len(),
{
    reveal(Seq::filter);
    if s.len() > 0 {
        let dl = s.drop_last();
        assert(forall|i: int, j: int|
            0 <= i < j < dl.len() ==> (#[trigger] dl[i])@.path != (#[trigger] dl[j])@.path);
        lemma_filter_keeps_distinct(dl, pred);
        let f = s.filter(pred);
        assert forall|i: int, j: int|
            0 <= i < j < f.len() implies (#[trigger] f[i])@.path != (#[trigger] f[j])@.path by {
            if pred(s.last()) && j == f.len() - 1 && f == dl.filter(pred).push(s.last()) {
                lemma_filter_elem(dl, pred, i);
                let m = choose|m: int| 0 <= m < dl.len() && dl[m] == dl.filter(pred)[i];
                assert(s[m] == f[i]);
                assert(s[m]@.path != s[s.len() - 1]@.path);
            } else {
                assert(f[i] == dl.filter(pred)[i]);
                assert(f[j] == dl.filter(pred)[j]);
            }
        }
    }
}

/// Creates a folder named `name` (or `name (k)` for the first free `k`)
/// under `base_dir`. On success the model grows by exactly that folder entry
/// and the display path of the new folder is returned. Fails with
/// `IOFailure` when `base_dir` is not a directory, and with `AlreadyExists`
/// when the probe budget is exhausted; either failure leaves the model
/// unchanged.
pub fn add_folder(fs: &mut Fs, base_dir: &Vec<String>, name: &str) -> (r: Result<String, FsError>)
    requires
        old(fs).wf(),
    ensures
        final(fs).wf(),
        ({
            let dirv = base_dir.deep_view();
            let ff = first_free_dir(*old(fs), dirv, name@, 0);
            match r {
                Ok(disp) => {
                    &&& old(fs).is_dir(dirv)
                    &&& ff is Some
                    &&& final(fs).entries@.len() == old(fs).entries@.len() + 1
                    &&& final(fs).entries@.drop_last() == old(fs).entries@
                    &&& final(fs).entries@.last()@.path == dirv.push(dir_candidate(name@, ff->0))
                    &&& final(fs).entries@.last()@.kind == FileNodeType::Folder
                    &&& final(fs).entries@.last()@.content == Seq::<char>::empty()
                    &&& disp@ == join_spec(dirv.push(dir_candidate(name@, ff->0)))
                },
                Err(FsError::IOFailure(d)) => {
                    &&& !old(fs).is_dir(dirv)
                    &&& *final(fs) == *old(fs)
                    &&& d@ == join_spec(dirv)
                },
                Err(FsError::AlreadyExists(d)) => {
                    &&& old(fs).is_dir(dirv)
                    &&& ff is None
                    &&& *final(fs) == *old(fs)
                    &&& d@ == join_spec(dirv)
                },
                Err(_) => false,
            }
        }),
{
    if !dir_exists(fs, base_dir) {
        return Err(FsError::IOFailure(join_path(base_dir)));
    }
    match unique_dir_path(fs, base_dir, name) {
        None => Err(FsError::AlreadyExists(join_path(base_dir))),
        Some(p) => {
            let disp = join_path(&p);
            let ghost pv = p.deep_view();
            let ghost oldents = fs.entries@;
            let entry = FsEntry { path: p, kind: FileNodeType::Folder, content: String::new() };
            fs.entries.push(entry);
            proof {
                assert(fs.entries@.drop_last() =~= oldents);
                crate::resolver::lemma_first_free_dir_free(
                    *old(fs),
                    base_dir.deep_view(),
                    name@,
                    0,
                );
                assert(pv.len() >= 1);
                assert(fs.wf());
            }
            Ok(disp)
        },
    }
}

/// Creates a markdown file for `name` under `base_dir`: the name's stem with
/// exactly one `.md` extension, disambiguated as `stem (k).md` when taken,
/// holding `content` verbatim. On success the model grows by exactly that
/// file entry. Failures mirror `add_folder` and leave the model unchanged.
pub fn add_md_file(fs: &mut Fs, base_dir: &Vec<String>, name: &str, content: String) -> (r: Result<
    String,
    FsError,
>)
    requires
        old(fs).wf(),
    ensures
        final(fs).wf(),
        ({
            let dirv = base_dir.deep_view();
            let stem = norm_stem(name@);
            let ff = first_free_md(*old(fs), dirv, stem, 0);
            match r {
                Ok(disp) => {
                    &&& old(fs).is_dir(dirv)
                    &&& ff is Some
                    &&& final(fs).entries@.len() == old(fs).entries@.len() + 1
                    &&& final(fs).entries@.drop_last() == old(fs).entries@
                    &&& final(fs).entries@.last()@.path == dirv.push(md_candidate(stem, ff->0))
                    &&& final(fs).entries@.last()@.kind == FileNodeType::Md
                    &&& final(fs).entries@.last()@.content == content@
                    &&& disp@ == join_spec(dirv.push(md_candidate(stem, ff->0)))
                },
                Err(FsError::IOFailure(d)) => {
                    &&& !old(fs).is_dir(dirv)
                    &&& *final(fs) == *old(fs)
                    &&& d@ == join_spec(dirv)
                },
                Err(FsError::AlreadyExists(d)) => {
                    &&& old(fs).is_dir(dirv)
                    &&& ff is None
                    &&& *final(fs) == *old(fs)
                    &&& d@ == join_spec(dirv)
                },
                Err(_) => false,
            }
        }),
{
    if !dir_exists(fs, base_dir) {
        return Err(FsError::IOFailure(join_path(base_dir)));
    }
    match unique_md_path(fs, base_dir, name) {
        None => Err(FsError::AlreadyExists(join_path(base_dir))),
        Some(p) => {
            let disp = join_path(&p);
            let ghost pv = p.deep_view();
            let ghost oldents = fs.entries@;
            let entry = FsEntry { path: p, kind: FileNodeType::Md, content };
            fs.entries.push(entry);
            proof {
                assert(fs.entries@.drop_last() =~= oldents);
                crate::resolver::lemma_first_free_md_free(
                    *old(fs),
                    base_dir.deep_view(),
                    norm_stem(name@),
                    0,
                );
                assert(pv.len() >= 1);
                assert(fs.wf());
            }
            Ok(disp)
        },
    }
}

/// What a delete removes: the target itself and, when the target is a
/// folder, everything strictly below it.
pub open spec fn delete_removes(
    fsv: Fs,
    target: Seq<Seq<char>>,
    p: Seq<Seq<char>>,
) -> bool {
    p == target || (fsv.is_dir(target) && strict_descendant(target, p))
}

/// The keep-predicate of a delete: the entries it does not remove.
pub open spec fn delete_keep(fsv: Fs, target: Seq<Seq<char>>) -> spec_fn(FsEntry) -> bool {
    |e: FsEntry| !delete_removes(fsv, target, e@.path)
}

/// Deletes `base_dir/name`. When the target is absent the command fails with
/// `NotFound` and the model is unchanged; a folder is removed together with
/// every descendant, a file alone. The entries kept are exactly those the
/// delete does not remove, in their original order.
#[verifier::rlimit(60)]
pub fn delete_node(fs: &mut Fs, base_dir: &Vec<String>, name: &str) -> (r: Result<String, FsError>)
    requires
        old(fs).wf(),
    ensures
        final(fs).wf(),
        ({
            let target = base_dir.deep_view().push(name@);
            match r {
                Ok(disp) => {
                    &&& old(fs).contains_path(target)
                    &&& final(fs).entries@ == old(fs).entries@.filter(delete_keep(*old(fs), target))
                    &&& disp@ == join_spec(target)
                },
                Err(FsError::NotFound(d)) => {
                    &&& !old(fs).contains_path(target)
                    &&& *final(fs) == *old(fs)
                    &&& d@ == join_spec(target)
                },
                Err(_) => false,
            }
        }),
{
    proof {
        reveal(Seq::filter);
    }
    let target = crate::resolver::push_path(base_dir, String::from_str(name));
    let ghost targetv = target.deep_view();
    let disp = join_path(&target);
    match find_path(fs, &target) {
        None => Err(FsError::NotFound(disp)),
        Some(_) => {
            let ghost orig = fs.entries@;
            let ghost pred = delete_keep(*old(fs), targetv);
            let is_dir_target = dir_exists(fs, &target);
            let mut i: usize = 0;
            let mut m: usize = 0;
            let n0 = fs.entries.len();
            proof {
                assert(orig.len() == n0 as int);
                assert(orig.take(0).filter(pred) =~= Seq::<FsEntry>::empty());
                assert(orig.take(0).filter(pred) + orig.skip(0) =~= orig);
            }
            while i < fs.entries.len()
                invariant
                    old(fs).wf(),
                    pred == delete_keep(*old(fs), targetv),
                    orig.len() <= usize::MAX,
                    m <= orig.len(),
                    i as int == orig.take(m as int).filter(pred).len(),
                    i <= m,
                    fs.entries@ == orig.take(m as int).filter(pred) + orig.skip(m as int),
                    orig == old(fs).entries@,
                    targetv == target.deep_view(),
                    is_dir_target == old(fs).is_dir(targetv),
                decreases orig.len() - m,
            {
                proof {
                    reveal(Seq::filter);
                    assert(fs.entries@.len() == i + orig.len() - m);
                    assert(m < orig.len());
                    assert(orig.take(m as int + 1).drop_last() =~= orig.take(m as int));
                    assert(orig.take(m as int + 1).last() == orig[m as int]);
                    assert(fs.entries@[i as int] == orig.skip(m as int)[0]);
                    assert(orig.skip(m as int)[0] == orig[m as int]);
                }
                let e = &fs.entries[i];
                let mut removes = path_eq(&e.path, &target);
                if !removes && is_dir_target {
                    removes = is_descendant(&target, &e.path);
                }
                proof {
                    assert(pred(orig[m as int]) == !delete_removes(
                        *old(fs),
                        targetv,
                        orig[m as int]@.path,
                    ));
                    assert(removes == delete_removes(*old(fs), targetv, orig[m as int]@.path));
                }
                if removes {
                    let ghost before = fs.entries@;
                    let _ = fs.entries.remove(i);
                    proof {
                        assert(fs.entries@ =~= orig.take(m as int + 1).filter(pred) + orig.skip(
                            m as int + 1,
                        ));
                    }
                } else {
                    proof {
                        assert(orig.take(m as int + 1).filter(pred) =~= orig.take(
                            m as int,
                        ).filter(pred).push(orig[m as int]));
                        assert(fs.entries@ =~= orig.take(m as int + 1).filter(pred) + orig.skip(
                            m as int + 1,
                        ));
                    }
                    i = i + 1;
                }
                m = m + 1;
            }
            proof {
                assert(orig.take(orig.len() as int) =~= orig);
                assert(orig.skip(orig.len() as int) =~= Seq::<FsEntry>::empty());
                assert(fs.entries@ =~= orig.filter(pred));
                lemma_filter_keeps_distinct(orig, pred);
                assert forall|k: int| 0 <= k < fs.entries@.len() implies (
                #[trigger] fs.entries@[k])@.path.len() >= 1 by {
                    lemma_filter_elem(orig, pred, k);
                    let j = choose|j: int| 0 <= j < orig.len() && orig[j] == fs.entries@[k];
                }
                assert(fs.wf());
            }
            Ok(disp)
        },
    }
}

/// Whether `p` lies strictly below `anc`.
pub fn is_descendant(anc: &Vec<String>, p: &Vec<String>) -> (r: bool)
    ensures
        r == strict_descendant(anc.deep_view(), p.deep_view()),
{
    let n = anc.len();
    if p.len() <= n {
        proof {
            assert(p.deep_view().len() == p@.len());
            assert(anc.deep_view().len() == anc@.len());
        }
        return false;
    }
    let mut i: usize = 0;
    while i < n
        invariant
            i <= n,
            n == anc@.len(),
            p@.len() > n,
            forall|j: int| 0 <= j < i ==> p.deep_view()[j] == anc.deep_view()[j],
        decreases n - i,
    {
        let ax: &String = &anc[i];
        let px: &String = &p[i];
        if !px.eq(ax) {
            proof {
                assert(p.deep_view()[i as int] != anc.deep_view()[i as int]);
                assert(p.deep_view().take(n as int)[i as int] == p.deep_view()[i as int]);
            }
            return false;
        }
        i = i + 1;
    }
    proof {
        assert(p.deep_view().take(n as int) =~~= anc.deep_view());
    }
    true
}

} // verus!
