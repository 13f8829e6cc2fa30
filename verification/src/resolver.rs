//! The unique-name resolver: computes the first non-colliding target path
//! for a creation, following `name`, `name (1)`, `name (2)`, … for folders
//! and `stem.md`, `stem (1).md`, … for markdown files. The probe budget is
//! one candidate per existing entry plus one; when every candidate in the
//! budget is taken, the resolver reports exhaustion instead of looping on.

use vstd::prelude::*;

use crate::fs_model::Fs;
use crate::order::md_suffix;
use crate::text::{dec_rep, u64_to_dec};

verus! {

/// The `k`-th candidate folder name: the name itself, then `name (k)`.
pub open spec fn dir_candidate(name: Seq<char>, k: nat) -> Seq<char> {
    if k == 0 {
        name
    } else {
        name + seq![' ', '('] + dec_rep(k) + seq![')']
    }
}

/// The creation stem of a markdown name: every trailing `.md` stripped, so
/// the final name carries exactly one `.md` whatever the caller supplied.
pub open spec fn norm_stem(s: Seq<char>) -> Seq<char>
    decreases s.len(),
{
    if md_suffix(s) {
        norm_stem(s.take(s.len() - 3))
    } else {
        s
    }
}

/// The `k`-th candidate markdown file name: `stem.md`, then `stem (k).md`.
pub open spec fn md_candidate(stem: Seq<char>, k: nat) -> Seq<char> {
    if k == 0 {
        stem + seq!['.', 'm', 'd']
    } else {
        stem + seq![' ', '('] + dec_rep(k) + seq![')', '.', 'm', 'd']
    }
}

/// The first `k` (starting at the given one) whose folder candidate is free,
/// probing one candidate per existing entry plus one.
pub open spec fn first_free_dir(fs: Fs, dir: Seq<Seq<char>>, name: Seq<char>, k: nat) -> Option<
    nat,
>
    decreases fs.entries@.len() + 1 - k,
{
    if k > fs.entries@.len() {
        None
    } else if !fs.contains_path(dir.push(dir_candidate(name, k))) {
        Some(k)
    } else {
        first_free_dir(fs, dir, name, k + 1)
    }
}

/// The first `k` whose markdown candidate is free.
pub open spec fn first_free_md(fs: Fs, dir: Seq<Seq<char>>, stem: Seq<char>, k: nat) -> Option<
    nat,
>
    decreases fs.entries@.len() + 1 - k,
{
    if k > fs.entries@.len() {
        None
    } else if !fs.contains_path(dir.push(md_candidate(stem, k))) {
        Some(k)
    } else {
        first_free_md(fs, dir, stem, k + 1)
    }
}

/// A found folder candidate is indeed free.
pub proof fn lemma_first_free_dir_free(fs: Fs, dir: Seq<Seq<char>>, name: Seq<char>, k: nat)
    requires
        first_free_dir(fs, dir, name, k) is Some,
    ensures
        !fs.contains_path(dir.push(dir_candidate(name, first_free_dir(fs, dir, name, k)->0))),
        first_free_dir(fs, dir, name, k)->0 >= k,
    decreases fs.entries@.len() + 1 - k,
{
    if k > fs.entries@.len() {
    } else if !fs.contains_path(dir.push(dir_candidate(name, k))) {
    } else {
        lemma_first_free_dir_free(fs, dir, name, k + 1);
    }
}

/// A found markdown candidate is indeed free.
pub proof fn lemma_first_free_md_free(fs: Fs, dir: Seq<Seq<char>>, stem: Seq<char>, k: nat)
    requires
        first_free_md(fs, dir, stem, k) is Some,
    ensures
        !fs.contains_path(dir.push(md_candidate(stem, first_free_md(fs, dir, stem, k)->0))),
        first_free_md(fs, dir, stem, k)->0 >= k,
    decreases fs.entries@.len() + 1 - k,
{
    if k > fs.entries@.len() {
    } else if !fs.contains_path(dir.push(md_candidate(stem, k))) {
    } else {
        lemma_first_free_md_free(fs, dir, stem, k + 1);
    }
}

/// Builds the `k`-th candidate folder name.
pub fn dir_candidate_exec(name: &str, k: u64) -> (r: String)
    ensures
        r@ == dir_candidate(name@, k as nat),
{
    if k == 0 {
        let r = String::from_str(name);
        r
    } else {
        proof {
            reveal_strlit(" (");
            reveal_strlit(")");
        }
        let mut s = String::from_str(name);
        s.append(" (");
        let d = u64_to_dec(k);
        s.append(d.as_str());
        s.append(")");
        proof {
            assert(s@ =~= dir_candidate(name@, k as nat));
        }
        s
    }
}

/// Builds the `k`-th candidate markdown file name.
pub fn md_candidate_exec(stem: &str, k: u64) -> (r: String)
    ensures
        r@ == md_candidate(stem@, k as nat),
{
    if k == 0 {
        proof {
            reveal_strlit(".md");
        }
        let mut s = String::from_str(stem);
        s.append(".md");
        proof {
            assert(s@ =~= md_candidate(stem@, 0));
        }
        s
    } else {
        proof {
            reveal_strlit(" (");
            reveal_strlit(").md");
        }
        let mut s = String::from_str(stem);
        s.append(" (");
        let d = u64_to_dec(k);
        s.append(d.as_str());
        s.append(").md");
        proof {
            assert(s@ =~= md_candidate(stem@, k as nat));
        }
        s
    }
}

/// The creation stem of a caller-supplied markdown name.
pub fn md_stem(name: &str) -> (r: &str)
    ensures
        r@ == norm_stem(name@),
{
    let mut s: &str = name;
    loop
        invariant
            norm_stem(name@) == norm_stem(s@),
        decreases s@.len(),
    {
        let v = crate::text::to_chars(s);
        if crate::order::has_md_suffix(&v) {
            let n = s.unicode_len();
            let t = s.substring_char(0, n - 3);
            proof {
                assert(t@ =~= s@.take(s@.len() - 3));
            }
            s = t;
        } else {
            return s;
        }
    }
}

/// A fresh path: the directory's components, then the candidate name.
pub fn push_path(dir: &Vec<String>, name: String) -> (r: Vec<String>)
    ensures
        r.deep_view() == dir.deep_view().push(name@),
{
    let n = dir.len();
    let mut r: Vec<String> = Vec::new();
    let mut i: usize = 0;
    while i < n
        invariant
            i <= n,
            n == dir@.len(),
            r.deep_view() =~~= dir.deep_view().take(i as int),
        decreases n - i,
    {
        let c: String = dir[i].clone();
        let ghost mid = r.deep_view();
        r.push(c);
        proof {
            assert(r.deep_view() =~~= mid.push(c@));
            assert(r.deep_view() =~~= dir.deep_view().take(i as int + 1));
        }
        i = i + 1;
    }
    proof {
        assert(dir.deep_view().take(n as int) =~~= dir.deep_view());
    }
    let ghost before = r.deep_view();
    r.push(name);
    proof {
        assert(r.deep_view() =~~= before.push(name@));
    }
    r
}

/// The first free folder path `dir/name`, `dir/name (1)`, …, or `None` when
/// the whole probe budget is taken.
pub fn unique_dir_path(fs: &Fs, dir: &Vec<String>, name: &str) -> (r: Option<Vec<String>>)
    ensures
        ({
            let ff = first_free_dir(*fs, dir.deep_view(), name@, 0);
            match r {
                Some(p) => ff is Some && p.deep_view() == dir.deep_view().push(
                    dir_candidate(name@, ff->0),
                ),
                None => ff is None,
            }
        }),
{
    let bound = fs.entries.len();
    let mut k: usize = 0;
    loop
        invariant
            k <= bound,
            bound == fs.entries@.len(),
            first_free_dir(*fs, dir.deep_view(), name@, 0) == first_free_dir(
                *fs,
                dir.deep_view(),
                name@,
                k as nat,
            ),
        decreases bound - k,
    {
        let cand = dir_candidate_exec(name, k as u64);
        let p = push_path(dir, cand);
        if !crate::fs_model::path_taken(fs, &p) {
            return Some(p);
        }
        if k == bound {
            proof {
                let kk = k as nat;
                assert(first_free_dir(*fs, dir.deep_view(), name@, kk) == first_free_dir(
                    *fs,
                    dir.deep_view(),
                    name@,
                    kk + 1,
                ));
                assert(first_free_dir(*fs, dir.deep_view(), name@, kk + 1) is None);
            }
            return None;
        }
        k = k + 1;
    }
}

/// The first free markdown path `dir/stem.md`, `dir/stem (1).md`, …, or
/// `None` when the whole probe budget is taken. The stem is the caller's
/// name with every trailing `.md` stripped.
pub fn unique_md_path(fs: &Fs, dir: &Vec<String>, name: &str) -> (r: Option<Vec<String>>)
    ensures
        ({
            let stem = norm_stem(name@);
            let ff = first_free_md(*fs, dir.deep_view(), stem, 0);
            match r {
                Some(p) => ff is Some && p.deep_view() == dir.deep_view().push(
                    md_candidate(stem, ff->0),
                ),
                None => ff is None,
            }
        }),
{
    let stem = md_stem(name);
    let bound = fs.entries.len();
    let mut k: usize = 0;
    loop
        invariant
            k <= bound,
            bound == fs.entries@.len(),
            stem@ == norm_stem(name@),
            first_free_md(*fs, dir.deep_view(), stem@, 0) == first_free_md(
                *fs,
                dir.deep_view(),
                stem@,
                k as nat,
            ),
        decreases bound - k,
    {
        let cand = md_candidate_exec(stem, k as u64);
        let p = push_path(dir, cand);
        if !crate::fs_model::path_taken(fs, &p) {
            return Some(p);
        }
        if k == bound {
            proof {
                let kk = k as nat;
                assert(first_free_md(*fs, dir.deep_view(), stem@, kk) == first_free_md(
                    *fs,
                    dir.deep_view(),
                    stem@,
                    kk + 1,
                ));
                assert(first_free_md(*fs, dir.deep_view(), stem@, kk + 1) is None);
            }
            return None;
        }
        k = k + 1;
    }
}

} // verus!
