//! The natural sibling order: folders before markdown files, names compared
//! case-insensitively on their stems, with a trailing `" (n)"` duplicate
//! marker compared numerically rather than lexicographically.

use core::cmp::Ordering;
use vstd::multiset::Multiset;
use vstd::prelude::*;

use crate::file_node::FileNodeType;
use crate::text::{
    digits_val, is_digit, is_ws, lex_cmp, lex_cmp_vec, lower_char, lower_seq, lemma_lex_cmp_eq,
    lemma_lex_cmp_antisym, lemma_lex_cmp_trans, parse_digits, sub_vec, to_chars, to_lower_chars,
    trim_end_ws,
};

verus! {

/// Whether a name carries a markdown extension: at least one character of
/// stem, then `.md` in any casing.
pub open spec fn md_suffix(s: Seq<char>) -> bool {
    let n = s.len() as int;
    n >= 4 && s[n - 3] == '.' && lower_char(s[n - 2]) == 'm' && lower_char(s[n - 1]) == 'd'
}

/// The stem a comparison operates on: the name without its `.md` extension.
pub open spec fn stem_of(s: Seq<char>) -> Seq<char> {
    if md_suffix(s) {
        s.take(s.len() - 3)
    } else {
        s
    }
}

/// Start of the maximal run of digits that ends just before position `i`.
pub open spec fn run_start(s: Seq<char>, i: int) -> int
    recommends
        0 <= i <= s.len(),
    decreases i,
{
    if i > 0 && is_digit(s[i - 1]) {
        run_start(s, i - 1)
    } else {
        i
    }
}

/// `run_start` bounds: it stays in range, everything from it to `i` is a
/// digit, and the character just before it (if any) is not.
pub proof fn lemma_run_start(s: Seq<char>, i: int)
    requires
        0 <= i <= s.len(),
    ensures
        0 <= run_start(s, i) <= i,
        forall|k: int| run_start(s, i) <= k < i ==> is_digit(#[trigger] s[k]),
        run_start(s, i) > 0 ==> !is_digit(s[run_start(s, i) - 1]),
    decreases i,
{
    if i > 0 && is_digit(s[i - 1]) {
        lemma_run_start(s, i - 1);
    }
}

/// Whether a stem ends in a duplicate marker: a literal space, `(`, one or
/// more decimal digits that fit a `u64`, and a closing `)` at the very end.
pub open spec fn has_marker(s: Seq<char>) -> bool {
    let n = s.len() as int;
    let j = run_start(s, n - 1);
    n >= 4 && s[n - 1] == ')' && j < n - 1 && j >= 2 && s[j - 1] == '(' && s[j - 2] == ' '
        && digits_val(s.subrange(j, n - 1)) <= u64::MAX
}

/// Numeric index of the duplicate marker.
pub open spec fn marker_index(s: Seq<char>) -> nat
    recommends
        has_marker(s),
{
    digits_val(s.subrange(run_start(s, s.len() - 1), s.len() - 1))
}

/// The part of a stem before its duplicate marker, trailing whitespace
/// trimmed; the whole stem when there is no marker.
pub open spec fn split_base(s: Seq<char>) -> Seq<char> {
    if has_marker(s) {
        trim_end_ws(s.take(run_start(s, s.len() - 1) - 2))
    } else {
        s
    }
}

/// The duplicate-marker index of a stem, if any.
pub open spec fn split_index(s: Seq<char>) -> Option<u64> {
    if has_marker(s) {
        Some(marker_index(s) as u64)
    } else {
        None
    }
}

/// Tie-break once the bases compare equal: no index precedes any index,
/// indices compare numerically, and two unindexed names fall back to a full
/// case-insensitive comparison.
pub open spec fn idx_cmp(x: Option<u64>, y: Option<u64>, la: Seq<char>, lb: Seq<char>) -> Ordering {
    match (x, y) {
        (Option::None, Option::Some(_)) => Ordering::Less,
        (Option::Some(_), Option::None) => Ordering::Greater,
        (Option::Some(p), Option::Some(q)) => if p < q {
            Ordering::Less
        } else if q < p {
            Ordering::Greater
        } else {
            Ordering::Equal
        },
        (Option::None, Option::None) => lex_cmp(la, lb),
    }
}

/// The natural order of two sibling names of equal node type.
pub open spec fn name_cmp(a: Seq<char>, b: Seq<char>) -> Ordering {
    let la = lower_seq(a);
    let lb = lower_seq(b);
    let sa = stem_of(la);
    let sb = stem_of(lb);
    let c1 = lex_cmp(split_base(sa), split_base(sb));
    if c1 != Ordering::Equal {
        c1
    } else {
        idx_cmp(split_index(sa), split_index(sb), la, lb)
    }
}

/// Rank of a node type: folders precede markdown files.
pub open spec fn type_rank(t: FileNodeType) -> int {
    match t {
        FileNodeType::Folder => 0,
        FileNodeType::Md => 1,
    }
}

/// The full sibling order over (name, type) pairs: type precedence first,
/// then the natural name order.
pub open spec fn node_cmp(an: Seq<char>, at: FileNodeType, bn: Seq<char>, bt: FileNodeType) -> Ordering {
    if type_rank(at) < type_rank(bt) {
        Ordering::Less
    } else if type_rank(bt) < type_rank(at) {
        Ordering::Greater
    } else {
        name_cmp(an, bn)
    }
}

/// The natural order never puts a pair of equal name and type before itself:
/// comparing a sibling with itself answers `Equal`, so the strict part of the
/// order is irreflexive.
pub proof fn lemma_natural_order_irreflexive(an: Seq<char>, at: FileNodeType)
    ensures
        node_cmp(an, at, an, at) == Ordering::Equal,
{
    lemma_name_cmp_refl(an);
}

/// The natural order is antisymmetric: one sibling precedes another exactly
/// when the other follows it, and ties are mutual.
pub proof fn lemma_natural_order_antisymmetric(
    an: Seq<char>,
    at: FileNodeType,
    bn: Seq<char>,
    bt: FileNodeType,
)
    ensures
        node_cmp(an, at, bn, bt) == Ordering::Less <==> node_cmp(bn, bt, an, at)
            == Ordering::Greater,
        node_cmp(an, at, bn, bt) == Ordering::Equal <==> node_cmp(bn, bt, an, at)
            == Ordering::Equal,
{
    lemma_name_cmp_antisym(an, bn);
    lemma_name_cmp_antisym(bn, an);
}

/// The natural order is transitive on its strict part.
pub proof fn lemma_natural_order_transitive(
    an: Seq<char>,
    at: FileNodeType,
    bn: Seq<char>,
    bt: FileNodeType,
    cn: Seq<char>,
    ct: FileNodeType,
)
    requires
        node_cmp(an, at, bn, bt) == Ordering::Less,
        node_cmp(bn, bt, cn, ct) == Ordering::Less,
    ensures
        node_cmp(an, at, cn, ct) == Ordering::Less,
{
    if type_rank(at) == type_rank(bt) && type_rank(bt) == type_rank(ct) {
        lemma_name_cmp_trans(an, bn, cn);
    }
}

/// Siblings that compare equal are interchangeable against any third sibling.
pub proof fn lemma_natural_order_tie_congruent(
    an: Seq<char>,
    at: FileNodeType,
    bn: Seq<char>,
    bt: FileNodeType,
    cn: Seq<char>,
    ct: FileNodeType,
)
    requires
        node_cmp(an, at, bn, bt) == Ordering::Equal,
    ensures
        node_cmp(an, at, cn, ct) == node_cmp(bn, bt, cn, ct),
        node_cmp(cn, ct, an, at) == node_cmp(cn, ct, bn, bt),
{
    lemma_name_cmp_eq_congruent(an, bn, cn);
}

proof fn lemma_name_cmp_refl(a: Seq<char>)
    ensures
        name_cmp(a, a) == Ordering::Equal,
{
    let la = lower_seq(a);
    let sa = stem_of(la);
    lemma_lex_cmp_eq(split_base(sa), split_base(sa));
    lemma_lex_cmp_eq(la, la);
}

proof fn lemma_name_cmp_antisym(a: Seq<char>, b: Seq<char>)
    ensures
        name_cmp(a, b) == Ordering::Less <==> name_cmp(b, a) == Ordering::Greater,
        name_cmp(a, b) == Ordering::Equal <==> name_cmp(b, a) == Ordering::Equal,
{
    let la = lower_seq(a);
    let lb = lower_seq(b);
    let sa = stem_of(la);
    let sb = stem_of(lb);
    lemma_lex_cmp_antisym(split_base(sa), split_base(sb));
    lemma_lex_cmp_antisym(split_base(sb), split_base(sa));
    lemma_lex_cmp_eq(split_base(sa), split_base(sb));
    lemma_lex_cmp_eq(split_base(sb), split_base(sa));
    lemma_lex_cmp_antisym(la, lb);
    lemma_lex_cmp_antisym(lb, la);
}

proof fn lemma_name_cmp_trans(a: Seq<char>, b: Seq<char>, c: Seq<char>)
    requires
        name_cmp(a, b) == Ordering::Less,
        name_cmp(b, c) == Ordering::Less,
    ensures
        name_cmp(a, c) == Ordering::Less,
{
    let la = lower_seq(a);
    let lb = lower_seq(b);
    let lc = lower_seq(c);
    let ba = split_base(stem_of(la));
    let bb = split_base(stem_of(lb));
    let bc = split_base(stem_of(lc));
    lemma_lex_cmp_eq(ba, bb);
    lemma_lex_cmp_eq(bb, bc);
    lemma_lex_cmp_eq(ba, bc);
    if lex_cmp(ba, bb) == Ordering::Less && lex_cmp(bb, bc) == Ordering::Less {
        lemma_lex_cmp_trans(ba, bb, bc);
    }
    if lex_cmp(la, lb) == Ordering::Less && lex_cmp(lb, lc) == Ordering::Less {
        lemma_lex_cmp_trans(la, lb, lc);
    }
}

proof fn lemma_name_cmp_eq_congruent(a: Seq<char>, b: Seq<char>, c: Seq<char>)
    requires
        name_cmp(a, b) == Ordering::Equal,
    ensures
        name_cmp(a, c) == name_cmp(b, c),
        name_cmp(c, a) == name_cmp(c, b),
{
    let la = lower_seq(a);
    let lb = lower_seq(b);
    let ba = split_base(stem_of(la));
    let bb = split_base(stem_of(lb));
    lemma_lex_cmp_eq(ba, bb);
    lemma_lex_cmp_eq(la, lb);
}

/// Whether a name has the markdown extension. A directory entry is a
/// trackable file exactly when this holds of its name.
pub fn is_markdown(name: &str) -> (r: bool)
    ensures
        r == md_suffix(name@),
{
    let v = to_chars(name);
    has_md_suffix(&v)
}

/// Checks the `.md` suffix on a character vector.
pub fn has_md_suffix(v: &Vec<char>) -> (r: bool)
    ensures
        r == md_suffix(v@),
{
    let n = v.len();
    n >= 4 && v[n - 3] == '.' && crate::text::char_to_lower(v[n - 2]) == 'm'
        && crate::text::char_to_lower(v[n - 1]) == 'd'
}

/// The stem of a (lowered) name as a fresh vector.
pub fn stem_vec(v: &Vec<char>) -> (r: Vec<char>)
    ensures
        r@ == stem_of(v@),
{
    if has_md_suffix(v) {
        let r = sub_vec(v, 0, v.len() - 3);
        proof {
            assert(r@ =~= v@.take(v@.len() - 3));
        }
        r
    } else {
        let r = sub_vec(v, 0, v.len());
        proof {
            assert(r@ =~= v@);
        }
        r
    }
}

/// Locates the duplicate marker of a stem. Returns the length of the
/// (trimmed) base and the marker index; without a marker, the whole stem is
/// the base.
pub fn split_marker(v: &Vec<char>) -> (r: (usize, Option<u64>))
    ensures
        r.1 == split_index(v@),
        r.0 <= v@.len(),
        v@.take(r.0 as int) == split_base(v@),
{
    let n = v.len();
    proof {
        assert(v@.take(n as int) =~= v@);
    }
    if n < 4 {
        return (n, None);
    }
    if v[n - 1] != ')' {
        return (n, None);
    }
    let mut j: usize = n - 1;
    while j > 0 && '0' <= v[j - 1] && v[j - 1] <= '9'
        invariant
            0 <= j <= n - 1,
            n == v@.len(),
            run_start(v@, n - 1) == run_start(v@, j as int),
        decreases j,
    {
        j = j - 1;
    }
    proof {
        assert(run_start(v@, j as int) == j);
        lemma_run_start(v@, n - 1);
    }
    let ghost jj = j as int;
    if j >= n - 1 {
        return (n, None);
    }
    if j < 2 {
        return (n, None);
    }
    if v[j - 1] != '(' || v[j - 2] != ' ' {
        return (n, None);
    }
    match parse_digits(v, j, n - 1) {
        None => {
            proof {
                assert(crate::text::is_digit_seq(v@.subrange(jj, n - 1)));
            }
            (n, None)
        },
        Some(x) => {
            let mut k: usize = j - 2;
            while k > 0 && is_ws_exec(v[k - 1])
                invariant
                    0 <= k <= j - 2,
                    j - 2 < n == v@.len(),
                    trim_end_ws(v@.take((j - 2) as int)) == trim_end_ws(v@.take(k as int)),
                decreases k,
            {
                proof {
                    assert(v@.take(k as int).drop_last() =~= v@.take(k as int - 1));
                }
                k = k - 1;
            }
            proof {
                assert(trim_end_ws(v@.take(k as int)) == v@.take(k as int));
            }
            (k, Some(x))
        },
    }
}

/// Whether a character counts as trailing whitespace for base trimming.
pub fn is_ws_exec(c: char) -> (r: bool)
    ensures
        r == is_ws(c),
{
    c == ' ' || c == '\t' || c == '\n' || c == '\r'
}

/// Splits a stem into its base (trailing whitespace trimmed) and the numeric
/// index of its duplicate marker, if the stem ends in one.
pub fn split_base_index(s: &str) -> (r: (&str, Option<u64>))
    ensures
        r.0@ == split_base(s@),
        r.1 == split_index(s@),
{
    let v = to_chars(s);
    let (k, idx) = split_marker(&v);
    match idx {
        Some(x) => {
            let base = s.substring_char(0, k);
            proof {
                assert(base@ =~= s@.take(k as int));
            }
            (base, Some(x))
        },
        None => {
            proof {
                assert(v@.take(k as int) =~= s@);
            }
            (s, None)
        },
    }
}

/// Compares two sibling names in the natural order.
pub fn natural_cmp(a: &str, b: &str) -> (r: Ordering)
    ensures
        r == name_cmp(a@, b@),
{
    let la = to_lower_chars(a);
    let lb = to_lower_chars(b);
    let sa = stem_vec(&la);
    let sb = stem_vec(&lb);
    let (ka, ia) = split_marker(&sa);
    let (kb, ib) = split_marker(&sb);
    let ba = sub_vec(&sa, 0, ka);
    let bb = sub_vec(&sb, 0, kb);
    proof {
        assert(ba@ =~= sa@.take(ka as int));
        assert(bb@ =~= sb@.take(kb as int));
    }
    let c1 = lex_cmp_vec(&ba, &bb);
    match c1 {
        Ordering::Equal => {
            match (ia, ib) {
                (Option::None, Option::Some(_)) => Ordering::Less,
                (Option::Some(_), Option::None) => Ordering::Greater,
                (Option::Some(x), Option::Some(y)) => {
                    if x < y {
                        Ordering::Less
                    } else if y < x {
                        Ordering::Greater
                    } else {
                        Ordering::Equal
                    }
                },
                (Option::None, Option::None) => lex_cmp_vec(&la, &lb),
            }
        },
        _ => c1,
    }
}

/// `a` may stand at or before `b` in a sorted sibling list.
pub open spec fn node_le(a: crate::file_node::NodeView, b: crate::file_node::NodeView) -> bool {
    node_cmp(a.name, a.node_type, b.name, b.node_type) != Ordering::Greater
}

/// The views of a node sequence.
pub open spec fn views_of(s: Seq<crate::file_node::FileNode>) -> Seq<crate::file_node::NodeView> {
    s.map_values(|n: crate::file_node::FileNode| n@)
}

/// A node sequence in natural sibling order.
pub open spec fn nodes_sorted(s: Seq<crate::file_node::NodeView>) -> bool {
    forall|i: int, j: int| 0 <= i < j < s.len() ==> node_le(#[trigger] s[i], #[trigger] s[j])
}

/// Sorts nodes into the natural sibling order. The result is a permutation
/// of the input: the same nodes, sorted.
pub fn sort_nodes(input: Vec<crate::file_node::FileNode>) -> (r: Vec<crate::file_node::FileNode>)
    ensures
        nodes_sorted(views_of(r@)),
        views_of(r@).to_multiset() == views_of(input@).to_multiset(),
{
    broadcast use vstd::seq_lib::group_to_multiset_ensures;

    let ghost orig = views_of(input@);
    let mut rem = input;
    let mut out: Vec<crate::file_node::FileNode> = Vec::new();
    proof {
        assert(views_of(out@).to_multiset().add(views_of(rem@).to_multiset()) =~= orig.to_multiset());
    }
    while rem.len() > 0
        invariant
            nodes_sorted(views_of(out@)),
            forall|k: int, m: int|
                0 <= k < out@.len() && 0 <= m < rem@.len() ==> node_le(
                    #[trigger] views_of(out@)[k],
                    #[trigger] views_of(rem@)[m],
                ),
            views_of(out@).to_multiset().add(views_of(rem@).to_multiset()) == orig.to_multiset(),
        decreases rem@.len(),
    {
        let mut best: usize = 0;
        let mut i: usize = 1;
        proof {
            let v0 = views_of(rem@)[0];
            lemma_natural_order_irreflexive(v0.name, v0.node_type);
        }
        while i < rem.len()
            invariant
                0 <= best < i <= rem@.len(),
                rem@.len() > 0,
                forall|j: int|
                    0 <= j < i ==> node_le(
                        views_of(rem@)[best as int],
                        #[trigger] views_of(rem@)[j],
                    ),
            decreases rem@.len() - i,
        {
            let c = node_cmp_exec(
                rem[i].name.as_str(),
                rem[i].node_type,
                rem[best].name.as_str(),
                rem[best].node_type,
            );
            match c {
                Ordering::Less => {
                    proof {
                        let vi = views_of(rem@)[i as int];
                        let vb = views_of(rem@)[best as int];
                        assert forall|j: int| 0 <= j < i + 1 implies node_le(
                            vi,
                            #[trigger] views_of(rem@)[j],
                        ) by {
                            let vj = views_of(rem@)[j];
                            lemma_natural_order_antisymmetric(
                                vi.name, vi.node_type, vj.name, vj.node_type,
                            );
                            if j < i {
                                if node_cmp(vb.name, vb.node_type, vj.name, vj.node_type)
                                    == Ordering::Less {
                                    lemma_natural_order_transitive(
                                        vi.name, vi.node_type,
                                        vb.name, vb.node_type,
                                        vj.name, vj.node_type,
                                    );
                                } else {
                                    lemma_natural_order_antisymmetric(
                                        vb.name, vb.node_type, vj.name, vj.node_type,
                                    );
                                    lemma_natural_order_tie_congruent(
                                        vb.name, vb.node_type,
                                        vj.name, vj.node_type,
                                        vi.name, vi.node_type,
                                    );
                                }
                            } else {
                                lemma_natural_order_irreflexive(vi.name, vi.node_type);
                            }
                        }
                    }
                    best = i;
                },
                _ => {
                    proof {
                        let vi = views_of(rem@)[i as int];
                        let vb = views_of(rem@)[best as int];
                        lemma_natural_order_antisymmetric(
                            vi.name, vi.node_type, vb.name, vb.node_type,
                        );
                        lemma_natural_order_antisymmetric(
                            vb.name, vb.node_type, vi.name, vi.node_type,
                        );
                    }
                },
            }
            i = i + 1;
        }
        let ghost old_out = out@;
        let ghost old_rem = rem@;
        let x = rem.remove(best);
        out.push(x);
        proof {
            let xv = x@;
            assert(views_of(old_rem)[best as int] == xv);
            assert(views_of(rem@) =~= views_of(old_rem).remove(best as int));
            assert(views_of(out@) =~= views_of(old_out).push(xv));
            vstd::seq_lib::to_multiset_remove(views_of(old_rem), best as int);
            assert(views_of(old_rem).remove(best as int).to_multiset() =~= views_of(
                old_rem,
            ).to_multiset().remove(xv));
            vstd::seq_lib::to_multiset_build(views_of(old_out), xv);
            assert(views_of(out@).to_multiset() =~= views_of(old_out).to_multiset().insert(xv));
            vstd::seq_lib::to_multiset_contains(views_of(old_rem), xv);
            assert(views_of(old_rem).contains(xv));
            assert(views_of(old_rem).to_multiset().count(xv) > 0);
            assert(views_of(out@).to_multiset().add(views_of(rem@).to_multiset()) =~= views_of(
                old_out,
            ).to_multiset().add(views_of(old_rem).to_multiset()));
            assert forall|k: int, m: int|
                0 <= k < out@.len() && 0 <= m < rem@.len() implies node_le(
                #[trigger] views_of(out@)[k],
                #[trigger] views_of(rem@)[m],
            ) by {
                let vm = views_of(rem@)[m];
                if m < best {
                    assert(vm == views_of(old_rem)[m]);
                } else {
                    assert(vm == views_of(old_rem)[m + 1]);
                }
                if k < old_out.len() {
                    assert(views_of(out@)[k] == views_of(old_out)[k]);
                } else {
                    assert(views_of(out@)[k] == xv);
                }
            }
            assert(nodes_sorted(views_of(out@)));
        }
    }
    proof {
        assert(views_of(rem@).to_multiset() =~= Multiset::<crate::file_node::NodeView>::empty());
        assert(views_of(out@).to_multiset() =~= views_of(out@).to_multiset().add(
            views_of(rem@).to_multiset(),
        ));
    }
    out
}

/// Compares two nodes: type precedence, then the natural name order.
pub fn node_cmp_exec(an: &str, at: FileNodeType, bn: &str, bt: FileNodeType) -> (r: Ordering)
    ensures
        r == node_cmp(an@, at, bn@, bt),
{
    match (at, bt) {
        (FileNodeType::Folder, FileNodeType::Md) => Ordering::Less,
        (FileNodeType::Md, FileNodeType::Folder) => Ordering::Greater,
        _ => natural_cmp(an, bn),
    }
}

} // verus!
