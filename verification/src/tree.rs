//! The directory tree model: one node per filesystem entry, children owned
//! by their parent, ordered directories-first and case-insensitively by
//! name within each kind.

use vstd::prelude::*;
use vstd::string::StrSliceExecFns;

use crate::order::{
    fold_code, fold_code_x, lemma_seq_lt_asymmetric, lemma_seq_lt_common_prefix,
    lemma_seq_lt_connected, lemma_seq_lt_transitive, seq_le, seq_lt,
};

verus! {

broadcast use vstd::std_specs::vec::group_vec_axioms;

/// One filesystem entry: its display name (the last path component), its
/// canonical path as a sequence of components, whether it is a directory,
/// its children, and whether it is shown expanded.
pub struct FileNode {
    pub name: String,
    pub path: Vec<String>,
    pub is_dir: bool,
    pub children: Vec<FileNode>,
    pub is_expanded: bool,
}

/// The display name belonging to a path: its last component, or the empty
/// string for the filesystem root.
pub open spec fn name_of(p: Seq<Seq<char>>) -> Seq<char> {
    if p.len() > 0 {
        p.last()
    } else {
        Seq::<char>::empty()
    }
}

/// The sequence of case-folded code points of a name, used for the
/// case-insensitive part of the ordering.
pub open spec fn fold_key(s: Seq<char>) -> Seq<u32> {
    s.map_values(|c: char| fold_code(c))
}

/// The sequence of raw code points of a name, used to break ties between
/// names that fold to the same key.
pub open spec fn code_key(s: Seq<char>) -> Seq<u32> {
    s.map_values(|c: char| c as u32)
}

/// The sibling ordering: directories before files; within one kind,
/// case-insensitive ascending by name; names that compare equal
/// case-insensitively are ordered by their raw code points, which makes the
/// ordering total and the sorted order of any set of siblings unique.
pub open spec fn node_le(a: FileNode, b: FileNode) -> bool {
    if a.is_dir != b.is_dir {
        a.is_dir
    } else if fold_key(a.name@) != fold_key(b.name@) {
        seq_lt(fold_key(a.name@), fold_key(b.name@))
    } else {
        seq_le(code_key(a.name@), code_key(b.name@))
    }
}

/// A children sequence that obeys the sibling ordering.
pub open spec fn children_sorted(s: Seq<FileNode>) -> bool {
    forall|i: int, j: int| 0 <= i < j < s.len() ==> node_le(#[trigger] s[i], #[trigger] s[j])
}

/// Every node of the tree has its children in sibling order.
pub open spec fn tree_sorted(n: FileNode) -> bool
    decreases n,
{
    children_sorted(n.children@) && forall|i: int|
        0 <= i < n.children@.len() ==> tree_sorted(#[trigger] n.children@[i])
}

/// Compares two paths component by component for equality of their views.
pub fn path_eq(a: &Vec<String>, b: &Vec<String>) -> (r: bool)
    ensures
        r == (a.deep_view() == b.deep_view()),
{
    if a.len() != b.len() {
        proof {
            assert(a.deep_view().len() == a@.len());
            assert(b.deep_view().len() == b@.len());
        }
        return false;
    }
    let mut i: usize = 0;
    while i < a.len()
        invariant
            i <= a@.len(),
            a@.len() == b@.len(),
            forall|k: int| 0 <= k < i ==> a.deep_view()[k] == b.deep_view()[k],
        decreases a@.len() - i,
    {
        if a[i] == b[i] {
            i += 1;
        } else {
            proof {
                assert(a.deep_view()[i as int] == a@[i as int]@);
                assert(b.deep_view()[i as int] == b@[i as int]@);
            }
            return false;
        }
    }
    proof {
        assert(a.deep_view() =~= b.deep_view());
    }
    true
}

/// The sibling ordering relates any two nodes one way or the other.
pub proof fn lemma_node_le_connected(a: FileNode, b: FileNode)
    ensures
        node_le(a, b) || node_le(b, a),
{
    if a.is_dir == b.is_dir {
        if fold_key(a.name@) != fold_key(b.name@) {
            lemma_seq_lt_connected(fold_key(a.name@), fold_key(b.name@));
        } else {
            lemma_seq_lt_connected(code_key(a.name@), code_key(b.name@));
        }
    }
}

/// The sibling ordering is transitive.
pub proof fn lemma_node_le_transitive(a: FileNode, b: FileNode, c: FileNode)
    ensures
        node_le(a, b) && node_le(b, c) ==> node_le(a, c),
{
    if node_le(a, b) && node_le(b, c) {
        if a.is_dir == b.is_dir && b.is_dir == c.is_dir {
            let fa = fold_key(a.name@);
            let fb = fold_key(b.name@);
            let fc = fold_key(c.name@);
            lemma_seq_lt_transitive(fa, fb, fc);
            lemma_seq_lt_asymmetric(fa, fc);
            if fa == fb && fb == fc {
                lemma_seq_lt_transitive(code_key(a.name@), code_key(b.name@), code_key(c.name@));
            }
        }
    }
}

/// Two nodes each no greater than the other agree in kind and name.
proof fn lemma_node_le_antisymmetric_names(a: FileNode, b: FileNode)
    requires
        node_le(a, b),
        node_le(b, a),
    ensures
        a.is_dir == b.is_dir,
        a.name@ == b.name@,
{
    if a.is_dir != b.is_dir {
        assert(false);
    }
    let fa = fold_key(a.name@);
    let fb = fold_key(b.name@);
    if fa != fb {
        lemma_seq_lt_asymmetric(fa, fb);
        assert(false);
    }
    let ca = code_key(a.name@);
    let cb = code_key(b.name@);
    if ca != cb {
        lemma_seq_lt_asymmetric(ca, cb);
        assert(false);
    }
    assert(ca.len() == a.name@.len() && cb.len() == b.name@.len());
    assert(a.name@.len() == b.name@.len());
    assert forall|i: int| 0 <= i < a.name@.len() implies a.name@[i] == b.name@[i] by {
        assert(ca[i] == a.name@[i] as u32);
        assert(cb[i] == b.name@[i] as u32);
        assert(ca[i] == cb[i]);
        crate::order::lemma_char_code_injective(a.name@[i], b.name@[i]);
    }
    assert(a.name@ =~= b.name@);
}

/// Sibling order is deterministic: a set of distinctly named nodes admits
/// exactly one arrangement that obeys the sibling ordering, so two sorted
/// sequences holding the same nodes are equal position by position.
pub proof fn lemma_children_order_unique(x: Seq<FileNode>, y: Seq<FileNode>)
    requires
        children_sorted(x),
        children_sorted(y),
        x.to_multiset() == y.to_multiset(),
        forall|i: int, j: int| 0 <= i < j < x.len() ==> x[i].name@ != x[j].name@,
    ensures
        x =~= y,
    decreases x.len(),
{
    x.to_multiset_ensures();
    y.to_multiset_ensures();
    assert(x.to_multiset().len() == x.len());
    assert(y.to_multiset().len() == y.len());
    if x.len() == 0 {
        assert(y.len() == 0);
    } else {
        assert(x.contains(x[0]));
        assert(x.to_multiset().count(x[0]) > 0);
        assert(y.to_multiset().count(x[0]) > 0);
        assert(y.contains(x[0]));
        let i = choose|i: int| 0 <= i < y.len() && y[i] == x[0];
        assert(y.contains(y[0]));
        assert(y.to_multiset().count(y[0]) > 0);
        assert(x.to_multiset().count(y[0]) > 0);
        assert(x.contains(y[0]));
        let j = choose|j: int| 0 <= j < x.len() && x[j] == y[0];
        if i != 0 && j != 0 {
            assert(node_le(y[0], y[i]));
            assert(node_le(x[0], x[j]));
            lemma_node_le_antisymmetric_names(x[0], y[0]);
            assert(x[0].name@ == x[j].name@);
            assert(false);
        }
        assert(x[0] == y[0]);
        vstd::seq_lib::to_multiset_remove(x, 0);
        vstd::seq_lib::to_multiset_remove(y, 0);
        assert(x.remove(0) =~= x.drop_first());
        assert(y.remove(0) =~= y.drop_first());
        assert(x.drop_first().to_multiset() == y.drop_first().to_multiset());
        assert(children_sorted(x.drop_first())) by {
            assert forall|p: int, q: int| 0 <= p < q < x.drop_first().len() implies node_le(
                #[trigger] x.drop_first()[p],
                #[trigger] x.drop_first()[q],
            ) by {
                assert(x.drop_first()[p] == x[p + 1] && x.drop_first()[q] == x[q + 1]);
            }
        }
        assert(children_sorted(y.drop_first())) by {
            assert forall|p: int, q: int| 0 <= p < q < y.drop_first().len() implies node_le(
                #[trigger] y.drop_first()[p],
                #[trigger] y.drop_first()[q],
            ) by {
                assert(y.drop_first()[p] == y[p + 1] && y.drop_first()[q] == y[q + 1]);
            }
        }
        assert forall|p: int, q: int| 0 <= p < q < x.drop_first().len() implies x.drop_first()[
            p
        ].name@ != x.drop_first()[q].name@ by {
            assert(x.drop_first()[p] == x[p + 1] && x.drop_first()[q] == x[q + 1]);
        }
        lemma_children_order_unique(x.drop_first(), y.drop_first());
        assert forall|m: int| 0 <= m < x.len() implies x[m] == y[m] by {
            if m > 0 {
                assert(x.drop_first()[m - 1] == y.drop_first()[m - 1]);
            }
        }
        assert(x =~= y);
    }
}

/// Executable sibling comparison, deciding `node_le` by scanning the two
/// names once case-folded and, on a tie, once by raw code points.
fn sibling_le(a: &FileNode, b: &FileNode) -> (r: bool)
    ensures
        r == node_le(*a, *b),
{
    if a.is_dir != b.is_dir {
        return a.is_dir;
    }
    let an = a.name.as_str();
    let bn = b.name.as_str();
    let alen = an.unicode_len();
    let blen = bn.unicode_len();
    let minlen = if alen < blen { alen } else { blen };
    let ghost fka = fold_key(a.name@);
    let ghost fkb = fold_key(b.name@);
    let mut i: usize = 0;
    while i < minlen
        invariant
            a.is_dir == b.is_dir,
            i <= minlen,
            minlen <= alen && minlen <= blen,
            alen == an@.len() && blen == bn@.len(),
            an@ == a.name@ && bn@ == b.name@,
            fka == fold_key(a.name@) && fkb == fold_key(b.name@),
            forall|k: int| 0 <= k < i ==> fka[k] == fkb[k],
        decreases minlen - i,
    {
        let ca = fold_code_x(an.get_char(i));
        let cb = fold_code_x(bn.get_char(i));
        if ca != cb {
            proof {
                lemma_seq_lt_common_prefix(fka, fkb, i as int);
                assert(fka.skip(i as int)[0] == fka[i as int]);
                assert(fkb.skip(i as int)[0] == fkb[i as int]);
                assert(fka[i as int] == ca && fkb[i as int] == cb);
                assert(fka != fkb);
                assert(seq_lt(fka, fkb) == (ca < cb));
            }
            return ca < cb;
        }
        i += 1;
    }
    if alen != blen {
        proof {
            lemma_seq_lt_common_prefix(fka, fkb, minlen as int);
            assert(fka != fkb);
            if alen < blen {
                assert(fka.skip(minlen as int).len() == 0);
                assert(fkb.skip(minlen as int).len() > 0);
                assert(seq_lt(fka, fkb));
            } else {
                assert(fkb.skip(minlen as int).len() == 0);
                assert(!seq_lt(fka, fkb));
            }
        }
        return alen < blen;
    }
    proof {
        assert(fka =~= fkb);
    }
    let ghost cka = code_key(a.name@);
    let ghost ckb = code_key(b.name@);
    let mut j: usize = 0;
    while j < alen
        invariant
            a.is_dir == b.is_dir,
            j <= alen,
            alen == an@.len() && alen == bn@.len(),
            an@ == a.name@ && bn@ == b.name@,
            cka == code_key(a.name@) && ckb == code_key(b.name@),
            fold_key(a.name@) == fold_key(b.name@),
            forall|k: int| 0 <= k < j ==> cka[k] == ckb[k],
        decreases alen - j,
    {
        let ca = an.get_char(j) as u32;
        let cb = bn.get_char(j) as u32;
        if ca != cb {
            proof {
                lemma_seq_lt_common_prefix(cka, ckb, j as int);
                assert(cka.skip(j as int)[0] == cka[j as int]);
                assert(ckb.skip(j as int)[0] == ckb[j as int]);
                assert(cka[j as int] == ca && ckb[j as int] == cb);
                assert(cka != ckb);
                assert(seq_lt(cka, ckb) == (ca < cb));
            }
            return ca < cb;
        }
        j += 1;
    }
    proof {
        assert(cka =~= ckb);
    }
    true
}

/// Sorts a detached children vector into sibling order; the elements are
/// exactly those given, rearranged.
fn sort_nodes(v: &mut Vec<FileNode>)
    ensures
        children_sorted(final(v)@),
        final(v)@.to_multiset() == old(v)@.to_multiset(),
{
    broadcast use vstd::seq_lib::group_to_multiset_ensures;

    let n = v.len();
    if n <= 1 {
        return;
    }
    let mut i: usize = 1;
    while i < n
        invariant
            1 <= i <= n,
            n == v@.len(),
            v@.to_multiset() == old(v)@.to_multiset(),
            children_sorted(v@.take(i as int)),
        decreases n - i,
    {
        let ghost s = v@;
        let x = v.remove(i);
        let ghost t = v@;
        proof {
            assert(t.take(i as int) =~= s.take(i as int));
        }
        let mut pos: usize = i;
        while pos > 0 && !sibling_le(&v[pos - 1], &x)
            invariant
                pos <= i,
                i < n && n - 1 == v@.len(),
                v@ == t,
                children_sorted(t.take(i as int)),
                forall|k: int| pos <= k < i ==> node_le(x, #[trigger] t[k]),
            decreases pos,
        {
            proof {
                lemma_node_le_connected(t[pos - 1], x);
            }
            pos -= 1;
        }
        assert(pos > 0 ==> node_le(t[pos - 1], x));
        v.insert(pos, x);
        proof {
            let u = v@;
            assert(u == t.insert(pos as int, x));
            assert forall|p: int, q: int| 0 <= p < q < i + 1 implies node_le(
                #[trigger] u.take(i + 1)[p],
                #[trigger] u.take(i + 1)[q],
            ) by {
                if q < pos {
                    assert(u[p] == t[p] && u[q] == t[q]);
                } else if p < pos && q == pos {
                    if p < pos - 1 {
                        lemma_node_le_transitive(t[p], t[pos - 1], x);
                    }
                } else if p < pos && q > pos {
                    lemma_node_le_transitive(t[p], x, t[q - 1]);
                    if p < pos - 1 {
                        lemma_node_le_transitive(t[p], t[pos - 1], x);
                    }
                } else if p == pos {
                    assert(u[q] == t[q - 1]);
                } else {
                    assert(u[p] == t[p - 1] && u[q] == t[q - 1]);
                }
            }
            assert(children_sorted(u.take(i + 1)));
            assert(u.to_multiset() =~= s.to_multiset()) by {
                vstd::seq_lib::to_multiset_remove(s, i as int);
                vstd::seq_lib::to_multiset_insert(t, pos as int, x);
                assert(s.to_multiset().count(x) > 0) by {
                    s.to_multiset_ensures();
                    assert(s[i as int] == x);
                    assert(s.contains(x));
                }
            }
        }
        i += 1;
    }
    proof {
        assert(v@.take(n as int) =~= v@);
    }
}

impl FileNode {
    /// A fresh, detached node for one enumerated entry: no children yet,
    /// collapsed, named after the last component of its path.
    pub fn new(path: Vec<String>, is_dir: bool) -> (r: Self)
        ensures
            r.path == path,
            r.is_dir == is_dir,
            r.children@.len() == 0,
            !r.is_expanded,
            r.name@ == name_of(path.deep_view()),
    {
        let name = if path.len() > 0 {
            path[path.len() - 1].clone()
        } else {
            String::new()
        };
        proof {
            if path@.len() > 0 {
                assert(path.deep_view()[path@.len() - 1] == path@[path@.len() - 1]@);
            }
        }
        FileNode { name, path, is_dir, children: Vec::new(), is_expanded: false }
    }

    /// Puts this node's immediate children into sibling order; nothing else
    /// about the node changes, and the children keep their identity.
    pub fn sort_children(&mut self)
        ensures
            children_sorted(final(self).children@),
            final(self).children@.to_multiset() == old(self).children@.to_multiset(),
            final(self).name == old(self).name,
            final(self).path == old(self).path,
            final(self).is_dir == old(self).is_dir,
            final(self).is_expanded == old(self).is_expanded,
    {
        sort_nodes(&mut self.children);
    }
}

/// One enumerated filesystem entry, as the walking collaborator hands it
/// in: a canonical path given as components, and whether it is a directory.
pub struct FsEntry {
    pub path: Vec<String>,
    pub is_dir: bool,
}

/// Whether some entry of the enumeration carries exactly the path `p`.
pub open spec fn has_path(entries: Seq<FsEntry>, p: Seq<Seq<char>>) -> bool {
    exists|i: int| 0 <= i < entries.len() && entries[i].path.deep_view() == p
}

/// Every node of the tree, the root included, reproduces one enumerated
/// entry: its path and kind were found in the enumeration, never invented.
pub open spec fn tree_from(entries: Seq<FsEntry>, n: FileNode) -> bool
    decreases n,
{
    &&& exists|j: int|
        0 <= j < entries.len() && (#[trigger] entries[j]).path.deep_view() == n.path.deep_view()
            && entries[j].is_dir == n.is_dir
    &&& forall|i: int| 0 <= i < n.children@.len() ==> tree_from(entries, #[trigger] n.children@[i])
}

/// Some node of the sequence carries exactly the path `q`.
pub open spec fn seq_has_path(s: Seq<FileNode>, q: Seq<Seq<char>>) -> bool {
    exists|c: int| 0 <= c < s.len() && (#[trigger] s[c]).path.deep_view() == q
}

/// `q` names a direct child location of `p`: one component longer, with
/// `p` as its parent.
pub open spec fn child_path_of(q: Seq<Seq<char>>, p: Seq<Seq<char>>) -> bool {
    q.len() == p.len() + 1 && q.drop_last() == p
}

/// Every enumerated entry directly below this node stands among its
/// children, and likewise below every descendant: nothing reachable from
/// this node was dropped.
pub open spec fn tree_complete(entries: Seq<FsEntry>, n: FileNode) -> bool
    decreases n,
{
    &&& forall|j: int|
        0 <= j < entries.len() && child_path_of(
            (#[trigger] entries[j]).path.deep_view(),
            n.path.deep_view(),
        ) ==> seq_has_path(n.children@, entries[j].path.deep_view())
    &&& forall|i: int|
        0 <= i < n.children@.len() ==> tree_complete(entries, #[trigger] n.children@[i])
}

/// No two children of any node, anywhere in the tree, carry the same
/// path: every node of the tree stands for one distinct entry.
pub open spec fn tree_distinct(n: FileNode) -> bool
    decreases n,
{
    &&& forall|c1: int, c2: int|
        0 <= c1 < c2 < n.children@.len() ==> n.children@[c1].path.deep_view()
            != n.children@[c2].path.deep_view()
    &&& forall|i: int|
        0 <= i < n.children@.len() ==> tree_distinct(#[trigger] n.children@[i])
}

/// A value found at two positions is counted at least twice.
proof fn lemma_dup_count<T>(s: Seq<T>, i: int, j: int)
    requires
        0 <= i < j < s.len(),
        s[i] == s[j],
    ensures
        s.to_multiset().count(s[i]) >= 2,
{
    s.to_multiset_ensures();
    s.remove(i).to_multiset_ensures();
    vstd::seq_lib::to_multiset_remove(s, i);
    assert(s.remove(i)[j - 1] == s[j]);
    assert(s.remove(i).contains(s[j]));
    assert(s.remove(i).to_multiset().count(s[j]) > 0);
}

/// Rearranging nodes with pairwise distinct paths keeps the paths
/// pairwise distinct.
proof fn lemma_perm_distinct_paths(before: Seq<FileNode>, after: Seq<FileNode>)
    requires
        before.to_multiset() == after.to_multiset(),
        forall|c1: int, c2: int|
            0 <= c1 < c2 < before.len() ==> before[c1].path.deep_view()
                != before[c2].path.deep_view(),
    ensures
        forall|c1: int, c2: int|
            0 <= c1 < c2 < after.len() ==> after[c1].path.deep_view()
                != after[c2].path.deep_view(),
{
    lemma_multiset_eq_contains(before, after);
    before.to_multiset_ensures();
    after.to_multiset_ensures();
    assert forall|c1: int, c2: int| 0 <= c1 < c2 < after.len() implies after[c1].path.deep_view()
        != after[c2].path.deep_view() by {
        if after[c1].path.deep_view() == after[c2].path.deep_view() {
            if after[c1] == after[c2] {
                lemma_dup_count(after, c1, c2);
                assert(before.to_multiset().count(after[c1]) >= 2);
                assert(before.contains(after[c1]));
                let i = choose|i: int| 0 <= i < before.len() && before[i] == after[c1];
                vstd::seq_lib::to_multiset_remove(before, i);
                before.remove(i).to_multiset_ensures();
                assert(before.remove(i).to_multiset().count(after[c1]) >= 1);
                assert(before.remove(i).contains(after[c1]));
                let j0 = choose|j0: int|
                    0 <= j0 < before.remove(i).len() && before.remove(i)[j0] == after[c1];
                let j = if j0 < i {
                    j0
                } else {
                    j0 + 1
                };
                assert(before[j] == before.remove(i)[j0]);
                assert(j != i);
                if i < j {
                    assert(before[i].path.deep_view() != before[j].path.deep_view());
                } else {
                    assert(before[j].path.deep_view() != before[i].path.deep_view());
                }
                assert(false);
            } else {
                assert(after.contains(after[c1]) && after.contains(after[c2]));
                assert(before.contains(after[c1]) && before.contains(after[c2]));
                let i1 = choose|i1: int| 0 <= i1 < before.len() && before[i1] == after[c1];
                let i2 = choose|i2: int| 0 <= i2 < before.len() && before[i2] == after[c2];
                assert(i1 != i2);
                if i1 < i2 {
                    assert(before[i1].path.deep_view() != before[i2].path.deep_view());
                } else {
                    assert(before[i2].path.deep_view() != before[i1].path.deep_view());
                }
                assert(false);
            }
        }
    }
}

/// Re-sorting the children of a node whose children are distinct subtrees
/// keeps the node distinct.
proof fn lemma_distinct_after_sort(before: FileNode, after: FileNode)
    requires
        forall|c1: int, c2: int|
            0 <= c1 < c2 < before.children@.len() ==> before.children@[c1].path.deep_view()
                != before.children@[c2].path.deep_view(),
        forall|c: int|
            0 <= c < before.children@.len() ==> tree_distinct(#[trigger] before.children@[c]),
        after.children@.to_multiset() == before.children@.to_multiset(),
    ensures
        tree_distinct(after),
{
    lemma_perm_distinct_paths(before.children@, after.children@);
    lemma_multiset_eq_contains(after.children@, before.children@);
    assert forall|i: int| 0 <= i < after.children@.len() implies tree_distinct(
        #[trigger] after.children@[i],
    ) by {
        assert(after.children@.contains(after.children@[i]));
        assert(before.children@.contains(after.children@[i]));
        let c = choose|c: int|
            0 <= c < before.children@.len() && before.children@[c] == after.children@[i];
        assert(tree_distinct(before.children@[c]));
    }
}

/// The linking loop's distinctness invariant: under every pool node the
/// children are pairwise distinct subtrees whose own paths never collide
/// with a path still waiting in the pool. Opaque, as `pool_complete` is.
#[verifier::opaque]
spec fn pool_fresh(pool: Seq<FileNode>) -> bool {
    &&& forall|i: int, c1: int, c2: int|
        #![trigger pool[i].children@[c1], pool[i].children@[c2]]
        0 <= i < pool.len() && 0 <= c1 < c2 < pool[i].children@.len() ==> pool[
            i
        ].children@[c1].path.deep_view() != pool[i].children@[c2].path.deep_view()
    &&& forall|i: int, c: int, m: int|
        #![trigger pool[i].children@[c], pool[m]]
        0 <= i < pool.len() && 0 <= c < pool[i].children@.len() && 0 <= m < pool.len() ==> pool[
            i
        ].children@[c].path.deep_view() != pool[m].path.deep_view()
    &&& forall|i: int, c: int|
        #![trigger pool[i].children@[c]]
        0 <= i < pool.len() && 0 <= c < pool[i].children@.len() ==> tree_distinct(
            pool[i].children@[c],
        )
}

/// Every enumerated entry still stands in the pool itself. Opaque: the
/// collection loop carries it as one fact and only its step lemma looks
/// inside.
#[verifier::opaque]
spec fn all_pooled(entries: Seq<FsEntry>, pool: Seq<FileNode>) -> bool {
    forall|j: int|
        0 <= j < entries.len() ==> seq_has_path(pool, (#[trigger] entries[j]).path.deep_view())
}

/// The linking loop's completeness invariant. An enumerated entry that no
/// pool node carries any more has sunk into some subtree: wherever its
/// parent still waits in the pool, the entry stands among that parent's
/// children; and every subtree already hanging under a pool node is
/// internally complete. Opaque for the same reason as `all_pooled`.
#[verifier::opaque]
spec fn pool_complete(entries: Seq<FsEntry>, pool: Seq<FileNode>) -> bool {
    &&& forall|i: int, j: int|
        0 <= i < pool.len() && 0 <= j < entries.len() && child_path_of(
            (#[trigger] entries[j]).path.deep_view(),
            (#[trigger] pool[i]).path.deep_view(),
        ) && !seq_has_path(pool, entries[j].path.deep_view()) ==> seq_has_path(
            pool[i].children@,
            entries[j].path.deep_view(),
        )
    &&& forall|i: int, c: int|
        0 <= i < pool.len() && 0 <= c < (#[trigger] pool[i]).children@.len() ==> tree_complete(
            entries,
            #[trigger] pool[i].children@[c],
        )
}

/// A fully assembled subtree: collapsed and named after its path at every
/// node, every children list in sibling order, and every child's path
/// extending its parent's path by exactly one component.
pub open spec fn built_subtree(n: FileNode) -> bool
    decreases n,
{
    &&& n.name@ == name_of(n.path.deep_view())
    &&& !n.is_expanded
    &&& children_sorted(n.children@)
    &&& forall|i: int|
        0 <= i < n.children@.len() ==> {
            &&& built_subtree(#[trigger] n.children@[i])
            &&& n.children@[i].path.deep_view().len() == n.path.deep_view().len() + 1
            &&& n.children@[i].path.deep_view().drop_last() == n.path.deep_view()
        }
}

/// A detached node awaiting assembly: well formed itself, with every child
/// already a fully assembled subtree one level below it, though the
/// children list is not yet in sibling order.
pub open spec fn pool_elem_ok(n: FileNode) -> bool {
    &&& n.name@ == name_of(n.path.deep_view())
    &&& !n.is_expanded
    &&& forall|i: int|
        0 <= i < n.children@.len() ==> {
            &&& built_subtree(#[trigger] n.children@[i])
            &&& n.children@[i].path.deep_view().len() == n.path.deep_view().len() + 1
            &&& n.children@[i].path.deep_view().drop_last() == n.path.deep_view()
        }
}

/// A fully assembled subtree has its children in sibling order at every
/// level.
pub proof fn lemma_built_subtree_sorted(n: FileNode)
    requires
        built_subtree(n),
    ensures
        tree_sorted(n),
    decreases n,
{
    assert forall|i: int| 0 <= i < n.children@.len() implies tree_sorted(
        #[trigger] n.children@[i],
    ) by {
        lemma_built_subtree_sorted(n.children@[i]);
    }
}

/// Two sequences with the same multiset hold the same elements.
proof fn lemma_multiset_eq_contains<T>(s: Seq<T>, t: Seq<T>)
    requires
        s.to_multiset() == t.to_multiset(),
    ensures
        forall|x: T| s.contains(x) <==> t.contains(x),
{
    s.to_multiset_ensures();
    t.to_multiset_ensures();
    assert forall|x: T| s.contains(x) <==> t.contains(x) by {
        assert(s.to_multiset().count(x) == t.to_multiset().count(x));
        if s.contains(x) {
            assert(t.to_multiset().count(x) > 0);
            assert(t.contains(x));
        }
        if t.contains(x) {
            assert(s.to_multiset().count(x) > 0);
            assert(s.contains(x));
        }
    }
}

/// Re-sorting a detached node's children turns it into a fully assembled
/// subtree: the children were assembled already, and sorting only
/// rearranges them.
proof fn lemma_sorted_pool_elem(entries: Seq<FsEntry>, before: FileNode, after: FileNode)
    requires
        pool_elem_ok(before),
        tree_from(entries, before),
        after.children@.to_multiset() == before.children@.to_multiset(),
        after.name == before.name,
        after.path == before.path,
        after.is_dir == before.is_dir,
        after.is_expanded == before.is_expanded,
        children_sorted(after.children@),
    ensures
        built_subtree(after),
        tree_from(entries, after),
{
    lemma_multiset_eq_contains(after.children@, before.children@);
    assert forall|i: int| 0 <= i < after.children@.len() implies {
        &&& built_subtree(#[trigger] after.children@[i])
        &&& tree_from(entries, after.children@[i])
        &&& after.children@[i].path.deep_view().len() == after.path.deep_view().len() + 1
        &&& after.children@[i].path.deep_view().drop_last() == after.path.deep_view()
    } by {
        assert(after.children@.contains(after.children@[i]));
        assert(before.children@.contains(after.children@[i]));
        let w = choose|w: int|
            0 <= w < before.children@.len() && before.children@[w] == after.children@[i];
        assert(built_subtree(before.children@[w]));
        assert(tree_from(entries, before.children@[w]));
    }
}

/// The parent path: every component but the last.
fn parent_path(p: &Vec<String>) -> (r: Vec<String>)
    requires
        p@.len() > 0,
    ensures
        r.deep_view() == p.deep_view().drop_last(),
{
    let mut r: Vec<String> = Vec::new();
    let mut i: usize = 0;
    while i < p.len() - 1
        invariant
            i <= p@.len() - 1,
            r@.len() == i,
            r.deep_view() =~= p.deep_view().take(i as int),
        decreases p@.len() - 1 - i,
    {
        let ghost rd0 = r.deep_view();
        let c = p[i].clone();
        r.push(c);
        proof {
            assert(r@.len() == i + 1);
            assert(c == p@[i as int]);
            assert(c.deep_view() == p.deep_view()[i as int]);
            assert forall|m: int| 0 <= m < i + 1 implies r.deep_view()[m] == p.deep_view().take(
                i as int + 1,
            )[m] by {
                if m < i as int {
                    assert(r.deep_view()[m] == rd0[m]);
                } else {
                    assert(r@[m] == c);
                }
            }
            assert(r.deep_view() =~= p.deep_view().take(i as int + 1));
        }
        i += 1;
    }
    proof {
        assert(r.deep_view() =~= p.deep_view().drop_last());
    }
    r
}

/// After one linking step the pool keeps its length, and every element
/// keeps its path and kind and is still awaiting assembly.
spec fn link_step_ok(entries: Seq<FsEntry>, base: Seq<FileNode>, cur: Seq<FileNode>) -> bool {
    &&& cur.len() == base.len()
    &&& forall|m: int| 0 <= m < cur.len() ==> (#[trigger] cur[m]).path == base[m].path
    &&& forall|m: int| 0 <= m < cur.len() ==> (#[trigger] cur[m]).is_dir == base[m].is_dir
    &&& forall|m: int| 0 <= m < cur.len() ==> pool_elem_ok(#[trigger] cur[m])
    &&& forall|m: int| 0 <= m < cur.len() ==> tree_from(entries, #[trigger] cur[m])
}

/// While more than one node remains in the depth-ordered pool, the front,
/// strictly deepest, node is never the root-pathed one: a second element
/// would then have to carry the root path as well.
proof fn lemma_front_not_root(pv: Seq<FileNode>, root_v: Seq<Seq<char>>)
    requires
        pv.len() > 1,
        forall|i: int, j: int| 0 <= i < j < pv.len() ==> pv[i].path@.len() >= pv[j].path@.len(),
        forall|i: int, j: int|
            0 <= i < j < pv.len() ==> pv[i].path.deep_view() != pv[j].path.deep_view(),
        forall|i: int|
            0 <= i < pv.len() ==> root_v.is_prefix_of((#[trigger] pv[i]).path.deep_view()),
    ensures
        pv[0].path.deep_view() != root_v,
{
    if pv[0].path.deep_view() == root_v {
        assert(root_v.is_prefix_of(pv[1].path.deep_view()));
        assert(pv[1].path.deep_view().len() >= root_v.len());
        assert(pv[0].path@.len() >= pv[1].path@.len());
        assert(pv[0].path@.len() == pv[0].path.deep_view().len());
        assert(pv[1].path@.len() == pv[1].path.deep_view().len());
        assert(pv[1].path.deep_view().len() == root_v.len());
        assert(pv[1].path.deep_view().subrange(0, root_v.len() as int) =~= pv[
            1
        ].path.deep_view());
        assert(pv[1].path.deep_view() == root_v);
        assert(false);
    }
}

/// Attaching a finished subtree one level below its parent keeps the
/// parent awaiting assembly.
proof fn lemma_attach_child(
    entries: Seq<FsEntry>,
    parentb: FileNode,
    parenta: FileNode,
    child: FileNode,
)
    requires
        pool_elem_ok(parentb),
        tree_from(entries, parentb),
        built_subtree(child),
        tree_from(entries, child),
        child.path.deep_view().len() == parentb.path.deep_view().len() + 1,
        child.path.deep_view().drop_last() == parentb.path.deep_view(),
        parenta.name == parentb.name,
        parenta.path == parentb.path,
        parenta.is_dir == parentb.is_dir,
        parenta.is_expanded == parentb.is_expanded,
        parenta.children@ == parentb.children@.push(child),
    ensures
        pool_elem_ok(parenta),
        tree_from(entries, parenta),
{
    assert forall|i: int| 0 <= i < parenta.children@.len() implies {
        &&& built_subtree(#[trigger] parenta.children@[i])
        &&& tree_from(entries, parenta.children@[i])
        &&& parenta.children@[i].path.deep_view().len() == parenta.path.deep_view().len() + 1
        &&& parenta.children@[i].path.deep_view().drop_last() == parenta.path.deep_view()
    } by {
        if i < parentb.children@.len() {
            assert(parenta.children@[i] == parentb.children@[i]);
            assert(tree_from(entries, parentb.children@[i]));
        } else {
            assert(parenta.children@[i] == child);
        }
    }
}

/// One pool-construction step: inserting the next entry's detached node at
/// its depth position keeps every invariant of the collection loop. The
/// new pool `u` is given pointwise: the old elements shifted around the
/// new node at position `k`.
#[verifier::rlimit(100)]
#[verifier::spinoff_prover]
proof fn lemma_pool_insert_step(
    entries_v: Seq<FsEntry>,
    root_v: Seq<Seq<char>>,
    pv: Seq<FileNode>,
    u: Seq<FileNode>,
    node: FileNode,
    done: int,
    k: int,
)
    requires
        0 <= done < entries_v.len(),
        forall|i: int, j: int|
            0 <= i < j < entries_v.len() ==> entries_v[i].path.deep_view()
                != entries_v[j].path.deep_view(),
        forall|i: int|
            0 <= i < entries_v.len() ==> root_v.is_prefix_of(
                #[trigger] entries_v[i].path.deep_view(),
            ),
        forall|i: int, j: int| 0 <= i < j < pv.len() ==> pv[i].path@.len() >= pv[j].path@.len(),
        forall|i: int, j: int|
            0 <= i < j < pv.len() ==> pv[i].path.deep_view() != pv[j].path.deep_view(),
        forall|i: int|
            0 <= i < pv.len() ==> exists|j: int|
                0 <= j < done && entries_v[j].path.deep_view() == (#[trigger] pv[
                    i
                ]).path.deep_view() && entries_v[j].is_dir == pv[i].is_dir,
        (exists|h: int| 0 <= h < done && entries_v[h].path.deep_view() == root_v) ==> exists|
            i: int,
        |
            0 <= i < pv.len() && (#[trigger] pv[i]).path.deep_view() == root_v,
        forall|i: int|
            0 <= i < pv.len() ==> root_v.is_prefix_of((#[trigger] pv[i]).path.deep_view()),
        forall|i: int| 0 <= i < pv.len() ==> pool_elem_ok(#[trigger] pv[i]),
        forall|i: int| 0 <= i < pv.len() ==> tree_from(entries_v, #[trigger] pv[i]),
        node.path.deep_view() == entries_v[done].path.deep_view(),
        node.is_dir == entries_v[done].is_dir,
        pool_elem_ok(node),
        tree_from(entries_v, node),
        0 <= k <= pv.len(),
        forall|m: int| 0 <= m < k ==> pv[m].path@.len() >= node.path@.len(),
        k == pv.len() || pv[k].path@.len() < node.path@.len(),
        u.len() == pv.len() + 1,
        forall|m: int|
            0 <= m < u.len() ==> #[trigger] u[m] == (if m < k {
                pv[m]
            } else if m == k {
                node
            } else {
                pv[m - 1]
            }),
    ensures
        forall|i: int, j: int| 0 <= i < j < u.len() ==> u[i].path@.len() >= u[j].path@.len(),
        forall|i: int, j: int|
            0 <= i < j < u.len() ==> u[i].path.deep_view() != u[j].path.deep_view(),
        forall|i: int|
            0 <= i < u.len() ==> exists|j: int|
                0 <= j < done + 1 && entries_v[j].path.deep_view() == (#[trigger] u[
                    i
                ]).path.deep_view() && entries_v[j].is_dir == u[i].is_dir,
        (exists|h: int| 0 <= h < done + 1 && entries_v[h].path.deep_view() == root_v)
            ==> exists|i: int| 0 <= i < u.len() && (#[trigger] u[i]).path.deep_view() == root_v,
        forall|i: int|
            0 <= i < u.len() ==> root_v.is_prefix_of((#[trigger] u[i]).path.deep_view()),
        forall|i: int| 0 <= i < u.len() ==> pool_elem_ok(#[trigger] u[i]),
        forall|i: int| 0 <= i < u.len() ==> tree_from(entries_v, #[trigger] u[i]),
{
    assert(u[k] == node);
    assert forall|m: int| 0 <= m < pv.len() implies pv[m].path.deep_view()
        != node.path.deep_view() by {
        let w = choose|w: int|
            0 <= w < done && entries_v[w].path.deep_view() == pv[m].path.deep_view()
                && entries_v[w].is_dir == pv[m].is_dir;
        assert(entries_v[w].path.deep_view() != entries_v[done].path.deep_view());
    }
    assert forall|i: int, j: int| 0 <= i < j < u.len() implies u[i].path@.len()
        >= u[j].path@.len() by {
        if j < k {
            assert(u[i] == pv[i] && u[j] == pv[j]);
        } else if i < k && j == k {
            assert(u[i] == pv[i]);
        } else if i < k && j > k {
            assert(u[i] == pv[i] && u[j] == pv[j - 1]);
        } else if i == k && j > k {
            assert(u[j] == pv[j - 1]);
            if j - 1 > k {
                assert(pv[k].path@.len() >= pv[j - 1].path@.len());
            }
        } else {
            assert(u[i] == pv[i - 1] && u[j] == pv[j - 1]);
        }
    }
    assert forall|i: int, j: int| 0 <= i < j < u.len() implies u[i].path.deep_view()
        != u[j].path.deep_view() by {
        if i == k && j > k {
            assert(u[j] == pv[j - 1]);
        } else if j == k {
            assert(u[i] == pv[i]);
        } else if j < k {
            assert(u[i] == pv[i] && u[j] == pv[j]);
        } else if i < k && j > k {
            assert(u[i] == pv[i] && u[j] == pv[j - 1]);
        } else {
            assert(u[i] == pv[i - 1] && u[j] == pv[j - 1]);
        }
    }
    assert forall|i: int| 0 <= i < u.len() implies exists|w: int|
        0 <= w < done + 1 && entries_v[w].path.deep_view() == (#[trigger] u[i]).path.deep_view()
            && entries_v[w].is_dir == u[i].is_dir by {
        if i == k {
            assert(0 <= done < done + 1 && entries_v[done].path.deep_view()
                == u[i].path.deep_view() && entries_v[done].is_dir == u[i].is_dir);
        } else {
            let m = if i < k {
                i
            } else {
                i - 1
            };
            assert(u[i] == pv[m]);
            let w = choose|w: int|
                0 <= w < done && entries_v[w].path.deep_view() == pv[m].path.deep_view()
                    && entries_v[w].is_dir == pv[m].is_dir;
            assert(0 <= w < done + 1 && entries_v[w].path.deep_view() == u[i].path.deep_view()
                && entries_v[w].is_dir == u[i].is_dir);
        }
    }
    if exists|h: int| 0 <= h < done + 1 && entries_v[h].path.deep_view() == root_v {
        let h = choose|h: int| 0 <= h < done + 1 && entries_v[h].path.deep_view() == root_v;
        if h == done {
            assert(u[k].path.deep_view() == root_v);
        } else {
            let m = choose|m: int| 0 <= m < pv.len() && pv[m].path.deep_view() == root_v;
            let mi = if m < k {
                m
            } else {
                m + 1
            };
            assert(u[mi] == pv[m]);
            assert(0 <= mi < u.len() && u[mi].path.deep_view() == root_v);
        }
    }
    assert forall|i: int| 0 <= i < u.len() implies root_v.is_prefix_of(
        (#[trigger] u[i]).path.deep_view(),
    ) by {
        if i != k {
            let m = if i < k {
                i
            } else {
                i - 1
            };
            assert(u[i] == pv[m]);
        }
    }
    assert forall|i: int| 0 <= i < u.len() implies pool_elem_ok(#[trigger] u[i]) by {
        if i != k {
            let m = if i < k {
                i
            } else {
                i - 1
            };
            assert(u[i] == pv[m]);
        }
    }
    assert forall|i: int| 0 <= i < u.len() implies tree_from(entries_v, #[trigger] u[i]) by {
        if i != k {
            let m = if i < k {
                i
            } else {
                i - 1
            };
            assert(u[i] == pv[m]);
            assert(tree_from(entries_v, pv[m]));
        }
    }
}

/// One linking step: taking out the deepest node and, possibly, growing
/// one remaining node's children keeps every invariant of the linking
/// loop.
proof fn lemma_link_step(
    entries_v: Seq<FsEntry>,
    root_v: Seq<Seq<char>>,
    pv: Seq<FileNode>,
    base: Seq<FileNode>,
    u: Seq<FileNode>,
)
    requires
        pv.len() > 1,
        pv[0].path.deep_view() != root_v,
        base.len() == pv.len() - 1,
        forall|m: int| 0 <= m < base.len() ==> #[trigger] base[m] == pv[m + 1],
        link_step_ok(entries_v, base, u),
        forall|i: int, j: int| 0 <= i < j < pv.len() ==> pv[i].path@.len() >= pv[j].path@.len(),
        forall|i: int, j: int|
            0 <= i < j < pv.len() ==> pv[i].path.deep_view() != pv[j].path.deep_view(),
        forall|i: int|
            0 <= i < pv.len() ==> exists|j: int|
                0 <= j < entries_v.len() && entries_v[j].path.deep_view() == (#[trigger] pv[
                    i
                ]).path.deep_view() && entries_v[j].is_dir == pv[i].is_dir,
        has_path(entries_v, root_v) ==> exists|i: int|
            0 <= i < pv.len() && (#[trigger] pv[i]).path.deep_view() == root_v,
        forall|i: int|
            0 <= i < pv.len() ==> root_v.is_prefix_of((#[trigger] pv[i]).path.deep_view()),
    ensures
        forall|i: int, j: int| 0 <= i < j < u.len() ==> u[i].path@.len() >= u[j].path@.len(),
        forall|i: int, j: int|
            0 <= i < j < u.len() ==> u[i].path.deep_view() != u[j].path.deep_view(),
        forall|i: int|
            0 <= i < u.len() ==> exists|j: int|
                0 <= j < entries_v.len() && entries_v[j].path.deep_view() == (#[trigger] u[
                    i
                ]).path.deep_view() && entries_v[j].is_dir == u[i].is_dir,
        has_path(entries_v, root_v) ==> exists|i: int|
            0 <= i < u.len() && (#[trigger] u[i]).path.deep_view() == root_v,
        forall|i: int|
            0 <= i < u.len() ==> root_v.is_prefix_of((#[trigger] u[i]).path.deep_view()),
        forall|i: int| 0 <= i < u.len() ==> pool_elem_ok(#[trigger] u[i]),
        forall|i: int| 0 <= i < u.len() ==> tree_from(entries_v, #[trigger] u[i]),
{
    assert forall|i: int, j: int| 0 <= i < j < u.len() implies u[i].path@.len()
        >= u[j].path@.len() by {
        assert(u[i].path == base[i].path && u[j].path == base[j].path);
        assert(base[i] == pv[i + 1] && base[j] == pv[j + 1]);
    }
    assert forall|i: int, j: int| 0 <= i < j < u.len() implies u[i].path.deep_view()
        != u[j].path.deep_view() by {
        assert(u[i].path == base[i].path && u[j].path == base[j].path);
        assert(base[i] == pv[i + 1] && base[j] == pv[j + 1]);
    }
    assert forall|i: int| 0 <= i < u.len() implies exists|w: int|
        0 <= w < entries_v.len() && entries_v[w].path.deep_view() == (#[trigger] u[
            i
        ]).path.deep_view() && entries_v[w].is_dir == u[i].is_dir by {
        assert(u[i].path == base[i].path && u[i].is_dir == base[i].is_dir);
        assert(base[i] == pv[i + 1]);
        let w = choose|w: int|
            0 <= w < entries_v.len() && entries_v[w].path.deep_view() == pv[
                i + 1
            ].path.deep_view() && entries_v[w].is_dir == pv[i + 1].is_dir;
        assert(0 <= w < entries_v.len() && entries_v[w].path.deep_view() == u[
            i
        ].path.deep_view() && entries_v[w].is_dir == u[i].is_dir);
    }
    if has_path(entries_v, root_v) {
        let m = choose|m: int| 0 <= m < pv.len() && (#[trigger] pv[m]).path.deep_view() == root_v;
        assert(m != 0);
        assert(base[m - 1] == pv[m]);
        assert(u[m - 1].path == base[m - 1].path);
        assert(u[m - 1].path.deep_view() == root_v);
    }
    assert forall|i: int| 0 <= i < u.len() implies root_v.is_prefix_of(
        (#[trigger] u[i]).path.deep_view(),
    ) by {
        assert(u[i].path == base[i].path);
        assert(base[i] == pv[i + 1]);
    }
}

/// One collection step keeps every enumerated entry pooled.
proof fn lemma_all_pooled_insert(
    entries_v: Seq<FsEntry>,
    pv: Seq<FileNode>,
    u: Seq<FileNode>,
    node: FileNode,
    done: int,
    k: int,
)
    requires
        0 <= done < entries_v.len(),
        all_pooled(entries_v.take(done), pv),
        node.path.deep_view() == entries_v[done].path.deep_view(),
        0 <= k <= pv.len(),
        u.len() == pv.len() + 1,
        forall|m: int|
            0 <= m < u.len() ==> #[trigger] u[m] == (if m < k {
                pv[m]
            } else if m == k {
                node
            } else {
                pv[m - 1]
            }),
    ensures
        all_pooled(entries_v.take(done + 1), u),
{
    reveal(all_pooled);
    let sub = entries_v.take(done + 1);
    assert forall|j: int| 0 <= j < sub.len() implies seq_has_path(
        u,
        (#[trigger] sub[j]).path.deep_view(),
    ) by {
        assert(sub[j] == entries_v[j]);
        if j == done {
            assert(u[k] == node);
            assert(u[k].path.deep_view() == sub[j].path.deep_view());
        } else {
            assert(entries_v.take(done)[j] == entries_v[j]);
            assert(seq_has_path(pv, entries_v.take(done)[j].path.deep_view()));
            let c = choose|c: int|
                0 <= c < pv.len() && (#[trigger] pv[c]).path.deep_view()
                    == entries_v[j].path.deep_view();
            let ci = if c < k {
                c
            } else {
                c + 1
            };
            assert(u[ci] == pv[c]);
            assert(u[ci].path.deep_view() == sub[j].path.deep_view());
        }
    }
}

/// When every entry is still pooled and no children have been attached
/// yet, the linking loop's completeness invariant holds vacuously.
proof fn lemma_link_complete_init(entries_v: Seq<FsEntry>, pool: Seq<FileNode>)
    requires
        all_pooled(entries_v, pool),
        forall|i: int| 0 <= i < pool.len() ==> (#[trigger] pool[i]).children@.len() == 0,
    ensures
        pool_complete(entries_v, pool),
{
    reveal(all_pooled);
    reveal(pool_complete);
    assert forall|i: int, j: int|
        0 <= i < pool.len() && 0 <= j < entries_v.len() && child_path_of(
            (#[trigger] entries_v[j]).path.deep_view(),
            (#[trigger] pool[i]).path.deep_view(),
        ) && !seq_has_path(pool, entries_v[j].path.deep_view()) implies seq_has_path(
        pool[i].children@,
        entries_v[j].path.deep_view(),
    ) by {
        assert(seq_has_path(pool, entries_v[j].path.deep_view()));
    }
}

/// Re-sorting the children of a node whose level is complete keeps the
/// node complete: membership survives any rearrangement.
proof fn lemma_complete_after_sort(entries_v: Seq<FsEntry>, before: FileNode, after: FileNode)
    requires
        forall|j: int|
            0 <= j < entries_v.len() && child_path_of(
                (#[trigger] entries_v[j]).path.deep_view(),
                before.path.deep_view(),
            ) ==> seq_has_path(before.children@, entries_v[j].path.deep_view()),
        forall|c: int|
            0 <= c < before.children@.len() ==> tree_complete(
                entries_v,
                #[trigger] before.children@[c],
            ),
        after.path == before.path,
        after.children@.to_multiset() == before.children@.to_multiset(),
    ensures
        tree_complete(entries_v, after),
{
    lemma_multiset_eq_contains(after.children@, before.children@);
    assert forall|j: int|
        0 <= j < entries_v.len() && child_path_of(
            (#[trigger] entries_v[j]).path.deep_view(),
            after.path.deep_view(),
        ) implies seq_has_path(after.children@, entries_v[j].path.deep_view()) by {
        assert(seq_has_path(before.children@, entries_v[j].path.deep_view()));
        let c = choose|c: int|
            0 <= c < before.children@.len() && (#[trigger] before.children@[c]).path.deep_view()
                == entries_v[j].path.deep_view();
        assert(before.children@.contains(before.children@[c]));
        assert(after.children@.contains(before.children@[c]));
        let c2 = choose|c2: int|
            0 <= c2 < after.children@.len() && after.children@[c2] == before.children@[c];
        assert(after.children@[c2].path.deep_view() == entries_v[j].path.deep_view());
    }
    assert forall|i: int| 0 <= i < after.children@.len() implies tree_complete(
        entries_v,
        #[trigger] after.children@[i],
    ) by {
        assert(after.children@.contains(after.children@[i]));
        assert(before.children@.contains(after.children@[i]));
        let c = choose|c: int|
            0 <= c < before.children@.len() && before.children@[c] == after.children@[i];
        assert(tree_complete(entries_v, before.children@[c]));
    }
}

/// Taking out the deepest node keeps the completeness invariant when the
/// node finds no parent in the pool: no remaining node could have claimed
/// it as a child.
proof fn lemma_complete_drop(entries_v: Seq<FsEntry>, pv: Seq<FileNode>, base: Seq<FileNode>)
    requires
        pv.len() > 1,
        pool_complete(entries_v, pv),
        base.len() == pv.len() - 1,
        forall|m: int| 0 <= m < base.len() ==> #[trigger] base[m] == pv[m + 1],
        pv[0].path.deep_view().len() == 0 || (forall|m: int|
            0 <= m < base.len() ==> (#[trigger] base[m]).path.deep_view()
                != pv[0].path.deep_view().drop_last()),
    ensures
        pool_complete(entries_v, base),
{
    reveal(pool_complete);
    let q0 = pv[0].path.deep_view();
    assert forall|i: int, j: int|
        0 <= i < base.len() && 0 <= j < entries_v.len() && child_path_of(
            (#[trigger] entries_v[j]).path.deep_view(),
            (#[trigger] base[i]).path.deep_view(),
        ) && !seq_has_path(base, entries_v[j].path.deep_view()) implies seq_has_path(
        base[i].children@,
        entries_v[j].path.deep_view(),
    ) by {
        let q = entries_v[j].path.deep_view();
        assert(base[i] == pv[i + 1]);
        if q == q0 {
            assert(q.len() >= 1);
            assert(base[i].path.deep_view() == q0.drop_last());
            assert(false);
        } else {
            assert(!seq_has_path(pv, q)) by {
                if seq_has_path(pv, q) {
                    let c = choose|c: int|
                        0 <= c < pv.len() && (#[trigger] pv[c]).path.deep_view() == q;
                    if c == 0 {
                        assert(q == q0);
                        assert(false);
                    } else {
                        assert(base[c - 1] == pv[c]);
                        assert(seq_has_path(base, q));
                        assert(false);
                    }
                }
            }
            assert(child_path_of(q, pv[i + 1].path.deep_view()));
            assert(seq_has_path(pv[i + 1].children@, q));
        }
    }
    assert forall|i: int, c: int|
        0 <= i < base.len() && 0 <= c < (#[trigger] base[i]).children@.len() implies tree_complete(
        entries_v,
        #[trigger] base[i].children@[c],
    ) by {
        assert(base[i] == pv[i + 1]);
    }
}

/// Attaching the re-sorted deepest node to its pooled parent keeps the
/// completeness invariant, and the attached subtree is itself complete:
/// being strictly deeper than everything left in the pool, every entry
/// directly below it has already sunk into its children.
proof fn lemma_complete_attach(
    entries_v: Seq<FsEntry>,
    pv: Seq<FileNode>,
    base: Seq<FileNode>,
    u: Seq<FileNode>,
    node0: FileNode,
    nodeg: FileNode,
    j: int,
)
    requires
        pv.len() > 1,
        pool_complete(entries_v, pv),
        forall|i1: int, i2: int|
            0 <= i1 < i2 < pv.len() ==> pv[i1].path@.len() >= pv[i2].path@.len(),
        forall|i1: int, i2: int|
            0 <= i1 < i2 < pv.len() ==> pv[i1].path.deep_view() != pv[i2].path.deep_view(),
        base.len() == pv.len() - 1,
        forall|m: int| 0 <= m < base.len() ==> #[trigger] base[m] == pv[m + 1],
        node0 == pv[0],
        nodeg.path == node0.path,
        nodeg.children@.to_multiset() == node0.children@.to_multiset(),
        nodeg.path.deep_view().len() >= 1,
        0 <= j < base.len(),
        base[j].path.deep_view() == nodeg.path.deep_view().drop_last(),
        u.len() == base.len(),
        u[j].path == base[j].path,
        u[j].children@ == base[j].children@.push(nodeg),
        forall|m: int| 0 <= m < u.len() && m != j ==> #[trigger] u[m] == base[m],
    ensures
        pool_complete(entries_v, u),
        tree_complete(entries_v, nodeg),
{
    reveal(pool_complete);
    let q0 = node0.path.deep_view();
    assert(node0.path@.len() == q0.len());
    assert forall|j2: int|
        0 <= j2 < entries_v.len() && child_path_of(
            (#[trigger] entries_v[j2]).path.deep_view(),
            q0,
        ) implies seq_has_path(node0.children@, entries_v[j2].path.deep_view()) by {
        let q = entries_v[j2].path.deep_view();
        assert(!seq_has_path(pv, q)) by {
            if seq_has_path(pv, q) {
                let c = choose|c: int| 0 <= c < pv.len() && (#[trigger] pv[c]).path.deep_view()
                    == q;
                assert(pv[c].path@.len() == q.len());
                if c > 0 {
                    assert(pv[0].path@.len() >= pv[c].path@.len());
                }
                assert(false);
            }
        }
        assert(child_path_of(q, pv[0].path.deep_view()));
        assert(seq_has_path(pv[0].children@, q));
    }
    assert forall|c: int| 0 <= c < node0.children@.len() implies tree_complete(
        entries_v,
        #[trigger] node0.children@[c],
    ) by {
        assert(tree_complete(entries_v, pv[0].children@[c]));
    }
    lemma_complete_after_sort(entries_v, node0, nodeg);
    assert forall|i: int, j2: int|
        0 <= i < u.len() && 0 <= j2 < entries_v.len() && child_path_of(
            (#[trigger] entries_v[j2]).path.deep_view(),
            (#[trigger] u[i]).path.deep_view(),
        ) && !seq_has_path(u, entries_v[j2].path.deep_view()) implies seq_has_path(
        u[i].children@,
        entries_v[j2].path.deep_view(),
    ) by {
        let q = entries_v[j2].path.deep_view();
        assert(u[i].path == base[i].path);
        if q == q0 {
            assert(u[i].path.deep_view() == q0.drop_last());
            if i != j {
                assert(base[i] == pv[i + 1] && base[j] == pv[j + 1]);
                assert(base[i].path.deep_view() != base[j].path.deep_view());
                assert(false);
            }
            assert(u[j].children@[base[j].children@.len() as int] == nodeg);
            assert(u[j].children@[base[j].children@.len() as int].path.deep_view() == q0);
            assert(seq_has_path(u[j].children@, q0));
        } else {
            assert(!seq_has_path(pv, q)) by {
                if seq_has_path(pv, q) {
                    let c = choose|c: int|
                        0 <= c < pv.len() && (#[trigger] pv[c]).path.deep_view() == q;
                    if c == 0 {
                        assert(q == q0);
                        assert(false);
                    } else {
                        assert(base[c - 1] == pv[c]);
                        assert(u[c - 1].path == base[c - 1].path);
                        assert(seq_has_path(u, q));
                        assert(false);
                    }
                }
            }
            assert(base[i] == pv[i + 1]);
            assert(child_path_of(q, pv[i + 1].path.deep_view()));
            assert(seq_has_path(pv[i + 1].children@, q));
            if i == j {
                let c = choose|c: int|
                    0 <= c < base[j].children@.len() && (#[trigger] base[
                        j
                    ].children@[c]).path.deep_view() == q;
                assert(u[j].children@[c] == base[j].children@[c]);
                assert(seq_has_path(u[j].children@, q));
            }
        }
    }
    assert forall|i: int, c: int|
        0 <= i < u.len() && 0 <= c < (#[trigger] u[i]).children@.len() implies tree_complete(
        entries_v,
        #[trigger] u[i].children@[c],
    ) by {
        if i != j {
            assert(u[i] == base[i] && base[i] == pv[i + 1]);
            assert(tree_complete(entries_v, pv[i + 1].children@[c]));
        } else {
            if c < base[j].children@.len() {
                assert(u[j].children@[c] == base[j].children@[c]);
                assert(base[j] == pv[j + 1]);
                assert(tree_complete(entries_v, pv[j + 1].children@[c]));
            } else {
                assert(u[j].children@[c] == nodeg);
            }
        }
    }
}

/// The last pool node, when it is the root, is complete once its children
/// are sorted: everything else sank below it.
proof fn lemma_complete_finish(
    entries_v: Seq<FsEntry>,
    pv: Seq<FileNode>,
    root0: FileNode,
    rootn: FileNode,
)
    requires
        pv.len() == 1,
        pool_complete(entries_v, pv),
        root0 == pv[0],
        rootn.path == root0.path,
        rootn.children@.to_multiset() == root0.children@.to_multiset(),
    ensures
        tree_complete(entries_v, rootn),
{
    reveal(pool_complete);
    let q0 = root0.path.deep_view();
    assert forall|j: int|
        0 <= j < entries_v.len() && child_path_of(
            (#[trigger] entries_v[j]).path.deep_view(),
            q0,
        ) implies seq_has_path(root0.children@, entries_v[j].path.deep_view()) by {
        let q = entries_v[j].path.deep_view();
        assert(!seq_has_path(pv, q)) by {
            if seq_has_path(pv, q) {
                let c = choose|c: int| 0 <= c < pv.len() && (#[trigger] pv[c]).path.deep_view()
                    == q;
                assert(c == 0);
                assert(q.len() == q0.len() + 1);
                assert(false);
            }
        }
        assert(child_path_of(q, pv[0].path.deep_view()));
        assert(seq_has_path(pv[0].children@, q));
    }
    assert forall|c: int| 0 <= c < root0.children@.len() implies tree_complete(
        entries_v,
        #[trigger] root0.children@[c],
    ) by {
        assert(tree_complete(entries_v, pv[0].children@[c]));
    }
    lemma_complete_after_sort(entries_v, root0, rootn);
}

/// What the build promises of a returned tree over one enumeration: it
/// sits at the root path, it is fully assembled, and its nodes are
/// exactly distinct reproductions of reachable enumerated entries.
pub open spec fn built_for(entries: Seq<FsEntry>, root: Seq<Seq<char>>, t: FileNode) -> bool {
    &&& t.path.deep_view() == root
    &&& built_subtree(t)
    &&& tree_from(entries, t)
    &&& tree_complete(entries, t)
    &&& tree_distinct(t)
}

/// A path one component below `p` is `p` extended by its last component.
proof fn lemma_path_reconstruct(q: Seq<Seq<char>>, p: Seq<Seq<char>>)
    requires
        q.len() == p.len() + 1,
        q.drop_last() == p,
    ensures
        q == p.push(q.last()),
{
    assert(q =~= p.push(q.last()));
}

/// Two sibling sequences over the same parent that are sorted, duplicate
/// free, agree on which paths they hold, name their nodes after their
/// paths, and agree on each path's kind, list their paths in the same
/// order.
proof fn lemma_sorted_same_paths(x: Seq<FileNode>, y: Seq<FileNode>, p: Seq<Seq<char>>)
    requires
        children_sorted(x),
        children_sorted(y),
        forall|c1: int, c2: int|
            0 <= c1 < c2 < x.len() ==> x[c1].path.deep_view() != x[c2].path.deep_view(),
        forall|c1: int, c2: int|
            0 <= c1 < c2 < y.len() ==> y[c1].path.deep_view() != y[c2].path.deep_view(),
        forall|c: int|
            0 <= c < x.len() ==> {
                &&& (#[trigger] x[c]).path.deep_view().len() == p.len() + 1
                &&& x[c].path.deep_view().drop_last() == p
                &&& x[c].name@ == name_of(x[c].path.deep_view())
            },
        forall|c: int|
            0 <= c < y.len() ==> {
                &&& (#[trigger] y[c]).path.deep_view().len() == p.len() + 1
                &&& y[c].path.deep_view().drop_last() == p
                &&& y[c].name@ == name_of(y[c].path.deep_view())
            },
        forall|cx: int, cy: int|
            0 <= cx < x.len() && 0 <= cy < y.len() && (#[trigger] x[cx]).path.deep_view()
                == (#[trigger] y[cy]).path.deep_view() ==> x[cx].is_dir == y[cy].is_dir,
        forall|q: Seq<Seq<char>>| seq_has_path(x, q) <==> seq_has_path(y, q),
    ensures
        x.len() == y.len(),
        forall|c: int|
            0 <= c < x.len() ==> (#[trigger] x[c]).path.deep_view() == y[c].path.deep_view(),
    decreases x.len(),
{
    if x.len() == 0 {
        if y.len() > 0 {
            assert(seq_has_path(y, y[0].path.deep_view()));
            assert(seq_has_path(x, y[0].path.deep_view()));
            assert(false);
        }
    } else {
        assert(seq_has_path(x, x[0].path.deep_view()));
        assert(seq_has_path(y, x[0].path.deep_view()));
        let yi = choose|yi: int|
            0 <= yi < y.len() && (#[trigger] y[yi]).path.deep_view() == x[0].path.deep_view();
        assert(seq_has_path(y, y[0].path.deep_view()));
        assert(seq_has_path(x, y[0].path.deep_view()));
        let xj = choose|xj: int|
            0 <= xj < x.len() && (#[trigger] x[xj]).path.deep_view() == y[0].path.deep_view();
        if yi == 0 || xj == 0 {
            assert(x[0].path.deep_view() == y[0].path.deep_view());
        } else {
            assert(node_le(y[0], y[yi]));
            assert(node_le(x[0], x[xj]));
            assert(y[yi].name@ == name_of(y[yi].path.deep_view()));
            assert(x[0].name@ == name_of(x[0].path.deep_view()));
            assert(y[yi].name@ == x[0].name@);
            assert(y[yi].is_dir == x[0].is_dir);
            assert(x[xj].name@ == y[0].name@);
            assert(x[xj].is_dir == y[0].is_dir);
            assert(node_le(y[0], x[0]));
            assert(node_le(x[0], y[0]));
            lemma_node_le_antisymmetric_names(x[0], y[0]);
            lemma_path_reconstruct(x[0].path.deep_view(), p);
            lemma_path_reconstruct(y[0].path.deep_view(), p);
            assert(x[0].path.deep_view() == y[0].path.deep_view());
        }
        let xt = x.drop_first();
        let yt = y.drop_first();
        assert(forall|c: int| 0 <= c < xt.len() ==> #[trigger] xt[c] == x[c + 1]);
        assert(forall|c: int| 0 <= c < yt.len() ==> #[trigger] yt[c] == y[c + 1]);
        assert forall|q: Seq<Seq<char>>| seq_has_path(xt, q) implies seq_has_path(yt, q) by {
            let c = choose|c: int|
                0 <= c < xt.len() && (#[trigger] xt[c]).path.deep_view() == q;
            assert(xt[c] == x[c + 1]);
            assert(seq_has_path(x, q));
            assert(seq_has_path(y, q));
            let cy = choose|cy: int|
                0 <= cy < y.len() && (#[trigger] y[cy]).path.deep_view() == q;
            assert(q != x[0].path.deep_view());
            assert(cy != 0);
            assert(yt[cy - 1] == y[cy]);
            assert(seq_has_path(yt, q));
        }
        assert forall|q: Seq<Seq<char>>| seq_has_path(yt, q) implies seq_has_path(xt, q) by {
            let c = choose|c: int|
                0 <= c < yt.len() && (#[trigger] yt[c]).path.deep_view() == q;
            assert(yt[c] == y[c + 1]);
            assert(seq_has_path(y, q));
            assert(seq_has_path(x, q));
            let cx = choose|cx: int|
                0 <= cx < x.len() && (#[trigger] x[cx]).path.deep_view() == q;
            assert(q != y[0].path.deep_view());
            assert(cx != 0);
            assert(xt[cx - 1] == x[cx]);
            assert(seq_has_path(xt, q));
        }
        assert forall|cx: int, cy: int|
            0 <= cx < xt.len() && 0 <= cy < yt.len() && (#[trigger] xt[cx]).path.deep_view()
                == (#[trigger] yt[cy]).path.deep_view() implies xt[cx].is_dir
            == yt[cy].is_dir by {
            assert(xt[cx] == x[cx + 1] && yt[cy] == y[cy + 1]);
        }
        lemma_sorted_same_paths(xt, yt, p);
        assert forall|c: int| 0 <= c < x.len() implies (#[trigger] x[c]).path.deep_view() == y[
            c
        ].path.deep_view() by {
            if c > 0 {
                assert(xt[c - 1].path.deep_view() == yt[c - 1].path.deep_view());
                assert(xt[c - 1] == x[c] && yt[c - 1] == y[c]);
            }
        }
    }
}

/// Tree construction is deterministic: over one enumeration, any two
/// trees that meet the build's promise at the same root are structurally
/// identical, node for node and child order included.
pub proof fn lemma_build_deterministic(
    entries: Seq<FsEntry>,
    root: Seq<Seq<char>>,
    t1: FileNode,
    t2: FileNode,
)
    requires
        forall|i: int, j: int|
            0 <= i < j < entries.len() ==> entries[i].path.deep_view()
                != entries[j].path.deep_view(),
        built_for(entries, root, t1),
        built_for(entries, root, t2),
    ensures
        tree_eq(t1, t2),
    decreases t1,
{
    let p = t1.path.deep_view();
    let e1 = choose|j: int|
        0 <= j < entries.len() && (#[trigger] entries[j]).path.deep_view()
            == t1.path.deep_view() && entries[j].is_dir == t1.is_dir;
    let e2 = choose|j: int|
        0 <= j < entries.len() && (#[trigger] entries[j]).path.deep_view()
            == t2.path.deep_view() && entries[j].is_dir == t2.is_dir;
    assert(e1 == e2) by {
        if e1 != e2 {
            if e1 < e2 {
                assert(entries[e1].path.deep_view() != entries[e2].path.deep_view());
            } else {
                assert(entries[e2].path.deep_view() != entries[e1].path.deep_view());
            }
        }
    }
    assert(t1.is_dir == t2.is_dir);
    let x = t1.children@;
    let y = t2.children@;
    assert forall|c: int| 0 <= c < x.len() implies {
        &&& (#[trigger] x[c]).path.deep_view().len() == p.len() + 1
        &&& x[c].path.deep_view().drop_last() == p
        &&& x[c].name@ == name_of(x[c].path.deep_view())
    } by {
        assert(built_subtree(t1.children@[c]));
    }
    assert forall|c: int| 0 <= c < y.len() implies {
        &&& (#[trigger] y[c]).path.deep_view().len() == p.len() + 1
        &&& y[c].path.deep_view().drop_last() == p
        &&& y[c].name@ == name_of(y[c].path.deep_view())
    } by {
        assert(built_subtree(t2.children@[c]));
    }
    assert forall|cx: int, cy: int|
        0 <= cx < x.len() && 0 <= cy < y.len() && (#[trigger] x[cx]).path.deep_view()
            == (#[trigger] y[cy]).path.deep_view() implies x[cx].is_dir == y[cy].is_dir by {
        assert(tree_from(entries, t1.children@[cx]));
        assert(tree_from(entries, t2.children@[cy]));
        let ja = choose|ja: int|
            0 <= ja < entries.len() && (#[trigger] entries[ja]).path.deep_view() == x[
                cx
            ].path.deep_view() && entries[ja].is_dir == x[cx].is_dir;
        let jb = choose|jb: int|
            0 <= jb < entries.len() && (#[trigger] entries[jb]).path.deep_view() == y[
                cy
            ].path.deep_view() && entries[jb].is_dir == y[cy].is_dir;
        assert(ja == jb) by {
            if ja != jb {
                if ja < jb {
                    assert(entries[ja].path.deep_view() != entries[jb].path.deep_view());
                } else {
                    assert(entries[jb].path.deep_view() != entries[ja].path.deep_view());
                }
            }
        }
    }
    assert forall|q: Seq<Seq<char>>| seq_has_path(x, q) implies seq_has_path(y, q) by {
        let c = choose|c: int| 0 <= c < x.len() && (#[trigger] x[c]).path.deep_view() == q;
        assert(tree_from(entries, t1.children@[c]));
        let j = choose|j: int|
            0 <= j < entries.len() && (#[trigger] entries[j]).path.deep_view() == x[
                c
            ].path.deep_view() && entries[j].is_dir == x[c].is_dir;
        assert(child_path_of(entries[j].path.deep_view(), t2.path.deep_view()));
        assert(seq_has_path(t2.children@, entries[j].path.deep_view()));
    }
    assert forall|q: Seq<Seq<char>>| seq_has_path(y, q) implies seq_has_path(x, q) by {
        let c = choose|c: int| 0 <= c < y.len() && (#[trigger] y[c]).path.deep_view() == q;
        assert(tree_from(entries, t2.children@[c]));
        let j = choose|j: int|
            0 <= j < entries.len() && (#[trigger] entries[j]).path.deep_view() == y[
                c
            ].path.deep_view() && entries[j].is_dir == y[c].is_dir;
        assert(child_path_of(entries[j].path.deep_view(), t1.path.deep_view()));
        assert(seq_has_path(t1.children@, entries[j].path.deep_view()));
    }
    lemma_sorted_same_paths(x, y, p);
    assert forall|c: int| 0 <= c < x.len() implies tree_eq(
        #[trigger] t1.children@[c],
        t2.children@[c],
    ) by {
        assert(x[c].path.deep_view() == y[c].path.deep_view());
        assert(built_subtree(t1.children@[c]) && built_subtree(t2.children@[c]));
        assert(tree_from(entries, t1.children@[c]) && tree_from(entries, t2.children@[c]));
        assert(tree_complete(entries, t1.children@[c]) && tree_complete(
            entries,
            t2.children@[c],
        ));
        assert(tree_distinct(t1.children@[c]) && tree_distinct(t2.children@[c]));
        lemma_build_deterministic(
            entries,
            x[c].path.deep_view(),
            t1.children@[c],
            t2.children@[c],
        );
    }
}

/// With no children attached yet, the distinctness invariant holds
/// vacuously.
proof fn lemma_fresh_init(pool: Seq<FileNode>)
    requires
        forall|i: int| 0 <= i < pool.len() ==> (#[trigger] pool[i]).children@.len() == 0,
    ensures
        pool_fresh(pool),
{
    reveal(pool_fresh);
}

/// Taking out the deepest node keeps the distinctness invariant.
proof fn lemma_fresh_drop(pv: Seq<FileNode>, base: Seq<FileNode>)
    requires
        pv.len() > 1,
        pool_fresh(pv),
        base.len() == pv.len() - 1,
        forall|m: int| 0 <= m < base.len() ==> #[trigger] base[m] == pv[m + 1],
    ensures
        pool_fresh(base),
{
    reveal(pool_fresh);
    assert forall|i: int, c1: int, c2: int|
        #![trigger base[i].children@[c1], base[i].children@[c2]]
        0 <= i < base.len() && 0 <= c1 < c2 < base[i].children@.len() implies base[
        i
    ].children@[c1].path.deep_view() != base[i].children@[c2].path.deep_view() by {
        assert(base[i] == pv[i + 1]);
    }
    assert forall|i: int, c: int, m: int|
        #![trigger base[i].children@[c], base[m]]
        0 <= i < base.len() && 0 <= c < base[i].children@.len() && 0 <= m < base.len() implies base[
        i
    ].children@[c].path.deep_view() != base[m].path.deep_view() by {
        assert(base[i] == pv[i + 1] && base[m] == pv[m + 1]);
    }
    assert forall|i: int, c: int|
        #![trigger base[i].children@[c]]
        0 <= i < base.len() && 0 <= c < base[i].children@.len() implies tree_distinct(
        base[i].children@[c],
    ) by {
        assert(base[i] == pv[i + 1]);
    }
}

/// Attaching the re-sorted deepest node to its parent keeps the
/// distinctness invariant, and the attached subtree is itself distinct.
proof fn lemma_fresh_attach(
    pv: Seq<FileNode>,
    base: Seq<FileNode>,
    u: Seq<FileNode>,
    node0: FileNode,
    nodeg: FileNode,
    j: int,
)
    requires
        pv.len() > 1,
        pool_fresh(pv),
        forall|i1: int, i2: int|
            0 <= i1 < i2 < pv.len() ==> pv[i1].path.deep_view() != pv[i2].path.deep_view(),
        base.len() == pv.len() - 1,
        forall|m: int| 0 <= m < base.len() ==> #[trigger] base[m] == pv[m + 1],
        node0 == pv[0],
        nodeg.path == node0.path,
        nodeg.children@.to_multiset() == node0.children@.to_multiset(),
        0 <= j < base.len(),
        u.len() == base.len(),
        u[j].path == base[j].path,
        u[j].children@ == base[j].children@.push(nodeg),
        forall|m: int| 0 <= m < u.len() && m != j ==> #[trigger] u[m] == base[m],
    ensures
        pool_fresh(u),
        tree_distinct(nodeg),
{
    reveal(pool_fresh);
    assert forall|c1: int, c2: int|
        0 <= c1 < c2 < node0.children@.len() implies node0.children@[c1].path.deep_view()
        != node0.children@[c2].path.deep_view() by {
        assert(pv[0].children@[c1].path.deep_view() != pv[0].children@[c2].path.deep_view());
    }
    assert forall|c: int| 0 <= c < node0.children@.len() implies tree_distinct(
        #[trigger] node0.children@[c],
    ) by {
        assert(tree_distinct(pv[0].children@[c]));
    }
    lemma_distinct_after_sort(node0, nodeg);
    assert forall|i: int, c1: int, c2: int|
        #![trigger u[i].children@[c1], u[i].children@[c2]]
        0 <= i < u.len() && 0 <= c1 < c2 < u[i].children@.len() implies u[
        i
    ].children@[c1].path.deep_view() != u[i].children@[c2].path.deep_view() by {
        if i != j {
            assert(u[i] == base[i] && base[i] == pv[i + 1]);
            assert(pv[i + 1].children@[c1].path.deep_view() != pv[
                i + 1
            ].children@[c2].path.deep_view());
        } else {
            assert(base[j] == pv[j + 1]);
            if c2 < base[j].children@.len() {
                assert(u[j].children@[c1] == base[j].children@[c1]);
                assert(u[j].children@[c2] == base[j].children@[c2]);
                assert(pv[j + 1].children@[c1].path.deep_view() != pv[
                    j + 1
                ].children@[c2].path.deep_view());
            } else {
                assert(u[j].children@[c2] == nodeg);
                assert(u[j].children@[c1] == base[j].children@[c1]);
                assert(pv[j + 1].children@[c1].path.deep_view() != pv[0].path.deep_view());
                assert(nodeg.path.deep_view() == pv[0].path.deep_view());
            }
        }
    }
    assert forall|i: int, c: int, m: int|
        #![trigger u[i].children@[c], u[m]]
        0 <= i < u.len() && 0 <= c < u[i].children@.len() && 0 <= m < u.len() implies u[
        i
    ].children@[c].path.deep_view() != u[m].path.deep_view() by {
        assert(u[m].path == base[m].path && base[m] == pv[m + 1]);
        if i != j {
            assert(u[i] == base[i] && base[i] == pv[i + 1]);
            assert(pv[i + 1].children@[c].path.deep_view() != pv[m + 1].path.deep_view());
        } else {
            assert(base[j] == pv[j + 1]);
            if c < base[j].children@.len() {
                assert(u[j].children@[c] == base[j].children@[c]);
                assert(pv[j + 1].children@[c].path.deep_view() != pv[m + 1].path.deep_view());
            } else {
                assert(u[j].children@[c] == nodeg);
                assert(nodeg.path.deep_view() == pv[0].path.deep_view());
                assert(pv[0].path.deep_view() != pv[m + 1].path.deep_view());
            }
        }
    }
    assert forall|i: int, c: int|
        #![trigger u[i].children@[c]]
        0 <= i < u.len() && 0 <= c < u[i].children@.len() implies tree_distinct(
        u[i].children@[c],
    ) by {
        if i != j {
            assert(u[i] == base[i] && base[i] == pv[i + 1]);
            assert(tree_distinct(pv[i + 1].children@[c]));
        } else {
            assert(base[j] == pv[j + 1]);
            if c < base[j].children@.len() {
                assert(u[j].children@[c] == base[j].children@[c]);
                assert(tree_distinct(pv[j + 1].children@[c]));
            } else {
                assert(u[j].children@[c] == nodeg);
            }
        }
    }
}

/// The last pool node is a distinct tree once its children are sorted.
proof fn lemma_fresh_finish(pv: Seq<FileNode>, root0: FileNode, rootn: FileNode)
    requires
        pv.len() == 1,
        pool_fresh(pv),
        root0 == pv[0],
        rootn.children@.to_multiset() == root0.children@.to_multiset(),
    ensures
        tree_distinct(rootn),
{
    reveal(pool_fresh);
    assert forall|c1: int, c2: int|
        0 <= c1 < c2 < root0.children@.len() implies root0.children@[c1].path.deep_view()
        != root0.children@[c2].path.deep_view() by {
        assert(pv[0].children@[c1].path.deep_view() != pv[0].children@[c2].path.deep_view());
    }
    assert forall|c: int| 0 <= c < root0.children@.len() implies tree_distinct(
        #[trigger] root0.children@[c],
    ) by {
        assert(tree_distinct(pv[0].children@[c]));
    }
    lemma_distinct_after_sort(root0, rootn);
}

/// Assembles the tree for one directory snapshot. The entries are the
/// enumerated reachable entries under the canonical root path, in any
/// order; paths are unique within a snapshot and all extend the root path.
///
/// The build collects the entries as detached nodes in a pool ordered by
/// descending path depth, then repeatedly takes the deepest remaining
/// node, sorts its children, and moves it into its parent's children list;
/// a node whose parent was not enumerated is silently dropped. The root,
/// strictly the shallowest, is necessarily processed last; it is returned,
/// children sorted, exactly when the enumeration contained it.
#[verifier::rlimit(100)]
pub fn build_tree(root_path: &Vec<String>, entries: Vec<FsEntry>) -> (r: Option<FileNode>)
    requires
        forall|i: int, j: int|
            0 <= i < j < entries@.len() ==> entries@[i].path.deep_view()
                != entries@[j].path.deep_view(),
        forall|i: int|
            0 <= i < entries@.len() ==> root_path.deep_view().is_prefix_of(
                #[trigger] entries@[i].path.deep_view(),
            ),
    ensures
        r is Some <==> has_path(entries@, root_path.deep_view()),
        r matches Some(t) ==> {
            &&& built_for(entries@, root_path.deep_view(), t)
            &&& tree_sorted(t)
            &&& exists|i: int|
                0 <= i < entries@.len() && entries@[i].path.deep_view()
                    == root_path.deep_view() && t.is_dir == entries@[i].is_dir
        },
{
    let ghost root_v = root_path.deep_view();
    let ghost entries_v = entries@;
    let mut pool: Vec<FileNode> = Vec::new();
    let mut rest = entries;
    proof {
        reveal(all_pooled);
        assert(all_pooled(entries_v.take(0), pool@));
    }
    while rest.len() > 0
        invariant
            rest@.len() <= entries_v.len(),
            entries_v.skip(entries_v.len() - rest@.len()) =~= rest@,
            root_v == root_path.deep_view(),
            forall|i: int, j: int|
                0 <= i < j < entries_v.len() ==> entries_v[i].path.deep_view()
                    != entries_v[j].path.deep_view(),
            forall|i: int|
                0 <= i < entries_v.len() ==> root_v.is_prefix_of(
                    #[trigger] entries_v[i].path.deep_view(),
                ),
            forall|i: int, j: int|
                0 <= i < j < pool@.len() ==> pool@[i].path@.len() >= pool@[j].path@.len(),
            forall|i: int, j: int|
                0 <= i < j < pool@.len() ==> pool@[i].path.deep_view()
                    != pool@[j].path.deep_view(),
            forall|i: int|
                0 <= i < pool@.len() ==> exists|j: int|
                    0 <= j < entries_v.len() - rest@.len() && entries_v[j].path.deep_view()
                        == (#[trigger] pool@[i]).path.deep_view() && entries_v[j].is_dir
                        == pool@[i].is_dir,
            (exists|h: int|
                0 <= h < entries_v.len() - rest@.len() && entries_v[h].path.deep_view()
                    == root_v) ==> exists|i: int|
                0 <= i < pool@.len() && (#[trigger] pool@[i]).path.deep_view() == root_v,
            forall|i: int|
                0 <= i < pool@.len() ==> root_v.is_prefix_of(
                    (#[trigger] pool@[i]).path.deep_view(),
                ),
            forall|i: int| 0 <= i < pool@.len() ==> pool_elem_ok(#[trigger] pool@[i]),
            forall|i: int| 0 <= i < pool@.len() ==> tree_from(entries_v, #[trigger] pool@[i]),
            forall|i: int| 0 <= i < pool@.len() ==> (#[trigger] pool@[i]).children@.len() == 0,
            all_pooled(entries_v.take(entries_v.len() - rest@.len()), pool@),
        decreases rest@.len(),
    {
        let ghost done = entries_v.len() - rest@.len();
        let ghost pv = pool@;
        let e = rest.remove(0);
        proof {
            assert(entries_v.skip(done)[0] == entries_v[done]);
            assert(entries_v[done] == e);
            assert(entries_v.skip(done).drop_first() =~= entries_v.skip(done + 1));
        }
        let node = FileNode::new(e.path, e.is_dir);
        let ghost nodeg = node;
        let plen = pool.len();
        let mut k: usize = 0;
        while k < plen && pool[k].path.len() >= node.path.len()
            invariant
                k <= plen,
                plen == pool@.len(),
                pool@ == pv,
                nodeg == node,
                forall|m: int| 0 <= m < k ==> pv[m].path@.len() >= nodeg.path@.len(),
            decreases plen - k,
        {
            k += 1;
        }
        proof {
            assert(k == plen || pv[k as int].path@.len() < nodeg.path@.len());
        }
        pool.insert(k, node);
        proof {
            let u = pool@;
            assert(u == pv.insert(k as int, nodeg));
            pv.insert_ensures(k as int, nodeg);
            assert(u.len() == pv.len() + 1);
            assert forall|m: int| 0 <= m < u.len() implies #[trigger] u[m] == (if m < k as int {
                pv[m]
            } else if m == k as int {
                nodeg
            } else {
                pv[m - 1]
            }) by {
                if m > k as int {
                    assert(u[m] == pv[m - 1]);
                }
            }
            assert(pool_elem_ok(nodeg));
            assert(tree_from(entries_v, nodeg));
            lemma_pool_insert_step(entries_v, root_v, pv, u, nodeg, done, k as int);
            lemma_all_pooled_insert(entries_v, pv, u, nodeg, done, k as int);
            assert forall|m: int| 0 <= m < u.len() implies (#[trigger] u[
                m
            ]).children@.len() == 0 by {
                if m != k as int {
                    let w = if m < k as int {
                        m
                    } else {
                        m - 1
                    };
                    assert(u[m] == pv[w]);
                }
            }
        }
    }
    proof {
        assert(rest@.len() == 0);
        assert forall|i: int| 0 <= i < pool@.len() implies exists|j: int|
            0 <= j < entries_v.len() && entries_v[j].path.deep_view() == (#[trigger] pool@[
                i
            ]).path.deep_view() && entries_v[j].is_dir == pool@[i].is_dir by {
            let w = choose|w: int|
                0 <= w < entries_v.len() - rest@.len() && entries_v[w].path.deep_view()
                    == pool@[i].path.deep_view() && entries_v[w].is_dir == pool@[i].is_dir;
            assert(0 <= w < entries_v.len() && entries_v[w].path.deep_view() == pool@[
                i
            ].path.deep_view() && entries_v[w].is_dir == pool@[i].is_dir);
        }
        if has_path(entries_v, root_v) {
            let h = choose|h: int|
                0 <= h < entries_v.len() && entries_v[h].path.deep_view() == root_v;
            assert(0 <= h < entries_v.len() - rest@.len() && entries_v[h].path.deep_view()
                == root_v);
        }
        assert(entries_v.take(entries_v.len() - rest@.len()) =~= entries_v);
        assert(all_pooled(entries_v, pool@));
        lemma_link_complete_init(entries_v, pool@);
        lemma_fresh_init(pool@);
    }
    while pool.len() > 1
        invariant
            root_v == root_path.deep_view(),
            forall|i: int, j: int|
                0 <= i < j < pool@.len() ==> pool@[i].path@.len() >= pool@[j].path@.len(),
            forall|i: int, j: int|
                0 <= i < j < pool@.len() ==> pool@[i].path.deep_view()
                    != pool@[j].path.deep_view(),
            forall|i: int|
                0 <= i < pool@.len() ==> exists|j: int|
                    0 <= j < entries_v.len() && entries_v[j].path.deep_view()
                        == (#[trigger] pool@[i]).path.deep_view() && entries_v[j].is_dir
                        == pool@[i].is_dir,
            has_path(entries_v, root_v) ==> exists|i: int|
                0 <= i < pool@.len() && (#[trigger] pool@[i]).path.deep_view() == root_v,
            forall|i: int|
                0 <= i < pool@.len() ==> root_v.is_prefix_of(
                    (#[trigger] pool@[i]).path.deep_view(),
                ),
            forall|i: int| 0 <= i < pool@.len() ==> pool_elem_ok(#[trigger] pool@[i]),
            forall|i: int| 0 <= i < pool@.len() ==> tree_from(entries_v, #[trigger] pool@[i]),
            pool_complete(entries_v, pool@),
            pool_fresh(pool@),
        decreases pool@.len(),
    {
        let ghost pv = pool@;
        proof {
            lemma_front_not_root(pv, root_v);
        }
        let mut node = pool.remove(0);
        let ghost base = pool@;
        proof {
            pv.remove_ensures(0);
            assert(base == pv.remove(0));
            assert forall|m: int| 0 <= m < base.len() implies #[trigger] base[m] == pv[m
                + 1] by {
                assert(pv.remove(0)[m] == pv[m + 1]);
            }
        }
        let ghost node0 = node;
        node.sort_children();
        proof {
            assert(pool_elem_ok(node0));
            assert(tree_from(entries_v, node0));
            lemma_sorted_pool_elem(entries_v, node0, node);
        }
        let ghost nodeg = node;
        if node.path.len() > 0 {
            let parent = parent_path(&node.path);
            let plen = pool.len();
            let mut j: usize = 0;
            while j < plen && !path_eq(&pool[j].path, &parent)
                invariant
                    j <= plen,
                    plen == pool@.len(),
                    pool@ == base,
                    forall|m: int|
                        0 <= m < j ==> (#[trigger] base[m]).path.deep_view() != parent.deep_view(),
                decreases plen - j,
            {
                j += 1;
            }
            if j < plen {
                proof {
                    assert(pool@[j as int].path.deep_view() == parent.deep_view());
                }
                let matched = &mut pool[j];
                matched.children.push(node);
                proof {
                    let u = pool@;
                    assert(u == base.update(j as int, u[j as int]));
                    assert(u[j as int].path == base[j as int].path);
                    assert(u[j as int].is_dir == base[j as int].is_dir);
                    assert(u[j as int].name == base[j as int].name);
                    assert(u[j as int].is_expanded == base[j as int].is_expanded);
                    assert(u[j as int].children@ == base[j as int].children@.push(nodeg));
                    assert(nodeg.path.deep_view().drop_last() == base[
                        j as int
                    ].path.deep_view());
                    assert(nodeg.path.deep_view().len() == base[j as int].path.deep_view().len()
                        + 1);
                    assert(tree_from(entries_v, base[j as int])) by {
                        assert(base[j as int] == pv[j + 1]);
                    }
                    lemma_attach_child(entries_v, base[j as int], u[j as int], nodeg);
                    assert forall|m: int| 0 <= m < u.len() implies pool_elem_ok(
                        #[trigger] u[m],
                    ) by {
                        if m != j {
                            assert(u[m] == base[m]);
                        }
                    }
                    assert forall|m: int| 0 <= m < u.len() implies tree_from(
                        entries_v,
                        #[trigger] u[m],
                    ) by {
                        if m != j {
                            assert(u[m] == base[m]);
                            assert(base[m] == pv[m + 1]);
                        }
                    }
                    assert(link_step_ok(entries_v, base, u));
                    assert forall|m: int| 0 <= m < u.len() && m != j as int implies #[trigger] u[
                        m
                    ] == base[m] by {}
                    lemma_complete_attach(entries_v, pv, base, u, node0, nodeg, j as int);
                    lemma_fresh_attach(pv, base, u, node0, nodeg, j as int);
                }
            } else {
                proof {
                    assert forall|m: int| 0 <= m < base.len() implies tree_from(
                        entries_v,
                        #[trigger] base[m],
                    ) by {
                        assert(base[m] == pv[m + 1]);
                    }
                    assert(link_step_ok(entries_v, base, pool@));
                    assert forall|m: int| 0 <= m < base.len() implies (#[trigger] base[
                        m
                    ]).path.deep_view() != pv[0].path.deep_view().drop_last() by {
                        assert(base[m].path.deep_view() != parent.deep_view());
                    }
                    lemma_complete_drop(entries_v, pv, base);
                    lemma_fresh_drop(pv, base);
                }
            }
        } else {
            proof {
                assert forall|m: int| 0 <= m < base.len() implies tree_from(
                    entries_v,
                    #[trigger] base[m],
                ) by {
                    assert(base[m] == pv[m + 1]);
                }
                assert(link_step_ok(entries_v, base, pool@));
                assert(pv[0].path.deep_view().len() == 0);
                lemma_complete_drop(entries_v, pv, base);
                lemma_fresh_drop(pv, base);
            }
        }
        proof {
            lemma_link_step(entries_v, root_v, pv, base, pool@);
        }
    }
    if pool.len() == 1 {
        let ghost pv = pool@;
        let mut root = pool.remove(0);
        if path_eq(&root.path, root_path) {
            let ghost root0 = root;
            root.sort_children();
            proof {
                assert(pool_elem_ok(root0));
                assert(tree_from(entries_v, root0));
                lemma_sorted_pool_elem(entries_v, root0, root);
                lemma_built_subtree_sorted(root);
                lemma_complete_finish(entries_v, pv, root0, root);
                lemma_fresh_finish(pv, root0, root);
                let w = choose|w: int|
                    0 <= w < entries_v.len() && entries_v[w].path.deep_view() == pv[
                        0
                    ].path.deep_view() && entries_v[w].is_dir == pv[0].is_dir;
                assert(entries_v[w].path.deep_view() == root_v);
                assert(has_path(entries_v, root_v));
                assert(root.is_dir == entries_v[w].is_dir);
            }
            return Some(root);
        } else {
            proof {
                if has_path(entries_v, root_v) {
                    let m = choose|m: int|
                        0 <= m < pv.len() && (#[trigger] pv[m]).path.deep_view() == root_v;
                    assert(m == 0);
                    assert(root == pv[0]);
                    assert(false);
                }
            }
            return None;
        }
    }
    proof {
        if has_path(entries_v, root_v) {
            let m = choose|m: int|
                0 <= m < pool@.len() && (#[trigger] pool@[m]).path.deep_view() == root_v;
            assert(false);
        }
    }
    None
}

/// How a tree after a toggle of path `p` relates to the tree before it:
/// everything is kept except that the node whose path is `p`, if any, has
/// its `is_expanded` flag flipped. The search stops at a matching node and
/// does not descend below files, exactly as the walk does.
pub open spec fn toggled(a: FileNode, b: FileNode, p: Seq<Seq<char>>) -> bool
    decreases a,
{
    &&& b.name == a.name
    &&& b.path == a.path
    &&& b.is_dir == a.is_dir
    &&& b.is_expanded == (if a.path.deep_view() == p {
        !a.is_expanded
    } else {
        a.is_expanded
    })
    &&& if a.path.deep_view() == p {
        b.children == a.children
    } else if a.is_dir {
        b.children@.len() == a.children@.len() && (forall|i: int|
            0 <= i < a.children@.len() ==> toggled(
                #[trigger] a.children@[i],
                b.children@[i],
                p,
            ))
    } else {
        b.children == a.children
    }
}

/// Structural equality of two trees: same names, paths, kinds and
/// expansion flags everywhere, children in the same order.
pub open spec fn tree_eq(a: FileNode, b: FileNode) -> bool
    decreases a,
{
    &&& b.name@ == a.name@
    &&& b.path.deep_view() == a.path.deep_view()
    &&& b.is_dir == a.is_dir
    &&& b.is_expanded == a.is_expanded
    &&& b.children@.len() == a.children@.len()
    &&& forall|i: int|
        0 <= i < a.children@.len() ==> tree_eq(#[trigger] a.children@[i], b.children@[i])
}

/// Whether some node of the tree has exactly the path `p`.
pub open spec fn contains_path(n: FileNode, p: Seq<Seq<char>>) -> bool
    decreases n,
{
    n.path.deep_view() == p || exists|i: int|
        0 <= i < n.children@.len() && contains_path(#[trigger] n.children@[i], p)
}

pub proof fn lemma_tree_eq_refl(a: FileNode)
    ensures
        tree_eq(a, a),
    decreases a,
{
    assert forall|i: int| 0 <= i < a.children@.len() implies tree_eq(
        #[trigger] a.children@[i],
        a.children@[i],
    ) by {
        lemma_tree_eq_refl(a.children@[i]);
    }
}

/// Toggling the same path twice restores the whole tree: in particular,
/// `is_expanded` at every node is as it was before the double toggle.
pub proof fn lemma_toggle_twice_restores(a: FileNode, b: FileNode, c: FileNode, p: Seq<Seq<char>>)
    requires
        toggled(a, b, p),
        toggled(b, c, p),
    ensures
        tree_eq(a, c),
    decreases a,
{
    if a.path.deep_view() == p {
        lemma_tree_eq_refl(a);
        assert forall|i: int| 0 <= i < a.children@.len() implies tree_eq(
            #[trigger] a.children@[i],
            c.children@[i],
        ) by {
            lemma_tree_eq_refl(a.children@[i]);
        }
    } else if a.is_dir {
        assert forall|i: int| 0 <= i < a.children@.len() implies tree_eq(
            #[trigger] a.children@[i],
            c.children@[i],
        ) by {
            lemma_toggle_twice_restores(a.children@[i], b.children@[i], c.children@[i], p);
        }
    } else {
        assert forall|i: int| 0 <= i < a.children@.len() implies tree_eq(
            #[trigger] a.children@[i],
            c.children@[i],
        ) by {
            lemma_tree_eq_refl(a.children@[i]);
        }
    }
}

/// Toggling a path that no node of the tree carries changes nothing.
pub proof fn lemma_toggle_absent_is_noop(a: FileNode, b: FileNode, p: Seq<Seq<char>>)
    requires
        toggled(a, b, p),
        !contains_path(a, p),
    ensures
        tree_eq(a, b),
    decreases a,
{
    if a.is_dir {
        assert forall|i: int| 0 <= i < a.children@.len() implies tree_eq(
            #[trigger] a.children@[i],
            b.children@[i],
        ) by {
            assert(!contains_path(a.children@[i], p));
            lemma_toggle_absent_is_noop(a.children@[i], b.children@[i], p);
        }
    } else {
        assert forall|i: int| 0 <= i < a.children@.len() implies tree_eq(
            #[trigger] a.children@[i],
            b.children@[i],
        ) by {
            lemma_tree_eq_refl(a.children@[i]);
        }
    }
}

/// A toggle never disturbs the ordering invariant: names, kinds and the
/// order of children are untouched, so a sorted tree stays sorted.
pub proof fn lemma_toggle_preserves_sorted(a: FileNode, b: FileNode, p: Seq<Seq<char>>)
    requires
        toggled(a, b, p),
        tree_sorted(a),
    ensures
        tree_sorted(b),
    decreases a,
{
    if a.path.deep_view() == p || !a.is_dir {
        assert(b.children == a.children);
        assert(tree_sorted(b));
    } else {
        assert forall|i: int| 0 <= i < b.children@.len() implies tree_sorted(
            #[trigger] b.children@[i],
        ) by {
            lemma_toggle_preserves_sorted(a.children@[i], b.children@[i], p);
        }
        assert forall|i: int, j: int| 0 <= i < j < b.children@.len() implies node_le(
            #[trigger] b.children@[i],
            #[trigger] b.children@[j],
        ) by {
            assert(node_le(a.children@[i], a.children@[j]));
            assert(toggled(a.children@[i], b.children@[i], p));
            assert(toggled(a.children@[j], b.children@[j], p));
        }
    }
}

/// Flips the `is_expanded` flag of the node whose path is `target_path`,
/// if the tree has one; any other tree is left exactly as it was.
pub fn toggle_node(node: &mut FileNode, target_path: &Vec<String>)
    ensures
        toggled(*old(node), *final(node), target_path.deep_view()),
    decreases *old(node),
{
    if path_eq(&node.path, target_path) {
        node.is_expanded = !node.is_expanded;
    } else if node.is_dir {
        let n = node.children.len();
        let mut i: usize = 0;
        while i < n
            invariant
                n == node.children@.len(),
                n == old(node).children@.len(),
                node.name == old(node).name,
                node.path == old(node).path,
                node.is_dir == old(node).is_dir,
                node.is_expanded == old(node).is_expanded,
                forall|k: int|
                    0 <= k < i ==> toggled(
                        old(node).children@[k],
                        #[trigger] node.children@[k],
                        target_path.deep_view(),
                    ),
                forall|k: int| i <= k < n ==> node.children@[k] == old(node).children@[k],
            decreases n - i,
        {
            proof {
                assert(node.children@[i as int] == old(node).children@[i as int]);
            }
            toggle_node(&mut node.children[i], target_path);
            i += 1;
        }
    }
}

} // verus!
