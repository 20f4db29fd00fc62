//! Case-insensitive lexicographic ordering on character sequences, stated
//! over the sequences of code points obtained by folding ASCII uppercase
//! letters to lowercase.

use vstd::prelude::*;

verus! {

/// The code point by which a character is compared case-insensitively:
/// ASCII uppercase letters (code points 65 through 90) fold onto their
/// lowercase counterparts (97 through 122); everything else is itself.
pub open spec fn fold_code(c: char) -> u32 {
    if 65 <= c as u32 && c as u32 <= 90 {
        (c as u32 + 32) as u32
    } else {
        c as u32
    }
}

/// Executable counterpart of `fold_code`.
pub fn fold_code_x(c: char) -> (r: u32)
    ensures
        r == fold_code(c),
{
    let u = c as u32;
    if 65 <= u && u <= 90 {
        u + 32
    } else {
        u
    }
}

/// Strict lexicographic order on sequences of code points: a proper prefix
/// precedes its extensions, and otherwise the first differing position
/// decides.
pub open spec fn seq_lt(a: Seq<u32>, b: Seq<u32>) -> bool
    decreases a.len(),
{
    if b.len() == 0 {
        false
    } else if a.len() == 0 {
        true
    } else if a[0] != b[0] {
        a[0] < b[0]
    } else {
        seq_lt(a.drop_first(), b.drop_first())
    }
}

/// Reflexive closure of `seq_lt`.
pub open spec fn seq_le(a: Seq<u32>, b: Seq<u32>) -> bool {
    seq_lt(a, b) || a == b
}

/// Distinct characters have distinct code points.
pub proof fn lemma_char_code_injective(a: char, b: char)
    requires
        a as u32 == b as u32,
    ensures
        a == b,
{
}

pub proof fn lemma_seq_lt_asymmetric(a: Seq<u32>, b: Seq<u32>)
    ensures
        seq_lt(a, b) ==> !seq_lt(b, a),
    decreases a.len(),
{
    if a.len() > 0 && b.len() > 0 && a[0] == b[0] {
        lemma_seq_lt_asymmetric(a.drop_first(), b.drop_first());
    }
}

pub proof fn lemma_seq_lt_connected(a: Seq<u32>, b: Seq<u32>)
    ensures
        !seq_lt(a, b) && !seq_lt(b, a) ==> a == b,
    decreases a.len(),
{
    if !seq_lt(a, b) && !seq_lt(b, a) {
        if a.len() == 0 && b.len() == 0 {
            assert(a =~= b);
        } else if a.len() > 0 && b.len() > 0 {
            assert(a[0] == b[0]);
            lemma_seq_lt_connected(a.drop_first(), b.drop_first());
            assert(a =~= seq![a[0]] + a.drop_first());
            assert(b =~= seq![b[0]] + b.drop_first());
        }
    }
}

pub proof fn lemma_seq_lt_transitive(a: Seq<u32>, b: Seq<u32>, c: Seq<u32>)
    ensures
        seq_lt(a, b) && seq_lt(b, c) ==> seq_lt(a, c),
    decreases a.len() + b.len() + c.len(),
{
    if seq_lt(a, b) && seq_lt(b, c) {
        if a.len() > 0 && b.len() > 0 && c.len() > 0 {
            if a[0] == b[0] && b[0] == c[0] {
                lemma_seq_lt_transitive(a.drop_first(), b.drop_first(), c.drop_first());
            }
        }
    }
}

/// Dropping an equal common prefix does not change how two sequences
/// compare.
pub proof fn lemma_seq_lt_common_prefix(a: Seq<u32>, b: Seq<u32>, i: int)
    requires
        0 <= i <= a.len(),
        i <= b.len(),
        forall|k: int| 0 <= k < i ==> a[k] == b[k],
    ensures
        seq_lt(a, b) == seq_lt(a.skip(i), b.skip(i)),
    decreases i,
{
    if i == 0 {
        assert(a.skip(0) =~= a);
        assert(b.skip(0) =~= b);
    } else {
        lemma_seq_lt_common_prefix(a, b, i - 1);
        let x = a.skip(i - 1);
        let y = b.skip(i - 1);
        assert(x.len() > 0 && y.len() > 0);
        assert(x[0] == a[i - 1] && y[0] == b[i - 1]);
        assert(x.drop_first() =~= a.skip(i));
        assert(y.drop_first() =~= b.skip(i));
    }
}

} // verus!
