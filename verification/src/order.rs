//! The order of strings `str` compares by: lexicographic on characters,
//! which is also the order of their UTF-8 bytes.
use vstd::prelude::*;

verus! {

/// `a` sorts strictly before `b`.
pub open spec fn lex_lt(a: Seq<char>, b: Seq<char>) -> bool
    decreases a.len(),
{
    if a.len() == 0 {
        b.len() > 0
    } else if b.len() == 0 {
        false
    } else if (a[0] as u32) < (b[0] as u32) {
        true
    } else if (a[0] as u32) > (b[0] as u32) {
        false
    } else {
        lex_lt(a.drop_first(), b.drop_first())
    }
}

pub proof fn lemma_lex_irreflexive(a: Seq<char>)
    ensures
        !lex_lt(a, a),
    decreases a.len(),
{
    if a.len() > 0 {
        lemma_lex_irreflexive(a.drop_first());
    }
}

pub proof fn lemma_lex_asymmetric(a: Seq<char>, b: Seq<char>)
    ensures
        lex_lt(a, b) ==> !lex_lt(b, a),
    decreases a.len(),
{
    if a.len() > 0 && b.len() > 0 {
        lemma_lex_asymmetric(a.drop_first(), b.drop_first());
    }
}

pub proof fn lemma_lex_transitive(a: Seq<char>, b: Seq<char>, c: Seq<char>)
    ensures
        lex_lt(a, b) && lex_lt(b, c) ==> lex_lt(a, c),
    decreases a.len(),
{
    if a.len() > 0 && b.len() > 0 && c.len() > 0 {
        lemma_lex_transitive(a.drop_first(), b.drop_first(), c.drop_first());
    }
}

pub proof fn lemma_lex_total(a: Seq<char>, b: Seq<char>)
    ensures
        lex_lt(a, b) || lex_lt(b, a) || a == b,
    decreases a.len(),
{
    if a.len() > 0 && b.len() > 0 {
        lemma_lex_total(a.drop_first(), b.drop_first());
        if a[0] == b[0] && a.drop_first() == b.drop_first() {
            assert(a == seq![a[0]] + a.drop_first());
            assert(b == seq![b[0]] + b.drop_first());
        }
        crate::mutf8::lemma_char_eq(a[0], b[0]);
    } else if a.len() == 0 && b.len() == 0 {
        assert(a == b);
    }
}

/// Strictly increasing: sorted with no duplicates.
pub open spec fn strictly_sorted(s: Seq<Seq<char>>) -> bool {
    forall|i: int, j: int| 0 <= i < j < s.len() ==> lex_lt(#[trigger] s[i], #[trigger] s[j])
}

/// Compare two character sequences: -1, 0 or 1.
pub fn compare_chars(a: &[char], b: &[char]) -> (res: i8)
    ensures
        res == -1 ==> lex_lt(a@, b@),
        res == 0 ==> a@ == b@,
        res == 1 ==> lex_lt(b@, a@),
        res == -1 || res == 0 || res == 1,
{
    let mut i: usize = 0;
    while i < a.len() && i < b.len()
        invariant
            i <= a@.len(),
            i <= b@.len(),
            a@.subrange(0, i as int) == b@.subrange(0, i as int),
        decreases a.len() - i,
    {
        let x = a[i] as u32;
        let y = b[i] as u32;
        if x < y {
            proof {
                lemma_lex_after_common(a@, b@, i as int);
            }
            return -1;
        }
        if x > y {
            proof {
                lemma_lex_after_common(b@, a@, i as int);
            }
            return 1;
        }
        proof {
            crate::mutf8::lemma_char_eq(a@[i as int], b@[i as int]);
        }
        i += 1;
        assert(a@.subrange(0, i as int) == a@.subrange(0, i - 1).push(a@[i - 1]));
        assert(b@.subrange(0, i as int) == b@.subrange(0, i - 1).push(b@[i - 1]));
    }
    proof {
        lemma_lex_after_common(a@, b@, i as int);
        lemma_lex_after_common(b@, a@, i as int);
    }
    if a.len() < b.len() {
        -1
    } else if a.len() > b.len() {
        1
    } else {
        assert(a@ == a@.subrange(0, i as int));
        assert(b@ == b@.subrange(0, i as int));
        0
    }
}

/// Two sequences with a common prefix of length `i` compare as what follows.
proof fn lemma_lex_after_common(a: Seq<char>, b: Seq<char>, i: int)
    requires
        0 <= i <= a.len(),
        i <= b.len(),
        a.subrange(0, i) == b.subrange(0, i),
    ensures
        lex_lt(a, b) == lex_lt(a.subrange(i, a.len() as int), b.subrange(i, b.len() as int)),
    decreases i,
{
    if i > 0 {
        assert(a[0] == a.subrange(0, i)[0]);
        assert(b[0] == b.subrange(0, i)[0]);
        assert(a.drop_first().subrange(0, i - 1) == a.subrange(0, i).drop_first());
        assert(b.drop_first().subrange(0, i - 1) == b.subrange(0, i).drop_first());
        lemma_lex_after_common(a.drop_first(), b.drop_first(), i - 1);
        assert(a.drop_first().subrange(i - 1, a.drop_first().len() as int) == a.subrange(
            i,
            a.len() as int,
        ));
        assert(b.drop_first().subrange(i - 1, b.drop_first().len() as int) == b.subrange(
            i,
            b.len() as int,
        ));
    } else {
        assert(a.subrange(0, a.len() as int) == a);
        assert(b.subrange(0, b.len() as int) == b);
    }
}

// ── Sorting by key ───────────────────────────────────────────────────────

/// `a` comes no later than `b`: by key, then by index.
pub open spec fn pair_le(a: (u64, usize), b: (u64, usize)) -> bool {
    a.0 < b.0 || (a.0 == b.0 && a.1 <= b.1)
}

/// Entries in order of key, ties by index.
pub open spec fn keys_sorted(s: Seq<(u64, usize)>) -> bool {
    forall|i: int, j: int| 0 <= i <= j < s.len() ==> pair_le(#[trigger] s[i], #[trigger] s[j])
}

/// Merge two runs sorted by key into one.
fn merge(a: &Vec<(u64, usize)>, b: &Vec<(u64, usize)>) -> (res: Vec<(u64, usize)>)
    requires
        keys_sorted(a@),
        keys_sorted(b@),
    ensures
        keys_sorted(res@),
        res@.to_multiset() == a@.to_multiset().add(b@.to_multiset()),
{
    broadcast use vstd::seq_lib::group_to_multiset_ensures, vstd::multiset::group_multiset_axioms;

    let mut out: Vec<(u64, usize)> = Vec::new();
    let mut i: usize = 0;
    let mut j: usize = 0;
    assert(a@.take(0).to_multiset() =~= vstd::multiset::Multiset::empty());
    assert(b@.take(0).to_multiset() =~= vstd::multiset::Multiset::empty());
    while i < a.len() || j < b.len()
        invariant
            keys_sorted(a@),
            keys_sorted(b@),
            i <= a@.len(),
            j <= b@.len(),
            out@.len() == i + j,
            keys_sorted(out@),
            out@.to_multiset() == a@.take(i as int).to_multiset().add(b@.take(j as int).to_multiset()),
            out@.len() > 0 && i < a@.len() ==> pair_le(out@.last(), a@[i as int]),
            out@.len() > 0 && j < b@.len() ==> pair_le(out@.last(), b@[j as int]),
        decreases a.len() + b.len() - i - j,
    {
        let ghost before = out@;
        let ghost ma = a@.take(i as int).to_multiset();
        let ghost mb = b@.take(j as int).to_multiset();
        if j >= b.len() || (i < a.len() && (a[i].0 < b[j].0 || (a[i].0 == b[j].0 && a[i].1
            <= b[j].1))) {
            let x = a[i];
            out.push(x);
            assert(a@.take(i + 1) == a@.take(i as int).push(x));
            assert(out@ == before.push(x));
            proof {
                vstd::seq_lib::to_multiset_build(before, x);
                vstd::seq_lib::to_multiset_build(a@.take(i as int), x);
            }
            assert(out@.to_multiset() =~= a@.take(i + 1).to_multiset().add(mb));
            i += 1;
        } else {
            let x = b[j];
            out.push(x);
            assert(b@.take(j + 1) == b@.take(j as int).push(x));
            assert(out@ == before.push(x));
            proof {
                vstd::seq_lib::to_multiset_build(before, x);
                vstd::seq_lib::to_multiset_build(b@.take(j as int), x);
            }
            assert(out@.to_multiset() =~= ma.add(b@.take(j + 1).to_multiset()));
            j += 1;
        }
    }
    assert(a@.take(a@.len() as int) == a@);
    assert(b@.take(b@.len() as int) == b@);
    out
}

/// `v[lo..hi]` sorted by key, ties by index (merge sort).
fn sort_range(v: &Vec<(u64, usize)>, lo: usize, hi: usize) -> (res: Vec<(u64, usize)>)
    requires
        lo <= hi <= v@.len(),
    ensures
        keys_sorted(res@),
        res@.to_multiset() == v@.subrange(lo as int, hi as int).to_multiset(),
    decreases hi - lo,
{
    broadcast use vstd::seq_lib::group_to_multiset_ensures, vstd::multiset::group_multiset_axioms;

    if hi - lo <= 1 {
        let mut out: Vec<(u64, usize)> = Vec::new();
        if hi > lo {
            out.push(v[lo]);
            assert(out@ == v@.subrange(lo as int, hi as int));
        } else {
            assert(out@ == v@.subrange(lo as int, hi as int));
        }
        return out;
    }
    let mid = lo + (hi - lo) / 2;
    let left = sort_range(v, lo, mid);
    let right = sort_range(v, mid, hi);
    let out = merge(&left, &right);
    proof {
        assert(v@.subrange(lo as int, hi as int) == v@.subrange(lo as int, mid as int) + v@.subrange(
            mid as int,
            hi as int,
        ));
        vstd::seq_lib::lemma_multiset_commutative(
            v@.subrange(lo as int, mid as int),
            v@.subrange(mid as int, hi as int),
        );
    }
    out
}

/// Each entry's index is its position: `v[i].1 == i`.
pub open spec fn indexed(v: Seq<(u64, usize)>) -> bool {
    forall|i: int| 0 <= i < v.len() ==> (#[trigger] v[i]).1 == i
}

/// Of two entries with the same key, the one from the earlier input
/// position comes first.
pub open spec fn stable(res: Seq<(u64, usize)>) -> bool {
    forall|p: int, q: int|
        0 <= p < q < res.len() && (#[trigger] res[p]).0 == (#[trigger] res[q]).0 ==> res[p].1
            < res[q].1
}

/// Sort by key, ties by index, keeping every entry: the result holds
/// exactly the entries of `v`, in order. Where each entry's index is its
/// input position, the sort is stable: entries with equal keys keep their
/// input order.
pub fn sort_by_key(v: &Vec<(u64, usize)>) -> (res: Vec<(u64, usize)>)
    ensures
        keys_sorted(res@),
        res@.to_multiset() == v@.to_multiset(),
        indexed(v@) ==> stable(res@),
{
    let res = sort_range(v, 0, v.len());
    assert(v@.subrange(0, v@.len() as int) == v@);
    proof {
        if indexed(v@) {
            assert(v@.no_duplicates()) by {
                assert forall|i: int, j: int| 0 <= i < v@.len() && 0 <= j < v@.len() && i != j
                    implies v@[i] != v@[j] by {
                    assert(v@[i].1 == i && v@[j].1 == j);
                }
            }
            v@.lemma_multiset_has_no_duplicates();
            res@.lemma_multiset_has_no_duplicates_conv();
            assert forall|p: int, q: int|
                0 <= p < q < res@.len() && (#[trigger] res@[p]).0 == (#[trigger] res@[q]).0
                implies res@[p].1 < res@[q].1 by {
                assert(pair_le(res@[p], res@[q]));
                assert(res@[p] != res@[q]);
            }
        }
    }
    res
}

} // verus!
