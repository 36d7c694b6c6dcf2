//! Sorting pairs of numbers.
use vstd::prelude::*;
use vstd::seq_lib::{lemma_multiset_commutative, group_to_multiset_ensures};

verus! {

broadcast use group_to_multiset_ensures;

/// The lexicographic order of pairs.
pub open spec fn pair_le(a: (u64, u64), b: (u64, u64)) -> bool {
    a.0 < b.0 || (a.0 == b.0 && a.1 <= b.1)
}

/// No pair comes before a smaller one.
pub open spec fn sorted(s: Seq<(u64, u64)>) -> bool {
    forall|i: int, j: int| 0 <= i <= j < s.len() ==> pair_le(#[trigger] s[i], #[trigger] s[j])
}

/// Taking the first pair off a sequence takes it off the multiset.
proof fn lemma_skip_one(s: Seq<(u64, u64)>, i: int)
    requires
        0 <= i < s.len(),
    ensures
        s.skip(i).to_multiset() == s.skip(i + 1).to_multiset().insert(s[i]),
{
    assert(s.skip(i) =~= seq![s[i]] + s.skip(i + 1));
    lemma_multiset_commutative(seq![s[i]], s.skip(i + 1));
    assert(seq![s[i]] =~= Seq::<(u64, u64)>::empty().push(s[i]));
    assert(Seq::<(u64, u64)>::empty().to_multiset() =~= vstd::multiset::Multiset::empty());
    assert(s.skip(i).to_multiset() =~= s.skip(i + 1).to_multiset().insert(s[i]));
}

fn le(a: (u64, u64), b: (u64, u64)) -> (r: bool)
    ensures
        r == pair_le(a, b),
{
    a.0 < b.0 || (a.0 == b.0 && a.1 <= b.1)
}

/// Merges two sorted lists.
fn merge(a: &Vec<(u64, u64)>, b: &Vec<(u64, u64)>) -> (out: Vec<(u64, u64)>)
    requires
        sorted(a@),
        sorted(b@),
    ensures
        sorted(out@),
        out@.to_multiset() == a@.to_multiset().add(b@.to_multiset()),
{
    let mut out: Vec<(u64, u64)> = Vec::new();
    let mut i: usize = 0;
    let mut j: usize = 0;
    let ghost all = a@.to_multiset().add(b@.to_multiset());
    assert(a@.skip(0) =~= a@ && b@.skip(0) =~= b@);
    assert(out@.to_multiset() =~= vstd::multiset::Multiset::empty());
    assert(out@.to_multiset().add(a@.skip(0).to_multiset()).add(b@.skip(0).to_multiset()) =~= all);
    while i < a.len() || j < b.len()
        invariant
            i <= a.len(),
            j <= b.len(),
            sorted(a@),
            sorted(b@),
            sorted(out@),
            forall|k: int, l: int|
                0 <= k < out@.len() && i <= l < a@.len() ==> pair_le(
                    #[trigger] out@[k],
                    #[trigger] a@[l],
                ),
            forall|k: int, l: int|
                0 <= k < out@.len() && j <= l < b@.len() ==> pair_le(
                    #[trigger] out@[k],
                    #[trigger] b@[l],
                ),
            out@.to_multiset().add(a@.skip(i as int).to_multiset()).add(
                b@.skip(j as int).to_multiset(),
            ) == all,
        decreases a.len() - i + b.len() - j,
    {
        let ghost before = out@;
        if j == b.len() || (i < a.len() && le(a[i], b[j])) {
            proof {
                lemma_skip_one(a@, i as int);
            }
            out.push(a[i]);
            i += 1;
        } else {
            proof {
                lemma_skip_one(b@, j as int);
            }
            out.push(b[j]);
            j += 1;
        }
        assert(out@.to_multiset() == before.to_multiset().insert(out@.last()));
        assert(out@.to_multiset().add(a@.skip(i as int).to_multiset()).add(
            b@.skip(j as int).to_multiset(),
        ) =~= all);
    }
    assert(a@.skip(i as int) =~= Seq::<(u64, u64)>::empty());
    assert(b@.skip(j as int) =~= Seq::<(u64, u64)>::empty());
    assert(out@.to_multiset() =~= all);
    out
}

/// Sorts the pairs from `from` up to `to`.
fn sort_range(v: &Vec<(u64, u64)>, from: usize, to: usize) -> (out: Vec<(u64, u64)>)
    requires
        from <= to <= v@.len(),
    ensures
        sorted(out@),
        out@.to_multiset() == v@.subrange(from as int, to as int).to_multiset(),
    decreases to - from,
{
    if to - from == 0 {
        let out: Vec<(u64, u64)> = Vec::new();
        assert(out@ =~= v@.subrange(from as int, to as int));
        return out;
    }
    if to - from == 1 {
        let mut out: Vec<(u64, u64)> = Vec::new();
        out.push(v[from]);
        assert(out@ =~= v@.subrange(from as int, to as int));
        return out;
    }
    let middle: usize = from + (to - from) / 2;
    let left = sort_range(v, from, middle);
    let right = sort_range(v, middle, to);
    proof {
        let (l, r) = (v@.subrange(from as int, middle as int), v@.subrange(middle as int, to as int));
        assert(v@.subrange(from as int, to as int) =~= l + r);
        lemma_multiset_commutative(l, r);
    }
    merge(&left, &right)
}

/// Sorts pairs in their lexicographic order.
pub fn sort_pairs(v: &Vec<(u64, u64)>) -> (out: Vec<(u64, u64)>)
    ensures
        sorted(out@),
        out@.to_multiset() == v@.to_multiset(),
        out@.len() == v@.len(),
        forall|p: (u64, u64)| out@.contains(p) <==> v@.contains(p),
{
    assert(v@.subrange(0, v@.len() as int) =~= v@);
    let out = sort_range(v, 0, v.len());
    assert(out@.to_multiset().len() == v@.to_multiset().len());
    assert forall|p: (u64, u64)| out@.contains(p) <==> v@.contains(p) by {
        assert(out@.contains(p) <==> out@.to_multiset().count(p) > 0);
        assert(v@.contains(p) <==> v@.to_multiset().count(p) > 0);
    }
    out
}

} // verus!
