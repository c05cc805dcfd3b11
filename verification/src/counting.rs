//! Counting and summing over sequences: the measures the solver reasons with.

use vstd::prelude::*;

verus! {

/// How many entries of `s` are `true`.
pub open spec fn count_true(s: Seq<bool>) -> nat
    decreases s.len(),
{
    if s.len() == 0 {
        0
    } else {
        count_true(s.drop_last()) + if s.last() { 1nat } else { 0nat }
    }
}

/// The sum of a sequence of `u32` values, as an unbounded integer.
pub open spec fn sum_u32(s: Seq<u32>) -> int
    decreases s.len(),
{
    if s.len() == 0 {
        0
    } else {
        sum_u32(s.drop_last()) + s.last()
    }
}

pub proof fn lemma_sum_push(s: Seq<u32>, v: u32)
    ensures
        sum_u32(s.push(v)) == sum_u32(s) + v,
{
    assert(s.push(v).drop_last() =~= s);
}

pub proof fn lemma_count_true_le_len(s: Seq<bool>)
    ensures
        count_true(s) <= s.len(),
    decreases s.len(),
{
    if s.len() > 0 {
        lemma_count_true_le_len(s.drop_last());
    }
}

/// Counting a constant sequence.
pub proof fn lemma_count_true_constant(n: nat, b: bool)
    ensures
        count_true(Seq::new(n, |i: int| b)) == if b { n } else { 0nat },
    decreases n,
{
    let s = Seq::new(n, |i: int| b);
    if n > 0 {
        lemma_count_true_constant((n - 1) as nat, b);
        assert(s.drop_last() =~= Seq::new((n - 1) as nat, |i: int| b));
    }
}

/// Updating one entry changes the count by the difference at that entry.
pub proof fn lemma_count_true_update(s: Seq<bool>, i: int, v: bool)
    requires
        0 <= i < s.len(),
    ensures
        count_true(s.update(i, v)) == count_true(s) - (if s[i] { 1int } else { 0int }) + (if v {
            1int
        } else {
            0int
        }),
    decreases s.len(),
{
    let t = s.update(i, v);
    if i == s.len() - 1 {
        assert(t.drop_last() =~= s.drop_last());
    } else {
        lemma_count_true_update(s.drop_last(), i, v);
        assert(t.drop_last() =~= s.drop_last().update(i, v));
    }
}

/// A sequence with a positive count has a `true` entry.
pub proof fn lemma_count_true_pos(s: Seq<bool>)
    requires
        count_true(s) > 0,
    ensures
        exists|i: int| 0 <= i < s.len() && s[i],
    decreases s.len(),
{
    if s.last() {
        assert(s[s.len() - 1]);
    } else {
        lemma_count_true_pos(s.drop_last());
        let i = choose|i: int| 0 <= i < s.drop_last().len() && s.drop_last()[i];
        assert(s[i]);
    }
}

/// Counting is monotone under pointwise implication, strictly so where the
/// larger sequence holds a `true` the smaller lacks.
pub proof fn lemma_count_true_pointwise(s: Seq<bool>, t: Seq<bool>)
    requires
        s.len() == t.len(),
        forall|i: int| 0 <= i < s.len() && s[i] ==> t[i],
    ensures
        count_true(s) <= count_true(t),
        (exists|i: int| 0 <= i < s.len() && t[i] && !s[i]) ==> count_true(s) < count_true(t),
    decreases s.len(),
{
    if s.len() > 0 {
        assert forall|i: int| 0 <= i < s.drop_last().len() && s.drop_last()[i]
            implies t.drop_last()[i] by {
            assert(s[i]);
        }
        lemma_count_true_pointwise(s.drop_last(), t.drop_last());
        if exists|i: int| 0 <= i < s.len() && t[i] && !s[i] {
            let w = choose|i: int| 0 <= i < s.len() && t[i] && !s[i];
            if w == s.len() - 1 {
            } else {
                assert(t.drop_last()[w] && !s.drop_last()[w]);
                if s.last() {
                    assert(t.last());
                }
            }
        }
    }
}

/// A sequence with count zero is all `false`.
pub proof fn lemma_count_true_zero(s: Seq<bool>)
    requires
        count_true(s) == 0,
    ensures
        forall|i: int| 0 <= i < s.len() ==> !s[i],
    decreases s.len(),
{
    if s.len() > 0 {
        lemma_count_true_zero(s.drop_last());
        assert forall|i: int| 0 <= i < s.len() implies !s[i] by {
            if i < s.len() - 1 {
                assert(!s.drop_last()[i]);
            }
        }
    }
}

/// A sequence with count one has exactly one `true` entry.
pub proof fn lemma_count_true_one(s: Seq<bool>)
    requires
        count_true(s) == 1,
    ensures
        exists|i: int| 0 <= i < s.len() && s[i],
        forall|i: int, j: int| 0 <= i < s.len() && 0 <= j < s.len() && s[i] && s[j] ==> i == j,
    decreases s.len(),
{
    if s.last() {
        lemma_count_true_zero(s.drop_last());
        assert(s[s.len() - 1]);
        assert forall|i: int, j: int|
            0 <= i < s.len() && 0 <= j < s.len() && s[i] && s[j] implies i == j by {
            if i < s.len() - 1 {
                assert(s.drop_last()[i]);
            }
            if j < s.len() - 1 {
                assert(s.drop_last()[j]);
            }
        }
    } else {
        lemma_count_true_one(s.drop_last());
        let w = choose|i: int| 0 <= i < s.drop_last().len() && s.drop_last()[i];
        assert(s[w]);
        assert forall|i: int, j: int|
            0 <= i < s.len() && 0 <= j < s.len() && s[i] && s[j] implies i == j by {
            assert(s.drop_last()[i]);
            assert(s.drop_last()[j]);
        }
    }
}

} // verus!
