use crate::container::{expand, full_region, sum_prefix, zeros, Sections};
use vstd::prelude::*;

verus! {

/// Length of the add region that the first `j` deltas lay out.
pub open spec fn laid(s: Sections, j: int) -> nat {
    expand(s.skips, s.diffs, j).len()
}

/// Offset in the add region of delta `j`.
pub open spec fn delta_pos(s: Sections, j: int) -> int {
    laid(s, j) + s.skips[j]
}

pub proof fn lemma_expand_step(skips: Seq<u32>, diffs: Seq<u8>, j: int)
    requires
        0 <= j,
    ensures
        expand(skips, diffs, j + 1).len() == expand(skips, diffs, j).len() + skips[j] + 1,
        expand(skips, diffs, j + 1).subrange(0, expand(skips, diffs, j).len() as int)
            =~= expand(skips, diffs, j),
        forall|i: int|
            expand(skips, diffs, j).len() <= i < expand(skips, diffs, j).len() + skips[j]
                ==> #[trigger] expand(skips, diffs, j + 1)[i] == 0,
        expand(skips, diffs, j + 1)[expand(skips, diffs, j).len() + skips[j]] == diffs[j],
{
    let a = expand(skips, diffs, j);
    let b = expand(skips, diffs, j + 1);
    assert(b == a + Seq::new(skips[j] as nat, |i: int| 0u8) + seq![diffs[j]]);
    assert forall|i: int| a.len() <= i < a.len() + skips[j] implies #[trigger] b[i] == 0 by {
        assert(b[i] == Seq::new(skips[j] as nat, |i: int| 0u8)[i - a.len()]);
    }
}

pub proof fn lemma_expand_prefix(skips: Seq<u32>, diffs: Seq<u8>, j: int, k: int)
    requires
        0 <= j <= k,
    ensures
        expand(skips, diffs, j).len() <= expand(skips, diffs, k).len(),
        expand(skips, diffs, k).subrange(0, expand(skips, diffs, j).len() as int) =~= expand(
            skips,
            diffs,
            j,
        ),
    decreases k - j,
{
    if j < k {
        lemma_expand_prefix(skips, diffs, j, k - 1);
        lemma_expand_step(skips, diffs, k - 1);
        let a = expand(skips, diffs, j);
        let b = expand(skips, diffs, k - 1);
        let c = expand(skips, diffs, k);
        assert(c.subrange(0, a.len() as int) =~= c.subrange(0, b.len() as int).subrange(
            0,
            a.len() as int,
        ));
    }
}

/// Whether the deltas of the sections fit in their add region.
pub open spec fn deltas_fit(s: Sections) -> bool {
    laid(s, s.skips.len() as int) <= sum_prefix(s.adds, s.adds.len() as int)
}

/// The add region holds delta `j` at its offset and zeros in the gap before it.
pub proof fn lemma_region_delta(s: Sections, j: int)
    requires
        deltas_fit(s),
        0 <= j < s.skips.len(),
    ensures
        delta_pos(s, j) < laid(s, j + 1) <= laid(s, s.skips.len() as int),
        laid(s, j + 1) == delta_pos(s, j) + 1,
        full_region(s)[delta_pos(s, j)] == s.diffs[j],
        forall|i: int| laid(s, j) <= i < delta_pos(s, j) ==> #[trigger] full_region(s)[i] == 0,
{
    let d = s.skips.len() as int;
    lemma_expand_step(s.skips, s.diffs, j);
    lemma_expand_prefix(s.skips, s.diffs, j + 1, d);
    let e = expand(s.skips, s.diffs, d);
    let f = full_region(s);
    let b = expand(s.skips, s.diffs, j + 1);
    assert forall|i: int| 0 <= i < b.len() implies #[trigger] f[i] == b[i] by {
        assert(f[i] == e[i]);
        assert(e.subrange(0, b.len() as int)[i] == e[i]);
    }
    assert forall|i: int| laid(s, j) <= i < delta_pos(s, j) implies #[trigger] f[i] == 0 by {
        assert(f[i] == b[i]);
    }
    assert(f[delta_pos(s, j)] == b[delta_pos(s, j)]);
}

/// The add region holds only zeros after the last delta.
pub proof fn lemma_region_tail(s: Sections, i: int)
    requires
        deltas_fit(s),
        laid(s, s.skips.len() as int) <= i < sum_prefix(s.adds, s.adds.len() as int),
    ensures
        full_region(s)[i] == 0,
{
    let e = expand(s.skips, s.diffs, s.skips.len() as int);
    assert(full_region(s)[i] == zeros((sum_prefix(s.adds, s.adds.len() as int) - e.len()) as nat)[i
        - e.len()]);
}

pub proof fn lemma_laid_mono(s: Sections, j: int, k: int)
    requires
        0 <= j <= k,
    ensures
        laid(s, j) <= laid(s, k),
{
    lemma_expand_prefix(s.skips, s.diffs, j, k);
}

pub proof fn lemma_sum_prefix_mono(v: Seq<u32>, j: int, k: int)
    requires
        0 <= j <= k,
    ensures
        sum_prefix(v, j) <= sum_prefix(v, k),
    decreases k - j,
{
    if j < k {
        lemma_sum_prefix_mono(v, j, k - 1);
    }
}

/// The length of the full add region is the sum of the adds.
pub proof fn lemma_region_len(s: Sections)
    requires
        deltas_fit(s),
    ensures
        full_region(s).len() == sum_prefix(s.adds, s.adds.len() as int),
{
}

/// Length of the region the first `j` skips lay out: each skip plus its delta byte.
pub open spec fn gap_sum(skips: Seq<u32>, j: int) -> nat
    decreases j,
{
    if j <= 0 {
        0
    } else {
        (gap_sum(skips, j - 1) + skips[j - 1] + 1) as nat
    }
}

pub proof fn lemma_laid_gap_sum(s: Sections, j: int)
    requires
        0 <= j,
    ensures
        laid(s, j) == gap_sum(s.skips, j),
        gap_sum(s.skips, j) <= j * 0x1_0000_0000,
    decreases j,
{
    if j > 0 {
        lemma_laid_gap_sum(s, j - 1);
        lemma_expand_step(s.skips, s.diffs, j - 1);
    }
}

pub proof fn lemma_sum_prefix_bound(v: Seq<u32>, k: int)
    requires
        0 <= k,
    ensures
        sum_prefix(v, k) <= k * 0xffff_ffff,
    decreases k,
{
    if k > 0 {
        lemma_sum_prefix_bound(v, k - 1);
    }
}

/// Sum of the words of `v`.
pub fn sum_words(v: &Vec<u32>) -> (r: u64)
    requires
        v@.len() <= u32::MAX,
    ensures
        r == sum_prefix(v@, v@.len() as int),
{
    let mut r: u64 = 0;
    let mut k: usize = 0;
    while k < v.len()
        invariant
            k <= v@.len() <= u32::MAX,
            r == sum_prefix(v@, k as int),
        decreases v@.len() - k,
    {
        proof {
            lemma_sum_prefix_bound(v@, k + 1);
            assert(k + 1 <= 0xffff_ffff);
            assert((k + 1) * 0xffff_ffff <= 0xffff_ffff * 0xffff_ffff) by (nonlinear_arith)
                requires k + 1 <= 0xffff_ffff;
        }
        r = r + v[k] as u64;
        k = k + 1;
    }
    r
}

/// Length of the region that all the skips of `v` lay out.
pub fn gap_total(v: &Vec<u32>) -> (r: u64)
    requires
        v@.len() <= u32::MAX,
    ensures
        r == gap_sum(v@, v@.len() as int),
{
    let mut r: u64 = 0;
    let mut k: usize = 0;
    while k < v.len()
        invariant
            k <= v@.len() <= u32::MAX,
            r == gap_sum(v@, k as int),
        decreases v@.len() - k,
    {
        proof {
            lemma_gap_sum_bound(v@, k + 1);
            assert((k + 1) * 0x1_0000_0000 <= 0xffff_ffff * 0x1_0000_0000) by (nonlinear_arith)
                requires k + 1 <= 0xffff_ffff;
        }
        r = r + v[k] as u64 + 1;
        k = k + 1;
    }
    r
}

pub proof fn lemma_gap_sum_bound(v: Seq<u32>, j: int)
    requires
        0 <= j,
    ensures
        gap_sum(v, j) <= j * 0x1_0000_0000,
    decreases j,
{
    if j > 0 {
        lemma_gap_sum_bound(v, j - 1);
    }
}

} // verus!
