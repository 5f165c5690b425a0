//! The integer side of the risk report: how profit-and-loss samples are
//! counted into histogram bins, and how many of the worst samples form the
//! tail of a value-at-risk estimate.

use vstd::prelude::*;

verus! {

/// The bin a sample lands in when its raw position is `raw`: positions
/// below the first bin go to the first bin, positions past the last bin go
/// to the last one.
pub open spec fn clamp_bin(raw: int, bin_count: int) -> int {
    if raw < 0 {
        0
    } else if raw >= bin_count {
        bin_count - 1
    } else {
        raw
    }
}

/// The bin of a sample whose raw position is `raw`.
pub fn clamp_bin_index(raw: isize, bin_count: usize) -> (r: usize)
    requires
        1 <= bin_count <= isize::MAX,
    ensures
        r == clamp_bin(raw as int, bin_count as int),
        r < bin_count,
        0 <= raw < bin_count ==> r == raw,
        raw < 0 ==> r == 0,
        raw >= bin_count ==> r == bin_count - 1,
{
    let mut bin_index = raw;
    if bin_index < 0 {
        bin_index = 0;
    }
    if bin_index as usize >= bin_count {
        bin_index = bin_count as isize - 1;
    }
    bin_index as usize
}

/// A raw position inside the bins stays in its own bin; only positions
/// below the first bin or past the last one are moved, to the nearest edge
/// bin.
pub proof fn lemma_clamp_bin_keeps_inner_positions(raw: int, bin_count: int)
    requires
        bin_count >= 1,
    ensures
        0 <= raw < bin_count ==> clamp_bin(raw, bin_count) == raw,
        raw < 0 ==> clamp_bin(raw, bin_count) == 0,
        raw >= bin_count ==> clamp_bin(raw, bin_count) == bin_count - 1,
        0 <= clamp_bin(raw, bin_count) < bin_count,
{
}

/// How many of the raw positions `p` land in bin `b`.
pub open spec fn bin_count_of(p: Seq<isize>, bin_count: int, b: int) -> nat
    decreases p.len(),
{
    if p.len() == 0 {
        0
    } else {
        bin_count_of(p.drop_last(), bin_count, b) + if clamp_bin(p.last() as int, bin_count) == b {
            1nat
        } else {
            0nat
        }
    }
}

/// The counts of bins `0..k`, added up.
pub open spec fn bins_total(p: Seq<isize>, bin_count: int, k: int) -> nat
    decreases k,
{
    if k <= 0 {
        0
    } else {
        bins_total(p, bin_count, k - 1) + bin_count_of(p, bin_count, k - 1)
    }
}

/// No bin holds more than `u32::MAX` samples.
pub open spec fn bin_counts_fit(p: Seq<isize>, bin_count: int) -> bool {
    forall|b: int| 0 <= b < bin_count ==> #[trigger] bin_count_of(p, bin_count, b) <= u32::MAX
}

proof fn lemma_bin_count_prefix_grows(p: Seq<isize>, bin_count: int, b: int, i: int, j: int)
    requires
        0 <= i <= j <= p.len(),
    ensures
        bin_count_of(p.take(i), bin_count, b) <= bin_count_of(p.take(j), bin_count, b),
    decreases j - i,
{
    if i < j {
        lemma_bin_count_prefix_grows(p, bin_count, b, i, j - 1);
        assert(p.take(j).drop_last() =~= p.take(j - 1));
    }
}

/// Counts, for each of `bin_count` bins, the samples whose raw position
/// lands in it.
pub fn tally_bins(positions: &Vec<isize>, bin_count: usize) -> (counts: Vec<u32>)
    requires
        1 <= bin_count <= isize::MAX,
        bin_counts_fit(positions@, bin_count as int),
    ensures
        counts@.len() == bin_count,
        forall|b: int| 0 <= b < bin_count ==> #[trigger] counts@[b] == bin_count_of(positions@, bin_count as int, b),
{
    let mut counts: Vec<u32> = Vec::new();
    let mut k: usize = 0;
    while k < bin_count
        invariant
            0 <= k <= bin_count,
            counts@.len() == k,
            forall|b: int| 0 <= b < k ==> #[trigger] counts@[b] == 0,
        decreases bin_count - k,
    {
        counts.push(0);
        k = k + 1;
    }
    let ghost p = positions@;
    assert(p.take(0) =~= Seq::<isize>::empty());
    let mut i: usize = 0;
    while i < positions.len()
        invariant
            0 <= i <= p.len(),
            p == positions@,
            1 <= bin_count <= isize::MAX,
            bin_counts_fit(p, bin_count as int),
            counts@.len() == bin_count,
            forall|b: int| 0 <= b < bin_count ==> #[trigger] counts@[b] == bin_count_of(p.take(i as int), bin_count as int, b),
        decreases p.len() - i,
    {
        let idx = clamp_bin_index(positions[i], bin_count);
        proof {
            assert(p.take(i + 1).drop_last() =~= p.take(i as int));
            lemma_bin_count_prefix_grows(p, bin_count as int, idx as int, i + 1, p.len() as int);
            assert(p.take(p.len() as int) =~= p);
            assert(bin_count_of(p, bin_count as int, idx as int) <= u32::MAX);
        }
        let old = counts[idx];
        counts.set(idx, old + 1);
        i = i + 1;
    }
    assert(p.take(p.len() as int) =~= p);
    counts
}

proof fn lemma_bins_total_step(p: Seq<isize>, bin_count: int, k: int)
    requires
        p.len() > 0,
        0 <= k,
    ensures
        bins_total(p, bin_count, k) == bins_total(p.drop_last(), bin_count, k) + if 0 <= clamp_bin(
            p.last() as int,
            bin_count,
        ) < k {
            1nat
        } else {
            0nat
        },
    decreases k,
{
    if k > 0 {
        lemma_bins_total_step(p, bin_count, k - 1);
    }
}

/// Adding one sample whose raw position lies inside the bins raises the
/// count of its own bin by one and leaves every other bin unchanged.
pub proof fn lemma_tally_adds_sample_to_its_bin(p: Seq<isize>, x: isize, bin_count: int, b: int)
    requires
        0 <= x < bin_count,
        0 <= b < bin_count,
    ensures
        bin_count_of(p.push(x), bin_count, b) == bin_count_of(p, bin_count, b) + if b == x { 1int } else { 0int },
{
    assert(p.push(x).drop_last() =~= p);
}

/// Every sample is counted in exactly one bin: the counts of all bins add up
/// to the number of samples.
pub proof fn lemma_histogram_counts_every_sample(p: Seq<isize>, bin_count: int)
    requires
        bin_count >= 1,
    ensures
        bins_total(p, bin_count, bin_count) == p.len(),
    decreases p.len(),
{
    if p.len() > 0 {
        lemma_histogram_counts_every_sample(p.drop_last(), bin_count);
        lemma_bins_total_step(p, bin_count, bin_count);
    } else {
        lemma_bins_total_empty(p, bin_count, bin_count);
    }
}

proof fn lemma_bins_total_empty(p: Seq<isize>, bin_count: int, k: int)
    requires
        p.len() == 0,
    ensures
        bins_total(p, bin_count, k) == 0,
    decreases k,
{
    if k > 0 {
        lemma_bins_total_empty(p, bin_count, k - 1);
    }
}

/// How many of the worst samples form the tail at a confidence level, from
/// the raw count `raw_count` (the tail fraction times the number of samples,
/// rounded up): at least one sample and at most all of them.
pub open spec fn tail_count(raw_count: int, sample_count: int) -> int {
    let at_least_one = if raw_count == 0 { 1 } else { raw_count };
    if at_least_one <= sample_count { at_least_one } else { sample_count }
}

/// The tail holds exactly the requested number of worst samples whenever
/// there are that many; a request for none takes the single worst sample,
/// and a request for more than there are takes them all.
pub proof fn lemma_tail_count_as_requested(raw_count: int, sample_count: int)
    requires
        raw_count >= 0,
        sample_count >= 1,
    ensures
        1 <= raw_count <= sample_count ==> tail_count(raw_count, sample_count) == raw_count,
        raw_count == 0 ==> tail_count(raw_count, sample_count) == 1,
        raw_count >= sample_count ==> tail_count(raw_count, sample_count) == sample_count,
        1 <= tail_count(raw_count, sample_count) <= sample_count,
{
}

/// The number of worst samples that the value at risk and the conditional
/// value at risk are read from; the value at risk is the last of them.
pub fn var_tail_count(raw_count: usize, sample_count: usize) -> (r: usize)
    requires
        sample_count >= 1,
    ensures
        r == tail_count(raw_count as int, sample_count as int),
        1 <= r <= sample_count,
        1 <= raw_count <= sample_count ==> r == raw_count,
        raw_count == 0 ==> r == 1,
        raw_count >= sample_count ==> r == sample_count,
{
    let mut var_index = raw_count;
    if var_index == 0 {
        var_index = 1;
    }
    if var_index <= sample_count { var_index } else { sample_count }
}

} // verus!
