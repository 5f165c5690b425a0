//! Bookkeeping of the Monte Carlo engine: its configuration, the seed of each
//! simulated path, and which paths are kept as samples.

use vstd::prelude::*;
use vstd::arithmetic::div_mod::{
    lemma_div_is_ordered, lemma_div_multiples_vanish, lemma_div_plus_one, lemma_fundamental_div_mod,
    lemma_mod_bound, lemma_mul_mod_noop_left, lemma_mul_mod_noop_right, lemma_small_mod,
    lemma_multiply_divide_lt,
};

verus! {

/// Settings of one Monte Carlo run.
#[derive(Debug, Clone, Copy)]
pub struct MonteCarloConfig {
    pub num_paths: usize,
    pub num_steps: usize,
    pub seed: u64,
    pub sample_path_count: usize,
}

/// The configuration with at least one path and at least one step; the seed
/// and the number of sample paths are kept.
pub open spec fn normalized_config(c: MonteCarloConfig) -> MonteCarloConfig {
    MonteCarloConfig {
        num_paths: if c.num_paths >= 1 { c.num_paths } else { 1 },
        num_steps: if c.num_steps >= 1 { c.num_steps } else { 1 },
        seed: c.seed,
        sample_path_count: c.sample_path_count,
    }
}

impl MonteCarloConfig {
    pub fn new(num_paths: usize, num_steps: usize, seed: u64, sample_path_count: usize) -> (r: Self)
        ensures
            r == (MonteCarloConfig { num_paths, num_steps, seed, sample_path_count }),
    {
        Self { num_paths, num_steps, seed, sample_path_count }
    }

    /// Raises a zero number of paths or steps to one.
    pub fn normalized(self) -> (r: Self)
        ensures
            r == normalized_config(self),
            r.num_paths == (if self.num_paths >= 1 { self.num_paths } else { 1 }),
            r.num_steps == (if self.num_steps >= 1 { self.num_steps } else { 1 }),
            r.seed == self.seed,
            r.sample_path_count == self.sample_path_count,
    {
        Self {
            num_paths: if self.num_paths >= 1 { self.num_paths } else { 1 },
            num_steps: if self.num_steps >= 1 { self.num_steps } else { 1 },
            seed: self.seed,
            sample_path_count: self.sample_path_count,
        }
    }
}

/// Normalizing keeps every requested positive number of paths and steps as
/// it is, raises only a zero count to one, and carries the seed and the
/// number of sample paths over.
pub proof fn lemma_normalized_keeps_request(c: MonteCarloConfig)
    ensures
        c.num_paths >= 1 ==> normalized_config(c).num_paths == c.num_paths,
        c.num_steps >= 1 ==> normalized_config(c).num_steps == c.num_steps,
        c.num_paths == 0 ==> normalized_config(c).num_paths == 1,
        c.num_steps == 0 ==> normalized_config(c).num_steps == 1,
        normalized_config(c).seed == c.seed,
        normalized_config(c).sample_path_count == c.sample_path_count,
{
}

/// A normalized configuration has at least one path and one step, and
/// normalizing it again changes nothing.
pub proof fn lemma_normalized_config(c: MonteCarloConfig)
    ensures
        normalized_config(c).num_paths >= 1,
        normalized_config(c).num_steps >= 1,
        normalized_config(normalized_config(c)) == normalized_config(c),
{
}

pub open spec fn seed_modulus() -> int {
    0x1_0000_0000_0000_0000
}

/// Multiplier that spreads path indices over the 64-bit seed space.
pub open spec fn seed_multiplier() -> int {
    0x9E37_79B9_7F4A_7C15
}

/// Constant added to every mixed seed.
pub open spec fn seed_offset() -> int {
    0xD2B7_4407_B1CE_6E93
}

/// The seed of path `path_index` in a run seeded with `base_seed`: the index
/// times the multiplier modulo 2^64, XOR-ed into the base seed, plus the
/// offset modulo 2^64.
pub open spec fn path_seed(base_seed: u64, path_index: int) -> u64 {
    let spread = ((path_index * seed_multiplier()) % seed_modulus()) as u64;
    (((base_seed ^ spread) as int + seed_offset()) % seed_modulus()) as u64
}

/// The random seed of one simulated path.
pub fn derive_path_seed(base_seed: u64, path_index: usize) -> (r: u64)
    ensures
        r == path_seed(base_seed, path_index as int),
{
    let mixed = base_seed ^ ((path_index as u64).wrapping_mul(0x9E37_79B9_7F4A_7C15));
    mixed.wrapping_add(0xD2B7_4407_B1CE_6E93)
}

/// Multiplying by the (odd) seed multiplier is undone modulo 2^64 by this
/// inverse.
proof fn lemma_multiplier_inverse(x: int)
    requires
        0 <= x < seed_modulus(),
    ensures
        ((x * seed_multiplier()) % seed_modulus()) * 0xF1DE_83E1_9937_733D % seed_modulus() == x,
{
    let m = seed_modulus();
    let k = seed_multiplier();
    let inv: int = 0xF1DE_83E1_9937_733D;
    lemma_mul_mod_noop_left(x * k, inv, m);
    assert((x * k) * inv == x * (k * inv)) by (nonlinear_arith);
    assert((k * inv) % m == 1);
    lemma_mul_mod_noop_right(x, k * inv, m);
    lemma_small_mod(x as nat, m as nat);
}

/// Distinct paths of a run get distinct seeds, so no two paths replay the
/// same random stream.
pub proof fn lemma_path_seeds_distinct(base_seed: u64, i: int, j: int)
    requires
        0 <= i < seed_modulus(),
        0 <= j < seed_modulus(),
        i != j,
    ensures
        path_seed(base_seed, i) != path_seed(base_seed, j),
{
    let m = seed_modulus();
    let k = seed_multiplier();
    let si = (i * k) % m;
    let sj = (j * k) % m;
    lemma_mod_bound(i * k, m);
    lemma_mod_bound(j * k, m);
    lemma_multiplier_inverse(i);
    lemma_multiplier_inverse(j);
    assert(si != sj);
    let a = si as u64;
    let b = sj as u64;
    assert(a != b);
    assert(base_seed ^ a != base_seed ^ b) by (bit_vector)
        requires
            a != b,
    ;
    let xa = (base_seed ^ a) as int;
    let xb = (base_seed ^ b) as int;
    let c = seed_offset();
    if (xa + c) % m == (xb + c) % m {
        lemma_fundamental_div_mod(xa + c, m);
        lemma_fundamental_div_mod(xb + c, m);
        assert(xa == xb);
    }
}

/// How many of `path_count` paths are kept as samples when
/// `sample_count` are asked for: at least one, at most all of them.
pub open spec fn sample_target(path_count: int, sample_count: int) -> int {
    let wanted = if sample_count >= 1 { sample_count } else { 1 };
    if wanted <= path_count { wanted } else { path_count }
}

/// The path kept as sample number `i` when `target` of `path_count` paths
/// are kept: the paths are taken at even strides.
pub open spec fn sample_index(i: int, path_count: int, target: int) -> int {
    i * path_count / target
}

/// The stride computation of `select_sample_indices` fits in a `usize`.
pub open spec fn sample_indices_fit(path_count: int, sample_count: int) -> bool {
    let t = sample_target(path_count, sample_count);
    path_count > 0 && t < path_count ==> (t - 1) * path_count <= usize::MAX
}

/// The indices of the paths kept as samples, in increasing order: none when
/// there are no paths, otherwise `sample_target(path_count, sample_count)`
/// of them, number `i` being `i * path_count / target`.
pub fn select_sample_indices(path_count: usize, sample_count: usize) -> (r: Vec<usize>)
    requires
        sample_indices_fit(path_count as int, sample_count as int),
    ensures
        path_count == 0 ==> r@.len() == 0,
        path_count > 0 ==> r@.len() == sample_target(path_count as int, sample_count as int),
        1 <= sample_count <= path_count ==> r@.len() == sample_count,
        path_count > 0 && sample_count == 0 ==> r@.len() == 1,
        path_count > 0 && sample_count >= path_count ==> r@.len() == path_count,
        forall|i: int|
            0 <= i < r@.len() ==> #[trigger] r@[i] == sample_index(
                i,
                path_count as int,
                sample_target(path_count as int, sample_count as int),
            ),
{
    let mut selected: Vec<usize> = Vec::new();
    if path_count == 0 {
        return selected;
    }
    let wanted = if sample_count >= 1 { sample_count } else { 1 };
    let target = if wanted <= path_count { wanted } else { path_count };
    if target == path_count {
        let mut i: usize = 0;
        while i < path_count
            invariant
                0 <= i <= path_count,
                target == path_count,
                selected@.len() == i,
                forall|k: int| 0 <= k < i ==> #[trigger] selected@[k] == sample_index(k, path_count as int, target as int),
            decreases path_count - i,
        {
            proof {
                lemma_div_multiples_vanish(i as int, path_count as int);
                assert(i as int * path_count == path_count * i as int) by (nonlinear_arith);
            }
            selected.push(i);
            i = i + 1;
        }
        return selected;
    }
    let mut i: usize = 0;
    while i < target
        invariant
            0 <= i <= target,
            0 < target < path_count,
            (target - 1) * path_count <= usize::MAX,
            selected@.len() == i,
            forall|k: int| 0 <= k < i ==> #[trigger] selected@[k] == sample_index(k, path_count as int, target as int),
        decreases target - i,
    {
        proof {
            assert(i * path_count <= (target - 1) * path_count) by (nonlinear_arith)
                requires
                    i <= target - 1,
                    path_count > 0,
            ;
        }
        let source_index = i * path_count / target;
        selected.push(source_index);
        i = i + 1;
    }
    selected
}

/// Exactly the requested number of sample paths is kept whenever there are
/// that many paths; asking for none keeps one, and asking for more than
/// there are keeps them all.
pub proof fn lemma_sample_count_as_requested(path_count: int, sample_count: int)
    requires
        path_count >= 1,
    ensures
        1 <= sample_count <= path_count ==> sample_target(path_count, sample_count) == sample_count,
        sample_count <= 0 ==> sample_target(path_count, sample_count) == 1,
        sample_count >= path_count ==> sample_target(path_count, sample_count) == path_count,
        1 <= sample_target(path_count, sample_count) <= path_count,
{
}

/// The sample indices start at the first path, stay below `path_count`, and
/// strictly increase, so no path is taken twice.
pub proof fn lemma_sample_indices_ordered(i: int, j: int, path_count: int, target: int)
    requires
        0 < target <= path_count,
        0 <= i < j < target,
    ensures
        sample_index(0, path_count, target) == 0,
        0 <= sample_index(i, path_count, target) < sample_index(j, path_count, target),
        sample_index(j, path_count, target) < path_count,
{
    assert(0 * path_count == 0);
    assert(0 <= i * path_count) by (nonlinear_arith)
        requires
            0 <= i,
            0 < path_count,
    ;
    assert((i + 1) * path_count <= j * path_count) by (nonlinear_arith)
        requires
            i + 1 <= j,
            0 < path_count,
    ;
    assert((i + 1) * path_count == i * path_count + path_count) by (nonlinear_arith);
    lemma_div_plus_one(i * path_count, target);
    lemma_div_is_ordered(target + i * path_count, j * path_count, target);
    lemma_div_is_ordered(0, i * path_count, target);
    assert(j * path_count < target * path_count) by (nonlinear_arith)
        requires
            j < target,
            0 < path_count,
    ;
    lemma_multiply_divide_lt(j * path_count, target, path_count);
}

/// When at least as many samples as paths are asked for, every path is
/// kept, in order.
pub proof fn lemma_all_paths_sampled(i: int, path_count: int, sample_count: int)
    requires
        0 < path_count <= sample_count,
        0 <= i < path_count,
    ensures
        sample_target(path_count, sample_count) == path_count,
        sample_index(i, path_count, sample_target(path_count, sample_count)) == i,
{
    lemma_div_multiples_vanish(i, path_count);
    assert(i * path_count == path_count * i) by (nonlinear_arith);
}

} // verus!
