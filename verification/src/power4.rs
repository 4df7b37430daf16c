//! Decomposition of a dimension offset into the fixed powers-of-four table.

use crate::InvertedIndexError;
use vstd::prelude::*;

verus! {

/// The fixed fan-out table: entry `i` is the fourth power 4^i, for `i` in [0, 8).
pub open spec fn pow4(i: int) -> int {
    if i >= 7 {
        16384
    } else if i == 6 {
        4096
    } else if i == 5 {
        1024
    } else if i == 4 {
        256
    } else if i == 3 {
        64
    } else if i == 2 {
        16
    } else if i == 1 {
        4
    } else {
        1
    }
}

/// The greatest index into the table whose power is at most `n`, for `n >= 1`.
pub open spec fn largest_pow4_index(n: int) -> int {
    if n >= 16384 {
        7
    } else if n >= 4096 {
        6
    } else if n >= 1024 {
        5
    } else if n >= 256 {
        4
    } else if n >= 64 {
        3
    } else if n >= 16 {
        2
    } else if n >= 4 {
        1
    } else {
        0
    }
}

/// The greedy largest-first decomposition of a nonnegative offset `r`:
/// take the largest table power at most `r`, then decompose the rest.
pub open spec fn path_spec(r: int) -> Seq<usize>
    decreases r,
{
    if r <= 0 {
        Seq::empty()
    } else {
        seq![largest_pow4_index(r) as usize] + path_spec(r - pow4(largest_pow4_index(r)))
    }
}

/// Every entry of a path is an index into the powers-of-four table.
pub open spec fn valid_path(p: Seq<usize>) -> bool {
    forall|k: int| 0 <= k < p.len() ==> #[trigger] p[k] <= 7
}

/// The offset a path stands for: the sum of the table powers it names.
pub open spec fn path_sum(p: Seq<usize>) -> int
    decreases p.len(),
{
    if p.len() == 0 {
        0
    } else {
        pow4(p[0] as int) + path_sum(p.drop_first())
    }
}

pub proof fn lemma_path_sum_nonneg(p: Seq<usize>)
    ensures
        path_sum(p) >= 0,
    decreases p.len(),
{
    if p.len() > 0 {
        lemma_path_sum_nonneg(p.drop_first());
    }
}

/// Walking the greedy decomposition of an offset adds back exactly that offset.
pub proof fn lemma_path_spec_sum(r: int)
    requires
        r >= 0,
    ensures
        path_sum(path_spec(r)) == r,
    decreases r,
{
    if r > 0 {
        let i = largest_pow4_index(r);
        lemma_path_spec_sum(r - pow4(i));
        assert(path_spec(r).drop_first() =~= path_spec(r - pow4(i)));
    }
}

/// Every entry of a greedy decomposition indexes the table.
pub proof fn lemma_path_spec_valid(r: int)
    ensures
        valid_path(path_spec(r)),
    decreases r,
{
    if r > 0 {
        let i = largest_pow4_index(r);
        lemma_path_spec_valid(r - pow4(i));
        assert forall|k: int| 0 <= k < path_spec(r).len() implies #[trigger] path_spec(r)[k] <= 7 by {
            if k > 0 {
                assert(path_spec(r)[k] == path_spec(r - pow4(i))[k - 1]);
            }
        }
    }
}

/// The table itself, as executable code.
pub fn pow4_table(i: usize) -> (r: u32)
    requires
        i < 8,
    ensures
        r as int == pow4(i as int),
{
    if i == 0 {
        1
    } else if i == 1 {
        4
    } else if i == 2 {
        16
    } else if i == 3 {
        64
    } else if i == 4 {
        256
    } else if i == 5 {
        1024
    } else if i == 6 {
        4096
    } else {
        16384
    }
}

/// Returns the largest power of 4 in the table that is less than or equal to `n`,
/// together with its index.
pub fn largest_power_of_4_below(n: u32) -> (r: (usize, u32))
    requires
        n >= 1,
    ensures
        r.0 as int == largest_pow4_index(n as int),
        r.1 as int == pow4(r.0 as int),
        r.1 <= n,
{
    if n >= 16384 {
        (7, 16384)
    } else if n >= 4096 {
        (6, 4096)
    } else if n >= 1024 {
        (5, 1024)
    } else if n >= 256 {
        (4, 256)
    } else if n >= 64 {
        (3, 64)
    } else if n >= 16 {
        (2, 16)
    } else if n >= 4 {
        (1, 4)
    } else {
        (0, 1)
    }
}

/// Calculates the path from `current_dim_index` to `target_dim_index`:
/// the greedy largest-first decomposition of their difference over the table.
pub fn calculate_path(target_dim_index: u32, current_dim_index: u32) -> (path: Vec<usize>)
    requires
        current_dim_index <= target_dim_index,
    ensures
        path@ == path_spec(target_dim_index - current_dim_index),
{
    let ghost delta = target_dim_index - current_dim_index;
    let mut path: Vec<usize> = Vec::new();
    let mut remaining: u32 = target_dim_index - current_dim_index;

    while remaining > 0
        invariant
            path_spec(delta) == path@ + path_spec(remaining as int),
        decreases remaining,
    {
        let ghost old_path = path@;
        let ghost old_rem = remaining as int;
        let (child_index, pow_4) = largest_power_of_4_below(remaining);
        path.push(child_index);
        remaining = remaining - pow_4;
        proof {
            assert(path_spec(old_rem) == seq![child_index] + path_spec(remaining as int));
            assert(old_path + path_spec(old_rem) =~= path@ + path_spec(remaining as int));
        }
    }
    proof {
        assert(path@ + path_spec(0) =~= path@);
    }
    path
}

/// The checked form of path calculation: rejects a target below the base.
pub fn try_calculate_path(target_dim_index: u32, current_dim_index: u32) -> (r: Result<
    Vec<usize>,
    InvertedIndexError,
>)
    ensures
        (current_dim_index <= target_dim_index) <==> r is Ok,
        r is Ok ==> r->Ok_0@ == path_spec(target_dim_index - current_dim_index),
        r is Err ==> r->Err_0 == InvertedIndexError::InvalidDimensionDelta,
{
    if target_dim_index < current_dim_index {
        Err(InvertedIndexError::InvalidDimensionDelta)
    } else {
        Ok(calculate_path(target_dim_index, current_dim_index))
    }
}

} // verus!
