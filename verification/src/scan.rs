//! The constraint scanner: find the next unfilled cell in the fixed scan
//! order and compute the set of symbols its row and column still allow.
//!
//! The scan covers rows and columns `1..n` only: row 0 and column 0 are laid
//! down by the skeleton before the search starts and are never re-scanned.

use vstd::prelude::*;
use crate::grid::LatinSquare;
use crate::grid::cells_valid;
use crate::grid::full_mask;
use crate::grid::is_symbol;
use crate::grid::lemma_cell_bit;
use crate::grid::lemma_clear_step;
use crate::grid::lemma_entries;
use crate::grid::lemma_full_mask_bits;
use crate::grid::lemma_sym_bit_distinct;
use crate::grid::sym_bit;

verus! {

/// The part of the grid the scan looks at: everything but row 0 and column 0.
pub open spec fn in_scan_region(n: int, x: int, y: int) -> bool {
    1 <= x < n && 1 <= y < n
}

/// (`x1`, `y1`) comes before (`x2`, `y2`) in row-major scan order.
pub open spec fn scan_earlier(x1: int, y1: int, x2: int, y2: int) -> bool {
    x1 < x2 || (x1 == x2 && y1 < y2)
}

/// (`x`, `y`) is the first unfilled cell of the scan region in scan order.
pub open spec fn first_zero(g: Seq<Seq<u16>>, n: int, x: int, y: int) -> bool {
    &&& in_scan_region(n, x, y)
    &&& g[x][y] == 0
    &&& forall|x2: int, y2: int|
        #![trigger g[x2][y2]]
        in_scan_region(n, x2, y2) && scan_earlier(x2, y2, x, y) ==> g[x2][y2] != 0
}

/// The scan region holds no unfilled cell.
pub open spec fn region_filled(g: Seq<Seq<u16>>, n: int) -> bool {
    forall|x: int, y: int| #![trigger g[x][y]] in_scan_region(n, x, y) ==> g[x][y] != 0
}

/// Symbol `k` appears nowhere in row `x` and nowhere in column `y`.
pub open spec fn sym_free(g: Seq<Seq<u16>>, n: int, x: int, y: int, k: int) -> bool {
    forall|i: int|
        #![trigger g[x][i]]
        #![trigger g[i][y]]
        0 <= i < n ==> g[x][i] != sym_bit(k) && g[i][y] != sym_bit(k)
}

/// Symbol `k` appears nowhere in row `x` or column `y` among indices below `i`.
pub open spec fn sym_free_up_to(g: Seq<Seq<u16>>, x: int, y: int, k: int, i: int) -> bool {
    forall|i2: int|
        #![trigger g[x][i2]]
        #![trigger g[i2][y]]
        0 <= i2 < i ==> g[x][i2] != sym_bit(k) && g[i2][y] != sym_bit(k)
}

/// The next unfilled cell, with the mask of symbols its row and column still
/// admit.
#[derive(Debug)]
pub struct AllowedValues {
    pub x: usize,
    pub y: usize,
    pub allowed: u16,
}

/// Scans rows `1..n` by row, then column, and returns the first unfilled
/// cell, or nothing when the scan region is completely filled.
#[verifier::loop_isolation(false)]
pub fn scan_for_first_zero(current_square: &LatinSquare) -> (res: Option<(usize, usize)>)
    requires
        current_square.wf(),
    ensures
        match res {
            Some(p) => first_zero(
                current_square@,
                current_square.order as int,
                p.0 as int,
                p.1 as int,
            ),
            None => region_filled(current_square@, current_square.order as int),
        },
{
    proof {
        lemma_entries(current_square);
    }
    let n = current_square.order;
    let mut i: usize = 1;
    while i < n
        invariant
            1 <= i <= n,
            forall|x2: int, y2: int|
                #![trigger current_square@[x2][y2]]
                in_scan_region(n as int, x2, y2) && x2 < i ==> current_square@[x2][y2] != 0,
        decreases n - i,
    {
        let mut j: usize = 1;
        while j < n
            invariant
                1 <= i < n,
                1 <= j <= n,
                forall|y2: int|
                    #![trigger current_square@[i as int][y2]]
                    1 <= y2 < j ==> current_square@[i as int][y2] != 0,
            decreases n - j,
        {
            if current_square.cell(i, j) == 0 {
                return Some((i, j));
            }
            j += 1;
        }
        i += 1;
    }
    None
}

/// Computes the full alphabet mask of an order-`n` square.
#[verifier::loop_isolation(false)]
fn full_mask_exec(n: usize) -> (m: u16)
    requires
        1 <= n <= 16,
    ensures
        m == full_mask(n as nat),
{
    let mut m: u16 = 0;
    let mut k: usize = 0;
    while k < n
        invariant
            k <= n,
            m == full_mask(k as nat),
        decreases n - k,
    {
        m = m | (1u16 << (k as u16));
        proof {
            assert(full_mask((k + 1) as nat) == full_mask(k as nat) | sym_bit(k as int));
        }
        k += 1;
    }
    m
}

/// Finds the next unfilled cell and the symbols it can still take.
///
/// `Ok(av)` carries the first unfilled cell and its nonempty candidate mask:
/// bit `k` is set exactly when symbol `k` is absent from the cell's row and
/// column. `Err(true)` says no unfilled cell remains — the grid is complete.
/// `Err(false)` says the first unfilled cell admits no symbol at all — the
/// grid cannot be extended to a Latin square and the branch is pruned.
#[verifier::loop_isolation(false)]
pub fn get_next_allowed(current_square: &LatinSquare) -> (res: Result<AllowedValues, bool>)
    requires
        current_square.wf(),
        cells_valid(current_square@, current_square.order as int),
    ensures
        match res {
            Ok(av) => {
                &&& first_zero(current_square@, current_square.order as int, av.x as int, av.y as int)
                &&& av.allowed != 0
                &&& forall|k: int|
                    #![trigger sym_bit(k)]
                    0 <= k < 16 ==> (((av.allowed & sym_bit(k)) != 0) <==> (k
                        < current_square.order && sym_free(
                        current_square@,
                        current_square.order as int,
                        av.x as int,
                        av.y as int,
                        k,
                    )))
            },
            Err(complete) => {
                if complete {
                    region_filled(current_square@, current_square.order as int)
                } else {
                    exists|x: int, y: int|
                        #[trigger] first_zero(current_square@, current_square.order as int, x, y)
                            && forall|k: int|
                            0 <= k < current_square.order ==> !sym_free(
                                current_square@,
                                current_square.order as int,
                                x,
                                y,
                                k,
                            )
                }
            },
        },
{
    proof {
        lemma_entries(current_square);
    }
    let n = current_square.order;
    let ghost g = current_square@;
    match scan_for_first_zero(current_square) {
        None => Err(true),
        Some((x, y)) => {
            let mut allowed: u16 = full_mask_exec(n);
            proof {
                lemma_full_mask_bits(n as nat);
            }
            let mut i: usize = 0;
            while i < n
                invariant
                    i <= n,
                    x < n,
                    y < n,
                    forall|k: int|
                        #![trigger sym_bit(k)]
                        0 <= k < 16 ==> (((allowed & sym_bit(k)) != 0) <==> (k < n
                            && sym_free_up_to(g, x as int, y as int, k, i as int))),
                decreases n - i,
            {
                let cr = current_square.cell(x, i);
                let cc = current_square.cell(i, y);
                let next: u16 = allowed & !cr & !cc;
                proof {
                    assert forall|k: int|
                        #![trigger sym_bit(k)]
                        0 <= k < 16 implies (((next & sym_bit(k)) != 0) <==> (k < n
                        && sym_free_up_to(g, x as int, y as int, k, i + 1))) by {
                        lemma_clear_step(allowed & !cr, cc, k);
                        lemma_clear_step(allowed, cr, k);
                        if k < n {
                            lemma_cell_bit(n as int, cr, k);
                            lemma_cell_bit(n as int, cc, k);
                            assert(sym_free_up_to(g, x as int, y as int, k, i + 1)
                                <==> (sym_free_up_to(g, x as int, y as int, k, i as int) && g[x as int][i as int]
                                != sym_bit(k) && g[i as int][y as int] != sym_bit(k)));
                        }
                    }
                }
                allowed = next;
                i += 1;
            }
            proof {
                assert forall|k: int|
                    #![trigger sym_free(g, n as int, x as int, y as int, k)]
                    0 <= k < n implies (sym_free_up_to(g, x as int, y as int, k, n as int)
                    <==> sym_free(g, n as int, x as int, y as int, k)) by {}
            }
            if allowed == 0 {
                proof {
                    assert forall|k: int|
                        #![trigger sym_free(g, n as int, x as int, y as int, k)]
                        0 <= k < n implies !sym_free(g, n as int, x as int, y as int, k) by {
                        let kb = k as u16;
                        assert((0u16 & (1u16 << kb)) == 0) by (bit_vector);
                        assert((allowed & sym_bit(k)) == 0);
                    }
                    assert(first_zero(g, n as int, x as int, y as int));
                }
                Err(false)
            } else {
                Ok(AllowedValues { x, y, allowed })
            }
        },
    }
}

/// Splits a candidate mask into its one-hot members, lowest bit first: the
/// symbols of `0..n` whose bit is set in `bit_mask`, each exactly once.
#[verifier::loop_isolation(false)]
pub fn get_bits(bit_mask: u16, n: usize) -> (res: Vec<u16>)
    requires
        n <= 16,
    ensures
        forall|k: int|
            #![trigger sym_bit(k)]
            0 <= k < n ==> (res@.contains(sym_bit(k)) <==> (bit_mask & sym_bit(k)) != 0),
        forall|t: int|
            0 <= t < res@.len() ==> is_symbol(n as int, #[trigger] res@[t]) && (bit_mask
                & res@[t]) != 0,
        res@.no_duplicates(),
{
    let mut res: Vec<u16> = Vec::new();
    let mut k: usize = 0;
    while k < n
        invariant
            k <= n,
            forall|k2: int|
                #![trigger sym_bit(k2)]
                0 <= k2 < k ==> (res@.contains(sym_bit(k2)) <==> (bit_mask & sym_bit(k2)) != 0),
            forall|k2: int|
                #![trigger sym_bit(k2)]
                k <= k2 < 16 ==> !res@.contains(sym_bit(k2)),
            forall|t: int|
                0 <= t < res@.len() ==> is_symbol(n as int, #[trigger] res@[t]) && (bit_mask
                    & res@[t]) != 0,
            res@.no_duplicates(),
        decreases n - k,
    {
        let bit: u16 = 1u16 << (k as u16);
        proof {
            assert(bit == sym_bit(k as int));
        }
        if (bit_mask & bit) != 0 {
            let ghost before = res@;
            proof {
                assert(!before.contains(sym_bit(k as int)));
            }
            res.push(bit);
            proof {
                assert forall|k2: int|
                    #![trigger sym_bit(k2)]
                    0 <= k2 < k + 1 implies (res@.contains(sym_bit(k2)) <==> (bit_mask & sym_bit(
                    k2,
                )) != 0) by {
                    assert(res@ == before.push(sym_bit(k as int)));
                    if k2 == k {
                        assert(res@[res@.len() - 1] == sym_bit(k2));
                        assert(res@.contains(sym_bit(k2)));
                    } else {
                        assert(res@.contains(sym_bit(k2)) <==> before.contains(sym_bit(k2))) by {
                            if before.contains(sym_bit(k2)) {
                                let t = choose|t: int|
                                    0 <= t < before.len() && before[t] == sym_bit(k2);
                                assert(res@[t] == sym_bit(k2));
                            }
                            if res@.contains(sym_bit(k2)) {
                                let t = choose|t: int| 0 <= t < res@.len() && res@[t] == sym_bit(k2);
                                lemma_sym_bit_distinct(k as int, k2);
                                assert(t < before.len());
                                assert(before[t] == sym_bit(k2));
                            }
                        }
                    }
                }
                assert forall|k2: int|
                    #![trigger sym_bit(k2)]
                    k + 1 <= k2 < 16 implies !res@.contains(sym_bit(k2)) by {
                    if res@.contains(sym_bit(k2)) {
                        let t = choose|t: int| 0 <= t < res@.len() && res@[t] == sym_bit(k2);
                        if t < before.len() {
                            assert(before[t] == sym_bit(k2));
                            assert(before.contains(sym_bit(k2)));
                        } else {
                            assert(res@[t] == sym_bit(k as int));
                            lemma_sym_bit_distinct(k as int, k2);
                        }
                    }
                }
                assert forall|t: int|
                    0 <= t < res@.len() implies is_symbol(n as int, #[trigger] res@[t]) && (
                bit_mask & res@[t]) != 0 by {
                    if t < before.len() {
                        assert(res@[t] == before[t]);
                    } else {
                        assert(res@[t] == sym_bit(k as int));
                        assert(is_symbol(n as int, res@[t]));
                    }
                }
                assert(res@.no_duplicates()) by {
                    assert forall|t1: int, t2: int|
                        0 <= t1 < res@.len() && 0 <= t2 < res@.len() && t1 != t2 implies res@[t1]
                        != res@[t2] by {
                        if t1 < before.len() && t2 < before.len() {
                            assert(res@[t1] == before[t1] && res@[t2] == before[t2]);
                        } else if t1 < before.len() {
                            assert(res@[t1] == before[t1] && res@[t2] == sym_bit(k as int));
                            if res@[t1] == res@[t2] {
                                assert(before.contains(sym_bit(k as int)));
                            }
                        } else if t2 < before.len() {
                            assert(res@[t2] == before[t2] && res@[t1] == sym_bit(k as int));
                            if res@[t1] == res@[t2] {
                                assert(before.contains(sym_bit(k as int)));
                            }
                        }
                    }
                }
            }
        }
        k += 1;
    }
    res
}

} // verus!
