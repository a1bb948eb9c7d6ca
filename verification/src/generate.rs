//! The backtracking generator: starting from the canonical skeleton, fill
//! every remaining cell in all legal ways and collect every reduced Latin
//! square of the order, each exactly once.

use vstd::prelude::*;
use crate::grid::InvalidOrder;
use crate::grid::LatinSquare;
use crate::grid::MAX_ORDER;
use crate::grid::border_filled;
use crate::grid::cells_valid;
use crate::grid::extends;
use crate::grid::grid_dims;
use crate::grid::has_canonical_border;
use crate::grid::is_complete;
use crate::grid::is_latin;
use crate::grid::is_reduced;
use crate::grid::is_symbol;
use crate::grid::lemma_sym_bit_nonzero;
use crate::grid::lemma_zeros_in_grid_update;
use crate::grid::no_repeats;
use crate::grid::partial_latin;
use crate::grid::sym_bit;
use crate::grid::valid_order;
use crate::grid::zeros_in_grid;
use crate::scan::first_zero;
use crate::scan::get_bits;
use crate::scan::get_next_allowed;
use crate::scan::in_scan_region;
use crate::scan::region_filled;
use crate::scan::sym_free;

verus! {

/// The grid with cell (`x`, `y`) set to `v`.
pub open spec fn cell_set(g: Seq<Seq<u16>>, x: int, y: int, v: u16) -> Seq<Seq<u16>> {
    g.update(x, g[x].update(y, v))
}

/// Writing one legal symbol into an unfilled cell keeps the grid a partial
/// Latin square and leaves the filled border filled.
proof fn lemma_extend_partial(g: Seq<Seq<u16>>, n: int, x: int, y: int, v: u16, k: int)
    requires
        valid_order(n),
        partial_latin(g, n),
        border_filled(g, n),
        in_scan_region(n, x, y),
        g[x][y] == 0,
        0 <= k < n,
        v == sym_bit(k),
        sym_free(g, n, x, y, k),
    ensures
        grid_dims(cell_set(g, x, y, v), n),
        partial_latin(cell_set(g, x, y, v), n),
        border_filled(cell_set(g, x, y, v), n),
        forall|i: int, j: int|
            #![trigger cell_set(g, x, y, v)[i][j]]
            0 <= i < n && 0 <= j < n ==> cell_set(g, x, y, v)[i][j] == (if i == x && j == y {
                v
            } else {
                g[i][j]
            }),
{
    let g2 = cell_set(g, x, y, v);
    lemma_sym_bit_nonzero(k);
    assert forall|i: int, j: int|
        #![trigger g2[i][j]]
        0 <= i < n && 0 <= j < n implies g2[i][j] == (if i == x && j == y {
        v
    } else {
        g[i][j]
    }) by {
        if i == x {
            assert(g2[i] == g[x].update(y, v));
        }
    }
    assert(cells_valid(g2, n)) by {
        assert forall|i: int, j: int|
            0 <= i < n && 0 <= j < n implies (#[trigger] g2[i][j]) == 0 || is_symbol(
            n,
            g2[i][j],
        ) by {
            if i == x && j == y {
                assert(g2[i][j] == sym_bit(k));
            }
        }
    }
    assert(no_repeats(g2, n)) by {
        assert forall|i: int, j1: int, j2: int|
            #![trigger g2[i][j1], g2[i][j2]]
            0 <= i < n && 0 <= j1 < n && 0 <= j2 < n && j1 != j2 && g2[i][j1] != 0 implies g2[i][j1]
            != g2[i][j2] by {
            if i == x && j1 == y {
                assert(g2[i][j2] == g[i][j2] && g[x][j2] != sym_bit(k));
            } else if i == x && j2 == y {
                assert(g2[i][j1] == g[i][j1] && g[x][j1] != sym_bit(k));
            } else {
                assert(g2[i][j1] == g[i][j1] && g2[i][j2] == g[i][j2]);
            }
        }
        assert forall|i1: int, i2: int, j: int|
            #![trigger g2[i1][j], g2[i2][j]]
            0 <= i1 < n && 0 <= i2 < n && 0 <= j < n && i1 != i2 && g2[i1][j] != 0 implies g2[i1][j]
            != g2[i2][j] by {
            if i1 == x && j == y {
                assert(g2[i2][j] == g[i2][j] && g[i2][y] != sym_bit(k));
            } else if i2 == x && j == y {
                assert(g2[i1][j] == g[i1][j] && g[i1][y] != sym_bit(k));
            } else {
                assert(g2[i1][j] == g[i1][j] && g2[i2][j] == g[i2][j]);
            }
        }
    }
    assert(border_filled(g2, n)) by {
        assert forall|i: int| 0 <= i < n implies (#[trigger] g2[0][i]) != 0 && g2[i][0] != 0 by {
            assert(g2[0][i] == g[0][i] && g2[i][0] == g[i][0]);
        }
    }
}

/// Recursively fills every unfilled cell of a partial Latin square in all
/// legal ways. The result holds exactly the completed Latin squares that
/// extend the given grid: every member is one (and they are pairwise
/// distinct), and every such square appears. A grid whose next unfilled cell
/// admits no symbol therefore yields the empty list without further search.
#[verifier::loop_isolation(false)]
#[verifier::rlimit(60)]
pub fn generate_next_values(current_square: &LatinSquare) -> (res: Vec<LatinSquare>)
    requires
        current_square.wf(),
        partial_latin(current_square@, current_square.order as int),
        border_filled(current_square@, current_square.order as int),
    ensures
        forall|t: int|
            0 <= t < res@.len() ==> (#[trigger] res@[t]).wf() && res@[t].order
                == current_square.order && is_latin(res@[t]@, current_square.order as int)
                && extends(res@[t]@, current_square@, current_square.order as int),
        forall|h: Seq<Seq<u16>>|
            #![trigger is_latin(h, current_square.order as int), extends(h, current_square@, current_square.order as int)]
            is_latin(h, current_square.order as int) && extends(
                h,
                current_square@,
                current_square.order as int,
            ) ==> exists|t: int| 0 <= t < res@.len() && (#[trigger] res@[t])@ == h,
        forall|t1: int, t2: int|
            0 <= t1 < res@.len() && 0 <= t2 < res@.len() && t1 != t2 ==> (#[trigger] res@[t1])@
                != (#[trigger] res@[t2])@,
    decreases zeros_in_grid(current_square@),
{
    let n = current_square.order;
    let ghost g = current_square@;
    match get_next_allowed(current_square) {
        Err(complete) => {
            if complete {
                proof {
                    assert forall|i: int, j: int|
                        0 <= i < n && 0 <= j < n implies (#[trigger] g[i][j]) != 0 by {
                        if i == 0 {
                            assert(g[0][j] != 0);
                        } else if j == 0 {
                            assert(g[i][0] != 0);
                        } else {
                            assert(in_scan_region(n as int, i, j));
                            assert(region_filled(g, n as int));
                        }
                    }
                    assert(is_complete(g, n as int));
                }
                let mut out: Vec<LatinSquare> = Vec::new();
                out.push(current_square.duplicate());
                proof {
                    assert(out@[0]@ == g);
                    assert forall|h: Seq<Seq<u16>>|
                        is_latin(h, n as int) && extends(h, g, n as int) implies exists|t: int|
                        0 <= t < out@.len() && (#[trigger] out@[t])@ == h by {
                        assert forall|i: int| 0 <= i < n implies h[i] =~= g[i] by {
                            assert forall|j: int| 0 <= j < n implies h[i][j] == g[i][j] by {
                                assert(g[i][j] != 0);
                            }
                        }
                        assert(h =~= g);
                        assert(out@[0]@ == h);
                    }
                }
                out
            } else {
                proof {
                    let (x, y) = choose|x: int, y: int|
                        #[trigger] first_zero(g, n as int, x, y) && forall|k: int|
                            0 <= k < n ==> !sym_free(g, n as int, x, y, k);
                    assert(first_zero(g, n as int, x, y));
                    assert(g[x][y] == 0 && 1 <= x < n && 1 <= y < n);
                    assert forall|h: Seq<Seq<u16>>|
                        is_latin(h, n as int) && extends(h, g, n as int) implies false by {
                        assert(is_symbol(n as int, h[x][y])) by {
                            assert(h[x][y] != 0);
                        }
                        let k = choose|k: int| 0 <= k < n && h[x][y] == sym_bit(k);
                        assert(!sym_free(g, n as int, x, y, k));
                        let i = choose|i: int|
                            0 <= i < n && !(g[x][i] != sym_bit(k) && g[i][y] != sym_bit(k));
                        lemma_sym_bit_nonzero(k);
                        if g[x][i] == sym_bit(k) {
                            assert(h[x][i] == g[x][i]);
                            assert(i != y);
                            assert(h[x][i] != h[x][y]);
                        } else {
                            assert(g[i][y] == sym_bit(k));
                            assert(h[i][y] == g[i][y]);
                            assert(i != x);
                            assert(h[i][y] != h[x][y]);
                        }
                    }
                }
                Vec::new()
            }
        },
        Ok(av) => {
            let x = av.x;
            let y = av.y;
            let bits = get_bits(av.allowed, n);
            let mut out: Vec<LatinSquare> = Vec::new();
            let mut ib: usize = 0;
            while ib < bits.len()
                invariant
                    ib <= bits@.len(),
                    forall|t: int|
                        0 <= t < out@.len() ==> (#[trigger] out@[t]).wf() && out@[t].order == n
                            && is_latin(out@[t]@, n as int) && extends(out@[t]@, g, n as int),
                    forall|t: int|
                        0 <= t < out@.len() ==> bits@.subrange(0, ib as int).contains(
                            (#[trigger] out@[t])@[x as int][y as int],
                        ),
                    forall|t1: int, t2: int|
                        0 <= t1 < out@.len() && 0 <= t2 < out@.len() && t1 != t2 ==> (
                        #[trigger] out@[t1])@ != (#[trigger] out@[t2])@,
                    forall|h: Seq<Seq<u16>>|
                        #![trigger is_latin(h, n as int), extends(h, g, n as int)]
                        is_latin(h, n as int) && extends(h, g, n as int) && bits@.subrange(
                            0,
                            ib as int,
                        ).contains(h[x as int][y as int]) ==> exists|t: int|
                            0 <= t < out@.len() && (#[trigger] out@[t])@ == h,
                decreases bits@.len() - ib,
            {
                let v = bits[ib];
                let ghost k = choose|k: int| 0 <= k < n && v == sym_bit(k);
                proof {
                    assert(is_symbol(n as int, v) && (av.allowed & v) != 0);
                    assert((av.allowed & sym_bit(k)) != 0);
                    assert(sym_free(g, n as int, x as int, y as int, k));
                    lemma_extend_partial(g, n as int, x as int, y as int, v, k);
                }
                let g2 = current_square.with_cell(x, y, v);
                proof {
                    assert(g2@ == cell_set(g, x as int, y as int, v));
                    lemma_zeros_in_grid_update(g, x as int, y as int, v);
                }
                let sub = generate_next_values(&g2);
                let ghost out_before = out@;
                let mut si: usize = 0;
                while si < sub.len()
                    invariant
                        si <= sub@.len(),
                        out@.len() == out_before.len() + si,
                        forall|t: int| 0 <= t < out_before.len() ==> out@[t] == out_before[t],
                        forall|t: int|
                            out_before.len() <= t < out@.len() ==> (#[trigger] out@[t]).wf()
                                && out@[t].order == n && out@[t]@ == sub@[t - out_before.len()]@,
                    decreases sub@.len() - si,
                {
                    let item = sub[si].duplicate();
                    out.push(item);
                    si += 1;
                }
                proof {
                    let gib = ib as int;
                    let gx = x as int;
                    let gy = y as int;
                    let grown = bits@.subrange(0, gib + 1);
                    assert(grown[gib] == bits@[gib]);
                    // every new element mirrors one of the branch, extends g, and
                    // carries the branch's symbol in the chosen cell
                    assert forall|t: int|
                        0 <= t < out@.len() implies (#[trigger] out@[t]).wf() && out@[t].order == n
                        && is_latin(out@[t]@, n as int) && extends(out@[t]@, g, n as int)
                        && grown.contains(out@[t]@[gx][gy]) by {
                        if t < out_before.len() {
                            assert(out@[t] == out_before[t]);
                            assert(bits@.subrange(0, gib).contains(out_before[t]@[gx][gy]));
                            let t2 = choose|t2: int|
                                0 <= t2 < bits@.subrange(0, gib).len() && bits@.subrange(0, gib)[t2]
                                    == out_before[t]@[gx][gy];
                            assert(bits@.subrange(0, gib)[t2] == bits@[t2]);
                            assert(grown[t2] == bits@[t2]);
                            assert(grown.contains(out@[t]@[gx][gy]));
                        } else {
                            let ts = t - out_before.len();
                            let h2 = sub@[ts]@;
                            assert(is_latin(h2, n as int) && extends(h2, g2@, n as int));
                            assert forall|i: int, j: int|
                                #![trigger g[i][j], h2[i][j]]
                                0 <= i < n && 0 <= j < n && g[i][j] != 0 implies h2[i][j] == g[i][j] by {
                                assert(g2@[i][j] == g[i][j]);
                            }
                            assert(extends(h2, g, n as int));
                            assert(g2@[gx][gy] == v);
                            assert(h2[gx][gy] == v);
                            assert(grown.contains(out@[t]@[gx][gy]));
                        }
                    }
                    // pairwise distinct: two branches differ in the chosen cell
                    assert forall|t1: int, t2: int|
                        0 <= t1 < out@.len() && 0 <= t2 < out@.len() && t1 != t2 implies (
                    #[trigger] out@[t1])@ != (#[trigger] out@[t2])@ by {
                        let ob = out_before.len() as int;
                        if t1 < ob && t2 < ob {
                            assert(out@[t1] == out_before[t1] && out@[t2] == out_before[t2]);
                        } else if t1 >= ob && t2 >= ob {
                            assert(out@[t1]@ == sub@[t1 - ob]@ && out@[t2]@ == sub@[t2 - ob]@);
                        } else {
                            let told = if t1 < ob { t1 } else { t2 };
                            let tnew = if t1 < ob { t2 } else { t1 };
                            assert(out@[told] == out_before[told]);
                            assert(bits@.subrange(0, gib).contains(out_before[told]@[gx][gy]));
                            let c2 = choose|c2: int|
                                0 <= c2 < bits@.subrange(0, gib).len() && bits@.subrange(0, gib)[c2]
                                    == out_before[told]@[gx][gy];
                            assert(bits@.subrange(0, gib)[c2] == bits@[c2]);
                            assert(bits@[c2] != bits@[gib]);
                            assert(out@[told]@[gx][gy] == bits@[c2]);
                            assert(out@[tnew]@[gx][gy] == v && v == bits@[gib]);
                            assert(out@[told]@ != out@[tnew]@);
                        }
                    }
                    // every square whose chosen cell holds a bit handled so far is present
                    assert forall|h: Seq<Seq<u16>>|
                        #![trigger is_latin(h, n as int), extends(h, g, n as int)]
                        is_latin(h, n as int) && extends(h, g, n as int) && grown.contains(
                        h[gx][gy]) implies exists|t: int|
                        0 <= t < out@.len() && (#[trigger] out@[t])@ == h by {
                        let t2 = choose|t2: int| 0 <= t2 < grown.len() && grown[t2] == h[gx][gy];
                        if t2 < gib {
                            assert(bits@.subrange(0, gib)[t2] == bits@[t2]);
                            assert(bits@.subrange(0, gib).contains(h[gx][gy]));
                            let t = choose|t: int| 0 <= t < out_before.len() && out_before[t]@ == h;
                            assert(out@[t]@ == h);
                        } else {
                            assert(h[gx][gy] == bits@[gib]);
                            assert forall|i: int, j: int|
                                #![trigger g2@[i][j], h[i][j]]
                                0 <= i < n && 0 <= j < n && g2@[i][j] != 0 implies h[i][j]
                                == g2@[i][j] by {
                                if i == gx && j == gy {
                                    assert(g2@[i][j] == v);
                                } else {
                                    assert(g2@[i][j] == g[i][j]);
                                }
                            }
                            assert(extends(h, g2@, n as int));
                            let ts = choose|ts: int| 0 <= ts < sub@.len() && (#[trigger] sub@[ts])@ == h;
                            assert(out@[out_before.len() + ts]@ == h);
                        }
                    }
                }
                ib += 1;
            }
            proof {
                assert(bits@.subrange(0, bits@.len() as int) =~= bits@);
                assert forall|h: Seq<Seq<u16>>|
                    #![trigger is_latin(h, n as int), extends(h, g, n as int)]
                    is_latin(h, n as int) && extends(h, g, n as int) implies exists|t: int|
                    0 <= t < out@.len() && (#[trigger] out@[t])@ == h by {
                    let gx = x as int;
                    let gy = y as int;
                    assert(is_symbol(n as int, h[gx][gy])) by {
                        assert(h[gx][gy] != 0);
                    }
                    let k = choose|k: int| 0 <= k < n && h[gx][gy] == sym_bit(k);
                    lemma_sym_bit_nonzero(k);
                    assert(sym_free(g, n as int, gx, gy, k)) by {
                        assert forall|i: int|
                            #![trigger g[gx][i]]
                            #![trigger g[i][gy]]
                            0 <= i < n implies g[gx][i] != sym_bit(k) && g[i][gy] != sym_bit(k) by {
                            if g[gx][i] != 0 {
                                assert(h[gx][i] == g[gx][i]);
                                if i != gy {
                                    assert(h[gx][i] != h[gx][gy]);
                                }
                            }
                            if g[i][gy] != 0 {
                                assert(h[i][gy] == g[i][gy]);
                                if i != gx {
                                    assert(h[i][gy] != h[gx][gy]);
                                }
                            }
                        }
                    }
                    assert((av.allowed & sym_bit(k)) != 0);
                    assert(bits@.contains(sym_bit(k)));
                    assert(bits@.subrange(0, bits@.len() as int).contains(h[gx][gy]));
                }
            }
            out
        },
    }
}

/// Builds the order-`n` skeleton grid: the canonical first row and first
/// column, everything else unfilled.
#[verifier::loop_isolation(false)]
fn build_skeleton(order: usize) -> (sk: LatinSquare)
    requires
        1 <= order <= MAX_ORDER,
    ensures
        sk.wf(),
        sk.order == order,
        forall|i: int, j: int|
            #![trigger sk@[i][j]]
            0 <= i < order && 0 <= j < order ==> sk@[i][j] == (if i == 0 {
                sym_bit(j)
            } else if j == 0 {
                sym_bit(i)
            } else {
                0u16
            }),
{
    let n = order;
    let ghost target = Seq::new(
        n as nat,
        |i: int|
            Seq::new(
                n as nat,
                |j: int|
                    if i == 0 {
                        sym_bit(j)
                    } else if j == 0 {
                        sym_bit(i)
                    } else {
                        0u16
                    },
            ),
    );
    let mut rows: Vec<Vec<u16>> = Vec::new();
    let mut i: usize = 0;
    while i < n
        invariant
            i <= n,
            rows@.len() == i,
            forall|t: int| 0 <= t < i ==> #[trigger] rows@[t]@ == target[t],
        decreases n - i,
    {
        let mut row: Vec<u16> = Vec::new();
        let mut j: usize = 0;
        while j < n
            invariant
                i < n,
                j <= n,
                row@.len() == j,
                forall|u: int| 0 <= u < j ==> #[trigger] row@[u] == target[i as int][u],
            decreases n - j,
        {
            let cellv: u16 = if i == 0 {
                1u16 << (j as u16)
            } else if j == 0 {
                1u16 << (i as u16)
            } else {
                0u16
            };
            row.push(cellv);
            j += 1;
        }
        proof {
            assert(row@ =~= target[i as int]);
        }
        rows.push(row);
        i += 1;
    }
    let sk = LatinSquare { order, entries: rows };
    proof {
        assert(sk@ =~= target);
    }
    sk
}

/// The generator's promise: every member of `list` is a well-formed reduced
/// Latin square of the order, every reduced Latin square of the order is a
/// member, and no two members are the same square.
pub open spec fn reduced_output_ok(order: usize, list: Seq<LatinSquare>) -> bool {
    &&& forall|t: int|
        0 <= t < list.len() ==> (#[trigger] list[t]).wf() && list[t].order == order && is_reduced(
            list[t]@,
            order as int,
        )
    &&& forall|h: Seq<Seq<u16>>|
        #![trigger is_reduced(h, order as int)]
        is_reduced(h, order as int) ==> exists|t: int|
            0 <= t < list.len() && (#[trigger] list[t])@ == h
    &&& forall|t1: int, t2: int|
        0 <= t1 < list.len() && 0 <= t2 < list.len() && t1 != t2 ==> (#[trigger] list[t1])@ != (
        #[trigger] list[t2])@
}

/// Builds the skeleton for the order and generates every reduced Latin
/// square of that order, each exactly once. An order below 1 or above
/// `MAX_ORDER` is rejected before any search begins.
#[verifier::rlimit(100)]
pub fn generate_all_reduced_latin_squares(order: usize) -> (res: Result<
    Vec<LatinSquare>,
    InvalidOrder,
>)
    ensures
        match res {
            Ok(list) => valid_order(order as int) && reduced_output_ok(order, list@),
            Err(_) => !valid_order(order as int),
        },
{
    if order < 1 || order > MAX_ORDER {
        return Err(InvalidOrder);
    }
    let sk = build_skeleton(order);
    let n = order;
    proof {
        lemma_skeleton_partial(sk@, n as int);
    }
    let list = generate_next_values(&sk);
    proof {
        assert forall|t: int|
            0 <= t < list@.len() implies (#[trigger] list@[t]).wf() && list@[t].order == order
            && is_reduced(list@[t]@, order as int) by {
            let h = list@[t]@;
            assert(extends(h, sk@, n as int));
            assert forall|i: int| 0 <= i < n implies (#[trigger] h[0][i]) == sym_bit(i) && h[i][0]
                == sym_bit(i) by {
                lemma_sym_bit_nonzero(i);
                assert(sk@[0][i] == sym_bit(i) && sk@[i][0] == sym_bit(i));
            }
            assert(has_canonical_border(h, n as int));
        }
        assert forall|h: Seq<Seq<u16>>|
            #![trigger is_reduced(h, order as int)]
            is_reduced(h, order as int) implies exists|t: int|
            0 <= t < list@.len() && (#[trigger] list@[t])@ == h by {
            assert forall|i: int, j: int|
                #![trigger sk@[i][j], h[i][j]]
                0 <= i < n && 0 <= j < n && sk@[i][j] != 0 implies h[i][j] == sk@[i][j] by {
                if i == 0 {
                    assert(sk@[i][j] == sym_bit(j) && h[0][j] == sym_bit(j));
                } else if j == 0 {
                    assert(sk@[i][j] == sym_bit(i) && h[i][0] == sym_bit(i));
                }
            }
            assert(is_latin(h, n as int) && extends(h, sk@, n as int));
        }
        assert(reduced_output_ok(order, list@));
    }
    Ok(list)
}

/// The skeleton is a partial Latin square with a filled border.
proof fn lemma_skeleton_partial(g: Seq<Seq<u16>>, n: int)
    requires
        valid_order(n),
        grid_dims(g, n),
        forall|i: int, j: int|
            #![trigger g[i][j]]
            0 <= i < n && 0 <= j < n ==> g[i][j] == (if i == 0 {
                sym_bit(j)
            } else if j == 0 {
                sym_bit(i)
            } else {
                0u16
            }),
    ensures
        partial_latin(g, n),
        border_filled(g, n),
{
    assert forall|k1: int, k2: int|
        0 <= k1 < n && 0 <= k2 < n && k1 != k2 implies #[trigger] sym_bit(k1) != #[trigger] sym_bit(
        k2,
    ) by {
        crate::grid::lemma_sym_bit_distinct(k1, k2);
    }
    assert forall|k: int| 0 <= k < n implies #[trigger] sym_bit(k) != 0 by {
        lemma_sym_bit_nonzero(k);
    }
    assert(cells_valid(g, n)) by {
        assert forall|i: int, j: int|
            0 <= i < n && 0 <= j < n implies (#[trigger] g[i][j]) == 0 || is_symbol(n, g[i][j]) by {
            if i == 0 {
                assert(g[i][j] == sym_bit(j));
            } else if j == 0 {
                assert(g[i][j] == sym_bit(i));
            }
        }
    }
    assert(no_repeats(g, n)) by {
        assert forall|i: int, j1: int, j2: int|
            #![trigger g[i][j1], g[i][j2]]
            0 <= i < n && 0 <= j1 < n && 0 <= j2 < n && j1 != j2 && g[i][j1] != 0 implies g[i][j1]
            != g[i][j2] by {}
        assert forall|i1: int, i2: int, j: int|
            #![trigger g[i1][j], g[i2][j]]
            0 <= i1 < n && 0 <= i2 < n && 0 <= j < n && i1 != i2 && g[i1][j] != 0 implies g[i1][j]
            != g[i2][j] by {}
    }
    assert(border_filled(g, n)) by {
        assert forall|i: int| 0 <= i < n implies (#[trigger] g[0][i]) != 0 && g[i][0] != 0 by {}
    }
}

} // verus!
