//! The permutation-driven search: enumerate the row-orderings of a candidate
//! square, test each against a fixed reduced square, and stop at the first
//! orthogonal mate; and the orchestrator that drives every (reduced,
//! candidate) pair, returning the first orthogonal pair or exhausting the
//! space.

use vstd::prelude::*;
use vstd::multiset::Multiset;
use crate::grid::InvalidOrder;
use crate::grid::LatinSquare;
use crate::grid::cells_valid;
use crate::grid::grid_dims;
use crate::grid::is_latin;
use crate::grid::is_reduced;
use crate::grid::is_symbol;
use crate::grid::no_repeats;
use crate::grid::valid_order;
use crate::generate::generate_all_reduced_latin_squares;
use crate::generate::reduced_output_ok;
use crate::orth::is_orthogonal;

verus! {

/// `h` rearranges the rows of `g`: the first `k` rows agree, and the rows
/// from `k` on are the same rows as `g`'s, as a multiset.
pub open spec fn rows_perm_from(h: Seq<Seq<u16>>, g: Seq<Seq<u16>>, k: int) -> bool {
    &&& h.len() == g.len()
    &&& h.subrange(0, k) == g.subrange(0, k)
    &&& h.skip(k).to_multiset() == g.skip(k).to_multiset()
}

/// The rows of `g` with rows `p` and `q` exchanged.
pub open spec fn swap_rows_spec(g: Seq<Seq<u16>>, p: int, q: int) -> Seq<Seq<u16>> {
    g.update(p, g[q]).update(q, g[p])
}

/// Adding the same multiset on the left cancels.
proof fn lemma_add_cancel(a: Multiset<Seq<u16>>, m1: Multiset<Seq<u16>>, m2: Multiset<Seq<u16>>)
    requires
        a.add(m1) == a.add(m2),
    ensures
        m1 == m2,
{
    broadcast use vstd::multiset::group_multiset_axioms;

    assert forall|x: Seq<u16>| m1.count(x) == m2.count(x) by {
        assert(a.add(m1).count(x) == a.count(x) + m1.count(x));
    }
    assert(m1 =~= m2);
}

/// A suffix splits into its head and the rest.
proof fn lemma_skip_head(s: Seq<Seq<u16>>, k: int)
    requires
        0 <= k < s.len(),
    ensures
        s.skip(k) =~= seq![s[k]] + s.skip(k + 1),
        s.skip(k).to_multiset() == seq![s[k]].to_multiset().add(s.skip(k + 1).to_multiset()),
{
    assert(s.skip(k) =~= seq![s[k]] + s.skip(k + 1));
    vstd::seq_lib::lemma_multiset_commutative(seq![s[k]], s.skip(k + 1));
}

/// Exchanging two rows at or past `k` leaves the suffix multiset unchanged.
proof fn lemma_swap_skip_multiset(g: Seq<Seq<u16>>, k: int, q: int)
    requires
        0 <= k <= q < g.len(),
    ensures
        swap_rows_spec(g, k, q).skip(k).to_multiset() == g.skip(k).to_multiset(),
{
    broadcast use vstd::multiset::group_multiset_axioms;

    let sw = swap_rows_spec(g, k, q);
    if k == q {
        assert(sw =~= g);
        assert(sw.skip(k) =~= g.skip(k));
    } else {
        let mid = g.subrange(k + 1, q);
        let tail = g.skip(q + 1);
        assert(g.skip(k) =~= seq![g[k]] + (mid + (seq![g[q]] + tail)));
        assert(sw.skip(k) =~= seq![g[q]] + (mid + (seq![g[k]] + tail)));
        vstd::seq_lib::lemma_multiset_commutative(seq![g[k]], mid + (seq![g[q]] + tail));
        vstd::seq_lib::lemma_multiset_commutative(mid, seq![g[q]] + tail);
        vstd::seq_lib::lemma_multiset_commutative(seq![g[q]], tail);
        vstd::seq_lib::lemma_multiset_commutative(seq![g[q]], mid + (seq![g[k]] + tail));
        vstd::seq_lib::lemma_multiset_commutative(mid, seq![g[k]] + tail);
        vstd::seq_lib::lemma_multiset_commutative(seq![g[k]], tail);
        assert(sw.skip(k).to_multiset() =~= g.skip(k).to_multiset());
    }
}

/// A rearrangement of a swapped grid from `k + 1` is a rearrangement of the
/// grid itself from `k`.
proof fn lemma_perm_lift(w: Seq<Seq<u16>>, g: Seq<Seq<u16>>, k: int, q: int)
    requires
        0 <= k <= q < g.len(),
        rows_perm_from(w, swap_rows_spec(g, k, q), k + 1),
    ensures
        rows_perm_from(w, g, k),
{
    let sw = swap_rows_spec(g, k, q);
    assert(w.subrange(0, k) =~= g.subrange(0, k)) by {
        assert forall|t: int| 0 <= t < k implies w.subrange(0, k)[t] == g.subrange(0, k)[t] by {
            assert(w.subrange(0, k + 1)[t] == sw.subrange(0, k + 1)[t]);
            assert(sw[t] == g[t]);
        }
    }
    lemma_skip_head(w, k);
    lemma_skip_head(sw, k);
    assert(w[k] == sw[k]) by {
        assert(w.subrange(0, k + 1)[k] == sw.subrange(0, k + 1)[k]);
    }
    assert(seq![w[k]] =~= seq![sw[k]]);
    lemma_swap_skip_multiset(g, k, q);
    assert(w.skip(k).to_multiset() == g.skip(k).to_multiset());
}

/// A rearrangement of `g` from `k` whose row `k` is `g`'s row `q` is a
/// rearrangement of the swapped grid from `k + 1`.
proof fn lemma_perm_push(h: Seq<Seq<u16>>, g: Seq<Seq<u16>>, k: int, q: int)
    requires
        0 <= k <= q < g.len(),
        rows_perm_from(h, g, k),
        h[k] == g[q],
    ensures
        rows_perm_from(h, swap_rows_spec(g, k, q), k + 1),
{
    let sw = swap_rows_spec(g, k, q);
    assert(h.subrange(0, k + 1) =~= sw.subrange(0, k + 1)) by {
        assert forall|t: int|
            #![trigger h.subrange(0, k + 1)[t]]
            0 <= t < k + 1 implies h.subrange(0, k + 1)[t] == sw.subrange(0, k + 1)[t] by {
            if t < k {
                assert(h.subrange(0, k)[t] == g.subrange(0, k)[t]);
                assert(sw[t] == g[t]);
            } else {
                assert(sw[k] == g[q]);
            }
        }
    }
    lemma_skip_head(h, k);
    lemma_skip_head(sw, k);
    lemma_swap_skip_multiset(g, k, q);
    assert(h.skip(k).to_multiset() == sw.skip(k).to_multiset());
    assert(seq![h[k]] =~= seq![sw[k]]);
    lemma_add_cancel(
        seq![h[k]].to_multiset(),
        h.skip(k + 1).to_multiset(),
        sw.skip(k + 1).to_multiset(),
    );
}

/// A rearrangement that fixes every row is the grid itself.
proof fn lemma_perm_at_end(h: Seq<Seq<u16>>, g: Seq<Seq<u16>>)
    requires
        rows_perm_from(h, g, g.len() as int),
    ensures
        h == g,
{
    assert(h =~= g) by {
        assert forall|t: int| 0 <= t < g.len() implies h[t] == g[t] by {
            assert(h.subrange(0, g.len() as int)[t] == g.subrange(0, g.len() as int)[t]);
        }
    }
}

/// Rearranging the rows of a Latin square gives a Latin square: each row
/// keeps its content, and column distinctness only needs the rows to stay
/// pairwise distinct.
pub proof fn lemma_perm_latin(h: Seq<Seq<u16>>, g: Seq<Seq<u16>>, n: int)
    requires
        valid_order(n),
        is_latin(g, n),
        rows_perm_from(h, g, 0),
    ensures
        is_latin(h, n),
{
    broadcast use vstd::seq_lib::group_to_multiset_ensures;

    assert(h.skip(0) =~= h);
    assert(g.skip(0) =~= g);
    assert(h.to_multiset() == g.to_multiset());
    assert(g.no_duplicates()) by {
        assert forall|i1: int, i2: int|
            0 <= i1 < g.len() && 0 <= i2 < g.len() && i1 != i2 implies g[i1] != g[i2] by {
            assert(g[i1][0] != g[i2][0]);
        }
    }
    g.lemma_multiset_has_no_duplicates();
    assert forall|x: Seq<u16>| h.to_multiset().contains(x) implies h.to_multiset().count(x)
        == 1 by {
        assert(g.to_multiset().contains(x));
    }
    h.lemma_multiset_has_no_duplicates_conv();
    assert forall|i: int| #![trigger h[i]] 0 <= i < n implies exists|p: int|
        0 <= p < n && (#[trigger] g[p]) == h[i] by {
        assert(h.to_multiset().contains(h[i])) by {
            assert(h.contains(h[i]));
        }
        assert(g.contains(h[i]));
        let p = choose|p: int| 0 <= p < g.len() && g[p] == h[i];
        assert(0 <= p < n && g[p] == h[i]);
    }
    assert(grid_dims(h, n)) by {
        assert forall|i: int| 0 <= i < n implies (#[trigger] h[i]).len() == n by {
            let p = choose|p: int| 0 <= p < n && (#[trigger] g[p]) == h[i];
            assert(g[p].len() == n);
        }
    }
    assert(cells_valid(h, n)) by {
        assert forall|i: int, j: int|
            0 <= i < n && 0 <= j < n implies (#[trigger] h[i][j]) == 0 || is_symbol(
            n,
            h[i][j],
        ) by {
            let p = choose|p: int| 0 <= p < n && (#[trigger] g[p]) == h[i];
            assert(g[p][j] == 0 || is_symbol(n, g[p][j]));
        }
    }
    assert(no_repeats(h, n)) by {
        assert forall|i: int, j1: int, j2: int|
            #![trigger h[i][j1], h[i][j2]]
            0 <= i < n && 0 <= j1 < n && 0 <= j2 < n && j1 != j2 && h[i][j1] != 0 implies h[i][j1]
            != h[i][j2] by {
            let p = choose|p: int| 0 <= p < n && (#[trigger] g[p]) == h[i];
            assert(g[p][j1] != g[p][j2]);
        }
        assert forall|i1: int, i2: int, j: int|
            #![trigger h[i1][j], h[i2][j]]
            0 <= i1 < n && 0 <= i2 < n && 0 <= j < n && i1 != i2 && h[i1][j] != 0 implies h[i1][j]
            != h[i2][j] by {
            let p1 = choose|p: int| 0 <= p < n && (#[trigger] g[p]) == h[i1];
            let p2 = choose|p: int| 0 <= p < n && (#[trigger] g[p]) == h[i2];
            assert(h[i1] != h[i2]);
            assert(p1 != p2);
            assert(g[p1][j] != 0);
            assert(g[p1][j] != g[p2][j]);
        }
    }
    assert forall|i: int, j: int| 0 <= i < n && 0 <= j < n implies (#[trigger] h[i][j]) != 0 by {
        let p = choose|p: int| 0 <= p < n && (#[trigger] g[p]) == h[i];
        assert(g[p][j] != 0);
    }
}

/// A row swap keeps the matrix square and its cells valid.
proof fn lemma_swap_grid_ok(g: Seq<Seq<u16>>, n: int, p: int, q: int)
    requires
        0 <= p < n,
        0 <= q < n,
        grid_dims(g, n),
        cells_valid(g, n),
    ensures
        grid_dims(swap_rows_spec(g, p, q), n),
        cells_valid(swap_rows_spec(g, p, q), n),
{
    let sw = swap_rows_spec(g, p, q);
    assert forall|i: int| 0 <= i < n implies (#[trigger] sw[i]).len() == n by {
        if i == q {
            assert(sw[i] == g[p]);
        } else if i == p {
            assert(sw[i] == g[q]);
        } else {
            assert(sw[i] == g[i]);
        }
    }
    assert forall|i: int, j: int|
        0 <= i < n && 0 <= j < n implies (#[trigger] sw[i][j]) == 0 || is_symbol(n, sw[i][j]) by {
        if i == q {
            assert(sw[i] == g[p]);
            assert(g[p][j] == 0 || is_symbol(n, g[p][j]));
        } else if i == p {
            assert(sw[i] == g[q]);
            assert(g[q][j] == 0 || is_symbol(n, g[q][j]));
        } else {
            assert(sw[i] == g[i]);
            assert(g[i][j] == 0 || is_symbol(n, g[i][j]));
        }
    }
}

/// A row swap keeps pairwise-distinct rows pairwise distinct.
proof fn lemma_swap_rows_distinct(g: Seq<Seq<u16>>, p: int, q: int)
    requires
        0 <= p < g.len(),
        0 <= q < g.len(),
        forall|i1: int, i2: int|
            0 <= i1 < g.len() && 0 <= i2 < g.len() && i1 != i2 ==> g[i1] != g[i2],
    ensures
        forall|i1: int, i2: int|
            0 <= i1 < g.len() && 0 <= i2 < g.len() && i1 != i2 ==> swap_rows_spec(g, p, q)[i1]
                != swap_rows_spec(g, p, q)[i2],
{
    let sw = swap_rows_spec(g, p, q);
    assert forall|i1: int, i2: int|
        0 <= i1 < g.len() && 0 <= i2 < g.len() && i1 != i2 implies sw[i1] != sw[i2] by {
        let s1: int = if i1 == p { q } else if i1 == q { p } else { i1 };
        let s2: int = if i2 == p { q } else if i2 == q { p } else { i2 };
        assert(sw[i1] == g[s1] && sw[i2] == g[s2]);
        assert(s1 != s2);
    }
}

/// Every ordering of the rows from `k` on, each exactly once: every member
/// rearranges the rows of `square` while fixing the first `k`, every such
/// rearrangement is a member, and no two members are the same grid.
#[verifier::loop_isolation(false)]
#[verifier::rlimit(80)]
fn orderings_from(k: usize, square: &LatinSquare) -> (res: Vec<LatinSquare>)
    requires
        square.wf(),
        cells_valid(square@, square.order as int),
        forall|i1: int, i2: int|
            0 <= i1 < square@.len() && 0 <= i2 < square@.len() && i1 != i2 ==> square@[i1]
                != square@[i2],
        k <= square.order,
    ensures
        forall|t: int|
            0 <= t < res@.len() ==> (#[trigger] res@[t]).wf() && res@[t].order == square.order
                && rows_perm_from(res@[t]@, square@, k as int),
        forall|h: Seq<Seq<u16>>|
            #![trigger rows_perm_from(h, square@, k as int)]
            rows_perm_from(h, square@, k as int) ==> exists|t: int|
                0 <= t < res@.len() && (#[trigger] res@[t])@ == h,
        forall|t1: int, t2: int|
            0 <= t1 < res@.len() && 0 <= t2 < res@.len() && t1 != t2 ==> (#[trigger] res@[t1])@
                != (#[trigger] res@[t2])@,
    decreases square.order - k,
{
    let n = square.order;
    let ghost g = square@;
    if k >= n {
        let mut out: Vec<LatinSquare> = Vec::new();
        out.push(square.duplicate());
        proof {
            assert(g.subrange(0, n as int) =~= g.subrange(0, n as int));
            assert(rows_perm_from(out@[0]@, g, n as int));
            assert forall|h: Seq<Seq<u16>>|
                #![trigger rows_perm_from(h, g, k as int)]
                rows_perm_from(h, g, k as int) implies exists|t: int|
                0 <= t < out@.len() && (#[trigger] out@[t])@ == h by {
                lemma_perm_at_end(h, g);
                assert(out@[0]@ == h);
            }
        }
        out
    } else {
        let mut out: Vec<LatinSquare> = Vec::new();
        let mut q: usize = k;
        while q < n
            invariant
                k <= q <= n,
                k < n,
                forall|t: int|
                    0 <= t < out@.len() ==> (#[trigger] out@[t]).wf() && out@[t].order == n
                        && rows_perm_from(out@[t]@, g, k as int),
                forall|t: int|
                    0 <= t < out@.len() ==> g.subrange(k as int, q as int).contains(
                        (#[trigger] out@[t])@[k as int],
                    ),
                forall|t1: int, t2: int|
                    0 <= t1 < out@.len() && 0 <= t2 < out@.len() && t1 != t2 ==> (
                    #[trigger] out@[t1])@ != (#[trigger] out@[t2])@,
                forall|h: Seq<Seq<u16>>|
                    #![trigger rows_perm_from(h, g, k as int)]
                    rows_perm_from(h, g, k as int) && g.subrange(k as int, q as int).contains(
                        h[k as int],
                    ) ==> exists|t: int| 0 <= t < out@.len() && (#[trigger] out@[t])@ == h,
            decreases n - q,
        {
            let g2 = square.swapped_rows(k, q);
            proof {
                assert(g2@ == swap_rows_spec(g, k as int, q as int));
                lemma_swap_grid_ok(g, n as int, k as int, q as int);
                lemma_swap_rows_distinct(g, k as int, q as int);
            }
            let sub = orderings_from(k + 1, &g2);
            let ghost out_before = out@;
            let mut si: usize = 0;
            while si < sub.len()
                invariant
                    si <= sub@.len(),
                    out@.len() == out_before.len() + si,
                    forall|t: int| 0 <= t < out_before.len() ==> out@[t] == out_before[t],
                    forall|t: int|
                        out_before.len() <= t < out@.len() ==> (#[trigger] out@[t]).wf()
                            && out@[t].order == n && out@[t]@ == sub@[t - out_before.len()]@,
                decreases sub@.len() - si,
            {
                let item = sub[si].duplicate();
                out.push(item);
                si += 1;
            }
            proof {
                let gk = k as int;
                let gq = q as int;
                let grown = g.subrange(gk, gq + 1);
                assert(grown[gq - gk] == g[gq]);
                assert forall|t: int|
                    0 <= t < out@.len() implies (#[trigger] out@[t]).wf() && out@[t].order == n
                    && rows_perm_from(out@[t]@, g, gk) && grown.contains(out@[t]@[gk]) by {
                    if t < out_before.len() {
                        assert(out@[t] == out_before[t]);
                        assert(g.subrange(gk, gq).contains(out_before[t]@[gk]));
                        let c2 = choose|c2: int|
                            0 <= c2 < g.subrange(gk, gq).len() && g.subrange(gk, gq)[c2]
                                == out_before[t]@[gk];
                        assert(grown[c2] == g.subrange(gk, gq)[c2]);
                        assert(grown.contains(out@[t]@[gk]));
                    } else {
                        let w = out@[t]@;
                        assert(w == sub@[t - out_before.len()]@);
                        assert(rows_perm_from(w, g2@, gk + 1));
                        lemma_perm_lift(w, g, gk, gq);
                        assert(w.subrange(0, gk + 1)[gk] == g2@.subrange(0, gk + 1)[gk]);
                        assert(w[gk] == g2@[gk]);
                        assert(g2@[gk] == g[gq]);
                        assert(grown.contains(w[gk]));
                    }
                }
                assert forall|t1: int, t2: int|
                    0 <= t1 < out@.len() && 0 <= t2 < out@.len() && t1 != t2 implies (
                #[trigger] out@[t1])@ != (#[trigger] out@[t2])@ by {
                    let ob = out_before.len() as int;
                    if t1 < ob && t2 < ob {
                        assert(out@[t1] == out_before[t1] && out@[t2] == out_before[t2]);
                    } else if t1 >= ob && t2 >= ob {
                        assert(out@[t1]@ == sub@[t1 - ob]@ && out@[t2]@ == sub@[t2 - ob]@);
                    } else {
                        let told = if t1 < ob { t1 } else { t2 };
                        let tnew = if t1 < ob { t2 } else { t1 };
                        assert(out@[told] == out_before[told]);
                        assert(g.subrange(gk, gq).contains(out_before[told]@[gk]));
                        let c2 = choose|c2: int|
                            0 <= c2 < g.subrange(gk, gq).len() && g.subrange(gk, gq)[c2]
                                == out_before[told]@[gk];
                        assert(g.subrange(gk, gq)[c2] == g[gk + c2]);
                        assert(g[gk + c2] != g[gq]);
                        assert(out@[told]@[gk] != g[gq]);
                        assert(out@[tnew]@ == sub@[tnew - ob]@);
                        assert(rows_perm_from(out@[tnew]@, g2@, gk + 1));
                        assert(out@[tnew]@.subrange(0, gk + 1)[gk] == g2@.subrange(0, gk + 1)[gk]);
                        assert(out@[tnew]@[gk] == g2@[gk] && g2@[gk] == g[gq]);
                        assert(out@[told]@ != out@[tnew]@);
                    }
                }
                assert forall|h: Seq<Seq<u16>>|
                    #![trigger rows_perm_from(h, g, gk)]
                    rows_perm_from(h, g, gk) && grown.contains(h[gk]) implies exists|t: int|
                    0 <= t < out@.len() && (#[trigger] out@[t])@ == h by {
                    let c2 = choose|c2: int| 0 <= c2 < grown.len() && grown[c2] == h[gk];
                    if c2 < gq - gk {
                        assert(g.subrange(gk, gq)[c2] == grown[c2]);
                        assert(g.subrange(gk, gq).contains(h[gk]));
                        let t = choose|t: int| 0 <= t < out_before.len() && out_before[t]@ == h;
                        assert(out@[t]@ == h);
                    } else {
                        assert(h[gk] == g[gq]);
                        lemma_perm_push(h, g, gk, gq);
                        assert(rows_perm_from(h, g2@, gk + 1));
                        let ts = choose|ts: int|
                            0 <= ts < sub@.len() && (#[trigger] sub@[ts])@ == h;
                        assert(out@[out_before.len() + ts]@ == h);
                    }
                }
            }
            q += 1;
        }
        proof {
            broadcast use vstd::seq_lib::group_to_multiset_ensures;

            assert forall|h: Seq<Seq<u16>>|
                #![trigger rows_perm_from(h, g, k as int)]
                rows_perm_from(h, g, k as int) implies exists|t: int|
                0 <= t < out@.len() && (#[trigger] out@[t])@ == h by {
                let hk = h[k as int];
                assert(h.skip(k as int)[0] == hk);
                assert(h.skip(k as int).contains(hk));
                assert(h.skip(k as int).to_multiset().contains(hk));
                assert(g.skip(k as int).to_multiset().contains(hk));
                assert(g.skip(k as int).contains(hk));
                let idx = choose|idx: int|
                    0 <= idx < g.skip(k as int).len() && g.skip(k as int)[idx] == hk;
                assert(g.subrange(k as int, n as int) =~= g.skip(k as int));
                assert(g.subrange(k as int, n as int).contains(hk));
            }
        }
        out
    }
}

/// Every ordering of the candidate's rows, each exactly once: the space the
/// permutation search walks through. The rows must be pairwise distinct, as
/// the rows of a Latin square always are.
pub fn row_orderings(square: &LatinSquare) -> (res: Vec<LatinSquare>)
    requires
        square.wf(),
        cells_valid(square@, square.order as int),
        forall|i1: int, i2: int|
            0 <= i1 < square@.len() && 0 <= i2 < square@.len() && i1 != i2 ==> square@[i1]
                != square@[i2],
    ensures
        forall|t: int|
            0 <= t < res@.len() ==> (#[trigger] res@[t]).wf() && res@[t].order == square.order
                && rows_perm_from(res@[t]@, square@, 0),
        forall|h: Seq<Seq<u16>>|
            #![trigger rows_perm_from(h, square@, 0)]
            rows_perm_from(h, square@, 0) ==> exists|t: int|
                0 <= t < res@.len() && (#[trigger] res@[t])@ == h,
        forall|t1: int, t2: int|
            0 <= t1 < res@.len() && 0 <= t2 < res@.len() && t1 != t2 ==> (#[trigger] res@[t1])@
                != (#[trigger] res@[t2])@,
{
    orderings_from(0, square)
}

/// Tries every ordering of the rows from `k` on, keeping rows below `k`
/// fixed, and returns the first ordering orthogonal to `reduced`, or nothing
/// when no such ordering exists.
#[verifier::loop_isolation(false)]
#[verifier::rlimit(60)]
fn search_permutations(k: usize, square: &LatinSquare, reduced: &LatinSquare) -> (res: Option<
    LatinSquare,
>)
    requires
        square.wf(),
        reduced.wf(),
        reduced.order == square.order,
        cells_valid(square@, square.order as int),
        cells_valid(reduced@, reduced.order as int),
        k <= square.order,
    ensures
        match res {
            Some(w) => w.wf() && w.order == square.order && rows_perm_from(
                w@,
                square@,
                k as int,
            ) && is_orthogonal(reduced@, w@, square.order as int),
            None => forall|h: Seq<Seq<u16>>|
                #![trigger rows_perm_from(h, square@, k as int)]
                rows_perm_from(h, square@, k as int) ==> !is_orthogonal(
                    reduced@,
                    h,
                    square.order as int,
                ),
        },
    decreases square.order - k,
{
    let n = square.order;
    let ghost g = square@;
    if k >= n {
        let r = reduced.orthogonal_to(square);
        if r {
            let w = square.duplicate();
            proof {
                assert(g.subrange(0, n as int) =~= g.subrange(0, n as int));
                assert(rows_perm_from(w@, g, n as int));
            }
            Some(w)
        } else {
            proof {
                assert forall|h: Seq<Seq<u16>>|
                    #![trigger rows_perm_from(h, g, k as int)]
                    rows_perm_from(h, g, k as int) implies !is_orthogonal(
                    reduced@,
                    h,
                    n as int,
                ) by {
                    lemma_perm_at_end(h, g);
                }
            }
            None
        }
    } else {
        let mut q: usize = k;
        let mut found: Option<LatinSquare> = None;
        while q < n && found.is_none()
            invariant
                k <= q <= n,
                k < n,
                match found {
                    Some(w) => w.wf() && w.order == n && rows_perm_from(w@, g, k as int)
                        && is_orthogonal(reduced@, w@, n as int),
                    None => forall|h: Seq<Seq<u16>>, jj: int|
                        #![trigger rows_perm_from(h, g, k as int), g[jj]]
                        k <= jj < q && rows_perm_from(h, g, k as int) && h[k as int] == g[jj]
                            ==> !is_orthogonal(reduced@, h, n as int),
                },
            decreases n - q,
        {
            let g2 = square.swapped_rows(k, q);
            proof {
                assert(g2@ == swap_rows_spec(g, k as int, q as int));
                lemma_swap_grid_ok(g, n as int, k as int, q as int);
            }
            let sub = search_permutations(k + 1, &g2, reduced);
            match sub {
                Some(w) => {
                    proof {
                        lemma_perm_lift(w@, g, k as int, q as int);
                    }
                    found = Some(w);
                },
                None => {
                    proof {
                        assert forall|h: Seq<Seq<u16>>, jj: int|
                            #![trigger rows_perm_from(h, g, k as int), g[jj]]
                            k <= jj < q + 1 && rows_perm_from(h, g, k as int) && h[k as int]
                                == g[jj] && is_orthogonal(reduced@, h, n as int) implies false by {
                            if jj == q {
                                lemma_perm_push(h, g, k as int, q as int);
                                assert(rows_perm_from(h, g2@, k as int + 1));
                            }
                        }
                    }
                },
            }
            q += 1;
        }
        if found.is_none() {
            proof {
                broadcast use vstd::seq_lib::group_to_multiset_ensures;

                assert forall|h: Seq<Seq<u16>>|
                    #![trigger rows_perm_from(h, g, k as int)]
                    rows_perm_from(h, g, k as int) implies !is_orthogonal(
                    reduced@,
                    h,
                    n as int,
                ) by {
                    if is_orthogonal(reduced@, h, n as int) {
                        let hk = h[k as int];
                        assert(h.skip(k as int)[0] == hk);
                        assert(h.skip(k as int).contains(hk));
                        assert(h.skip(k as int).to_multiset().contains(hk));
                        assert(g.skip(k as int).to_multiset().contains(hk));
                        assert(g.skip(k as int).contains(hk));
                        let idx = choose|idx: int|
                            0 <= idx < g.skip(k as int).len() && g.skip(k as int)[idx] == hk;
                        let jj = k + idx;
                        assert(g[jj] == hk);
                        assert(k <= jj < n);
                        assert(rows_perm_from(h, g, k as int) && h[k as int] == g[jj]);
                    }
                }
            }
        }
        found
    }
}

/// Whether some ordering of the candidate's rows is orthogonal to the
/// reduced square. `n` is the number of rows the enumeration may move: the
/// search runs over the whole square.
pub fn generate_semi_reduced_and_orth_check(
    n: usize,
    semi_reduced_square: &LatinSquare,
    reduced_square: &LatinSquare,
) -> (found: bool)
    requires
        semi_reduced_square.wf(),
        reduced_square.wf(),
        reduced_square.order == semi_reduced_square.order,
        n <= semi_reduced_square.order,
        cells_valid(semi_reduced_square@, semi_reduced_square.order as int),
        cells_valid(reduced_square@, reduced_square.order as int),
    ensures
        found <==> exists|h: Seq<Seq<u16>>|
            #[trigger] rows_perm_from(
                h,
                semi_reduced_square@,
                semi_reduced_square.order - n,
            ) && is_orthogonal(reduced_square@, h, semi_reduced_square.order as int),
{
    let k = semi_reduced_square.order - n;
    match search_permutations(k, semi_reduced_square, reduced_square) {
        Some(w) => {
            proof {
                assert(rows_perm_from(w@, semi_reduced_square@, k as int) && is_orthogonal(
                    reduced_square@,
                    w@,
                    semi_reduced_square.order as int,
                ));
            }
            true
        },
        None => {
            proof {
                if exists|h: Seq<Seq<u16>>|
                    #[trigger] rows_perm_from(h, semi_reduced_square@, k as int) && is_orthogonal(
                        reduced_square@,
                        h,
                        semi_reduced_square.order as int,
                    ) {
                    let h = choose|h: Seq<Seq<u16>>|
                        #[trigger] rows_perm_from(h, semi_reduced_square@, k as int)
                            && is_orthogonal(
                            reduced_square@,
                            h,
                            semi_reduced_square.order as int,
                        );
                    assert(!is_orthogonal(reduced_square@, h, semi_reduced_square.order as int));
                }
            }
            false
        },
    }
}

/// Generates every reduced Latin square of the order and looks for an
/// orthogonal pair: for each (reduced, candidate) pair it tries every
/// ordering of the candidate's rows, returning the first orthogonal pair
/// found. `Ok(None)` means the whole space was exhausted: no row-ordering of
/// any reduced square of this order is orthogonal to any reduced square.
#[verifier::loop_isolation(false)]
#[verifier::rlimit(60)]
pub fn find_orthogonal_pair(order: usize) -> (res: Result<
    Option<(LatinSquare, LatinSquare)>,
    InvalidOrder,
>)
    ensures
        match res {
            Ok(Some(pair)) => {
                &&& valid_order(order as int)
                &&& pair.0.wf() && pair.0.order == order
                &&& pair.1.wf() && pair.1.order == order
                &&& is_reduced(pair.0@, order as int)
                &&& is_latin(pair.1@, order as int)
                &&& exists|c: Seq<Seq<u16>>|
                    #[trigger] is_reduced(c, order as int) && rows_perm_from(pair.1@, c, 0)
                &&& is_orthogonal(pair.0@, pair.1@, order as int)
            },
            Ok(None) => valid_order(order as int) && forall|a: Seq<Seq<u16>>, c: Seq<Seq<u16>>, h: Seq<Seq<u16>>|
                #![trigger is_reduced(a, order as int), rows_perm_from(h, c, 0)]
                is_reduced(a, order as int) && is_reduced(c, order as int) && rows_perm_from(
                    h,
                    c,
                    0,
                ) ==> !is_orthogonal(a, h, order as int),
            Err(_) => !valid_order(order as int),
        },
{
    let squares = match generate_all_reduced_latin_squares(order) {
        Err(e) => {
            return Err(e);
        },
        Ok(s) => s,
    };
    let m = squares.len();
    let ghost sq = squares@;
    let mut ir: usize = 0;
    while ir < m
        invariant
            ir <= m,
            m == sq.len(),
            squares@ == sq,
            reduced_output_ok(order, sq),
            valid_order(order as int),
            forall|t1: int, t2: int, h: Seq<Seq<u16>>|
                #![trigger sq[t1], rows_perm_from(h, sq[t2]@, 0)]
                0 <= t1 < ir && 0 <= t2 < m && rows_perm_from(h, sq[t2]@, 0) ==> !is_orthogonal(
                    sq[t1]@,
                    h,
                    order as int,
                ),
        decreases m - ir,
    {
        let mut ic: usize = 0;
        while ic < m
            invariant
                ir < m,
                ic <= m,
                forall|t2: int, h: Seq<Seq<u16>>|
                    #![trigger rows_perm_from(h, sq[t2]@, 0)]
                    0 <= t2 < ic && rows_perm_from(h, sq[t2]@, 0) ==> !is_orthogonal(
                        sq[ir as int]@,
                        h,
                        order as int,
                    ),
            decreases m - ic,
        {
            let w = search_permutations(0, &squares[ic], &squares[ir]);
            match w {
                Some(mate) => {
                    let first = squares[ir].duplicate();
                    proof {
                        lemma_perm_latin(mate@, sq[ic as int]@, order as int);
                        assert(is_reduced(sq[ic as int]@, order as int) && rows_perm_from(
                            mate@,
                            sq[ic as int]@,
                            0,
                        ));
                    }
                    return Ok(Some((first, mate)));
                },
                None => {
                },
            }
            ic += 1;
        }
        ir += 1;
    }
    proof {
        assert forall|a: Seq<Seq<u16>>, c: Seq<Seq<u16>>, h: Seq<Seq<u16>>|
            #![trigger is_reduced(a, order as int), rows_perm_from(h, c, 0)]
            is_reduced(a, order as int) && is_reduced(c, order as int) && rows_perm_from(h, c, 0)
                && is_orthogonal(a, h, order as int) implies false by {
            let t1 = choose|t1: int| 0 <= t1 < sq.len() && (#[trigger] sq[t1])@ == a;
            let t2 = choose|t2: int| 0 <= t2 < sq.len() && (#[trigger] sq[t2])@ == c;
            assert(rows_perm_from(h, sq[t2]@, 0));
            assert(!is_orthogonal(sq[t1]@, h, order as int));
        }
    }
    Ok(None)
}

} // verus!
