//! The grid of symbol masks and the specification of what a (reduced) Latin
//! square is.
//!
//! A symbol of an order-`n` square is one of `n` labels, held as a one-hot
//! bitmask in a `u16`: symbol `k` is the mask with bit `k` alone set. A cell
//! holding `0` is unfilled; a grid with every cell filled and no symbol
//! repeated in any row or column is a Latin square.

use vstd::prelude::*;
use vstd::set_lib::lemma_len_subset;

verus! {

/// Largest order the `u16` cell masks can hold: one bit per symbol.
pub const MAX_ORDER: usize = 16;

/// An order is usable when at least one symbol exists and every symbol fits
/// in a `u16` one-hot mask.
pub open spec fn valid_order(n: int) -> bool {
    1 <= n <= MAX_ORDER
}

/// The one-hot mask of symbol `k`: bit `k` alone set.
pub open spec fn sym_bit(k: int) -> u16
    recommends
        0 <= k < 16,
{
    1u16 << (k as u16)
}

/// The mask with bits `0..n` set: the whole alphabet of an order-`n` square.
pub open spec fn full_mask(n: nat) -> u16
    recommends
        n <= 16,
    decreases n,
{
    if n == 0 {
        0u16
    } else {
        full_mask((n - 1) as nat) | sym_bit(n - 1)
    }
}

/// `v` is the mask of one of the `n` symbols.
pub open spec fn is_symbol(n: int, v: u16) -> bool {
    exists|k: int| 0 <= k < n && v == sym_bit(k)
}

/// The grid is an `n` by `n` matrix.
pub open spec fn grid_dims(g: Seq<Seq<u16>>, n: int) -> bool {
    g.len() == n && (forall|i: int| 0 <= i < n ==> (#[trigger] g[i]).len() == n)
}

/// Every cell is unfilled or holds a single symbol.
pub open spec fn cells_valid(g: Seq<Seq<u16>>, n: int) -> bool {
    grid_dims(g, n) && (forall|i: int, j: int|
        0 <= i < n && 0 <= j < n ==> (#[trigger] g[i][j]) == 0 || is_symbol(n, g[i][j]))
}

/// No filled cell repeats a value inside its row or inside its column.
pub open spec fn no_repeats(g: Seq<Seq<u16>>, n: int) -> bool {
    &&& (forall|i: int, j1: int, j2: int|
        #![trigger g[i][j1], g[i][j2]]
        0 <= i < n && 0 <= j1 < n && 0 <= j2 < n && j1 != j2 && g[i][j1] != 0 ==> g[i][j1]
            != g[i][j2])
    &&& (forall|i1: int, i2: int, j: int|
        #![trigger g[i1][j], g[i2][j]]
        0 <= i1 < n && 0 <= i2 < n && 0 <= j < n && i1 != i2 && g[i1][j] != 0 ==> g[i1][j]
            != g[i2][j])
}

/// A partially filled grid that can still be part of a Latin square: valid
/// cells and no repeated symbol in any row or column.
pub open spec fn partial_latin(g: Seq<Seq<u16>>, n: int) -> bool {
    cells_valid(g, n) && no_repeats(g, n)
}

/// Every cell is filled.
pub open spec fn is_complete(g: Seq<Seq<u16>>, n: int) -> bool {
    forall|i: int, j: int| 0 <= i < n && 0 <= j < n ==> (#[trigger] g[i][j]) != 0
}

/// A completed Latin square of order `n`.
pub open spec fn is_latin(g: Seq<Seq<u16>>, n: int) -> bool {
    partial_latin(g, n) && is_complete(g, n)
}

/// First row and first column hold the symbols in canonical increasing order.
pub open spec fn has_canonical_border(g: Seq<Seq<u16>>, n: int) -> bool {
    forall|i: int|
        #![trigger g[0][i]]
        #![trigger g[i][0]]
        0 <= i < n ==> g[0][i] == sym_bit(i) && g[i][0] == sym_bit(i)
}

/// A reduced Latin square: completed, with the canonical first row and column.
pub open spec fn is_reduced(g: Seq<Seq<u16>>, n: int) -> bool {
    is_latin(g, n) && has_canonical_border(g, n)
}

/// Every cell filled in `g` keeps its value in `h`.
pub open spec fn extends(h: Seq<Seq<u16>>, g: Seq<Seq<u16>>, n: int) -> bool {
    forall|i: int, j: int|
        #![trigger g[i][j]]
        #![trigger h[i][j]]
        0 <= i < n && 0 <= j < n && g[i][j] != 0 ==> h[i][j] == g[i][j]
}

/// Row 0 and column 0 hold no unfilled cell.
pub open spec fn border_filled(g: Seq<Seq<u16>>, n: int) -> bool {
    forall|i: int|
        #![trigger g[0][i]]
        #![trigger g[i][0]]
        0 <= i < n ==> g[0][i] != 0 && g[i][0] != 0
}

// ---------------------------------------------------------------------------
// Facts about one-hot masks.
// ---------------------------------------------------------------------------

/// Two distinct symbols have distinct, bitwise-disjoint nonzero masks.
pub proof fn lemma_sym_bit_distinct(k1: int, k2: int)
    requires
        0 <= k1 < 16,
        0 <= k2 < 16,
        k1 != k2,
    ensures
        sym_bit(k1) != sym_bit(k2),
        sym_bit(k1) & sym_bit(k2) == 0,
        sym_bit(k1) != 0,
{
    let a = k1 as u16;
    let b = k2 as u16;
    assert((1u16 << a) != (1u16 << b) && ((1u16 << a) & (1u16 << b)) == 0 && (1u16 << a) != 0)
        by (bit_vector)
        requires
            a < 16,
            b < 16,
            a != b,
    ;
}

/// A symbol mask is never zero.
pub proof fn lemma_sym_bit_nonzero(k: int)
    requires
        0 <= k < 16,
    ensures
        sym_bit(k) != 0,
{
    let a = k as u16;
    assert((1u16 << a) != 0) by (bit_vector)
        requires
            a < 16,
    ;
}

/// Which bits the full alphabet mask has set.
pub proof fn lemma_full_mask_bits(n: nat)
    requires
        n <= 16,
    ensures
        forall|k: int| 0 <= k < 16 ==> (((full_mask(n) & #[trigger] sym_bit(k)) != 0) <==> k < n),
    decreases n,
{
    if n == 0 {
        assert forall|k: int| 0 <= k < 16 implies ((full_mask(n) & sym_bit(k)) == 0) by {
            let a = k as u16;
            assert((0u16 & (1u16 << a)) == 0) by (bit_vector);
        }
    } else {
        lemma_full_mask_bits((n - 1) as nat);
        let prev = full_mask((n - 1) as nat);
        let m = (n - 1) as u16;
        assert forall|k: int| 0 <= k < 16 implies (((full_mask(n) & sym_bit(k)) != 0) <==> k
            < n) by {
            let a = k as u16;
            assert((((prev | (1u16 << m)) & (1u16 << a)) != 0) <==> ((prev & (1u16 << a)) != 0 || a
                == m)) by (bit_vector)
                requires
                    a < 16,
                    m < 16,
            ;
        }
    }
}

/// Clearing the bits of `c` from `a` keeps exactly the bits of `a` outside `c`.
pub proof fn lemma_clear_step(a: u16, c: u16, k: int)
    requires
        0 <= k < 16,
    ensures
        (((a & !c) & sym_bit(k)) != 0) <==> ((a & sym_bit(k)) != 0 && (c & sym_bit(k)) == 0),
{
    let b = k as u16;
    assert((((a & !c) & (1u16 << b)) != 0) <==> ((a & (1u16 << b)) != 0 && (c & (1u16 << b)) == 0))
        by (bit_vector);
}

/// For a cell that is unfilled or holds one symbol, having bit `k` set is the
/// same as being exactly symbol `k`.
pub proof fn lemma_cell_bit(n: int, c: u16, k: int)
    requires
        0 <= k < n,
        n <= 16,
        c == 0 || is_symbol(n, c),
    ensures
        ((c & sym_bit(k)) != 0) <==> c == sym_bit(k),
{
    if c == 0 {
        let b = k as u16;
        assert((0u16 & (1u16 << b)) == 0) by (bit_vector);
        lemma_sym_bit_nonzero(k);
    } else {
        let k2 = choose|k2: int| 0 <= k2 < n && c == sym_bit(k2);
        if k2 == k {
            let b = k as u16;
            assert(((1u16 << b) & (1u16 << b)) == (1u16 << b) && (1u16 << b) != 0) by (bit_vector)
                requires
                    b < 16,
            ;
        } else {
            lemma_sym_bit_distinct(k2, k);
        }
    }
}

// ---------------------------------------------------------------------------
// The alphabet as a set, and the pigeonhole fact behind "all symbols present".
// ---------------------------------------------------------------------------

/// The set of the first `n` symbol masks.
pub open spec fn sym_set(n: nat) -> Set<u16>
    decreases n,
{
    if n == 0 {
        Set::empty()
    } else {
        sym_set((n - 1) as nat).insert(sym_bit(n - 1))
    }
}

/// The alphabet set is finite, has exactly `n` members, and they are exactly
/// the symbol masks.
pub proof fn lemma_sym_set(n: nat)
    requires
        n <= 16,
    ensures
        sym_set(n).finite(),
        sym_set(n).len() == n,
        forall|v: u16| #![trigger sym_set(n).contains(v)] sym_set(n).contains(v) <==> is_symbol(n as int, v),
    decreases n,
{
    if n == 0 {
        assert forall|v: u16| !is_symbol(0, v) by {}
    } else {
        lemma_sym_set((n - 1) as nat);
        let prev = sym_set((n - 1) as nat);
        let newest = sym_bit(n - 1);
        assert(!prev.contains(newest)) by {
            if prev.contains(newest) {
                assert(is_symbol((n - 1) as int, newest));
                let k = choose|k: int| 0 <= k < (n - 1) as int && newest == sym_bit(k);
                lemma_sym_bit_distinct(k, n - 1);
            }
        }
        assert forall|v: u16| sym_set(n).contains(v) implies is_symbol(n as int, v) by {
            if v == newest {
                assert(0 <= n - 1 < n && v == sym_bit(n - 1));
            } else {
                assert(prev.contains(v));
                assert(is_symbol((n - 1) as int, v));
                let k = choose|k: int| 0 <= k < (n - 1) as int && v == sym_bit(k);
                assert(0 <= k < n && v == sym_bit(k));
            }
        }
        assert forall|v: u16| is_symbol(n as int, v) implies sym_set(n).contains(v) by {
            let k = choose|k: int| 0 <= k < n as int && v == sym_bit(k);
            if k < n - 1 {
                assert(is_symbol((n - 1) as int, v));
                assert(prev.contains(v));
            } else {
                assert(v == newest);
            }
        }
    }
}

/// A subset of a finite set with the same number of members is the set itself.
pub proof fn lemma_subset_same_len(a: Set<u16>, b: Set<u16>)
    requires
        b.finite(),
        a.subset_of(b),
        a.len() == b.len(),
    ensures
        a == b,
{
    lemma_len_subset(a, b);
    assert forall|x: u16| b.contains(x) implies a.contains(x) by {
        if !a.contains(x) {
            let smaller = b.remove(x);
            lemma_len_subset(a, smaller);
        }
    }
    assert(a =~= b);
}

/// A sequence of `n` distinct symbols contains every one of the `n` symbols:
/// in a completed Latin square no row or column can miss a symbol.
pub proof fn lemma_distinct_symbols_complete(s: Seq<u16>, n: int)
    requires
        valid_order(n),
        s.len() == n,
        forall|j: int| 0 <= j < n ==> is_symbol(n, #[trigger] s[j]),
        forall|j1: int, j2: int| 0 <= j1 < n && 0 <= j2 < n && j1 != j2 ==> s[j1] != s[j2],
    ensures
        forall|k: int| 0 <= k < n ==> s.contains(#[trigger] sym_bit(k)),
{
    assert(s.no_duplicates());
    s.unique_seq_to_set();
    lemma_sym_set(n as nat);
    assert(s.to_set().subset_of(sym_set(n as nat))) by {
        assert forall|v: u16| s.to_set().contains(v) implies sym_set(n as nat).contains(v) by {
            let j = choose|j: int| 0 <= j < s.len() && s[j] == v;
            assert(is_symbol(n, s[j]));
        }
    }
    lemma_subset_same_len(s.to_set(), sym_set(n as nat));
    assert forall|k: int| 0 <= k < n implies s.contains(#[trigger] sym_bit(k)) by {
        assert(is_symbol(n, sym_bit(k)));
        assert(sym_set(n as nat).contains(sym_bit(k)));
        assert(s.to_set().contains(sym_bit(k)));
    }
}

/// Column `j` of the grid, as a sequence of `n` cells.
pub open spec fn column(g: Seq<Seq<u16>>, j: int, n: int) -> Seq<u16> {
    Seq::new(n as nat, |i: int| g[i][j])
}

/// Every row and every column of a completed Latin square holds every symbol:
/// with no repeats allowed, `n` filled cells must cover all `n` symbols.
pub proof fn lemma_latin_rows_columns_complete(g: Seq<Seq<u16>>, n: int)
    requires
        valid_order(n),
        is_latin(g, n),
    ensures
        forall|i: int, k: int|
            #![trigger g[i].contains(sym_bit(k))]
            0 <= i < n && 0 <= k < n ==> g[i].contains(sym_bit(k)),
        forall|j: int, k: int|
            #![trigger column(g, j, n).contains(sym_bit(k))]
            0 <= j < n && 0 <= k < n ==> column(g, j, n).contains(sym_bit(k)),
{
    assert forall|i: int, k: int|
        #![trigger g[i].contains(sym_bit(k))]
        0 <= i < n && 0 <= k < n implies g[i].contains(sym_bit(k)) by {
        let row = g[i];
        assert forall|j2: int| 0 <= j2 < n implies is_symbol(n, #[trigger] row[j2]) by {
            assert(g[i][j2] != 0);
        }
        assert forall|j1: int, j2: int|
            0 <= j1 < n && 0 <= j2 < n && j1 != j2 implies row[j1] != row[j2] by {
            assert(g[i][j1] != 0);
        }
        lemma_distinct_symbols_complete(row, n);
    }
    assert forall|j: int, k: int|
        #![trigger column(g, j, n).contains(sym_bit(k))]
        0 <= j < n && 0 <= k < n implies column(g, j, n).contains(sym_bit(k)) by {
        let col = column(g, j, n);
        assert forall|i2: int| 0 <= i2 < n implies is_symbol(n, #[trigger] col[i2]) by {
            assert(col[i2] == g[i2][j]);
            assert(g[i2][j] != 0);
        }
        assert forall|i1: int, i2: int|
            0 <= i1 < n && 0 <= i2 < n && i1 != i2 implies col[i1] != col[i2] by {
            assert(col[i1] == g[i1][j] && col[i2] == g[i2][j]);
            assert(g[i1][j] != 0);
        }
        lemma_distinct_symbols_complete(col, n);
    }
}

// ---------------------------------------------------------------------------
// Counting unfilled cells: the termination measure of the generator.
// ---------------------------------------------------------------------------

/// How many cells of a row are unfilled.
pub open spec fn zeros_in_row(r: Seq<u16>) -> nat
    decreases r.len(),
{
    if r.len() == 0 {
        0
    } else {
        zeros_in_row(r.drop_last()) + if r.last() == 0 {
            1nat
        } else {
            0nat
        }
    }
}

/// How many cells of a grid are unfilled.
pub open spec fn zeros_in_grid(g: Seq<Seq<u16>>) -> nat
    decreases g.len(),
{
    if g.len() == 0 {
        0
    } else {
        zeros_in_grid(g.drop_last()) + zeros_in_row(g.last())
    }
}

proof fn lemma_zeros_in_row_update(r: Seq<u16>, j: int, v: u16)
    requires
        0 <= j < r.len(),
        r[j] == 0,
        v != 0,
    ensures
        zeros_in_row(r.update(j, v)) < zeros_in_row(r),
    decreases r.len(),
{
    let r2 = r.update(j, v);
    if j == r.len() - 1 {
        assert(r2.drop_last() =~= r.drop_last());
        assert(r.last() == 0 && r2.last() == v);
    } else {
        assert(r2.drop_last() =~= r.drop_last().update(j, v));
        lemma_zeros_in_row_update(r.drop_last(), j, v);
        assert(r2.last() == r.last());
    }
}

/// Filling an unfilled cell lowers the number of unfilled cells.
pub proof fn lemma_zeros_in_grid_update(g: Seq<Seq<u16>>, x: int, y: int, v: u16)
    requires
        0 <= x < g.len(),
        0 <= y < g[x].len(),
        g[x][y] == 0,
        v != 0,
    ensures
        zeros_in_grid(g.update(x, g[x].update(y, v))) < zeros_in_grid(g),
    decreases g.len(),
{
    let g2 = g.update(x, g[x].update(y, v));
    if x == g.len() - 1 {
        assert(g2.drop_last() =~= g.drop_last());
        lemma_zeros_in_row_update(g.last(), y, v);
        assert(g2.last() == g[x].update(y, v));
    } else {
        assert(g2.drop_last() =~= g.drop_last().update(x, g[x].update(y, v)));
        assert(g.drop_last()[x] == g[x]);
        lemma_zeros_in_grid_update(g.drop_last(), x, y, v);
        assert(g2.last() == g.last());
    }
}

// ---------------------------------------------------------------------------
// The grid as a value.
// ---------------------------------------------------------------------------

/// The order asked of the library was below 1 or above what the cell masks
/// can hold.
#[derive(Clone, Copy, Debug, PartialEq, Eq, Structural)]
pub struct InvalidOrder;

/// An order-`n` grid of symbol masks. A cell holding `0` is unfilled; a value
/// whose every cell is filled is a Latin square, which is how the generator
/// hands grids out.
#[derive(Clone, Debug)]
pub struct LatinSquare {
    pub order: usize,
    pub entries: Vec<Vec<u16>>,
}

impl View for LatinSquare {
    type V = Seq<Seq<u16>>;

    open spec fn view(&self) -> Seq<Seq<u16>> {
        Seq::new(self.entries@.len(), |i: int| self.entries@[i]@)
    }
}

/// The view of a grid mirrors its vector of rows cell for cell.
pub proof fn lemma_entries(s: &LatinSquare)
    ensures
        s.entries@.len() == s@.len(),
        forall|i: int| 0 <= i < s@.len() ==> #[trigger] s.entries@[i]@ == s@[i],
{
}

impl LatinSquare {
    /// The order is usable and the matrix is square of that order.
    pub open spec fn wf(&self) -> bool {
        valid_order(self.order as int) && grid_dims(self@, self.order as int)
    }

    /// Reads the cell at row `x`, column `y`.
    pub fn cell(&self, x: usize, y: usize) -> (v: u16)
        requires
            self.wf(),
            x < self.order,
            y < self.order,
        ensures
            v == self@[x as int][y as int],
    {
        proof {
            lemma_entries(self);
        }
        self.entries[x][y]
    }

    /// A copy of the grid with the cell at (`x`, `y`) set to `v`.
    #[verifier::loop_isolation(false)]
    pub fn with_cell(&self, x: usize, y: usize, v: u16) -> (r: LatinSquare)
        requires
            self.wf(),
            x < self.order,
            y < self.order,
        ensures
            r.order == self.order,
            r@ == self@.update(x as int, self@[x as int].update(y as int, v)),
    {
        proof {
            lemma_entries(self);
        }
        let n = self.order;
        let ghost target = self@.update(x as int, self@[x as int].update(y as int, v));
        let mut out: Vec<Vec<u16>> = Vec::new();
        let mut i: usize = 0;
        while i < n
            invariant
                i <= n,
                out@.len() == i,
                forall|t: int| 0 <= t < i ==> #[trigger] out@[t]@ == target[t],
            decreases n - i,
        {
            let mut row: Vec<u16> = Vec::new();
            let mut j: usize = 0;
            while j < n
                invariant
                    i < n,
                    j <= n,
                    row@.len() == j,
                    forall|u: int|
                        0 <= u < j ==> #[trigger] row@[u] == (if i == x && u == y {
                            v
                        } else {
                            self@[i as int][u]
                        }),
                decreases n - j,
            {
                if i == x && j == y {
                    row.push(v);
                } else {
                    row.push(self.entries[i][j]);
                }
                j += 1;
            }
            proof {
                assert(row@ =~= target[i as int]);
            }
            out.push(row);
            i += 1;
        }
        let r = LatinSquare { order: self.order, entries: out };
        proof {
            assert(r@ =~= target);
        }
        r
    }

    /// An independent copy of the grid.
    pub fn duplicate(&self) -> (r: LatinSquare)
        requires
            self.wf(),
        ensures
            r.order == self.order,
            r@ == self@,
    {
        let c = self.cell(0, 0);
        let r = self.with_cell(0, 0, c);
        proof {
            assert(r@[0] =~= self@[0]);
            assert(r@ =~= self@);
        }
        r
    }

    /// A copy of the grid with rows `a` and `b` exchanged.
    #[verifier::loop_isolation(false)]
    pub fn swapped_rows(&self, a: usize, b: usize) -> (r: LatinSquare)
        requires
            self.wf(),
            a < self.order,
            b < self.order,
        ensures
            r.order == self.order,
            r@ == self@.update(a as int, self@[b as int]).update(b as int, self@[a as int]),
    {
        proof {
            lemma_entries(self);
        }
        let n = self.order;
        let mut out: Vec<Vec<u16>> = Vec::new();
        let mut i: usize = 0;
        while i < n
            invariant
                i <= n,
                out@.len() == i,
                forall|t: int|
                    0 <= t < i ==> #[trigger] out@[t]@ == (if t == a {
                        self@[b as int]
                    } else if t == b {
                        self@[a as int]
                    } else {
                        self@[t]
                    }),
            decreases n - i,
        {
            let src: usize = if i == a {
                b
            } else if i == b {
                a
            } else {
                i
            };
            let mut row: Vec<u16> = Vec::new();
            let mut j: usize = 0;
            while j < n
                invariant
                    src < n,
                    j <= n,
                    row@.len() == j,
                    forall|u: int| 0 <= u < j ==> #[trigger] row@[u] == self@[src as int][u],
                decreases n - j,
            {
                row.push(self.entries[src][j]);
                j += 1;
            }
            proof {
                assert(row@ =~= self@[src as int]);
            }
            out.push(row);
            i += 1;
        }
        let r = LatinSquare { order: self.order, entries: out };
        proof {
            let target = self@.update(a as int, self@[b as int]).update(b as int, self@[a as int]);
            assert forall|t: int| 0 <= t < n implies r@[t] == target[t] by {}
            assert(r@ =~= target);
        }
        r
    }

    /// The square as plain symbol identifiers `1..=n`: cell (`i`, `j`) holds
    /// `k + 1` where the mask held symbol `k`. The bitmask encoding stays
    /// internal.
    #[verifier::loop_isolation(false)]
    pub fn to_symbols(&self) -> (out: Vec<Vec<usize>>)
        requires
            self.wf(),
            is_latin(self@, self.order as int),
        ensures
            out@.len() == self.order,
            forall|i: int, j: int|
                #![trigger out@[i]@[j]]
                0 <= i < self.order && 0 <= j < self.order ==> out@[i]@.len() == self.order && 1
                    <= out@[i]@[j] <= self.order && sym_bit(out@[i]@[j] - 1) == self@[i][j],
    {
        proof {
            lemma_entries(self);
        }
        let n = self.order;
        let ghost target = Seq::new(
            n as nat,
            |t: int|
                Seq::new(n as nat, |u: int| (sym_index_of(n as int, self@[t][u]) + 1) as usize),
        );
        let mut out: Vec<Vec<usize>> = Vec::new();
        let mut i: usize = 0;
        while i < n
            invariant
                i <= n,
                out@.len() == i,
                forall|t: int| 0 <= t < i ==> #[trigger] out@[t]@ == target[t],
            decreases n - i,
        {
            let mut row: Vec<usize> = Vec::new();
            let mut j: usize = 0;
            while j < n
                invariant
                    i < n,
                    j <= n,
                    row@.len() == j,
                    forall|u: int| 0 <= u < j ==> #[trigger] row@[u] == target[i as int][u],
                decreases n - j,
            {
                let v = self.entries[i][j];
                proof {
                    assert(is_symbol(n as int, self@[i as int][j as int]));
                }
                let k = symbol_index(v, n);
                proof {
                    lemma_sym_index_of(n as int, v, k as int);
                }
                row.push(k + 1);
                j += 1;
            }
            proof {
                assert(row@ =~= target[i as int]);
            }
            out.push(row);
            i += 1;
        }
        proof {
            assert forall|i2: int, j2: int|
                #![trigger out@[i2]@[j2]]
                0 <= i2 < n && 0 <= j2 < n implies out@[i2]@.len() == n && 1 <= out@[i2]@[j2] <= n
                && sym_bit(out@[i2]@[j2] - 1) == self@[i2][j2] by {
                assert(out@[i2]@ == target[i2]);
                assert(out@[i2]@[j2] == sym_index_of(n as int, self@[i2][j2]) + 1);
                assert(is_symbol(n as int, self@[i2][j2]));
                lemma_sym_index_of_wf(n as int, self@[i2][j2]);
            }
        }
        out
    }
}

/// The index of the one symbol whose mask `v` is.
pub open spec fn sym_index_of(n: int, v: u16) -> int {
    choose|k: int| 0 <= k < n && v == sym_bit(k)
}

/// For a symbol mask the index is in range and maps back to the mask.
pub proof fn lemma_sym_index_of_wf(n: int, v: u16)
    requires
        n <= 16,
        is_symbol(n, v),
    ensures
        0 <= sym_index_of(n, v) < n,
        sym_bit(sym_index_of(n, v)) == v,
{
    let k = choose|k: int| 0 <= k < n && v == sym_bit(k);
    assert(sym_index_of(n, v) == k);
    assert(0 <= k < n && v == sym_bit(k));
}

/// Any index whose mask is `v` is the index of `v`: one-hot masks are
/// distinct, so the index is unique.
pub proof fn lemma_sym_index_of(n: int, v: u16, k: int)
    requires
        n <= 16,
        0 <= k < n,
        v == sym_bit(k),
    ensures
        sym_index_of(n, v) == k,
{
    assert(is_symbol(n, v));
    lemma_sym_index_of_wf(n, v);
    let k2 = sym_index_of(n, v);
    if k2 != k {
        lemma_sym_bit_distinct(k, k2);
    }
}

/// The index `k` of the one symbol whose mask `v` is.
fn symbol_index(v: u16, n: usize) -> (k: usize)
    requires
        n <= 16,
        is_symbol(n as int, v),
    ensures
        k < n,
        v == sym_bit(k as int),
{
    let mut k: usize = 0;
    while k < n
        invariant
            n <= 16,
            is_symbol(n as int, v),
            k <= n,
            forall|t: int| 0 <= t < k ==> v != #[trigger] sym_bit(t),
        decreases n - k,
    {
        if v == 1u16 << (k as u16) {
            return k;
        }
        k += 1;
    }
    proof {
        let w = choose|w: int| 0 <= w < n && v == sym_bit(w);
        assert(false);
    }
    0
}

} // verus!
