//! The orthogonality tester: two Latin squares of the same order are
//! orthogonal when superimposing them produces all n² ordered symbol pairs,
//! no pair twice.

use vstd::prelude::*;
use crate::grid::LatinSquare;
use crate::grid::cells_valid;
use crate::grid::is_latin;
use crate::grid::is_symbol;
use crate::grid::lemma_entries;
use crate::grid::lemma_latin_rows_columns_complete;
use crate::grid::sym_bit;
use crate::grid::valid_order;

verus! {

/// The ordered pair of symbols the two squares hold at (`i`, `j`).
pub open spec fn pair_at(a: Seq<Seq<u16>>, b: Seq<Seq<u16>>, i: int, j: int) -> (u16, u16) {
    (a[i][j], b[i][j])
}

/// Superimposing `a` and `b` repeats no ordered pair of symbols: the
/// definition of orthogonal Latin squares.
pub open spec fn is_orthogonal(a: Seq<Seq<u16>>, b: Seq<Seq<u16>>, n: int) -> bool {
    forall|i1: int, j1: int, i2: int, j2: int|
        #![trigger pair_at(a, b, i1, j1), pair_at(a, b, i2, j2)]
        0 <= i1 < n && 0 <= j1 < n && 0 <= i2 < n && 0 <= j2 < n && (i1 != i2 || j1 != j2)
            ==> pair_at(a, b, i1, j1) != pair_at(a, b, i2, j2)
}

/// One direction of the symmetry of orthogonality.
proof fn lemma_orthogonal_flip(a: Seq<Seq<u16>>, b: Seq<Seq<u16>>, n: int)
    requires
        is_orthogonal(a, b, n),
    ensures
        is_orthogonal(b, a, n),
{
    assert forall|i1: int, j1: int, i2: int, j2: int|
        #![trigger pair_at(b, a, i1, j1), pair_at(b, a, i2, j2)]
        0 <= i1 < n && 0 <= j1 < n && 0 <= i2 < n && 0 <= j2 < n && (i1 != i2 || j1 != j2) implies pair_at(
        b,
        a,
        i1,
        j1,
    ) != pair_at(b, a, i2, j2) by {
        assert(pair_at(a, b, i1, j1) != pair_at(a, b, i2, j2));
        if pair_at(b, a, i1, j1) == pair_at(b, a, i2, j2) {
            assert(b[i1][j1] == b[i2][j2] && a[i1][j1] == a[i2][j2]);
        }
    }
}

/// Orthogonality does not depend on the order of the two squares:
/// `is_orthogonal(a, b)` holds exactly when `is_orthogonal(b, a)` does.
pub proof fn lemma_orthogonal_symmetric(a: Seq<Seq<u16>>, b: Seq<Seq<u16>>, n: int)
    ensures
        is_orthogonal(a, b, n) == is_orthogonal(b, a, n),
{
    if is_orthogonal(a, b, n) {
        lemma_orthogonal_flip(a, b, n);
    }
    if is_orthogonal(b, a, n) {
        lemma_orthogonal_flip(b, a, n);
    }
}

/// A Latin square of order above 1 is never orthogonal to itself: the symbol
/// in its first cell returns in the second row, and the superimposed pair
/// (s, s) repeats there.
pub proof fn lemma_self_not_orthogonal(a: Seq<Seq<u16>>, n: int)
    requires
        valid_order(n),
        n > 1,
        is_latin(a, n),
    ensures
        !is_orthogonal(a, a, n),
{
    lemma_latin_rows_columns_complete(a, n);
    let s = a[0][0];
    assert(is_symbol(n, s)) by {
        assert(a[0][0] != 0);
    }
    let k = choose|k: int| 0 <= k < n && s == sym_bit(k);
    assert(a[1].contains(sym_bit(k)));
    let j = choose|j: int| 0 <= j < a[1].len() && a[1][j] == sym_bit(k);
    if is_orthogonal(a, a, n) {
        assert(pair_at(a, a, 0, 0) != pair_at(a, a, 1, j));
        assert(a[1][j] == s);
    }
}

/// Whether `seen` already holds `v`.
#[verifier::loop_isolation(false)]
fn seen_contains(seen: &Vec<u32>, v: u32) -> (r: bool)
    ensures
        r == seen@.contains(v),
{
    let mut t: usize = 0;
    while t < seen.len()
        invariant
            t <= seen@.len(),
            forall|t2: int| 0 <= t2 < t ==> seen@[t2] != v,
        decreases seen@.len() - t,
    {
        if seen[t] == v {
            return true;
        }
        t += 1;
    }
    false
}

/// The code a superimposed cell is filed under: the first square's symbol in
/// the low `n` bits, the second square's shifted into the bits above them.
pub open spec fn pair_code(a: Seq<Seq<u16>>, b: Seq<Seq<u16>>, n: int, i: int, j: int) -> u32 {
    (a[i][j] as u32) ^ ((b[i][j] as u32) << (n as u32))
}

/// (`i1`, `j1`) is visited before (`i2`, `j2`) in row-major order.
pub open spec fn pos_before(i1: int, j1: int, i2: int, j2: int) -> bool {
    i1 < i2 || (i1 == i2 && j1 < j2)
}

/// The code is injective: equal codes mean equal symbol pairs, as long as
/// both first components fit below bit `n`.
proof fn lemma_code_injective(x1: u32, y1: u32, x2: u32, y2: u32, n: u32)
    by (bit_vector)
    requires
        n <= 16,
        x1 < (1u32 << n),
        x2 < (1u32 << n),
        y1 < 0x10000,
        y2 < 0x10000,
        x1 ^ (y1 << n) == x2 ^ (y2 << n),
    ensures
        x1 == x2,
        y1 == y2,
{
}

/// A cell of a valid grid fits below bit `n` once widened.
proof fn lemma_cell_in_range(n: int, c: u16)
    requires
        valid_order(n),
        c == 0 || is_symbol(n, c),
    ensures
        (c as u32) < (1u32 << (n as u32)),
{
    let nu = n as u32;
    if c == 0 {
        assert((0u32) < (1u32 << nu)) by (bit_vector)
            requires
                1 <= nu <= 16,
        ;
    } else {
        let k = choose|k: int| 0 <= k < n && c == sym_bit(k);
        let ku = k as u16;
        assert((((1u16 << ku) as u32) < (1u32 << nu))) by (bit_vector)
            requires
                ku < 16,
                nu <= 16,
                (ku as u32) < nu,
        ;
    }
}

impl LatinSquare {
    /// Whether superimposing `self` and `other` produces all n² distinct
    /// ordered symbol pairs. Each cell's pair is filed under an injective
    /// code; the first repeated code ends the test early with `false`.
    #[verifier::loop_isolation(false)]
    #[verifier::rlimit(60)]
    pub fn orthogonal_to(&self, other: &LatinSquare) -> (r: bool)
        requires
            self.wf(),
            other.wf(),
            other.order == self.order,
            cells_valid(self@, self.order as int),
            cells_valid(other@, other.order as int),
        ensures
            r == is_orthogonal(self@, other@, self.order as int),
    {
        proof {
            lemma_entries(self);
            lemma_entries(other);
        }
        let n = self.order;
        let ghost a = self@;
        let ghost b = other@;
        let ghost mut pos: Seq<(int, int)> = Seq::empty();
        let mut seen: Vec<u32> = Vec::new();
        let mut i: usize = 0;
        while i < n
            invariant
                i <= n,
                pos.len() == seen@.len(),
                forall|i1: int, j1: int|
                    #![trigger pair_code(a, b, n as int, i1, j1)]
                    0 <= i1 < n && 0 <= j1 < n && pos_before(i1, j1, i as int, 0) ==> seen@.contains(
                        pair_code(a, b, n as int, i1, j1),
                    ),
                forall|t: int|
                    0 <= t < seen@.len() ==> 0 <= (#[trigger] pos[t]).0 < n && 0 <= pos[t].1 < n
                        && pos_before(pos[t].0, pos[t].1, i as int, 0) && seen@[t] == pair_code(
                        a,
                        b,
                        n as int,
                        pos[t].0,
                        pos[t].1,
                    ),
                forall|i1: int, j1: int, i2: int, j2: int|
                    #![trigger pair_at(a, b, i1, j1), pair_at(a, b, i2, j2)]
                    0 <= i1 < n && 0 <= j1 < n && 0 <= i2 < n && 0 <= j2 < n && pos_before(
                        i1,
                        j1,
                        i as int,
                        0,
                    ) && pos_before(i2, j2, i as int, 0) && (i1 != i2 || j1 != j2) ==> pair_at(
                        a,
                        b,
                        i1,
                        j1,
                    ) != pair_at(a, b, i2, j2),
            decreases n - i,
        {
            let mut j: usize = 0;
            while j < n
                invariant
                    i < n,
                    j <= n,
                    pos.len() == seen@.len(),
                    forall|i1: int, j1: int|
                        #![trigger pair_code(a, b, n as int, i1, j1)]
                        0 <= i1 < n && 0 <= j1 < n && pos_before(i1, j1, i as int, j as int)
                            ==> seen@.contains(pair_code(a, b, n as int, i1, j1)),
                    forall|t: int|
                        0 <= t < seen@.len() ==> 0 <= (#[trigger] pos[t]).0 < n && 0 <= pos[t].1
                            < n && pos_before(pos[t].0, pos[t].1, i as int, j as int) && seen@[t]
                            == pair_code(a, b, n as int, pos[t].0, pos[t].1),
                    forall|i1: int, j1: int, i2: int, j2: int|
                        #![trigger pair_at(a, b, i1, j1), pair_at(a, b, i2, j2)]
                        0 <= i1 < n && 0 <= j1 < n && 0 <= i2 < n && 0 <= j2 < n && pos_before(
                            i1,
                            j1,
                            i as int,
                            j as int,
                        ) && pos_before(i2, j2, i as int, j as int) && (i1 != i2 || j1 != j2)
                            ==> pair_at(a, b, i1, j1) != pair_at(a, b, i2, j2),
                decreases n - j,
            {
                let first_entry = self.cell(i, j);
                let second_entry = other.cell(i, j);
                let to_put: u32 = (first_entry as u32) ^ ((second_entry as u32) << (n as u32));
                proof {
                    assert(to_put == pair_code(a, b, n as int, i as int, j as int));
                }
                let duplicate = seen_contains(&seen, to_put);
                if duplicate {
                    proof {
                        let t = choose|t: int| 0 <= t < seen@.len() && seen@[t] == to_put;
                        let i1 = pos[t].0;
                        let j1 = pos[t].1;
                        lemma_cell_in_range(n as int, a[i1][j1]);
                        lemma_cell_in_range(n as int, a[i as int][j as int]);
                        lemma_code_injective(
                            a[i1][j1] as u32,
                            b[i1][j1] as u32,
                            a[i as int][j as int] as u32,
                            b[i as int][j as int] as u32,
                            n as u32,
                        );
                        assert(pair_at(a, b, i1, j1) == pair_at(a, b, i as int, j as int));
                        assert(!is_orthogonal(a, b, n as int));
                    }
                    return false;
                }
                let ghost seen_before = seen@;
                seen.push(to_put);
                proof {
                    pos = pos.push((i as int, j as int));
                    assert forall|i1: int, j1: int|
                        #![trigger pair_code(a, b, n as int, i1, j1)]
                        0 <= i1 < n && 0 <= j1 < n && pos_before(i1, j1, i as int, j + 1) implies seen@.contains(
                        pair_code(a, b, n as int, i1, j1),
                    ) by {
                        if pos_before(i1, j1, i as int, j as int) {
                            let t = choose|t: int|
                                0 <= t < seen_before.len() && seen_before[t] == pair_code(
                                    a,
                                    b,
                                    n as int,
                                    i1,
                                    j1,
                                );
                            assert(seen@[t] == pair_code(a, b, n as int, i1, j1));
                        } else {
                            assert(i1 == i as int && j1 == j as int);
                            assert(seen@[seen@.len() - 1] == pair_code(a, b, n as int, i1, j1));
                        }
                    }
                    assert forall|t: int|
                        0 <= t < seen@.len() implies 0 <= (#[trigger] pos[t]).0 < n && 0
                        <= pos[t].1 < n && pos_before(pos[t].0, pos[t].1, i as int, j + 1)
                        && seen@[t] == pair_code(a, b, n as int, pos[t].0, pos[t].1) by {
                        if t < seen_before.len() {
                            assert(seen@[t] == seen_before[t]);
                        } else {
                            assert(pos[t] == (i as int, j as int));
                            assert(seen@[t] == to_put);
                        }
                    }
                    assert forall|i1: int, j1: int, i2: int, j2: int|
                        #![trigger pair_at(a, b, i1, j1), pair_at(a, b, i2, j2)]
                        0 <= i1 < n && 0 <= j1 < n && 0 <= i2 < n && 0 <= j2 < n && pos_before(
                        i1,
                        j1,
                        i as int,
                        j + 1,
                    ) && pos_before(i2, j2, i as int, j + 1) && (i1 != i2 || j1 != j2) implies pair_at(
                        a,
                        b,
                        i1,
                        j1,
                    ) != pair_at(a, b, i2, j2) by {
                        let gi = i as int;
                        let gj = j as int;
                        if pos_before(i1, j1, gi, gj) && pos_before(i2, j2, gi, gj) {
                        } else if pos_before(i1, j1, gi, gj) && i2 == gi && j2 == gj {
                            if pair_at(a, b, i1, j1) == pair_at(a, b, i2, j2) {
                                assert(pair_code(a, b, n as int, i1, j1) == to_put);
                                assert(seen_before.contains(pair_code(a, b, n as int, i1, j1)));
                            }
                        } else if pos_before(i2, j2, gi, gj) && i1 == gi && j1 == gj {
                            if pair_at(a, b, i1, j1) == pair_at(a, b, i2, j2) {
                                assert(pair_code(a, b, n as int, i2, j2) == to_put);
                                assert(seen_before.contains(pair_code(a, b, n as int, i2, j2)));
                            }
                        }
                    }
                }
                j += 1;
            }
            i += 1;
        }
        proof {
            assert forall|i1: int, j1: int, i2: int, j2: int|
                #![trigger pair_at(a, b, i1, j1), pair_at(a, b, i2, j2)]
                0 <= i1 < n && 0 <= j1 < n && 0 <= i2 < n && 0 <= j2 < n && (i1 != i2 || j1 != j2) implies pair_at(
                a,
                b,
                i1,
                j1,
            ) != pair_at(a, b, i2, j2) by {
                assert(pos_before(i1, j1, n as int, 0) && pos_before(i2, j2, n as int, 0));
            }
        }
        true
    }
}

} // verus!
