use latin_squares::LatinSquare;
use latin_squares::find_orthogonal_pair;
use latin_squares::generate_all_reduced_latin_squares;
use latin_squares::generate_semi_reduced_and_orth_check;
use latin_squares::row_orderings;

fn square(order: usize, rows: &[&[u16]]) -> LatinSquare {
    let entries: Vec<Vec<u16>> = rows.iter().map(|r| r.to_vec()).collect();
    assert_eq!(entries.len(), order);
    LatinSquare { order, entries }
}

fn cyclic3() -> LatinSquare {
    square(3, &[&[1, 2, 4], &[2, 4, 1], &[4, 1, 2]])
}

// the other row-ordering of the cyclic square with the canonical first row
fn cyclic3_swapped() -> LatinSquare {
    square(3, &[&[1, 2, 4], &[4, 1, 2], &[2, 4, 1]])
}

#[test]
fn orthogonality_is_symmetric() {
    let a = cyclic3();
    let b = cyclic3_swapped();
    assert_eq!(a.orthogonal_to(&b), b.orthogonal_to(&a));
    let c = square(2, &[&[1, 2], &[2, 1]]);
    let d = square(2, &[&[2, 1], &[1, 2]]);
    assert_eq!(c.orthogonal_to(&d), d.orthogonal_to(&c));
}

#[test]
fn the_two_cyclic_orderings_are_orthogonal() {
    let a = cyclic3();
    let b = cyclic3_swapped();
    assert!(a.orthogonal_to(&b));
    assert!(b.orthogonal_to(&a));
}

#[test]
fn a_square_is_not_orthogonal_to_itself() {
    let a = cyclic3();
    assert!(!a.orthogonal_to(&a));
    let c = square(2, &[&[1, 2], &[2, 1]]);
    assert!(!c.orthogonal_to(&c));
}

#[test]
fn permutation_search_finds_an_orthogonal_ordering() {
    let a = cyclic3();
    // some ordering of a's own rows is orthogonal to a
    assert!(generate_semi_reduced_and_orth_check(3, &a, &a));
}

#[test]
fn permutation_search_exhausts_without_a_mate() {
    let c = square(2, &[&[1, 2], &[2, 1]]);
    // both orderings of the two rows fail, so the search reports false
    assert!(!generate_semi_reduced_and_orth_check(2, &c, &c));
}

#[test]
fn order_3_has_an_orthogonal_pair() {
    let found = find_orthogonal_pair(3).expect("order is valid");
    let (a, b) = found.expect("orthogonal Latin squares of order 3 exist");
    assert_eq!(a.order, 3);
    assert_eq!(b.order, 3);
    assert!(a.orthogonal_to(&b));
    // the first square of the pair is reduced
    for i in 0..3 {
        assert_eq!(a.entries[0][i], 1u16 << i);
        assert_eq!(a.entries[i][0], 1u16 << i);
    }
}

#[test]
fn order_2_has_no_orthogonal_pair() {
    let found = find_orthogonal_pair(2).expect("order is valid");
    assert!(found.is_none());
}

#[test]
fn order_1_pairs_trivially() {
    let found = find_orthogonal_pair(1).expect("order is valid");
    let (a, b) = found.expect("the 1 by 1 square is orthogonal to itself");
    assert_eq!(a.entries, vec![vec![1]]);
    assert_eq!(b.entries, vec![vec![1]]);
}

#[test]
fn invalid_orders_are_rejected() {
    assert!(find_orthogonal_pair(0).is_err());
    assert!(find_orthogonal_pair(17).is_err());
}

fn assert_orderings_visit_each_once(square: &LatinSquare, expected: usize) {
    let orderings = row_orderings(square);
    assert_eq!(orderings.len(), expected);
    let mut original_rows = square.entries.clone();
    original_rows.sort();
    for a in 0..orderings.len() {
        // each visited grid is an ordering of the original rows
        let mut rows = orderings[a].entries.clone();
        rows.sort();
        assert_eq!(rows, original_rows);
        // and no ordering is visited twice
        for b in 0..a {
            assert_ne!(orderings[a].entries, orderings[b].entries);
        }
    }
}

#[test]
fn three_rows_give_six_orderings() {
    assert_orderings_visit_each_once(&cyclic3(), 6);
}

#[test]
fn four_rows_give_twenty_four_orderings() {
    let squares = generate_all_reduced_latin_squares(4).expect("order is valid");
    assert_orderings_visit_each_once(&squares[0], 24);
}
