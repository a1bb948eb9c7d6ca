use latin_squares::LatinSquare;
use latin_squares::generate_all_reduced_latin_squares;
use latin_squares::generate_next_values;
use latin_squares::get_bits;
use latin_squares::get_next_allowed;
use latin_squares::scan_for_first_zero;

fn square(order: usize, rows: &[&[u16]]) -> LatinSquare {
    let entries: Vec<Vec<u16>> = rows.iter().map(|r| r.to_vec()).collect();
    assert_eq!(entries.len(), order);
    LatinSquare { order, entries }
}

fn count_for(order: usize) -> usize {
    generate_all_reduced_latin_squares(order)
        .expect("order is valid")
        .len()
}

#[test]
fn golden_count_order_1() {
    assert_eq!(count_for(1), 1);
}

#[test]
fn golden_count_order_2() {
    assert_eq!(count_for(2), 1);
}

#[test]
fn golden_count_order_3() {
    assert_eq!(count_for(3), 1);
}

#[test]
fn golden_count_order_4() {
    assert_eq!(count_for(4), 4);
}

#[test]
fn golden_count_order_5() {
    assert_eq!(count_for(5), 56);
}

#[test]
fn order_zero_is_rejected() {
    assert!(generate_all_reduced_latin_squares(0).is_err());
}

#[test]
fn order_past_mask_width_is_rejected() {
    assert!(generate_all_reduced_latin_squares(17).is_err());
}

#[test]
fn rows_and_columns_are_permutations() {
    let squares = generate_all_reduced_latin_squares(4).expect("order is valid");
    for s in &squares {
        let sym = s.to_symbols();
        for i in 0..4 {
            let mut row_seen = [false; 5];
            let mut col_seen = [false; 5];
            for j in 0..4 {
                assert!(!row_seen[sym[i][j]], "row {} repeats a symbol", i);
                row_seen[sym[i][j]] = true;
                assert!(!col_seen[sym[j][i]], "column {} repeats a symbol", i);
                col_seen[sym[j][i]] = true;
            }
            for k in 1..=4 {
                assert!(row_seen[k] && col_seen[k]);
            }
        }
    }
}

#[test]
fn generated_squares_are_distinct() {
    let squares = generate_all_reduced_latin_squares(4).expect("order is valid");
    for a in 0..squares.len() {
        for b in 0..squares.len() {
            if a != b {
                assert_ne!(squares[a].entries, squares[b].entries);
            }
        }
    }
}

#[test]
fn generated_squares_keep_the_skeleton() {
    let squares = generate_all_reduced_latin_squares(4).expect("order is valid");
    for s in &squares {
        for i in 0..4 {
            assert_eq!(s.entries[0][i], 1u16 << i);
            assert_eq!(s.entries[i][0], 1u16 << i);
        }
    }
}

#[test]
fn order_3_generates_the_cyclic_square() {
    let squares = generate_all_reduced_latin_squares(3).expect("order is valid");
    assert_eq!(squares.len(), 1);
    assert_eq!(squares[0].entries, vec![vec![1, 2, 4], vec![2, 4, 1], vec![4, 1, 2]]);
}

#[test]
fn dead_end_grid_generates_nothing() {
    // cell (1, 2) has an empty candidate mask: row 1 holds {2, 1}, column 2
    // holds {4}, so nothing is left of the alphabet {1, 2, 4}
    let g = square(3, &[&[1, 2, 4], &[2, 1, 0], &[4, 0, 0]]);
    let out = generate_next_values(&g);
    assert!(out.is_empty());
}

#[test]
fn scan_finds_first_gap_in_row_major_order() {
    let g = square(3, &[&[1, 2, 4], &[2, 0, 0], &[4, 0, 0]]);
    assert_eq!(scan_for_first_zero(&g), Some((1, 1)));
    let g2 = square(3, &[&[1, 2, 4], &[2, 4, 0], &[4, 0, 0]]);
    assert_eq!(scan_for_first_zero(&g2), Some((1, 2)));
    let full = square(3, &[&[1, 2, 4], &[2, 4, 1], &[4, 1, 2]]);
    assert_eq!(scan_for_first_zero(&full), None);
}

#[test]
fn next_allowed_reports_candidates_completion_and_dead_ends() {
    let g = square(3, &[&[1, 2, 4], &[2, 0, 0], &[4, 0, 0]]);
    let av = get_next_allowed(&g).expect("an unfilled cell with candidates");
    assert_eq!((av.x, av.y), (1, 1));
    assert_eq!(av.allowed, 0b101);
    let full = square(3, &[&[1, 2, 4], &[2, 4, 1], &[4, 1, 2]]);
    assert!(matches!(get_next_allowed(&full), Err(true)));
    let stuck = square(3, &[&[1, 2, 4], &[2, 1, 0], &[4, 0, 0]]);
    assert!(matches!(get_next_allowed(&stuck), Err(false)));
}

#[test]
fn get_bits_splits_a_mask_into_symbols() {
    assert_eq!(get_bits(0b101, 3), vec![1, 4]);
    assert_eq!(get_bits(0b111, 3), vec![1, 2, 4]);
    assert_eq!(get_bits(0, 3), Vec::<u16>::new());
    assert_eq!(get_bits(0b100000, 3), Vec::<u16>::new());
}

#[test]
fn to_symbols_drops_the_bitmask_encoding() {
    let g = square(2, &[&[1, 2], &[2, 1]]);
    assert_eq!(g.to_symbols(), vec![vec![1, 2], vec![2, 1]]);
    let g3 = square(3, &[&[1, 2, 4], &[2, 4, 1], &[4, 1, 2]]);
    assert_eq!(g3.to_symbols(), vec![vec![1, 2, 3], vec![2, 3, 1], vec![3, 1, 2]]);
}
