use mines::field::{Cell, CellState, CellValue, Field};

const DEMO_MINES: [(usize, usize); 10] = [
    (0, 4), (0, 7),
    (2, 0), (2, 1),
    (3, 1),
    (4, 3),
    (5, 3), (5, 6),
    (7, 0), (7, 3),
];

fn demo_field() -> Field {
    Field::new_with_mines_at(8, 8, &DEMO_MINES)
}

#[test]
fn cell_default_is_an_unflagged_empty_cell() {
    let cell = Cell::default();
    assert_eq!(cell.value, CellValue::Value(0));
    assert_eq!(cell.state, CellState::Unflagged);
}

#[test]
fn mines_are_where_they_were_placed_and_counts_around_them() {
    let field = demo_field();
    assert_eq!(field.rows(), 8);
    assert_eq!(field.cols(), 8);
    assert_eq!(
        field.values_string(),
        "   1M11M\n22111111\nMM2     \n3M311   \n113M2111\n  2M21M1\n11222111\nM11M1   "
    );
    for row in 0..8 {
        for col in 0..8 {
            let cell = field.cell(row, col);
            assert_eq!(cell.state, CellState::Unflagged);
            assert_eq!(cell.value == CellValue::Mine, DEMO_MINES.contains(&(row, col)));
        }
    }
    assert_eq!(field.cell(3, 0).value, CellValue::Value(3));
    assert_eq!(field.cell(6, 4).value, CellValue::Value(2));
}

#[test]
fn bool_matrix_gives_the_same_field() {
    let mut matrix = vec![vec![false; 3]; 2];
    matrix[0][1] = true;
    let field = Field::new_from_bool_matrix(2, 3, matrix);
    assert_eq!(field.values_string(), "1M1\n111");
}

#[test]
fn an_empty_field_has_no_lines() {
    let field = Field::new_with_mines_at(0, 5, &[]);
    assert_eq!(field.display_string(), "");
    assert!(!field.lost());
    assert!(field.won());
}

#[test]
fn neighbors_are_listed_row_by_row_and_in_bounds() {
    let field = demo_field();
    assert_eq!(field.neighbors_of(0, 0), vec![(0, 1), (1, 0), (1, 1)]);
    assert_eq!(
        field.neighbors_of(3, 3),
        vec![(2, 2), (2, 3), (2, 4), (3, 2), (3, 4), (4, 2), (4, 3), (4, 4)]
    );
    assert_eq!(field.neighbors_of(7, 7), vec![(6, 6), (6, 7), (7, 6)]);
    assert_eq!(field.neighbors_of(0, 5), vec![(0, 4), (0, 6), (1, 4), (1, 5), (1, 6)]);
}

#[test]
fn one_by_one_field_has_no_neighbors() {
    let field = Field::new_with_mines_at(1, 1, &[]);
    assert_eq!(field.neighbors_of(0, 0), Vec::<(usize, usize)>::new());
}

#[test]
fn demo_game_plays_out() {
    let mut field = demo_field();
    field.reveal_cell(2, 7);
    assert_eq!(
        field.display_string(),
        "········\n··111111\n··2     \n··311   \n····2111\n········\n········\n········"
    );
    assert!(!field.lost());
    assert!(!field.won());

    field.reveal_cell(5, 0);
    assert_eq!(
        field.display_string(),
        "········\n··111111\n··2     \n··311   \n113·2111\n  2·····\n112·····\n········"
    );

    field.auto_flag(3, 2);
    assert_eq!(
        field.display_string(),
        "········\n··111111\n·⚐2     \n·⚐311   \n113⚐2111\n  2·····\n112·····\n········"
    );

    field.auto_reveal(2, 2);
    assert_eq!(
        field.display_string(),
        "········\n·2111111\n·⚐2     \n·⚐311   \n113⚐2111\n  2·····\n112·····\n········"
    );
    assert!(!field.lost());
    assert!(!field.won());
}

#[test]
fn revealing_a_number_reveals_only_that_cell() {
    let mut field = demo_field();
    field.reveal_cell(0, 3);
    assert_eq!(field.cell(0, 3).state, CellState::Revealed);
    assert_eq!(field.revealed_cells().len(), 1);
    assert_eq!(field.not_revealed_cells().len(), 63);
}

#[test]
fn revealing_a_mine_loses() {
    let mut field = demo_field();
    field.reveal_cell(0, 4);
    assert!(field.lost());
    assert!(!field.won());
    assert_eq!(field.revealed_cells().len(), 1);
}

#[test]
fn revealing_every_safe_cell_wins() {
    let mut field = Field::new_with_mines_at(2, 2, &[(1, 1)]);
    field.reveal_cell(0, 0);
    assert!(!field.won());
    field.reveal_cell(0, 1);
    field.reveal_cell(1, 0);
    assert!(field.won());
    assert!(!field.lost());
    assert_eq!(field.display_string(), "11\n1·");
}

#[test]
fn an_empty_field_opens_at_once() {
    let mut field = Field::new_with_mines_at(3, 4, &[]);
    field.reveal_cell(1, 1);
    assert_eq!(field.display_string(), "    \n    \n    ");
    assert!(field.won());
}

#[test]
fn revealing_spreads_through_flags() {
    let mut field = Field::new_with_mines_at(1, 4, &[]);
    field.flag(0, 2);
    field.reveal_cell(0, 0);
    assert_eq!(field.cell(0, 2).state, CellState::Revealed);
    assert_eq!(field.display_string(), "    ");
}

#[test]
fn revealing_twice_is_revealing_once() {
    let mut once = demo_field();
    once.reveal_cell(2, 7);
    let mut twice = demo_field();
    twice.reveal_cell(2, 7);
    twice.reveal_cell(2, 7);
    assert_eq!(once.display_string(), twice.display_string());
}

#[test]
fn flag_only_touches_unflagged_cells() {
    let mut field = demo_field();
    field.flag(0, 0);
    assert_eq!(field.cell(0, 0).state, CellState::Flagged);
    field.flag(0, 0);
    assert_eq!(field.cell(0, 0).state, CellState::Flagged);
    field.reveal_cell(0, 3);
    field.flag(0, 3);
    assert_eq!(field.cell(0, 3).state, CellState::Revealed);
}

#[test]
fn unflag_undoes_flag() {
    let mut field = demo_field();
    let before = field.display_string();
    field.flag(4, 4);
    assert_ne!(field.display_string(), before);
    field.unflag(4, 4);
    assert_eq!(field.display_string(), before);
    field.unflag(4, 4);
    assert_eq!(field.display_string(), before);
}

#[test]
fn flags_do_not_change_the_outcome() {
    let mut field = demo_field();
    field.flag(0, 4);
    assert!(!field.lost());
    field.reveal_cell(0, 4);
    assert!(field.lost());
}

#[test]
fn auto_flag_needs_a_matching_count() {
    let mut field = demo_field();
    let before = field.display_string();
    field.auto_flag(3, 2);
    assert_eq!(field.display_string(), before);
    field.reveal_cell(0, 5);
    let shown = field.display_string();
    field.auto_flag(0, 5);
    assert_eq!(field.display_string(), shown);
}

#[test]
fn auto_flag_flags_the_only_hidden_neighbor() {
    let mut field = Field::new_with_mines_at(1, 2, &[(0, 1)]);
    field.reveal_cell(0, 0);
    field.auto_flag(0, 0);
    assert_eq!(field.display_string(), "1⚐");
    field.auto_flag(0, 0);
    assert_eq!(field.display_string(), "1⚐");
}

#[test]
fn auto_reveal_needs_the_count_of_flags() {
    let mut field = demo_field();
    field.reveal_cell(0, 5);
    field.auto_reveal(0, 5);
    assert_eq!(field.revealed_cells().len(), 1);
    field.flag(0, 4);
    field.auto_reveal(0, 5);
    assert_eq!(field.cell(0, 6).state, CellState::Revealed);
    assert_eq!(field.cell(1, 4).state, CellState::Revealed);
    assert_eq!(field.cell(1, 5).state, CellState::Revealed);
    assert_eq!(field.cell(1, 6).state, CellState::Revealed);
    assert_eq!(field.cell(0, 4).state, CellState::Flagged);
    assert!(!field.lost());
}

#[test]
fn auto_reveal_with_a_wrong_flag_loses() {
    let mut field = demo_field();
    field.reveal_cell(0, 5);
    field.flag(0, 6);
    field.auto_reveal(0, 5);
    assert!(field.lost());
}

#[test]
fn auto_reveal_does_nothing_on_a_mine() {
    let mut field = demo_field();
    field.auto_reveal(0, 4);
    assert_eq!(field.revealed_cells().len(), 0);
}

#[test]
fn cells_are_listed_row_by_row() {
    let field = Field::new_with_mines_at(2, 2, &[(0, 1)]);
    let cells = field.iter();
    assert_eq!(cells.len(), 4);
    assert_eq!(cells[0].value, CellValue::Value(1));
    assert_eq!(cells[1].value, CellValue::Mine);
    assert_eq!(cells[2].value, CellValue::Value(1));
    assert_eq!(cells[3].value, CellValue::Value(1));
}

#[test]
fn display_with_format_uses_the_given_renderer() {
    let field = Field::new_with_mines_at(2, 3, &[(1, 2)]);
    let text = field.display_with_format(|cell: &Cell| match cell.value {
        CellValue::Mine => '*',
        CellValue::Value(_) => '.',
    });
    assert_eq!(text, "...\n..*");
}

#[test]
fn revealed_empty_cells_have_their_neighbors_revealed() {
    let mut field = demo_field();
    field.reveal_cell(2, 7);
    field.reveal_cell(5, 0);
    field.flag(0, 0);
    field.auto_flag(3, 2);
    field.auto_reveal(2, 2);
    for row in 0..8 {
        for col in 0..8 {
            let cell = field.cell(row, col);
            if cell.state == CellState::Revealed && cell.value == CellValue::Value(0) {
                for (r, c) in field.neighbors_of(row, col) {
                    assert_eq!(field.cell(r, c).state, CellState::Revealed);
                }
            }
        }
    }
}

#[test]
fn neighbors_know_each_other() {
    let field = demo_field();
    for row in 0..8 {
        for col in 0..8 {
            for (r, c) in field.neighbors_of(row, col) {
                assert!(field.neighbors_of(r, c).contains(&(row, col)));
            }
        }
    }
}

#[test]
fn auto_flag_works_on_a_hidden_cell_too() {
    let mut field = Field::new_with_mines_at(1, 2, &[(0, 1)]);
    field.auto_flag(0, 0);
    assert_eq!(field.cell(0, 0).state, CellState::Unflagged);
    assert_eq!(field.cell(0, 1).state, CellState::Flagged);
}

#[test]
fn debug_text_shows_the_size_and_every_value() {
    let field = Field::new_with_mines_at(2, 2, &[(0, 0)]);
    assert_eq!(field.debug_string(), "Field with 2 rows and 2 cols:\nM1\n11");
    let big = Field::new_with_mines_at(16, 30, &[]);
    assert!(big.debug_string().starts_with("Field with 16 rows and 30 cols:\n"));
    let empty = Field::new_with_mines_at(0, 0, &[]);
    assert_eq!(empty.debug_string(), "Field with 0 rows and 0 cols:\n");
}

#[test]
fn a_field_without_columns_needs_no_matrix() {
    let field = Field::new_from_bool_matrix(3, 0, Vec::new());
    assert_eq!(field.rows(), 3);
    assert_eq!(field.cols(), 0);
    assert_eq!(field.display_string(), "\n\n");
}

#[test]
fn transposing_the_mines_transposes_the_values() {
    let rows = 3;
    let cols = 5;
    let mut matrix = vec![vec![false; cols]; rows];
    matrix[0][1] = true;
    matrix[2][4] = true;
    matrix[1][2] = true;
    let mut transposed = vec![vec![false; rows]; cols];
    for r in 0..rows {
        for c in 0..cols {
            transposed[c][r] = matrix[r][c];
        }
    }
    let field = Field::new_from_bool_matrix(rows, cols, matrix);
    let mirror = Field::new_from_bool_matrix(cols, rows, transposed);
    for r in 0..rows {
        for c in 0..cols {
            assert_eq!(field.cell(r, c).value, mirror.cell(c, r).value);
        }
    }
}
