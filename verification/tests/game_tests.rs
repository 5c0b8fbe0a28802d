use mines::field::{CellState, CellValue};
use mines::game::{candidate_cells, wrap_position, Game, GameStatus};
use mines::keys::{game_action, menu_action, Action, Key};
use mines::menu::{menu_option, MenuAction, StartMenu, UserQuit, MENU_OPTION_COUNT};

#[test]
fn menu_offers_three_difficulties() {
    assert_eq!(MENU_OPTION_COUNT, 3);
    assert_eq!(menu_option(0), (16, 30, 99));
    assert_eq!(menu_option(1), (16, 16, 40));
    assert_eq!(menu_option(2), (8, 8, 10));
}

#[test]
fn menu_selection_wraps_around() {
    let mut menu = StartMenu::new(Vec::<u8>::new());
    assert_eq!(menu.current_selection(), 0);
    menu.move_up();
    assert_eq!(menu.current_selection(), 2);
    menu.move_down();
    assert_eq!(menu.current_selection(), 0);
    menu.move_down();
    menu.move_down();
    assert_eq!(menu.current_selection(), 2);
    menu.move_down();
    assert_eq!(menu.current_selection(), 0);
}

#[test]
fn menu_confirms_quits_and_ignores() {
    let mut menu = StartMenu::new(7u32);
    assert_eq!(menu.handle_input(MenuAction::MoveLeft), Ok(None));
    assert_eq!(menu.handle_input(MenuAction::MoveRight), Ok(None));
    assert_eq!(menu.handle_input(MenuAction::MoveDown), Ok(None));
    assert_eq!(menu.current_selection(), 1);
    assert_eq!(menu.handle_input(MenuAction::Confirm), Ok(Some((16, 16, 40))));
    assert_eq!(menu.handle_input(MenuAction::MoveUp), Ok(None));
    assert_eq!(menu.selected_option(), (16, 30, 99));
    assert_eq!(menu.handle_input(MenuAction::Quit), Err(UserQuit));
    *menu.output_mut() += 1;
    assert_eq!(menu.take_stdout(), 8);
}

#[test]
fn cursor_wraps_at_both_ends() {
    assert_eq!(wrap_position(0, -1, 30), 29);
    assert_eq!(wrap_position(29, 1, 30), 0);
    assert_eq!(wrap_position(5, 1, 30), 6);
    assert_eq!(wrap_position(5, -1, 30), 4);
    assert_eq!(wrap_position(5, 0, 30), 5);
    assert_eq!(wrap_position(40, 0, 30), 0);
    assert_eq!(wrap_position(0, -1, 1), 0);
}

#[test]
fn cursor_arithmetic_is_that_of_i16() {
    assert_eq!(wrap_position(0x9000, 0, 10), 9);
    assert_eq!(wrap_position(3, 0, 0), 0);
    assert_eq!(wrap_position(0, -1, 0), u16::MAX);
}

#[test]
fn candidates_leave_out_the_square_around_the_cursor() {
    let cells = candidate_cells(3, 4, 0, 0);
    assert_eq!(cells, vec![(0, 2), (0, 3), (1, 2), (1, 3), (2, 0), (2, 1), (2, 2), (2, 3)]);
    assert_eq!(candidate_cells(3, 3, 1, 1), Vec::<(usize, usize)>::new());
    assert_eq!(candidate_cells(16, 30, 8, 15).len(), 16 * 30 - 9);
}

#[test]
fn game_waits_for_the_first_reveal() {
    let mut game = Game::new(8, 8, 10);
    assert!(game.field().is_none());
    assert_eq!(game.status(), GameStatus::Playing);
    assert_eq!(game.flagged_mines(), 0);
    game.flag(3, 3);
    assert!(game.field().is_none());
}

#[test]
fn first_reveal_lays_mines_away_from_the_cursor() {
    for _ in 0..20 {
        let mut game = Game::new(8, 8, 10);
        assert_eq!(game.reveal_at(4, 5), Ok(()));
        let field = game.field().expect("mines are laid");
        assert_eq!(field.rows(), 8);
        assert_eq!(field.cols(), 8);
        let mut mines = 0;
        for row in 0..8usize {
            for col in 0..8usize {
                if field.cell(row, col).value == CellValue::Mine {
                    mines += 1;
                    assert!(row.abs_diff(4) > 1 || col.abs_diff(5) > 1);
                }
            }
        }
        assert_eq!(mines, 10);
        assert_eq!(field.cell(4, 5).value, CellValue::Value(0));
        assert_eq!(field.cell(4, 5).state, CellState::Revealed);
        assert!(!field.lost());
        assert_ne!(game.status(), GameStatus::Lost);
    }
}

#[test]
fn too_many_mines_fill_every_far_cell() {
    let mut game = Game::new(4, 4, 100);
    assert_eq!(game.reveal_at(0, 0), Ok(()));
    let field = game.field().expect("mines are laid");
    let mines = field.iter().iter().filter(|cell| cell.value == CellValue::Mine).count();
    assert_eq!(mines, 16 - 4);
    assert_eq!(game.status(), GameStatus::Won);
}

#[test]
fn game_flag_key_toggles_and_counts_flagged_mines() {
    let mut game = Game::new(4, 4, 100);
    assert_eq!(game.reveal_at(0, 0), Ok(()));
    game.flag(3, 3);
    assert_eq!(game.field().unwrap().cell(3, 3).state, CellState::Flagged);
    assert_eq!(game.flagged_mines(), 1);
    game.flag(3, 3);
    assert_eq!(game.field().unwrap().cell(3, 3).state, CellState::Unflagged);
    assert_eq!(game.flagged_mines(), 0);
    game.flag(1, 1);
    assert_eq!(game.field().unwrap().cell(1, 1).state, CellState::Revealed);
}

#[test]
fn game_reveal_key_on_a_mine_loses() {
    let mut game = Game::new(4, 4, 100);
    assert_eq!(game.reveal_at(0, 0), Ok(()));
    assert_eq!(game.reveal_at(3, 3), Ok(()));
    assert_eq!(game.status(), GameStatus::Lost);
}

#[test]
fn user_quit_says_so() {
    assert_eq!(UserQuit.message(), "User quit.");
}

#[test]
fn the_output_handle_comes_back() {
    let mut menu = StartMenu::new(String::from("screen"));
    menu.move_up();
    menu.move_down();
    let _ = menu.handle_input(MenuAction::MoveDown);
    let _ = menu.handle_input(MenuAction::Confirm);
    assert_eq!(menu.take_stdout(), "screen");
}

#[test]
fn game_keys() {
    assert_eq!(game_action(Key::Char('d')), Some(Action::Reveal));
    assert_eq!(game_action(Key::Char('f')), Some(Action::Flag));
    assert_eq!(game_action(Key::Char('h')), Some(Action::MoveLeft));
    assert_eq!(game_action(Key::Left), Some(Action::MoveLeft));
    assert_eq!(game_action(Key::Char('j')), Some(Action::MoveDown));
    assert_eq!(game_action(Key::Down), Some(Action::MoveDown));
    assert_eq!(game_action(Key::Char('k')), Some(Action::MoveUp));
    assert_eq!(game_action(Key::Up), Some(Action::MoveUp));
    assert_eq!(game_action(Key::Char('l')), Some(Action::MoveRight));
    assert_eq!(game_action(Key::Right), Some(Action::MoveRight));
    assert_eq!(game_action(Key::Char('q')), Some(Action::Quit));
    assert_eq!(game_action(Key::Enter), None);
    assert_eq!(game_action(Key::Char('x')), None);
    assert_eq!(game_action(Key::Other), None);
}

#[test]
fn menu_keys() {
    assert_eq!(menu_action(Key::Char('d')), Some(MenuAction::Confirm));
    assert_eq!(menu_action(Key::Enter), Some(MenuAction::Confirm));
    assert_eq!(menu_action(Key::Char('h')), Some(MenuAction::MoveLeft));
    assert_eq!(menu_action(Key::Down), Some(MenuAction::MoveDown));
    assert_eq!(menu_action(Key::Char('k')), Some(MenuAction::MoveUp));
    assert_eq!(menu_action(Key::Right), Some(MenuAction::MoveRight));
    assert_eq!(menu_action(Key::Char('q')), Some(MenuAction::Quit));
    assert_eq!(menu_action(Key::Char('f')), None);
    assert_eq!(menu_action(Key::Other), None);
}
