use minesweeper::controller::{print_slot, Outcome};
use minesweeper::grid::{Game, Phase, Pos, Slot};
use minesweeper::placement::CHANCE_SCALE;

fn board_of(rows: Vec<Vec<Slot>>, phase: Phase) -> Game {
    Game { board: rows, phase }
}

fn chars(s: &str) -> Vec<char> {
    s.chars().collect()
}

#[test]
fn new_rejects_zero_sizes() {
    assert!(Game::new(0, 3).is_none());
    assert!(Game::new(3, 0).is_none());
    assert!(Game::new(0, 0).is_none());
}

#[test]
fn new_board_is_blank() {
    let g = Game::new(4, 2).unwrap();
    assert_eq!(g.width(), 4);
    assert_eq!(g.height(), 2);
    assert_eq!(g.phase, Phase::Setup);
    for row in &g.board {
        assert_eq!(row.len(), 4);
        for s in row {
            assert_eq!(*s, Slot::Empty(false, 0));
        }
    }
}

#[test]
fn is_mine_off_board_is_false() {
    let g = board_of(vec![vec![Slot::Mine(false), Slot::Mine(true)]], Phase::Active);
    assert!(g.is_mine(Pos(0, 0)));
    assert!(g.is_mine(Pos(1, 0)));
    assert!(!g.is_mine(Pos(2, 0)));
    assert!(!g.is_mine(Pos(-1, 0)));
    assert!(!g.is_mine(Pos(0, 1)));
    assert!(!g.is_mine(Pos(0, -1)));
}

#[test]
fn place_mines_spares_row_and_column_of_safe() {
    let mut g = Game::new(3, 3).unwrap();
    let draws = vec![vec![0u32; 3]; 3];
    g.place_mines(Pos(1, 1), &draws, 1);
    for y in 0..3usize {
        for x in 0..3usize {
            let expect_mine = x != 1 && y != 1;
            assert_eq!(g.is_mine(Pos(x as i32, y as i32)), expect_mine);
        }
    }
}

#[test]
fn place_mines_follows_the_draws() {
    let mut g = Game::new(3, 2).unwrap();
    let draws = vec![vec![5u32, 10, 4], vec![9, 11, 3]];
    g.place_mines(Pos(0, 0), &draws, 10);
    assert_eq!(g.board[0], vec![Slot::Empty(false, 0); 3]);
    assert_eq!(g.board[1], vec![Slot::Empty(false, 0), Slot::Empty(false, 0), Slot::Mine(false)]);
}

#[test]
fn finalize_counts_are_exact() {
    let mut g = board_of(
        vec![
            vec![Slot::Mine(false), Slot::Empty(false, 7), Slot::Empty(false, 0)],
            vec![Slot::Empty(false, 0), Slot::Empty(false, 0), Slot::Mine(false)],
            vec![Slot::Mine(false), Slot::Empty(true, 0), Slot::Empty(false, 0)],
        ],
        Phase::Setup,
    );
    g.finalize_counts();
    assert_eq!(g.board[0], vec![Slot::Mine(false), Slot::Empty(false, 2), Slot::Empty(false, 1)]);
    assert_eq!(g.board[1], vec![Slot::Empty(false, 2), Slot::Empty(false, 3), Slot::Mine(false)]);
    assert_eq!(g.board[2], vec![Slot::Mine(false), Slot::Empty(true, 2), Slot::Empty(false, 1)]);
}

#[test]
fn count_of_a_mine_is_the_mine() {
    let g = board_of(vec![vec![Slot::Mine(false), Slot::Empty(false, 0)]], Phase::Setup);
    assert_eq!(g.count(Pos(0, 0)), Slot::Mine(false));
    assert_eq!(g.count(Pos(1, 0)), Slot::Empty(false, 1));
}

#[test]
fn populate_with_zero_chance_lays_nothing() {
    let mut g = Game::new(5, 4).unwrap();
    g.populate(Pos(2, 2), 0);
    assert_eq!(g.phase, Phase::Active);
    for row in &g.board {
        for s in row {
            assert_eq!(*s, Slot::Empty(false, 0));
        }
    }
}

#[test]
fn populate_with_full_chance_fills_the_eligible_cells() {
    let mut g = Game::new(4, 3).unwrap();
    g.populate(Pos(0, 1), CHANCE_SCALE);
    for y in 0..3i32 {
        for x in 0..4i32 {
            assert_eq!(g.is_mine(Pos(x, y)), x != 0 && y != 1);
        }
    }
    // (0, 0) touches (1, 0) and (1, 1); (1, 1) is in the safe row, (1, 0) is not.
    assert_eq!(g.board[0][0], Slot::Empty(false, 1));
    assert_eq!(g.board[1][0], Slot::Empty(false, 2));
    assert_eq!(g.board[1][2], Slot::Empty(false, 6));
}

#[test]
fn one_by_one_with_no_mines_is_won_at_once() {
    let mut g = Game::new(1, 1).unwrap();
    let r = g.play(Pos(0, 0), 0);
    assert_eq!(r, Outcome::Won);
    assert_eq!(g.board[0][0], Slot::Empty(true, 0));
    assert_eq!(g.phase, Phase::Terminal);
    assert!(!g.still_mines());
}

#[test]
fn full_density_three_by_three_counts_four() {
    let mut g = Game::new(3, 3).unwrap();
    let r = g.play(Pos(1, 1), CHANCE_SCALE);
    assert_eq!(r, Outcome::Continue);
    assert_eq!(g.board[1][1], Slot::Empty(true, 4));
    for (x, y) in [(0, 0), (2, 0), (0, 2), (2, 2)] {
        assert_eq!(g.board[y][x], Slot::Mine(false));
    }
    for (x, y) in [(1, 0), (0, 1), (2, 1), (1, 2)] {
        assert!(!g.is_mine(Pos(x as i32, y as i32)));
        assert_eq!(g.board[y][x], Slot::Empty(false, 2));
    }
    assert_eq!(g.phase, Phase::Active);
}

#[test]
fn tripping_a_mine_loses_and_shows_it() {
    let mut g = Game::new(3, 3).unwrap();
    assert_eq!(g.play(Pos(1, 1), CHANCE_SCALE), Outcome::Continue);
    assert_eq!(g.play(Pos(0, 0), CHANCE_SCALE), Outcome::Lost);
    assert_eq!(g.phase, Phase::Terminal);
    assert_eq!(g.board[0][0], Slot::Mine(true));
    assert_eq!(g.row_glyphs(0), chars("!??"));
    assert_eq!(g.row_glyphs(1), chars("?4?"));
    assert_eq!(g.row_glyphs(2), chars("???"));
    assert_eq!(g.play(Pos(2, 2), CHANCE_SCALE), Outcome::Over);
    assert_eq!(g.board[2][2], Slot::Mine(false));
}

#[test]
fn tripping_the_last_mine_is_still_a_loss() {
    let mut g = board_of(
        vec![vec![Slot::Mine(false), Slot::Empty(false, 1)]],
        Phase::Active,
    );
    assert_eq!(g.play(Pos(0, 0), 0), Outcome::Lost);
    assert!(!g.still_mines());
}

#[test]
fn move_on_a_visible_cell_reports_it() {
    let mut g = board_of(
        vec![vec![Slot::Mine(false), Slot::Empty(true, 1)]],
        Phase::Active,
    );
    assert_eq!(g.play(Pos(1, 0), 0), Outcome::AlreadyRevealed);
    assert_eq!(g.board[0], vec![Slot::Mine(false), Slot::Empty(true, 1)]);
    assert_eq!(g.phase, Phase::Active);
}

#[test]
fn move_off_the_board_changes_nothing() {
    let mut g = Game::new(2, 2).unwrap();
    assert_eq!(g.play(Pos(2, 0), CHANCE_SCALE), Outcome::OffBoard);
    assert_eq!(g.play(Pos(0, -1), CHANCE_SCALE), Outcome::OffBoard);
    assert_eq!(g.phase, Phase::Setup);
    assert_eq!(g.board, vec![vec![Slot::Empty(false, 0); 2]; 2]);
}

#[test]
fn win_check_cases() {
    let tripped = board_of(vec![vec![Slot::Mine(true), Slot::Empty(false, 1)]], Phase::Terminal);
    assert!(!tripped.still_mines());
    let none = board_of(vec![vec![Slot::Empty(false, 0), Slot::Empty(true, 0)]], Phase::Active);
    assert!(!none.still_mines());
    let live = board_of(vec![vec![Slot::Mine(true), Slot::Mine(false)]], Phase::Terminal);
    assert!(live.still_mines());
}

#[test]
fn uncover_twice_changes_nothing_more() {
    let mut g = board_of(
        vec![
            vec![Slot::Empty(false, 0), Slot::Empty(false, 1), Slot::Mine(false)],
            vec![Slot::Empty(false, 0), Slot::Empty(false, 1), Slot::Empty(false, 1)],
        ],
        Phase::Active,
    );
    g.uncover(Pos(0, 0));
    let once = g.board.clone();
    g.uncover(Pos(0, 0));
    assert_eq!(g.board, once);
    assert_eq!(once[0], vec![Slot::Empty(true, 0), Slot::Empty(true, 1), Slot::Mine(false)]);
    assert_eq!(once[1], vec![Slot::Empty(true, 0), Slot::Empty(true, 1), Slot::Empty(false, 1)]);
}

#[test]
fn uncover_non_zero_cell_stops() {
    let mut g = board_of(
        vec![vec![Slot::Empty(false, 1), Slot::Empty(false, 0)]],
        Phase::Active,
    );
    g.uncover(Pos(0, 0));
    assert_eq!(g.board[0], vec![Slot::Empty(true, 1), Slot::Empty(false, 0)]);
    g.uncover(Pos(5, 5));
    assert_eq!(g.board[0], vec![Slot::Empty(true, 1), Slot::Empty(false, 0)]);
}

#[test]
fn uncover_fills_a_walled_pocket() {
    // A 2 by 2 pocket of zeros at columns 1..=2, rows 1..=2, walled by
    // non-zero cells and mines; the far corner column stays hidden.
    let z = Slot::Empty(false, 0);
    let n = Slot::Empty(false, 1);
    let m = Slot::Mine(false);
    let mut g = board_of(
        vec![
            vec![z, n, n, m, z],
            vec![n, z, z, n, z],
            vec![m, z, z, n, z],
            vec![z, n, m, z, z],
        ],
        Phase::Active,
    );
    g.uncover(Pos(2, 2));
    let v0 = Slot::Empty(true, 0);
    let v1 = Slot::Empty(true, 1);
    assert_eq!(g.board[0], vec![z, v1, v1, m, z]);
    assert_eq!(g.board[1], vec![v1, v0, v0, v1, z]);
    assert_eq!(g.board[2], vec![m, v0, v0, v1, z]);
    assert_eq!(g.board[3], vec![z, v1, m, z, z]);
}

#[test]
fn cascade_goes_round_corners_orthogonally() {
    let z = Slot::Empty(false, 0);
    let mut g = board_of(
        vec![
            vec![z, Slot::Mine(false), z],
            vec![z, Slot::Mine(false), z],
            vec![z, z, z],
        ],
        Phase::Active,
    );
    g.uncover(Pos(0, 0));
    let v = Slot::Empty(true, 0);
    assert_eq!(g.board[0], vec![v, Slot::Mine(false), v]);
    assert_eq!(g.board[2], vec![v, v, v]);
}

#[test]
fn glyphs_of_each_slot() {
    assert_eq!(print_slot(Slot::Mine(true)), '!');
    assert_eq!(print_slot(Slot::Mine(false)), '?');
    assert_eq!(print_slot(Slot::Empty(false, 3)), '?');
    assert_eq!(print_slot(Slot::Empty(true, 0)), '0');
    assert_eq!(print_slot(Slot::Empty(true, 8)), '8');
}

#[test]
fn random_placement_spares_the_safe_lines() {
    for _ in 0..20 {
        let mut g = Game::new(6, 5).unwrap();
        g.populate(Pos(3, 2), CHANCE_SCALE / 2);
        for y in 0..5i32 {
            for x in 0..6i32 {
                if x == 3 || y == 2 {
                    assert!(!g.is_mine(Pos(x, y)));
                }
            }
        }
    }
}
