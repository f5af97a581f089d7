use rstris::random::index_from_byte;
use rstris::game::computer::{path_to_per_height, plan_path, placings_for};
use rstris::game::eval::{
    get_max_figure_dimensions, get_pf_col_jitter, get_pf_max_height, get_pf_row_jitter,
    get_pf_total_height, init_figures, lowest_block, placing_score,
};
use rstris::game::game_logic::{
    execute_move, lock_full_lines, throw_waiting_lines, try_place_new_figure,
};
use rstris::game::human::{HumanPlayer, KeyMap};
use rstris::game::player::{MoveAndTime, PlayerCommon};
use rstris::grid::block::Block;
use rstris::grid::figure::Figure;
use rstris::grid::figure_pos::FigurePos;
use rstris::grid::find::get_valid_placing;
use rstris::grid::playfield::Playfield;
use rstris::grid::pos_dir::PosDir;
use rstris::grid::position::Position;
use rstris::movement::Movement;

fn bl(id: u8) -> Block {
    if id == 0 {
        Block::new_not_set()
    } else {
        Block::new_locked(id)
    }
}

fn square() -> Figure {
    Figure::new_from_face("4", &[&[bl(4), bl(4)], &[bl(4), bl(4)]])
}

fn follow(start: PosDir, path: &[(Movement, u64)], faces: usize) -> PosDir {
    // The path lists its last move first.
    let mut p = start;
    for (m, _) in path.iter().rev() {
        p = p.apply_move(m);
        p.normalize_dir(faces);
    }
    p
}

#[test]
fn path_levels_split_at_moves_down() {
    let path = vec![
        (Movement::MoveLeft, 1),
        (Movement::MoveDown, 2),
        (Movement::RotateCW, 3),
        (Movement::MoveRight, 4),
        (Movement::MoveDown, 5),
        (Movement::MoveDown, 6),
        (Movement::MoveLeft, 7),
    ];
    let levels = path_to_per_height(path);
    assert_eq!(levels.len(), 4);
    assert_eq!(levels[0], vec![MoveAndTime { movement: Movement::MoveLeft, time: 1 }]);
    assert_eq!(
        levels[1],
        vec![
            MoveAndTime { movement: Movement::RotateCW, time: 3 },
            MoveAndTime { movement: Movement::MoveRight, time: 4 }
        ]
    );
    assert_eq!(levels[2], vec![]);
    assert_eq!(levels[3], vec![MoveAndTime { movement: Movement::MoveLeft, time: 7 }]);
    // A path that ends with a move down has no trailing level.
    let levels = path_to_per_height(vec![(Movement::MoveDown, 1)]);
    assert_eq!(levels.len(), 1);
    assert!(levels[0].is_empty());
}

#[test]
fn bounded_search_reaches_target() {
    let pf = Playfield::new("pf", 8, 10);
    let fig = square();
    let start = PosDir::new(3, 0, 0);
    let end = PosDir::new(0, 8, 0);
    let path = rstris::grid::find::find_path(&pf, &fig, &start, &end, 10, 100);
    assert!(path.len() > 0);
    assert_eq!(follow(start, &path, 1), end);
    for i in 1..path.len() {
        assert!(path[i - 1].1 >= path[i].1);
    }
}

#[test]
fn search_reaches_target() {
    let pf = Playfield::new("pf", 8, 10);
    let fig = square();
    let start = PosDir::new(3, 0, 0);
    let end = PosDir::new(6, 8, 0);
    let path = rstris::grid::find_path::find_path(&pf, &fig, &start, &end, 10, 100);
    assert!(path.len() > 0);
    assert_eq!(follow(start, &path, 1), end);
    for i in 1..path.len() {
        assert!(path[i - 1].1 >= path[i].1);
    }
}

#[test]
fn search_finds_nothing_behind_a_wall() {
    let mut pf = Playfield::new("pf", 8, 10);
    pf.set_lines(&[5], &Block::new_locked(1));
    let fig = square();
    let start = PosDir::new(3, 0, 0);
    let end = PosDir::new(3, 8, 0);
    let path = rstris::grid::find_path::find_path(&pf, &fig, &start, &end, 10, 100);
    assert_eq!(path.len(), 0);
}

#[test]
fn valid_placings_of_square() {
    let pf = Playfield::new("pf", 6, 8);
    let fp = FigurePos::new(square(), PosDir::new(2, 0, 0));
    let placings = get_valid_placing(&pf, &fp);
    // The square rests on the floor in each of the five columns it fits.
    assert_eq!(placings.len(), 5);
    for p in &placings {
        assert_eq!(p.get_y(), 6);
    }
}

#[test]
fn computer_plans_a_path_to_its_placings() {
    let mut pf = Playfield::new("pf", 8, 10);
    let fp = FigurePos::new(square(), PosDir::new(3, 0, 0));
    fp.place(&mut pf);
    let (pf_no_fig, placings) = placings_for(&pf, &fp);
    assert_eq!(placings.len(), 10);
    assert!(!pf_no_fig.block_is_set(Position::new(3, 0)));
    let levels = plan_path(&pf_no_fig, &fp, &placings, 10, 100);
    assert!(levels.len() > 0);
}

#[test]
fn jitter_and_heights() {
    let mut pf = Playfield::new("pf", 4, 3);
    // Empty rows, the set row under the playfield and the set columns
    // beside it change nowhere.
    assert_eq!(get_pf_row_jitter(&pf), 0);
    assert_eq!(get_pf_col_jitter(&pf), 0);
    assert_eq!(get_pf_total_height(&pf), 0);
    assert_eq!(get_pf_max_height(&pf), 0);
    pf.set_block(Position::new(1, 2), Block::new_locked(1));
    assert_eq!(get_pf_row_jitter(&pf), 2);
    assert_eq!(get_pf_col_jitter(&pf), 1);
    assert_eq!(get_pf_total_height(&pf), 1);
    assert_eq!(get_pf_max_height(&pf), 1);
    pf.set_block(Position::new(2, 0), Block::new_locked(1));
    assert_eq!(get_pf_total_height(&pf), 4);
    assert_eq!(get_pf_max_height(&pf), 3);
}

#[test]
fn placing_score_of_square() {
    let pf = Playfield::new("pf", 4, 4);
    let pre_col = get_pf_col_jitter(&pf) as i32;
    let pre_row = get_pf_row_jitter(&pf) as i32;
    let fp = FigurePos::new(square(), PosDir::new(0, 2, 0));
    assert_eq!(lowest_block(&fp), 3);
    // With the square in the corner two rows and two columns change once
    // each: 3 - (2 * 2 + 2).
    assert_eq!(placing_score(&fp, &pf, pre_col, pre_row), -3);
    // Two squares side by side fill the two bottom rows, which go away.
    let mut half = Playfield::new("pf", 4, 4);
    FigurePos::new(square(), PosDir::new(2, 2, 0)).place(&mut half);
    let pre_col = get_pf_col_jitter(&half) as i32;
    let pre_row = get_pf_row_jitter(&half) as i32;
    assert_eq!((pre_col, pre_row), (2, 2));
    assert_eq!(placing_score(&fp, &half, pre_col, pre_row), 3 - (2 * -2 - 2));
}

#[test]
fn figure_list_and_dimensions() {
    let figs = init_figures();
    assert_eq!(figs.len(), 7);
    assert_eq!(figs[3].faces().len(), 1);
    assert_eq!(figs[6].faces().len(), 2);
    assert_eq!(get_max_figure_dimensions(&figs), (4, 4));
}

#[test]
fn player_queue_gives_earliest_due_move() {
    let mut p = PlayerCommon::new("p", 100, vec![square()]);
    assert!(!p.figure_in_play());
    p.add_move(Movement::MoveLeft, 30);
    p.add_move(Movement::MoveRight, 10);
    p.add_move(Movement::MoveDown, 20);
    assert_eq!(p.get_next_move(5), None);
    assert_eq!(
        p.get_next_move(25),
        Some(MoveAndTime { movement: Movement::MoveRight, time: 10 })
    );
    assert_eq!(
        p.get_next_move(25),
        Some(MoveAndTime { movement: Movement::MoveDown, time: 20 })
    );
    assert_eq!(p.get_next_move(25), None);
    assert_eq!(
        p.get_next_move(30),
        Some(MoveAndTime { movement: Movement::MoveLeft, time: 30 })
    );
    assert_eq!(p.time_last_move(&Movement::MoveLeft), 30);
    assert_eq!(p.time_last_move(&Movement::RotateCW), 0);
    assert_eq!(p.last_move_at(&Movement::RotateCW), None);
    assert_eq!(p.time_since_move(50, &Movement::MoveDown), 30);
}

#[test]
fn game_places_and_moves_a_figure() {
    let mut p = PlayerCommon::new("p", 100, vec![square()]);
    let mut pf = Playfield::new("pf", 6, 8);
    let over = try_place_new_figure(&mut p, 0, &mut pf);
    assert!(!over);
    assert!(p.figure_in_play());
    assert!(pf.block_is_set(Position::new(2, 0)));
    assert!(pf.block_is_set(Position::new(3, 1)));
    let still = execute_move(&mut p, &mut pf, MoveAndTime { movement: Movement::MoveLeft, time: 1 });
    assert!(still);
    assert!(pf.block_is_set(Position::new(1, 0)));
    assert!(!pf.block_is_set(Position::new(3, 0)));
    let pos = *p.get_figure().unwrap().get_position();
    assert_eq!((pos.get_x(), pos.get_y()), (1, 0));
    // Falling until the floor locks the figure.
    let mut t = 2;
    while execute_move(&mut p, &mut pf, MoveAndTime { movement: Movement::MoveDown, time: t }) {
        t += 1;
        assert!(t < 20);
    }
    assert!(!p.figure_in_play());
    assert!(pf.block_is_set(Position::new(1, 7)));
    assert!(pf.block_is_set(Position::new(2, 6)));
}

#[test]
fn game_over_when_start_is_blocked() {
    let mut p = PlayerCommon::new("p", 100, vec![square()]);
    let mut pf = Playfield::new("pf", 6, 8);
    pf.set_lines(&[0], &Block::new_locked(1));
    assert!(try_place_new_figure(&mut p, 0, &mut pf));
    assert!(!p.figure_in_play());
}

#[test]
fn human_keys_become_moves() {
    let common = PlayerCommon::new("h", 100, vec![square()]);
    let keys = KeyMap {
        step_left: Some(1),
        step_right: Some(2),
        step_down: Some(3),
        rot_cw: Some(4),
        rot_ccw: None,
    };
    let mut h = HumanPlayer::new(common, keys);
    assert_eq!(h.key_to_movement(4), Some(Movement::RotateCW));
    assert_eq!(h.key_to_movement(9), None);
    // Just pressed keys move at once, a key held briefly does not repeat.
    h.handle_input(1000, &vec![(1, 1000), (9, 1000), (2, 900)]);
    assert_eq!(h.get_moves(1000), vec![(Movement::MoveLeft, 1000)]);
    // A key held long enough repeats.
    h.handle_input(300000000, &vec![(2, 0)]);
    assert_eq!(h.get_moves(300000000), vec![(Movement::MoveRight, 300000000)]);
    assert_eq!(h.get_moves(300000000), vec![]);
}

#[test]
fn searches_take_a_single_step() {
    let pf = Playfield::new("pf", 8, 10);
    let fig = square();
    let start = PosDir::new(3, 2, 0);
    let below = PosDir::new(3, 3, 0);
    let path = rstris::grid::find::find_path(&pf, &fig, &start, &below, 100, 10);
    assert_eq!(path.len(), 1);
    assert_eq!(path[0].0, Movement::MoveDown);
    let path = rstris::grid::find_path::find_path(&pf, &fig, &start, &below, 100, 10);
    assert_eq!(path.len(), 1);
    assert_eq!(path[0].0, Movement::MoveDown);
    // A regular move comes first when moves are quicker than the fall.
    let left = PosDir::new(2, 2, 0);
    let path = rstris::grid::find_path::find_path(&pf, &fig, &start, &left, 10, 100);
    assert_eq!(path.len(), 1);
    assert_eq!(path[0], (Movement::MoveLeft, 10));
}

#[test]
fn human_falls_after_first_delay() {
    let common = PlayerCommon::new("h", 100, vec![square()]);
    let keys = KeyMap { step_left: None, step_right: None, step_down: None, rot_cw: None, rot_ccw: None };
    let mut h = HumanPlayer::new(common, keys);
    let pf = Playfield::new("pf", 6, 8);
    let fp = FigurePos::new(square(), PosDir::new(2, 0, 0));
    h.handle_new_figure(0, &pf, &fp);
    h.update(500_000_000, &pf);
    assert_eq!(h.get_moves(500_000_000), vec![]);
    h.update(2_000_000_000, &pf);
    assert_eq!(h.get_moves(2_000_000_000), vec![(Movement::MoveDown, 2_000_000_000)]);
    // Once a move down was queued, the next waits for the time to fall.
    h.common_mut().add_move(Movement::MoveDown, 2_000_000_000);
    h.update(2_000_000_050, &pf);
    assert_eq!(h.get_moves(2_000_000_050), vec![]);
    h.update(2_000_000_101, &pf);
    assert_eq!(h.get_moves(2_000_000_101), vec![(Movement::MoveDown, 2_000_000_101)]);
}

#[test]
fn random_byte_picks_an_index() {
    assert_eq!(index_from_byte(9, 7), 2);
    assert_eq!(index_from_byte(6, 7), 6);
    // Only the length taken as a byte counts: 300 is 44 as a byte.
    assert_eq!(index_from_byte(200, 300), 24);
}

#[test]
fn landed_figure_locks_full_lines() {
    let mut pf = Playfield::new("pf", 3, 4);
    for x in 0..3 {
        pf.set_block(Position::new(x, 1), Block::new_locked(2));
        pf.set_block(Position::new(x, 3), Block::new_locked(3));
    }
    pf.set_block(Position::new(0, 2), Block::new_locked(5));
    let mut waiting: Vec<u32> = vec![3];
    lock_full_lines(&mut pf, &mut waiting);
    assert_eq!(waiting, vec![3, 1, 3]);
    assert_eq!(*pf.get_block(Position::new(1, 1)), Block::new_locked(10));
    assert_eq!(*pf.get_block(Position::new(2, 3)), Block::new_locked(10));
    assert_eq!(*pf.get_block(Position::new(0, 2)), Block::new_locked(5));
    assert_eq!(*pf.get_block(Position::new(1, 2)), Block::new_not_set());
}

#[test]
fn waiting_lines_are_thrown_once_from_the_top() {
    let mut pf = Playfield::new("pf", 3, 4);
    for x in 0..3 {
        pf.set_block(Position::new(x, 1), Block::new_locked(2));
        pf.set_block(Position::new(x, 3), Block::new_locked(3));
    }
    pf.set_block(Position::new(0, 0), Block::new_locked(7));
    pf.set_block(Position::new(1, 2), Block::new_locked(5));
    let mut waiting: Vec<u32> = vec![3, 1, 3];
    let thrown = throw_waiting_lines(&mut pf, &mut waiting);
    assert_eq!(thrown, vec![1, 3]);
    assert!(waiting.is_empty());
    assert_eq!(*pf.get_block(Position::new(0, 2)), Block::new_locked(7));
    assert_eq!(*pf.get_block(Position::new(1, 3)), Block::new_locked(5));
    assert_eq!(*pf.get_block(Position::new(0, 0)), Block::new_not_set());
    assert_eq!(*pf.get_block(Position::new(1, 1)), Block::new_not_set());
    assert_eq!(pf.locked_lines().len(), 0);
}

#[test]
fn valid_placings_come_fewest_steps_first() {
    let pf = Playfield::new("pf", 6, 8);
    let fp = FigurePos::new(square(), PosDir::new(2, 0, 0));
    let placings = get_valid_placing(&pf, &fp);
    // Each resting place is six rows down and as many columns aside as it
    // lies from the start.
    let steps: Vec<i32> = placings.iter().map(|p| (p.get_x() - 2).abs() + 6).collect();
    assert_eq!(steps[0], 6);
    for w in steps.windows(2) {
        assert!(w[0] <= w[1]);
    }
}

// Replays a found path (last move first) on the clock: every move comes
// at its time, and a move other than a fall only while a regular move is
// due before the next fall.
fn keeps_pace(path: &[(Movement, u64)], move_time: i64, down_time: i64) -> bool {
    let (mut t, mut last_move, mut last_down) = (0i64, 0i64, 0i64);
    for (m, time) in path.iter().rev() {
        if *m == Movement::MoveDown {
            t += (down_time - (t - last_down)).max(0);
            last_down = t;
        } else {
            if move_time - (t - last_move) >= down_time - (t - last_down) {
                return false;
            }
            t += (move_time - (t - last_move)).max(0);
            last_move = t;
        }
        if *time as i64 != t {
            return false;
        }
    }
    true
}

#[test]
fn bounded_search_keeps_the_pace() {
    let pf = Playfield::new("pf", 8, 10);
    let fig = square();
    let start = PosDir::new(3, 0, 0);
    let end = PosDir::new(0, 8, 0);
    let path = rstris::grid::find::find_path(&pf, &fig, &start, &end, 10, 35);
    assert!(path.len() > 0);
    assert_eq!(follow(start, &path, 1), end);
    assert!(keeps_pace(&path, 10, 35));
    // Three columns aside and eight rows down.
    let sideways = path.iter().filter(|(m, _)| *m != Movement::MoveDown).count();
    assert!(sideways >= 3);
    assert!(path.len() >= 11);
}

#[test]
fn search_keeps_the_pace() {
    let pf = Playfield::new("pf", 8, 10);
    let fig = square();
    let start = PosDir::new(3, 0, 0);
    let end = PosDir::new(6, 8, 0);
    let path = rstris::grid::find_path::find_path(&pf, &fig, &start, &end, 10, 35);
    assert!(path.len() > 0);
    assert_eq!(follow(start, &path, 1), end);
    assert!(keeps_pace(&path, 10, 35));
}
