use rstris::simple::figure::{Figure, FigureDir};
use rstris::simple::player::Player;
use rstris::simple::playfield::Playfield;
use rstris::simple::position::Position;

fn s_figure() -> Figure {
    Figure::new_from_face("S".to_string(), vec![vec![0, 1, 1], vec![1, 1, 0]])
}

#[test]
fn simple_playfield_blocks_and_lines() {
    let mut pf = Playfield::new("pf".to_string(), 3, 4);
    assert_eq!(pf.width(), 3);
    assert_eq!(pf.height(), 4);
    assert_eq!(pf.get_block(1, 1), 0);
    assert!(pf.contains(2, 3));
    assert!(!pf.contains(3, 0));
    assert!(!pf.contains(-1, 0));
    for x in 0..3 {
        pf.set_block(x, 1, 5);
        pf.set_block(x, 3, 6);
    }
    pf.set_block(0, 2, 7);
    assert!(pf.block_is_set(0, 2));
    assert!(!pf.block_is_set(1, 2));
    assert_eq!(pf.find_full_lines(), vec![1, 3]);
    // Throwing the bottom line moves every line above it down.
    pf.throw_line(3);
    assert_eq!(pf.find_full_lines(), vec![2]);
    assert_eq!(pf.get_block(0, 3), 7);
    assert_eq!(pf.get_block(1, 3), 0);
    assert_eq!(pf.get_block(2, 2), 5);
    assert_eq!(pf.get_block(2, 0), 0);
}

#[test]
fn simple_figure_turns_over_its_diagonal() {
    let fig = s_figure();
    assert_eq!(fig.num_dirs(), 4);
    assert_eq!(fig.get_name(), "S");
    let d1 = fig.get_fig_dir(1);
    assert_eq!((d1.get_width(), d1.get_height()), (2, 3));
    assert_eq!(d1.get_block(0, 0), 0);
    assert_eq!(d1.get_block(1, 0), 1);
    assert_eq!(d1.get_block(0, 1), 1);
    assert_eq!(d1.get_block(1, 2), 0);
    assert_eq!(d1.get_block(0, 2), 1);
    // Directions wrap around.
    let d5 = fig.get_fig_dir(5);
    assert_eq!((d5.get_width(), d5.get_height()), (2, 3));
    let d2 = fig.get_fig_dir(2);
    assert_eq!((d2.get_width(), d2.get_height()), (3, 2));
    assert_eq!(d2.get_block(1, 0), 1);
    let empty = FigureDir::new_empty(&2, &3);
    assert_eq!((empty.get_width(), empty.get_height()), (2, 3));
    assert_eq!(empty.get_block(1, 2), 0);
}

#[test]
fn simple_figure_place_test_and_move() {
    let fig = s_figure();
    let mut pf = Playfield::new("pf".to_string(), 5, 5);
    let pos = Position::new(0, 0, 0);
    assert!(fig.test_figure(&pf, &pos));
    fig.place_figure(&mut pf, &pos);
    assert_eq!(pf.get_block(1, 0), 1);
    assert_eq!(pf.get_block(0, 1), 1);
    assert_eq!(pf.get_block(0, 0), 0);
    assert!(!fig.test_figure(&pf, &pos));
    // Off the playfield it does not fit.
    assert!(!fig.test_figure(&pf, &Position::new(3, 0, 0)));
    let down = Position::new(0, 1, 0);
    assert!(fig.move_figure(&mut pf, &pos, &down));
    assert_eq!(pf.get_block(1, 0), 0);
    assert_eq!(pf.get_block(1, 1), 1);
    assert_eq!(pf.get_block(0, 2), 1);
    fig.remove_figure(&mut pf, &down);
    for y in 0..5 {
        for x in 0..5 {
            assert_eq!(pf.get_block(x, y), 0);
        }
    }
}

#[test]
fn simple_position_normalizes_turns() {
    let mut p = Position::add_pos(&Position::new(1, 2, 0), &Position::new(0, 0, -1));
    p.normalize_dir(4);
    assert_eq!((p.get_x(), p.get_y(), p.get_dir()), (1, 2, 3));
    let mut q = Position::new(0, 0, 4);
    q.normalize_dir(4);
    assert_eq!(q.get_dir(), 0);
}

#[test]
fn simple_player_places_and_moves() {
    let figures = vec![s_figure()];
    let mut player = Player::new("p".to_string(), &figures);
    assert_eq!(player.get_next_figure().get_name(), "S");
    let mut pf = Playfield::new("pf".to_string(), 6, 4);
    assert!(player.place_next_figure(&mut pf));
    // The figure starts at column 6 / 2 - 1.
    assert_eq!(pf.get_block(3, 0), 1);
    assert_eq!(pf.get_block(2, 1), 1);
    assert!(player.move_figure(&mut pf, &Position::new(-1, 0, 0)));
    assert_eq!(pf.get_block(2, 0), 1);
    assert_eq!(pf.get_block(4, 0), 0);
    assert!(player.move_figure(&mut pf, &Position::new(0, 1, 0)));
    assert!(player.move_figure(&mut pf, &Position::new(0, 1, 0)));
    // At the floor a move down fails and says so.
    assert!(!player.move_figure(&mut pf, &Position::new(0, 1, 0)));
    // A blocked sideways move fails but is not a landing.
    assert!(player.move_figure(&mut pf, &Position::new(-5, 0, 0)));
    assert_eq!(pf.get_block(1, 3), 1);
}

#[test]
fn simple_player_game_over_when_blocked() {
    let figures = vec![s_figure()];
    let mut player = Player::new("p".to_string(), &figures);
    let mut pf = Playfield::new("pf".to_string(), 6, 4);
    pf.set_block(3, 0, 9);
    assert!(!player.place_next_figure(&mut pf));
}
