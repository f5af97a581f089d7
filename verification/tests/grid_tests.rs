use rstris::grid::block::Block;
use rstris::grid::figure::Figure;
use rstris::grid::figure_pos::FigurePos;
use rstris::grid::find_placement::{find_placement, find_placement_quick};
use rstris::grid::matrix2::Matrix2;
use rstris::grid::playfield::Playfield;
use rstris::grid::pos_dir::PosDir;
use rstris::grid::position::Position;
use rstris::movement::Movement;
use rstris::vec2::Vec2;

fn bl(id: u8) -> Block {
    if id == 0 {
        Block::new_not_set()
    } else {
        Block::new_locked(id)
    }
}

#[test]
fn test_figure1() {
    let fig = Figure::new_from_face(
        "Figure 1",
        &[
            &[bl(0), bl(0), bl(0)],
            &[bl(1), bl(1), bl(1)],
            &[bl(0), bl(1), bl(0)],
        ],
    );
    assert_eq!(fig.faces().len(), 4);
    assert_eq!(
        *fig.get_face(0),
        Matrix2::from_items(&[
            &[bl(0), bl(0), bl(0)],
            &[bl(1), bl(1), bl(1)],
            &[bl(0), bl(1), bl(0)]
        ])
    );
    assert_eq!(
        *fig.get_face(1),
        Matrix2::from_items(&[
            &[bl(0), bl(1), bl(0)],
            &[bl(1), bl(1), bl(0)],
            &[bl(0), bl(1), bl(0)]
        ])
    );
    assert_eq!(
        *fig.get_face(2),
        Matrix2::from_items(&[
            &[bl(0), bl(1), bl(0)],
            &[bl(1), bl(1), bl(1)],
            &[bl(0), bl(0), bl(0)]
        ])
    );
    assert_eq!(
        *fig.get_face(3),
        Matrix2::from_items(&[
            &[bl(0), bl(1), bl(0)],
            &[bl(0), bl(1), bl(1)],
            &[bl(0), bl(1), bl(0)]
        ])
    );
}

#[test]
fn test_figure2() {
    let fig = Figure::new_from_face(
        "Figure 2",
        &[
            &[bl(0), bl(1), bl(0)],
            &[bl(0), bl(1), bl(0)],
            &[bl(0), bl(1), bl(0)],
            &[bl(0), bl(1), bl(0)],
        ],
    );
    assert_eq!(fig.faces().len(), 2);
    assert_eq!(
        *fig.get_face(0),
        Matrix2::from_items(&[
            &[bl(0), bl(1), bl(0)],
            &[bl(0), bl(1), bl(0)],
            &[bl(0), bl(1), bl(0)],
            &[bl(0), bl(1), bl(0)]
        ])
    );
    assert_eq!(
        *fig.get_face(1),
        Matrix2::from_items(&[
            &[bl(0), bl(0), bl(0), bl(0)],
            &[bl(1), bl(1), bl(1), bl(1)],
            &[bl(0), bl(0), bl(0), bl(0)]
        ])
    );
}

#[test]
fn test_figure3() {
    let fig = Figure::new_from_face(
        "Figure 3",
        &[&[bl(1), bl(0)], &[bl(1), bl(1)], &[bl(0), bl(1)]],
    );
    assert_eq!(fig.faces().len(), 2);
    assert_eq!(
        *fig.get_face(0),
        Matrix2::from_items(&[&[bl(1), bl(0)], &[bl(1), bl(1)], &[bl(0), bl(1)]])
    );
    assert_eq!(
        *fig.get_face(1),
        Matrix2::from_items(&[&[bl(0), bl(1), bl(1)], &[bl(1), bl(1), bl(0)]])
    );
}

fn fig2(x: i32, y: i32, dir: i32) -> FigurePos {
    FigurePos::new(
        Figure::new_from_face(
            "2",
            &[
                &[bl(0), bl(0), bl(0)],
                &[bl(2), bl(2), bl(2)],
                &[bl(0), bl(0), bl(2)],
            ],
        ),
        PosDir::new(x, y, dir),
    )
}

fn fig3(x: i32, y: i32, dir: i32) -> FigurePos {
    FigurePos::new(
        Figure::new_from_face(
            "3",
            &[
                &[bl(0), bl(0), bl(3)],
                &[bl(3), bl(3), bl(3)],
                &[bl(0), bl(0), bl(0)],
            ],
        ),
        PosDir::new(x, y, dir),
    )
}

#[test]
fn find1() {
    let start_pos = fig2(0, 0, 0);
    let pf = Playfield::new("pf1", 10, 20);
    let placings = find_placement_quick(&pf, &start_pos);
    assert_eq!(placings.len(), 52);
}

#[test]
fn find2() {
    let start_pos = fig3(0, 0, 0);
    let pf = Playfield::new("pf1", 20, 20);
    let placings = find_placement_quick(&pf, &start_pos);
    assert_eq!(placings.len(), 92);
}

#[test]
fn test_iter() {
    let mut m1 = Matrix2::from_size(10, 10, false);
    m1.set(Vec2 { x: 2, y: 3 }, true);
    m1.set(Vec2 { x: 9, y: 9 }, true);
    let mut it = m1.iter();
    let mut r: Vec<Vec2<i32>> = Vec::new();
    while let Some(p) = it.next() {
        if *p.item {
            r.push(p.point);
        }
    }
    assert_eq!(r.len(), 2);
    assert_eq!(r[0], Vec2 { x: 2, y: 3 });
    assert_eq!(r[1], Vec2 { x: 9, y: 9 });
}

#[test]
fn block_types() {
    // Fill playfiled with locked blocks.
    let pf_height = 22;
    let mut pf = Playfield::new("pf1", 12, pf_height);
    let all_lines = (0..pf_height).collect::<Vec<u32>>();
    pf.set_lines(&all_lines, &Block::new_locked(1));
    assert_eq!(pf.locked_lines().len() as u32, pf_height);
    pf.set_lines(&[0], &Block::new_not_set());
    assert_eq!(pf.locked_lines()[0], 1);
    pf.set_lines(&all_lines, &Block::new_not_set());
    assert_eq!(pf.count_locked_lines(), 0);
}

#[test]
fn throw_lines() {
    // Fill playfiled with locked blocks.
    // Throw away two lines, the top and the bottom
    // and check that the number of locked lines are as
    // expected.
    let pf_height = 22;
    let mut pf = Playfield::new("pf1", 12, pf_height);
    let all_lines = (0..pf_height).collect::<Vec<u32>>();
    pf.set_lines(&all_lines, &Block::new_locked(1));
    pf.throw_line(0);
    pf.throw_line(pf_height - 1);
    assert_eq!(pf.count_locked_lines(), pf_height - 2);
    // first locked line is now 2
    assert_eq!(pf.locked_lines()[0], 2);
}

#[test]
fn grid_find_placement_agrees_with_quick() {
    let square = Figure::new_from_face("4", &[&[bl(4), bl(4)], &[bl(4), bl(4)]]);
    let start = FigurePos::new(square, PosDir::new(4, 0, 0));
    // Walls in the outer columns keep every probe inside the playfield.
    let mut pf = Playfield::new("pf1", 10, 20);
    for y in 0..20 {
        pf.set_block(Position::new(0, y), bl(1));
        pf.set_block(Position::new(9, y), bl(1));
    }
    let quick = find_placement_quick(&pf, &start);
    assert_eq!(quick.len(), 12);
    let full = find_placement(&pf, &start);
    // The square rests on the floor in each of the seven columns between
    // the walls.
    assert_eq!(full.len(), 7);
    for p in &full {
        assert_eq!(p.get_y(), 18);
        assert!(quick.contains(p));
    }
}

#[test]
fn grid_placed_figure_collides_and_remove_restores() {
    let fp = fig3(4, 5, 0);
    let mut pf = Playfield::new("pf1", 10, 20);
    let before = pf.duplicate();
    assert!(!fp.get_figure().test_collision(&pf, fp.get_position()));
    fp.place(&mut pf);
    assert!(fp.get_figure().test_collision(&pf, fp.get_position()));
    assert!(pf.block_is_set(Position::new(6, 5)));
    assert!(pf.block_is_set(Position::new(4, 6)));
    assert!(!pf.block_is_set(Position::new(4, 5)));
    fp.remove(&mut pf);
    for y in 0..20 {
        for x in 0..10 {
            let p = Position::new(x, y);
            assert_eq!(pf.get_block(p), before.get_block(p));
        }
    }
}

#[test]
fn grid_outside_blocks_are_set() {
    let pf = Playfield::new("pf1", 4, 4);
    assert!(pf.block_is_set(Position::new(-1, 0)));
    assert!(pf.block_is_set(Position::new(4, 0)));
    assert!(pf.block_is_set(Position::new(0, 4)));
    assert!(!pf.block_is_set(Position::new(0, 0)));
    assert!(!pf.contains(Position::new(0, 4)));
    assert!(pf.contains(Position::new(3, 3)));
}

#[test]
fn grid_count_voids() {
    let mut pf = Playfield::new("pf1", 5, 4);
    assert_eq!(pf.count_voids(), 1);
    // A full row splits the playfield in two.
    pf.set_lines(&[2], &Block::new_locked(1));
    assert_eq!(pf.count_voids(), 2);
    // Closing a cell in the lower part makes a pocket of its own.
    pf.set_block(Position::new(1, 3), Block::new_locked(1));
    assert_eq!(pf.count_voids(), 3);
}

#[test]
fn grid_throw_line_moves_rows_down() {
    let mut pf = Playfield::new("pf1", 3, 4);
    pf.set_block(Position::new(0, 0), Block::new_locked(7));
    pf.set_lines(&[2], &Block::new_locked(1));
    pf.throw_line(2);
    assert_eq!(pf.locked_lines().len(), 0);
    assert_eq!(*pf.get_block(Position::new(0, 1)), Block::new_locked(7));
    assert_eq!(*pf.get_block(Position::new(0, 0)), Block::new_not_set());
}

#[test]
fn grid_pos_dir_moves_and_turns() {
    let p = PosDir::new(3, 4, 0);
    let q = p.apply_move(&Movement::MoveLeft);
    assert_eq!((q.get_x(), q.get_y(), q.get_dir()), (2, 4, 0));
    let back = q.apply_move(&Movement::MoveRight);
    assert_eq!(back, p);
    let mut t = p.apply_move(&Movement::RotateCCW);
    t.normalize_dir(4);
    assert_eq!(t.get_dir(), 3);
    let mut u = t.apply_move(&Movement::RotateCW);
    u.normalize_dir(4);
    assert_eq!(u.get_dir(), 0);
    assert_eq!(p.get_pos(), Position::new(3, 4));
}

// Fewest steps from the start to each place the figure can be brought to,
// counted by a plain breadth-first walk.
fn steps_from(pf: &Playfield, fp: &FigurePos) -> std::collections::HashMap<(i32, i32, i32), usize> {
    let fig = fp.get_figure();
    let n = fig.faces().len() as i32;
    let s = fp.get_position();
    let mut dist = std::collections::HashMap::new();
    let mut queue = std::collections::VecDeque::new();
    dist.insert((s.get_x(), s.get_y(), s.get_dir()), 0usize);
    queue.push_back((s.get_x(), s.get_y(), s.get_dir()));
    while let Some((x, y, z)) = queue.pop_front() {
        let d = dist[&(x, y, z)];
        let mut next = vec![(x - 1, y, z), (x + 1, y, z), (x, y + 1, z)];
        if z + 1 < n {
            next.push((x, y, z + 1));
        }
        for q in next {
            if !dist.contains_key(&q) && !fig.test_collision(pf, &PosDir::new(q.0, q.1, q.2)) {
                dist.insert(q, d + 1);
                queue.push_back(q);
            }
        }
    }
    dist
}

#[test]
fn grid_resting_places_come_fewest_steps_first() {
    let start = fig3(4, 0, 0);
    let mut pf = Playfield::new("pf1", 10, 20);
    for y in 0..20 {
        pf.set_block(Position::new(0, y), bl(1));
        pf.set_block(Position::new(9, y), bl(1));
    }
    pf.set_block(Position::new(3, 12), bl(1));
    pf.set_block(Position::new(6, 8), bl(1));
    let dist = steps_from(&pf, &start);
    let full = find_placement(&pf, &start);
    assert!(full.len() > 3);
    let steps: Vec<usize> = full
        .iter()
        .map(|p| dist[&(p.get_x(), p.get_y(), p.get_dir())])
        .collect();
    for w in steps.windows(2) {
        assert!(w[0] <= w[1]);
    }
}
