use rstris::coords::block::Block;
use rstris::coords::figure::Figure;
use rstris::coords::figure_pos::FigurePos;
use rstris::coords::find_placement::find_placement;
use rstris::coords::matrix2::Matrix2;
use rstris::coords::playfield::Playfield;
use rstris::coords::position::Position;
use rstris::coords::vec3::Vec3;
use rstris::movement::Movement;
use rstris::vec2::Vec2;

fn bl(id: u8) -> Block {
    if id == 0 {
        Block::Clear
    } else {
        Block::Filled(id)
    }
}

#[test]
fn figure_test_figure1() {
    let fig = Figure::new_from_face(
        "Figure 1",
        &[
            &[bl(0), bl(0), bl(0)],
            &[bl(1), bl(1), bl(1)],
            &[bl(0), bl(1), bl(0)],
        ],
    );
    assert_eq!(fig.num_faces(), 4);
    assert_eq!(
        fig.get_face(0),
        &[(0, 1, 1), (1, 1, 1), (2, 1, 1), (1, 2, 1)]
    );
    assert_eq!(
        fig.get_face(1),
        &[(1, 0, 1), (1, 1, 1), (2, 1, 1), (1, 2, 1)]
    );
    assert_eq!(
        fig.get_face(2),
        &[(1, 0, 1), (0, 1, 1), (1, 1, 1), (2, 1, 1)]
    );
    assert_eq!(
        fig.get_face(3),
        &[(1, 0, 1), (0, 1, 1), (1, 1, 1), (1, 2, 1)]
    );
}

#[test]
fn figure_test_figure2() {
    let fig = Figure::new_from_face(
        "Figure 2",
        &[
            &[bl(0), bl(1), bl(0)],
            &[bl(0), bl(1), bl(0)],
            &[bl(0), bl(1), bl(0)],
            &[bl(0), bl(1), bl(0)],
        ],
    );
    assert_eq!(fig.num_faces(), 2);
    assert_eq!(
        fig.get_face(0),
        [(1, 0, 1), (1, 1, 1), (1, 2, 1), (1, 3, 1)]
    );
    assert_eq!(
        fig.get_face(1),
        &[(0, 1, 1), (1, 1, 1), (2, 1, 1), (3, 1, 1)]
    );
}

#[test]
fn figure_test_figure3() {
    let fig = Figure::new_from_face(
        "Figure 3",
        &[&[bl(1), bl(0)], &[bl(1), bl(1)], &[bl(0), bl(1)]],
    );
    assert_eq!(fig.num_faces(), 2);
    assert_eq!(
        fig.get_face(0),
        &[(0, 0, 1), (0, 1, 1), (1, 1, 1), (1, 2, 1)]
    );
    assert_eq!(
        fig.get_face(1),
        &[(0, 0, 1), (1, 0, 1), (1, 1, 1), (2, 1, 1)]
    );
}

fn fig2() -> Figure {
    Figure::new_from_face(
        "2",
        &[
            &[bl(0), bl(0), bl(0)],
            &[bl(2), bl(2), bl(2)],
            &[bl(0), bl(0), bl(2)],
        ],
    )
}

fn fig3() -> Figure {
    Figure::new_from_face(
        "3",
        &[
            &[bl(0), bl(0), bl(3)],
            &[bl(3), bl(3), bl(3)],
            &[bl(0), bl(0), bl(0)],
        ],
    )
}

#[test]
fn find_placement_find1() {
    let mut placements = Vec::new();
    let fig = fig2();
    let pf = Playfield::new("pf1", 10, 20);
    find_placement(&mut placements, &pf, &fig);
    assert_eq!(placements.len(), 34);
}

#[test]
fn find_placement_find2() {
    let mut placements = Vec::new();
    let fig = fig3();
    let pf = Playfield::new("pf1", 20, 20);
    find_placement(&mut placements, &pf, &fig);
    assert_eq!(placements.len(), 74);
}


fn overlaps(a: Option<&bool>, b: &bool) -> bool {
    match a {
        Some(ai) => *ai == true && *b == true,
        None => *b == true,
    }
}

#[test]
fn test_merge_same_size() {
    let mut m1 = Matrix2::from_items(&[
        &[false, false, false],
        &[false, true, false],
        &[false, true, false],
        &[false, false, false],
    ]);
    let m2 = Matrix2::from_items(&[
        &[false, true, false],
        &[false, false, false],
        &[false, false, false],
        &[false, true, false],
    ]);
    let expected = Matrix2::from_items(&[
        &[false, true, false],
        &[false, true, false],
        &[false, true, false],
        &[false, true, false],
    ]);

    m1.merge(Vec2 { x: 0, y: 0 }, &m2, |a, b| {
        if *b {
            *a = *b;
        }
    });

    assert_eq!(m1, expected);
}

#[test]
fn test_merge_different_size() {
    let mut m1 = Matrix2::from_items(&[
        &[false, false, false],
        &[false, true, false],
        &[false, true, false],
        &[true, true, false],
    ]);
    let m2 = Matrix2::from_items(&[&[false, true], &[false, false], &[true, false]]);
    let expected = Matrix2::from_items(&[
        &[false, false, false],
        &[false, true, true],
        &[false, true, false],
        &[true, true, false],
    ]);

    m1.merge(Vec2 { x: 1, y: 1 }, &m2, |a, b| {
        if *b {
            *a = *b;
        }
    });

    assert_eq!(m1, expected);
}

#[test]
fn test_merge_outside() {
    let mut m1 = Matrix2::from_items(&[
        &[false, false, false],
        &[false, true, false],
        &[false, true, false],
        &[true, true, false],
    ]);
    let m2 = Matrix2::from_items(&[
        &[false, true, false],
        &[false, false, false],
        &[false, false, false],
        &[false, true, false],
    ]);
    let expected = Matrix2::from_items(&[
        &[false, false, false],
        &[false, true, false],
        &[true, true, false],
        &[true, true, false],
    ]);

    m1.merge(Vec2 { x: -1, y: -1 }, &m2, |a, b| {
        if *b {
            *a = *b;
        }
    });

    assert_eq!(m1, expected);
}

#[test]
fn test_overlap() {
    let m1 = Matrix2::from_items(&[
        &[false, false, false],
        &[false, true, false],
        &[false, true, false],
        &[true, false, false],
    ]);

    // Won't overlap m1
    let no_overlap = Matrix2::from_items(&[
        &[false, true, false],
        &[false, false, false],
        &[false, false, false],
        &[false, true, false],
    ]);
    assert_eq!(m1.test_overlap(Vec2 { x: 0, y: 0 }, &no_overlap, overlaps), false);

    // Will overlap m1
    let overlap = Matrix2::from_items(&[
        &[false, true, false],
        &[false, true, false],
        &[false, true, false],
    ]);
    assert_eq!(m1.test_overlap(Vec2 { x: 0, y: 0 }, &overlap, overlaps), true);
}

#[test]
fn playfield_block_types() {
    // Fill playfiled with locked blocks.
    let pf_height = 22;
    let mut pf = Playfield::new("pf1", 12, pf_height);
    let all_lines = (0..pf_height).collect::<Vec<u32>>();
    pf.set_lines(&all_lines, &Block::Filled(1));
    assert_eq!(pf.locked_lines().len() as u32, pf_height);
    pf.set_lines(&[0], &Block::Clear);
    assert_eq!(pf.locked_lines()[0], 1);
    pf.set_lines(&all_lines, &Block::Clear);
    assert_eq!(pf.count_locked_lines(), 0);
}

#[test]
fn playfield_throw_lines() {
    // Fill playfiled with locked blocks.
    // Throw away two lines, the top and the bottom
    // and check that the number of locked lines are as
    // expected.
    let pf_height = 22;
    let mut pf = Playfield::new("pf1", 12, pf_height);
    let all_lines = (0..pf_height).collect::<Vec<u32>>();
    pf.set_lines(&all_lines, &Block::Filled(1));
    pf.throw_line(0);
    pf.throw_line(pf_height - 1);
    assert_eq!(pf.count_locked_lines(), pf_height - 2);
    // first locked line is now 2
    assert_eq!(pf.locked_lines()[0], 2);
}

#[test]
fn coords_overlap_outside_counts() {
    let m1 = Matrix2::from_items(&[&[false, false], &[false, false]]);
    let one = Matrix2::from_items(&[&[true]]);
    // A set item that falls outside the matrix overlaps.
    assert!(m1.test_overlap(Vec2 { x: 2, y: 0 }, &one, overlaps));
    assert!(!m1.test_overlap(Vec2 { x: 1, y: 1 }, &one, overlaps));
}

#[test]
fn coords_vec3_from_and_arithmetic() {
    let a: Vec3<i32> = Vec3::from((1, 2, 3));
    let b = Vec3::new((4, 5, 6));
    assert_eq!(a.add(b), Vec3::new((5, 7, 9)));
    assert_eq!(b.sub(a), Vec3::new((3, 3, 3)));
    let c: Vec2<i32> = Vec2::from((7, -1));
    assert_eq!(c, Vec2 { x: 7, y: -1 });
}

#[test]
fn coords_position_moves() {
    let p: Position = Vec3::new((2, 3, 0));
    let q = p.apply_move(Movement::MoveRight);
    assert_eq!((q.x(), q.y(), q.dir()), (3, 3, 0));
    let mut t = p.apply_move(Movement::RotateCCW);
    t.normalize_dir(4);
    assert_eq!(t.dir(), 3);
    let mut u = Vec3::new((0, 0, 9));
    u.normalize_dir(4);
    assert_eq!(u.dir(), 1);
}

#[test]
fn coords_place_test_collision_remove() {
    let fig = fig3();
    let mut pf = Playfield::new("pf1", 10, 20);
    let pos: Position = Vec3::new((4, 5, 0));
    assert!(!fig.test_collision(&pf, &pos));
    fig.place(&mut pf, &pos);
    assert!(fig.test_collision(&pf, &pos));
    assert_eq!(*pf.get_block(Vec2 { x: 6, y: 5 }), Block::Filled(3));
    assert_eq!(*pf.get_block(Vec2 { x: 4, y: 6 }), Block::Filled(3));
    assert_eq!(*pf.get_block(Vec2 { x: 4, y: 5 }), Block::Clear);
    fig.remove(&mut pf, &pos);
    for y in 0..20 {
        for x in 0..10 {
            assert_eq!(*pf.get_block(Vec2 { x, y }), Block::Clear);
        }
    }
}

#[test]
fn coords_figure_pos_lowest_block() {
    let fp = FigurePos::new(fig2(), Vec3::new((3, 4, 0)));
    // The lowest set block of the face is on its third row.
    assert_eq!(fp.lowest_block(), 6);
    let mut pf = Playfield::new("pf1", 10, 20);
    fp.place(&mut pf);
    assert_eq!(*pf.get_block(Vec2 { x: 5, y: 6 }), Block::Filled(2));
    fp.remove(&mut pf);
    assert_eq!(*pf.get_block(Vec2 { x: 5, y: 6 }), Block::Clear);
}

#[test]
fn coords_full_lines_and_copy() {
    let mut pf = Playfield::new("pf1", 4, 5);
    pf.set_lines(&[1, 3], &Block::Filled(9));
    assert_eq!(pf.full_lines(), vec![1, 3]);
    let mut other = Playfield::new("pf2", 4, 5);
    other.copy(&pf);
    assert_eq!(other.count_locked_lines(), 2);
    assert_eq!(pf.width(), 4);
    assert_eq!(pf.height(), 5);
}

#[test]
fn merge_and_overlap_take_closures_with_state() {
    let mut m1 = Matrix2::from_items(&[&[false, false], &[false, true]]);
    let m2 = Matrix2::from_items(&[&[true, true], &[true, true]]);
    let mut merged = 0;
    m1.merge(Vec2 { x: 1, y: 0 }, &m2, |a, b| {
        merged += 1;
        *a = *b;
    });
    assert_eq!(merged, 2);
    assert_eq!(m1, Matrix2::from_items(&[&[false, true], &[false, true]]));
    let mut tested = 0;
    let hit = m1.test_overlap(Vec2 { x: 0, y: 0 }, &m2, |a, b| {
        tested += 1;
        overlaps(a, b)
    });
    assert!(hit);
    assert_eq!(tested, 2);
}
