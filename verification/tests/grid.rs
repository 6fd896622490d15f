use maze_routes::bounds::{Bounds, MAX_CELLS};
use maze_routes::direction::{Direction, State};
use maze_routes::maze::Maze;
use maze_routes::parse::parse;
use maze_routes::sequences::filled;
use maze_routes::vec2d::Vec2D;
use std::cmp::Ordering;
use std::ops::AddAssign;

#[test]
fn vector_new_keeps_its_coordinates() {
    let v = Vec2D::new(3, -4);
    assert_eq!(v.x, 3);
    assert_eq!(v.y, -4);
    assert_eq!(v, Vec2D { x: 3, y: -4 });
}

#[test]
fn bounded_add_keeps_sums_below_the_limits() {
    let v = Vec2D::new(2, 3);
    assert_eq!(v.bounded_add(Vec2D::new(1, 0), 4, 4), Some(Vec2D::new(3, 3)));
    assert_eq!(v.bounded_add(Vec2D::new(2, 0), 4, 4), None);
    assert_eq!(v.bounded_add(Vec2D::new(0, 1), 4, 4), None);
    assert_eq!(v.bounded_add(Vec2D::new(-5, -5), 4, 4), Some(Vec2D::new(-3, -2)));
}

#[test]
fn vectors_add_componentwise() {
    assert_eq!(Vec2D::new(1, 2) + Vec2D::new(10, -20), Vec2D::new(11, -18));
    let mut v = Vec2D::new(5, 5);
    v.add_assign(Vec2D::new(-1, 1));
    assert_eq!(v, Vec2D::new(4, 6));
}

#[test]
fn vectors_scale() {
    assert_eq!(Vec2D::new(2, -3) * 4, Vec2D::new(8, -12));
    assert_eq!(Vec2D::new(2, -3) * 0, Vec2D::new(0, 0));
}

#[test]
fn remainder_takes_the_sign_of_the_modulus() {
    assert_eq!(Vec2D::new(7, -1) % Vec2D::new(5, 5), Vec2D::new(2, 4));
    assert_eq!(Vec2D::new(-7, 10) % Vec2D::new(5, 5), Vec2D::new(3, 0));
    assert_eq!(Vec2D::new(7, -7) % Vec2D::new(-5, -5), Vec2D::new(-3, -2));
    assert_eq!(Vec2D::new(3, -3) % Vec2D::new(-1, 1), Vec2D::new(0, 0));
}

#[test]
fn vectors_order_by_x_then_y() {
    assert!(Vec2D::new(1, 9) < Vec2D::new(2, 0));
    assert!(Vec2D::new(1, 1) < Vec2D::new(1, 2));
    assert!(Vec2D::new(1, 2) > Vec2D::new(1, 1));
    assert!(Vec2D::new(1, 2) <= Vec2D::new(1, 2));
    assert_eq!(Vec2D::new(1, 2).partial_cmp(&Vec2D::new(1, 2)), Some(Ordering::Equal));
    assert_eq!(Vec2D::new(0, 2).partial_cmp(&Vec2D::new(1, 2)), Some(Ordering::Less));
    assert_eq!(Vec2D::new(1, 3).partial_cmp(&Vec2D::new(1, 2)), Some(Ordering::Greater));
}

#[test]
fn headings_come_in_turning_order() {
    assert_eq!(
        Direction::all(),
        [Direction::North, Direction::West, Direction::South, Direction::East]
    );
    for (i, d) in Direction::all().iter().enumerate() {
        assert_eq!(d.index(), i);
    }
}

#[test]
fn turns_between_headings() {
    let all = Direction::all();
    let expected: [[i32; 4]; 4] = [[0, 1, 2, 1], [1, 0, 1, 2], [2, 1, 0, 1], [1, 2, 1, 0]];
    for i in 0..4 {
        for j in 0..4 {
            assert_eq!(all[i].turns_to(all[j]), expected[i][j]);
        }
    }
}

#[test]
fn steps_of_the_headings() {
    assert_eq!(Direction::North.delta(), Vec2D::new(0, -1));
    assert_eq!(Direction::West.delta(), Vec2D::new(-1, 0));
    assert_eq!(Direction::South.delta(), Vec2D::new(0, 1));
    assert_eq!(Direction::East.delta(), Vec2D::new(1, 0));
}

#[test]
fn states_differ_by_heading() {
    let a = State::new(Vec2D::new(1, 1), Direction::North);
    let b = State::new(Vec2D::new(1, 1), Direction::South);
    assert_ne!(a, b);
    assert_eq!(a, State { pos: Vec2D::new(1, 1), facing: Direction::North });
}

#[test]
fn bounds_accept_grids_up_to_the_limit() {
    assert_eq!(Bounds::new(3, 4), Some(Bounds { width: 3, height: 4 }));
    assert_eq!(Bounds::new(0, 0), Some(Bounds { width: 0, height: 0 }));
    assert_eq!(Bounds::new(-1, 4), None);
    assert_eq!(Bounds::new(4, -1), None);
    assert_eq!(MAX_CELLS, 536_870_912);
    assert!(Bounds::new(0x2000_0000, 1).is_some());
    assert!(Bounds::new(0x2000_0001, 1).is_none());
    assert!(Bounds::new(0x8000, 0x4000).is_some());
    assert!(Bounds::new(0x8000, 0x4001).is_none());
}

#[test]
fn bounds_number_cells_row_by_row() {
    let b = Bounds::new(3, 2).unwrap();
    assert_eq!(b.cell_count(), 6);
    assert_eq!(b.state_count(), 24);
    assert!(b.contains(Vec2D::new(2, 1)));
    assert!(!b.contains(Vec2D::new(3, 1)));
    assert!(!b.contains(Vec2D::new(0, 2)));
    assert!(!b.contains(Vec2D::new(-1, 0)));
    assert_eq!(b.cell_index(Vec2D::new(0, 0)), 0);
    assert_eq!(b.cell_index(Vec2D::new(2, 0)), 2);
    assert_eq!(b.cell_index(Vec2D::new(1, 1)), 4);
    assert_eq!(b.state_index(State::new(Vec2D::new(1, 1), Direction::North)), 16);
    assert_eq!(b.state_index(State::new(Vec2D::new(1, 1), Direction::East)), 19);
}

#[test]
fn filled_repeats_its_value() {
    assert_eq!(filled(3, 7u8), vec![7u8, 7, 7]);
    assert_eq!(filled(0, true), Vec::<bool>::new());
}

#[test]
fn maze_answers_wall_and_bounds_queries() {
    let walls = vec![Vec2D::new(1, 0), Vec2D::new(9, 9), Vec2D::new(1, 0)];
    let maze = Maze::new(3, 2, Vec2D::new(0, 0), Vec2D::new(2, 1), &walls);
    assert_eq!(maze.bounds(), (3, 2));
    assert_eq!(maze.extent(), Bounds { width: 3, height: 2 });
    assert_eq!(maze.start(), Vec2D::new(0, 0));
    assert_eq!(maze.end(), Vec2D::new(2, 1));
    assert!(maze.is_wall(Vec2D::new(1, 0)));
    assert!(!maze.is_wall(Vec2D::new(0, 0)));
    assert!(!maze.is_wall(Vec2D::new(9, 9)));
    assert!(maze.is_open(Vec2D::new(0, 0)));
    assert!(!maze.is_open(Vec2D::new(1, 0)));
    assert!(!maze.is_open(Vec2D::new(3, 0)));
    assert!(!maze.is_open(Vec2D::new(0, -1)));
}

#[test]
fn neighbours_skip_the_reverse_heading() {
    let maze = Maze::new(3, 3, Vec2D::new(0, 0), Vec2D::new(2, 2), &Vec::new());
    let from = State::new(Vec2D::new(1, 1), Direction::East);
    let out = maze.neighbours(from);
    assert_eq!(
        out,
        vec![
            (State::new(Vec2D::new(1, 0), Direction::North), 1001),
            (State::new(Vec2D::new(1, 2), Direction::South), 1001),
            (State::new(Vec2D::new(2, 1), Direction::East), 1),
        ]
    );
    for d in Direction::all() {
        assert!(maze.neighbours(State::new(Vec2D::new(1, 1), d)).len() <= 3);
    }
}

#[test]
fn neighbours_skip_walls_and_the_outside() {
    let walls = vec![Vec2D::new(1, 0)];
    let maze = Maze::new(2, 2, Vec2D::new(0, 0), Vec2D::new(1, 1), &walls);
    let out = maze.neighbours(State::new(Vec2D::new(0, 0), Direction::East));
    assert_eq!(out, vec![(State::new(Vec2D::new(0, 1), Direction::South), 1001)]);
    let out = maze.neighbours(State::new(Vec2D::new(0, 0), Direction::North));
    assert!(out.is_empty());
    let far = maze.neighbours(State::new(Vec2D::new(i32::MAX, i32::MIN), Direction::East));
    assert!(far.is_empty());
    let edge = maze.neighbours(State::new(Vec2D::new(-1, 0), Direction::East));
    assert_eq!(edge, vec![(State::new(Vec2D::new(0, 0), Direction::East), 1)]);
}

#[test]
fn picture_gives_bounds_marks_and_walls() {
    let maze = parse(b"#S.\n..E#\r\n#\n").unwrap();
    assert_eq!(maze.bounds(), (4, 3));
    assert_eq!(maze.start(), Vec2D::new(1, 0));
    assert_eq!(maze.end(), Vec2D::new(2, 1));
    let walls = [(0, 0), (3, 1), (0, 2)];
    for y in 0..3 {
        for x in 0..4 {
            assert_eq!(maze.is_wall(Vec2D::new(x, y)), walls.contains(&(x, y)), "({}, {})", x, y);
        }
    }
}

#[test]
fn picture_without_marks_falls_back_to_one_one() {
    let maze = parse(b"...\n...\n").unwrap();
    assert_eq!(maze.start(), Vec2D::new(1, 1));
    assert_eq!(maze.end(), Vec2D::new(1, 1));
    assert_eq!(maze.best_cost(), Some(0));
}

#[test]
fn picture_takes_the_last_of_several_marks() {
    let maze = parse(b"SS.\nE.E\n").unwrap();
    assert_eq!(maze.start(), Vec2D::new(1, 0));
    assert_eq!(maze.end(), Vec2D::new(2, 1));
}

#[test]
fn picture_that_leaves_the_marks_outside_is_refused() {
    assert!(parse(b"").is_none());
    assert!(parse(b"S").is_none());
    assert!(parse(b"E").is_none());
    assert!(parse(b"SE").is_some());
    assert!(parse(b"S\nE").is_some());
    assert!(parse(b"S\n\nE").is_some());
    assert!(parse(b"\n\n").is_none());
    assert!(parse(b".\n.\nS").is_none());
    assert!(parse(b".\n.S\n").is_some());
    assert!(parse(b"..\n.S\n").is_some());
}

#[test]
fn picture_ignores_blank_lines_at_the_end() {
    let maze = parse(b"SE\n..\n\n\n").unwrap();
    assert_eq!(maze.bounds(), (2, 2));
    let maze = parse(b"..\n\n.S").unwrap();
    assert_eq!(maze.bounds(), (2, 3));
    assert_eq!(maze.start(), Vec2D::new(1, 2));
}
