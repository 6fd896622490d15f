use maze_routes::direction::{Direction, State};
use maze_routes::maze::Maze;
use maze_routes::parse::parse;
use maze_routes::vec2d::Vec2D;

fn open_grid(width: i32, height: i32, start: (i32, i32), end: (i32, i32)) -> Maze {
    Maze::new(width, height, Vec2D::new(start.0, start.1), Vec2D::new(end.0, end.1), &Vec::new())
}

fn walled(width: i32, height: i32, start: (i32, i32), end: (i32, i32), walls: &[(i32, i32)]) -> Maze {
    let cells: Vec<Vec2D> = walls.iter().map(|w| Vec2D::new(w.0, w.1)).collect();
    Maze::new(width, height, Vec2D::new(start.0, start.1), Vec2D::new(end.0, end.1), &cells)
}

#[test]
fn straight_run_east_costs_its_steps() {
    let maze = open_grid(4, 4, (0, 0), (3, 0));
    let sol = maze.solve(Vec2D::new(0, 0), Direction::East);
    assert_eq!(sol.minimal_cost, Some(3));
    assert_eq!(sol.optimal_tiles(maze.end()), 4);
    assert_eq!(maze.best_cost(), Some(3));
    assert_eq!(maze.unique_tiles(), Some(4));
}

#[test]
fn clear_column_costs_one_turn_and_three_steps() {
    let maze = open_grid(4, 4, (0, 0), (0, 3));
    let sol = maze.solve(Vec2D::new(0, 0), Direction::East);
    assert_eq!(sol.minimal_cost, Some(1003));
    assert_eq!(sol.optimal_tiles(maze.end()), 4);
}

#[test]
fn enclosed_end_is_unreachable() {
    let maze = walled(5, 5, (0, 0), (2, 2), &[(1, 2), (3, 2), (2, 1), (2, 3)]);
    let sol = maze.solve(Vec2D::new(0, 0), Direction::East);
    assert_eq!(sol.minimal_cost, None);
    assert!(sol.tied_end_states(maze.end()).is_empty());
    assert_eq!(sol.optimal_tiles(maze.end()), 0);
    assert_eq!(maze.best_cost(), None);
    assert_eq!(maze.unique_tiles(), None);
}

#[test]
fn zero_is_a_cost_of_its_own() {
    let maze = open_grid(3, 3, (1, 1), (1, 1));
    assert_eq!(maze.best_cost(), Some(0));
    assert_eq!(maze.unique_tiles(), Some(1));
}

#[test]
fn open_grid_cost_is_steps_plus_turns() {
    let cases: [((i32, i32), u64); 8] = [
        ((3, 1), 2),
        ((1, 3), 1002),
        ((1, 0), 1001),
        ((3, 3), 1004),
        ((2, 0), 1002),
        ((0, 3), 2003),
        ((0, 0), 2002),
        ((1, 1), 0),
    ];
    for (end, expected) in cases {
        let maze = open_grid(4, 4, (1, 1), end);
        assert_eq!(maze.best_cost(), Some(expected), "end {:?}", end);
    }
}

#[test]
fn end_due_west_needs_a_detour() {
    let maze = open_grid(4, 4, (1, 1), (0, 1));
    assert_eq!(maze.best_cost(), Some(3003));
    let maze = open_grid(4, 4, (3, 0), (0, 0));
    assert_eq!(maze.best_cost(), Some(3005));
    let corridor = open_grid(4, 1, (3, 0), (0, 0));
    assert_eq!(corridor.best_cost(), None);
}

#[test]
fn solving_twice_gives_the_same_answers() {
    let maze = walled(5, 4, (0, 3), (4, 0), &[(1, 1), (2, 1), (3, 2)]);
    let first = maze.solve(maze.start(), Direction::East);
    let second = maze.solve(maze.start(), Direction::East);
    assert_eq!(first.minimal_cost, second.minimal_cost);
    assert_eq!(first.optimal_tiles(maze.end()), second.optimal_tiles(maze.end()));
    for y in 0..4 {
        for x in 0..5 {
            for d in Direction::all() {
                let s = State::new(Vec2D::new(x, y), d);
                assert_eq!(first.distances.get(s), second.distances.get(s));
            }
        }
    }
    assert_eq!(maze.best_cost(), maze.best_cost());
    assert_eq!(maze.unique_tiles(), maze.unique_tiles());
}

#[test]
fn a_wall_off_the_route_changes_nothing() {
    let before = open_grid(3, 3, (0, 1), (2, 1));
    let after = walled(3, 3, (0, 1), (2, 1), &[(0, 0)]);
    assert_eq!(before.best_cost(), Some(2));
    assert_eq!(after.best_cost(), Some(2));
    assert_eq!(before.unique_tiles(), Some(3));
    assert_eq!(after.unique_tiles(), Some(3));
}

#[test]
fn a_wall_on_the_route_raises_the_cost() {
    let before = open_grid(3, 3, (0, 1), (2, 1));
    let after = walled(3, 3, (0, 1), (2, 1), &[(1, 1)]);
    assert_eq!(before.best_cost(), Some(2));
    assert_eq!(after.best_cost(), Some(3004));
    assert!(after.best_cost().unwrap() >= before.best_cost().unwrap());
}

#[test]
fn a_wall_that_raises_the_cost_may_add_tiles() {
    let before = open_grid(3, 3, (0, 1), (2, 1));
    let after = walled(3, 3, (0, 1), (2, 1), &[(1, 1)]);
    assert_eq!(before.unique_tiles(), Some(3));
    assert_eq!(after.unique_tiles(), Some(8));
}

#[test]
fn a_wall_at_equal_cost_never_adds_tiles() {
    let before = walled(3, 3, (0, 1), (2, 1), &[(1, 1)]);
    let after = walled(3, 3, (0, 1), (2, 1), &[(1, 1), (1, 2)]);
    assert_eq!(before.best_cost(), Some(3004));
    assert_eq!(after.best_cost(), Some(3004));
    assert_eq!(before.unique_tiles(), Some(8));
    assert_eq!(after.unique_tiles(), Some(5));
}

#[test]
fn walls_that_cut_the_end_off_leave_no_tiles() {
    let after = walled(3, 3, (0, 1), (2, 1), &[(1, 0), (1, 1), (1, 2)]);
    assert_eq!(after.best_cost(), None);
    assert_eq!(after.unique_tiles(), None);
}

#[test]
fn tied_routes_count_their_union() {
    let maze = walled(3, 3, (0, 1), (2, 1), &[(1, 1)]);
    let sol = maze.solve(maze.start(), Direction::East);
    assert_eq!(sol.minimal_cost, Some(3004));
    let count = sol.optimal_tiles(maze.end());
    assert_eq!(count, 8);
    assert_ne!(count, 10);
    assert_ne!(count, 5);
}

#[test]
fn tied_end_headings_both_count() {
    // The end is entered from the west and from the north at the same cost.
    let maze = walled(3, 3, (0, 0), (2, 2), &[(1, 1)]);
    let sol = maze.solve(maze.start(), Direction::East);
    assert_eq!(sol.minimal_cost, Some(1004));
    assert_eq!(sol.tied_end_states(maze.end()), vec![State::new(Vec2D::new(2, 2), Direction::South)]);
    assert_eq!(sol.optimal_tiles(maze.end()), 5);
    let facing_south = maze.solve(maze.start(), Direction::South);
    assert_eq!(facing_south.minimal_cost, Some(1004));
    assert_eq!(
        facing_south.tied_end_states(maze.end()),
        vec![State::new(Vec2D::new(2, 2), Direction::East)]
    );
}

#[test]
fn end_entered_under_two_headings_counts_once() {
    // Facing north on the top row, the two ways round the grid tie: one
    // enters the end heading east, the other heading west.
    let maze = open_grid(3, 3, (1, 0), (1, 2));
    let sol = maze.solve(maze.start(), Direction::North);
    assert_eq!(sol.minimal_cost, Some(3004));
    let ends = sol.tied_end_states(maze.end());
    assert_eq!(
        ends,
        vec![
            State::new(Vec2D::new(1, 2), Direction::West),
            State::new(Vec2D::new(1, 2), Direction::East),
        ]
    );
    assert_eq!(sol.optimal_tiles(maze.end()), 8);
}

#[test]
fn a_single_best_route_counts_its_own_tiles() {
    let maze = walled(3, 3, (0, 0), (2, 2), &[(2, 0), (0, 2)]);
    let sol = maze.solve(maze.start(), Direction::South);
    assert_eq!(sol.minimal_cost, Some(2004));
    assert_eq!(sol.optimal_tiles(maze.end()), 5);
}

const FIRST_PICTURE: &str = "###############
#.......#....E#
#.#.###.#.###.#
#.....#.#...#.#
#.###.#####.#.#
#.#.#.......#.#
#.#.#####.###.#
#...........#.#
###.#.#####.#.#
#...#.....#.#.#
#.#.#.###.#.#.#
#.....#...#.#.#
#.###.#.#.#.#.#
#S..#.....#...#
###############
";

const SECOND_PICTURE: &str = "#################
#...#...#...#..E#
#.#.#.#.#.#.#.#.#
#.#.#.#...#...#.#
#.#.#.#.###.#.#.#
#...#.#.#.....#.#
#.#.#.#.#.#####.#
#.#...#.#.#.....#
#.#.#####.#.###.#
#.#.#.......#...#
#.#.###.#####.###
#.#.#...#.....#.#
#.#.#.#####.###.#
#.#.#.........#.#
#.#.#.#########.#
#S#.............#
#################
";

#[test]
fn first_picture_is_solved() {
    let maze = parse(FIRST_PICTURE.as_bytes()).unwrap();
    assert_eq!(maze.bounds(), (15, 15));
    assert_eq!(maze.start(), Vec2D::new(1, 13));
    assert_eq!(maze.end(), Vec2D::new(13, 1));
    assert_eq!(maze.best_cost(), Some(7036));
    assert_eq!(maze.unique_tiles(), Some(45));
}

#[test]
fn second_picture_is_solved() {
    let maze = parse(SECOND_PICTURE.as_bytes()).unwrap();
    assert_eq!(maze.bounds(), (17, 17));
    assert_eq!(maze.best_cost(), Some(11048));
    assert_eq!(maze.unique_tiles(), Some(64));
}
