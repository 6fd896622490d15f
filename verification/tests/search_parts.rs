use maze_routes::bounds::Bounds;
use maze_routes::direction::{Direction, State};
use maze_routes::extract::{count_cells, extract_optimal_tiles, holds_cell, trace_into};
use maze_routes::heap::{MinHeap, Node};
use maze_routes::maze::Maze;
use maze_routes::solver::least_cost_at;
use maze_routes::tables::{DistanceMap, ParentMap, StateSet};
use maze_routes::vec2d::Vec2D;

fn at(x: i32, y: i32, d: Direction) -> State {
    State::new(Vec2D::new(x, y), d)
}

#[test]
fn node_keeps_cost_and_state() {
    let n = Node::new(17, at(2, 3, Direction::West));
    assert_eq!(n.cost, 17);
    assert_eq!(n.state(), at(2, 3, Direction::West));
}

#[test]
fn nodes_order_by_cost_then_position() {
    let a = Node::new(1, at(5, 5, Direction::North));
    let b = Node::new(2, at(0, 0, Direction::North));
    let c = Node::new(2, at(0, 1, Direction::South));
    let d = Node::new(2, at(1, 0, Direction::South));
    assert!(a.precedes(&b));
    assert!(!b.precedes(&a));
    assert!(b.precedes(&c));
    assert!(!c.precedes(&b));
    assert!(c.precedes(&d));
    assert!(b.precedes(&b));
    let e = Node::new(2, at(0, 0, Direction::East));
    assert!(b.precedes(&e) && e.precedes(&b));
}

#[test]
fn heap_hands_out_the_least_first() {
    let mut heap = MinHeap::new();
    assert!(heap.is_empty());
    assert_eq!(heap.pop(), None);
    let costs: [u64; 9] = [5, 1, 9, 3, 3, 8, 0, 7, 2];
    for (i, c) in costs.iter().enumerate() {
        heap.push(Node::new(*c, at(i as i32, 0, Direction::East)));
        assert_eq!(heap.len(), i + 1);
    }
    let mut out: Vec<u64> = Vec::new();
    while let Some(n) = heap.pop() {
        out.push(n.cost);
    }
    assert_eq!(out, vec![0, 1, 2, 3, 3, 5, 7, 8, 9]);
    assert!(heap.is_empty());
}

#[test]
fn heap_breaks_ties_by_position() {
    let mut heap = MinHeap::new();
    heap.push(Node::new(4, at(2, 0, Direction::East)));
    heap.push(Node::new(4, at(1, 7, Direction::East)));
    heap.push(Node::new(4, at(1, 3, Direction::East)));
    assert_eq!(heap.pop().unwrap().pos, Vec2D::new(1, 3));
    assert_eq!(heap.pop().unwrap().pos, Vec2D::new(1, 7));
    assert_eq!(heap.pop().unwrap().pos, Vec2D::new(2, 0));
}

#[test]
fn heap_keeps_equal_nodes_apart() {
    let mut heap = MinHeap::new();
    let n = Node::new(4, at(2, 0, Direction::East));
    heap.push(n);
    heap.push(n);
    assert_eq!(heap.len(), 2);
    assert_eq!(heap.pop(), Some(n));
    assert_eq!(heap.pop(), Some(n));
    assert_eq!(heap.pop(), None);
}

#[test]
fn distance_map_records_and_replaces() {
    let b = Bounds::new(2, 2).unwrap();
    let mut dist = DistanceMap::new(b);
    assert_eq!(dist.bounds(), b);
    let s = at(1, 0, Direction::South);
    assert_eq!(dist.get(s), None);
    dist.set(s, 12);
    assert_eq!(dist.get(s), Some(12));
    assert_eq!(dist.get(at(1, 0, Direction::North)), None);
    dist.set(s, 0);
    assert_eq!(dist.get(s), Some(0));
    assert_eq!(dist.get(at(5, 5, Direction::North)), None);
}

#[test]
fn parent_map_resets_and_adds() {
    let b = Bounds::new(2, 2).unwrap();
    let mut parents = ParentMap::new(b);
    assert_eq!(parents.bounds(), b);
    let s = at(1, 1, Direction::East);
    let p = at(0, 1, Direction::East);
    let q = at(0, 1, Direction::South);
    assert!(parents.get(s).is_empty());
    parents.add(s, p);
    assert_eq!(parents.get(s), &vec![p]);
    parents.add(s, q);
    assert_eq!(parents.get(s), &vec![p, q]);
    parents.reset(s, q);
    assert_eq!(parents.get(s), &vec![q]);
    assert!(parents.get(p).is_empty());
}

#[test]
fn state_set_tells_fresh_members() {
    let b = Bounds::new(2, 1).unwrap();
    let mut set = StateSet::new(b);
    assert_eq!(set.bounds(), b);
    let s = at(1, 0, Direction::West);
    assert!(!set.contains(s));
    assert!(set.insert(s));
    assert!(set.contains(s));
    assert!(!set.insert(s));
    assert!(!set.contains(at(1, 0, Direction::East)));
    assert!(!set.contains(at(2, 0, Direction::West)));
}

#[test]
fn least_cost_at_takes_the_least_heading() {
    let b = Bounds::new(2, 2).unwrap();
    let mut dist = DistanceMap::new(b);
    let cell = Vec2D::new(1, 1);
    assert_eq!(least_cost_at(&dist, cell), None);
    dist.set(at(1, 1, Direction::South), 40);
    assert_eq!(least_cost_at(&dist, cell), Some(40));
    dist.set(at(1, 1, Direction::North), 50);
    assert_eq!(least_cost_at(&dist, cell), Some(40));
    dist.set(at(1, 1, Direction::East), 7);
    assert_eq!(least_cost_at(&dist, cell), Some(7));
    dist.set(at(0, 1, Direction::East), 1);
    assert_eq!(least_cost_at(&dist, cell), Some(7));
    assert_eq!(least_cost_at(&dist, Vec2D::new(9, 9)), None);
}

#[test]
fn solve_fills_distances_and_parents() {
    let maze = Maze::new(3, 1, Vec2D::new(0, 0), Vec2D::new(2, 0), &Vec::new());
    let sol = maze.solve(Vec2D::new(0, 0), Direction::East);
    assert_eq!(sol.minimal_cost, Some(2));
    for x in 0..3 {
        for d in Direction::all() {
            let expected = if d == Direction::East { Some(x as u64) } else { None };
            assert_eq!(sol.distances.get(at(x, 0, d)), expected);
        }
    }
    assert!(sol.parents.get(at(0, 0, Direction::East)).is_empty());
    assert_eq!(sol.parents.get(at(1, 0, Direction::East)), &vec![at(0, 0, Direction::East)]);
    assert_eq!(sol.parents.get(at(2, 0, Direction::East)), &vec![at(1, 0, Direction::East)]);
    assert_eq!(sol.tied_end_states(Vec2D::new(2, 0)), vec![at(2, 0, Direction::East)]);
}

#[test]
fn solve_records_every_tied_predecessor() {
    // (1, 1) heading south is reached at 2002 both through (1, 0) heading
    // east and through (1, 0) heading west.
    let maze = Maze::new(3, 2, Vec2D::new(1, 0), Vec2D::new(1, 1), &Vec::new());
    let sol = maze.solve(Vec2D::new(0, 1), Direction::North);
    assert_eq!(sol.distances.get(at(0, 0, Direction::North)), Some(1));
    assert_eq!(sol.distances.get(at(1, 0, Direction::East)), Some(1002));
    assert_eq!(sol.distances.get(at(1, 1, Direction::East)), Some(1001));
    assert_eq!(sol.distances.get(at(1, 1, Direction::South)), Some(2003));
    assert_eq!(sol.minimal_cost, Some(1001));
    let sol = maze.solve(Vec2D::new(1, 0), Direction::North);
    assert_eq!(sol.distances.get(at(1, 0, Direction::North)), Some(0));
    assert_eq!(sol.distances.get(at(0, 0, Direction::West)), Some(1001));
    assert_eq!(sol.distances.get(at(2, 0, Direction::East)), Some(1001));
    assert_eq!(sol.distances.get(at(0, 1, Direction::South)), Some(2002));
    assert_eq!(sol.distances.get(at(2, 1, Direction::South)), Some(2002));
    assert_eq!(sol.distances.get(at(1, 1, Direction::East)), Some(3003));
    assert_eq!(sol.distances.get(at(1, 1, Direction::West)), Some(3003));
    assert_eq!(sol.minimal_cost, Some(3003));
    let mut ends = sol.tied_end_states(Vec2D::new(1, 1));
    ends.sort_by_key(|s| s.facing.index());
    assert_eq!(ends, vec![at(1, 1, Direction::West), at(1, 1, Direction::East)]);
    assert_eq!(sol.optimal_tiles(Vec2D::new(1, 1)), 6);
}

#[test]
fn solve_keeps_both_parents_of_a_tie() {
    // From (0, 0) heading south, (2, 2) heading east is reached at 2004
    // along the bottom row only, and (2, 2) heading south along the right
    // column only; (1, 1) is entered from two sides at equal cost.
    let walls = vec![Vec2D::new(2, 0), Vec2D::new(0, 2)];
    let maze = Maze::new(3, 3, Vec2D::new(0, 0), Vec2D::new(2, 2), &walls);
    let sol = maze.solve(Vec2D::new(0, 0), Direction::South);
    assert_eq!(sol.distances.get(at(1, 1, Direction::East)), Some(1002));
    assert_eq!(sol.distances.get(at(1, 1, Direction::South)), Some(2002));
    assert_eq!(sol.distances.get(at(1, 2, Direction::South)), Some(2003));
    let mut parents = sol.parents.get(at(1, 2, Direction::South)).clone();
    parents.sort_by_key(|s| s.facing.index());
    assert_eq!(parents, vec![at(1, 1, Direction::South), at(1, 1, Direction::East)]);
}

#[test]
fn tracing_follows_parents_and_stops_at_seen_states() {
    let b = Bounds::new(3, 1).unwrap();
    let mut parents = ParentMap::new(b);
    let a = at(0, 0, Direction::East);
    let m = at(1, 0, Direction::East);
    let n = at(1, 0, Direction::North);
    let z = at(2, 0, Direction::East);
    parents.reset(z, m);
    parents.add(z, n);
    parents.reset(m, a);
    parents.reset(n, a);
    let set = Maze::tiles_to(z, &parents);
    for s in [a, m, n, z] {
        assert!(set.contains(s));
    }
    assert!(!set.contains(at(2, 0, Direction::North)));
    assert_eq!(count_cells(&set), 3);
    assert!(holds_cell(&set, Vec2D::new(1, 0)));
    assert!(!holds_cell(&set, Vec2D::new(1, 1)));
    assert_eq!(extract_optimal_tiles(&vec![z], &parents), 3);
    assert_eq!(extract_optimal_tiles(&vec![m], &parents), 2);
    assert_eq!(extract_optimal_tiles(&vec![m, n], &parents), 2);
    assert_eq!(extract_optimal_tiles(&vec![a, a], &parents), 1);
    assert_eq!(extract_optimal_tiles(&Vec::new(), &parents), 0);
    let mut seen = StateSet::new(b);
    trace_into(&mut seen, m, &parents);
    assert!(seen.contains(a) && seen.contains(m) && !seen.contains(n));
    trace_into(&mut seen, z, &parents);
    assert!(seen.contains(n) && seen.contains(z));
}

#[test]
fn tracing_ends_on_a_table_with_a_cycle() {
    let b = Bounds::new(2, 1).unwrap();
    let mut parents = ParentMap::new(b);
    let a = at(0, 0, Direction::East);
    let z = at(1, 0, Direction::West);
    parents.reset(a, z);
    parents.reset(z, a);
    parents.add(z, z);
    assert_eq!(extract_optimal_tiles(&vec![a], &parents), 2);
}
