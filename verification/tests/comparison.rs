use maze_routes::direction::Direction;
use maze_routes::maze::Maze;
use maze_routes::vec2d::Vec2D;
use std::collections::{HashMap, HashSet};

type Spot = (i32, i32);
type Pose = (Spot, usize);

const STEPS: [Spot; 4] = [(0, -1), (-1, 0), (0, 1), (1, 0)];

fn turns(a: usize, b: usize) -> u64 {
    let d = if a > b { a - b } else { b - a };
    if d == 3 {
        1
    } else {
        d as u64
    }
}

/// Least costs by plain relaxation to a fixed point, and the tiles on best
/// routes by walking back over every move that keeps the cost exact.
fn plain_answers(
    width: i32,
    height: i32,
    walls: &HashSet<Spot>,
    start: Spot,
    facing: usize,
    end: Spot,
) -> (Option<u64>, usize) {
    let open = |c: Spot| 0 <= c.0 && c.0 < width && 0 <= c.1 && c.1 < height && !walls.contains(&c);
    let mut dist: HashMap<Pose, u64> = HashMap::new();
    dist.insert((start, facing), 0);
    loop {
        let mut changed = false;
        let known: Vec<(Pose, u64)> = dist.iter().map(|(k, v)| (*k, *v)).collect();
        for ((pos, dir), cost) in known {
            for d in 0..4 {
                let t = turns(dir, d);
                if t == 2 {
                    continue;
                }
                let next = (pos.0 + STEPS[d].0, pos.1 + STEPS[d].1);
                if !open(next) {
                    continue;
                }
                let cand = cost + 1000 * t + 1;
                if dist.get(&(next, d)).map_or(true, |old| cand < *old) {
                    dist.insert((next, d), cand);
                    changed = true;
                }
            }
        }
        if !changed {
            break;
        }
    }
    let best = (0..4).filter_map(|d| dist.get(&(end, d)).copied()).min();
    let best = match best {
        Some(b) => b,
        None => return (None, 0),
    };
    let mut seen: HashSet<Pose> = HashSet::new();
    let mut stack: Vec<Pose> = (0..4)
        .filter(|d| dist.get(&(end, *d)) == Some(&best))
        .map(|d| (end, d))
        .collect();
    while let Some((pos, dir)) = stack.pop() {
        if !seen.insert((pos, dir)) {
            continue;
        }
        let from = (pos.0 - STEPS[dir].0, pos.1 - STEPS[dir].1);
        for d in 0..4 {
            let t = turns(d, dir);
            if t == 2 {
                continue;
            }
            if let Some(c) = dist.get(&(from, d)) {
                if c + 1000 * t + 1 == dist[&(pos, dir)] {
                    stack.push((from, d));
                }
            }
        }
    }
    let tiles: HashSet<Spot> = seen.iter().map(|p| p.0).collect();
    (Some(best), tiles.len())
}

struct Dice(u64);

impl Dice {
    fn roll(&mut self, sides: u64) -> u64 {
        self.0 = self.0.wrapping_mul(6364136223846793005).wrapping_add(1442695040888963407);
        (self.0 >> 33) % sides
    }
}

fn compare_on(dice: &mut Dice, width: i32, height: i32, density: u64) {
    let mut walls: HashSet<Spot> = HashSet::new();
    for y in 0..height {
        for x in 0..width {
            if dice.roll(100) < density {
                walls.insert((x, y));
            }
        }
    }
    let start = (dice.roll(width as u64) as i32, dice.roll(height as u64) as i32);
    let end = (dice.roll(width as u64) as i32, dice.roll(height as u64) as i32);
    walls.remove(&start);
    let facing = dice.roll(4) as usize;
    let cells: Vec<Vec2D> = walls.iter().map(|w| Vec2D::new(w.0, w.1)).collect();
    let maze = Maze::new(width, height, Vec2D::new(start.0, start.1), Vec2D::new(end.0, end.1), &cells);
    let sol = maze.solve(maze.start(), Direction::all()[facing]);
    let (best, tiles) = plain_answers(width, height, &walls, start, facing, end);
    assert_eq!(sol.minimal_cost, best, "{}x{} {:?} {:?} {:?}", width, height, start, end, walls);
    assert_eq!(
        sol.optimal_tiles(maze.end()),
        tiles,
        "{}x{} {:?} {:?} {:?}",
        width,
        height,
        start,
        end,
        walls
    );
}

#[test]
fn small_mazes_agree_with_plain_relaxation() {
    let mut dice = Dice(2024);
    for _ in 0..300 {
        let width = 1 + dice.roll(6) as i32;
        let height = 1 + dice.roll(6) as i32;
        compare_on(&mut dice, width, height, 25);
    }
}

#[test]
fn sparse_mazes_agree_with_plain_relaxation() {
    let mut dice = Dice(16);
    for _ in 0..60 {
        let width = 4 + dice.roll(8) as i32;
        let height = 4 + dice.roll(8) as i32;
        compare_on(&mut dice, width, height, 8);
    }
}

#[test]
fn dense_mazes_agree_with_plain_relaxation() {
    let mut dice = Dice(7);
    for _ in 0..150 {
        let width = 3 + dice.roll(7) as i32;
        let height = 3 + dice.roll(7) as i32;
        compare_on(&mut dice, width, height, 45);
    }
}

#[test]
fn walls_never_lower_the_cost_on_small_mazes() {
    let mut dice = Dice(99);
    for _ in 0..200 {
        let width = 2 + dice.roll(5) as i32;
        let height = 2 + dice.roll(5) as i32;
        let mut walls: Vec<Vec2D> = Vec::new();
        for y in 0..height {
            for x in 0..width {
                if dice.roll(100) < 20 {
                    walls.push(Vec2D::new(x, y));
                }
            }
        }
        let start = Vec2D::new(dice.roll(width as u64) as i32, dice.roll(height as u64) as i32);
        let end = Vec2D::new(dice.roll(width as u64) as i32, dice.roll(height as u64) as i32);
        let before = Maze::new(width, height, start, end, &walls);
        walls.push(Vec2D::new(dice.roll(width as u64) as i32, dice.roll(height as u64) as i32));
        let after = Maze::new(width, height, start, end, &walls);
        let (old, new) = (before.best_cost(), after.best_cost());
        match (old, new) {
            (Some(a), Some(b)) => {
                assert!(a <= b);
                if a == b {
                    assert!(after.unique_tiles().unwrap() <= before.unique_tiles().unwrap());
                }
            }
            (None, Some(_)) => panic!("a wall opened a route"),
            _ => {}
        }
    }
}
