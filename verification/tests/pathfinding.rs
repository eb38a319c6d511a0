use azalea::planner::{DStarLite, NoPathError};
use azalea::scores::VertexScore;
use azalea::terrain::{Edge, EdgeTo};
use azalea::priority::Priority;
use std::cmp::Ordering;
use std::collections::BinaryHeap;

const INF: u64 = u64::MAX;

fn node(x: usize, y: usize, width: usize) -> u64 {
    (y * width + x) as u64
}

fn coords(n: u64, width: usize) -> (usize, usize) {
    ((n as usize) % width, (n as usize) / width)
}

fn manhattan(a: u64, b: u64, width: usize) -> u64 {
    let (ax, ay) = coords(a, width);
    let (bx, by) = coords(b, width);
    (ax.abs_diff(bx) + ay.abs_diff(by)) as u64
}

/// The open neighbours of a cell, in the order left, right, up, down.
fn open_neighbours(maze: &[Vec<u8>], a: u64) -> Vec<EdgeTo> {
    let width = maze[0].len();
    let height = maze.len();
    let (x, y) = coords(a, width);
    let mut edges = Vec::with_capacity(4);
    if x > 0 && maze[y][x - 1] == 0 {
        edges.push(EdgeTo { target: node(x - 1, y, width), cost: 1 });
    }
    if x < width - 1 && maze[y][x + 1] == 0 {
        edges.push(EdgeTo { target: node(x + 1, y, width), cost: 1 });
    }
    if y > 0 && maze[y - 1][x] == 0 {
        edges.push(EdgeTo { target: node(x, y - 1, width), cost: 1 });
    }
    if y < height - 1 && maze[y + 1][x] == 0 {
        edges.push(EdgeTo { target: node(x, y + 1, width), cost: 1 });
    }
    edges
}

/// All neighbours of a cell; an edge into or out of a wall costs infinity.
fn all_neighbours(maze: &[Vec<u8>], a: u64) -> Vec<EdgeTo> {
    let width = maze[0].len();
    let height = maze.len();
    let (x, y) = coords(a, width);
    let mut cells = Vec::with_capacity(4);
    if x > 0 {
        cells.push((x - 1, y));
    }
    if x < width - 1 {
        cells.push((x + 1, y));
    }
    if y > 0 {
        cells.push((x, y - 1));
    }
    if y < height - 1 {
        cells.push((x, y + 1));
    }
    cells
        .into_iter()
        .map(|(cx, cy)| EdgeTo {
            target: node(cx, cy, width),
            cost: if maze[y][x] == 0 && maze[cy][cx] == 0 { 1 } else { INF },
        })
        .collect()
}

/// Reference search: the cost of the cheapest way from `from` to `to`.
fn dijkstra(maze: &[Vec<u8>], from: u64, to: u64) -> u64 {
    let size = maze.len() * maze[0].len();
    let mut dist = vec![INF; size];
    let mut heap = BinaryHeap::new();
    dist[from as usize] = 0;
    heap.push(std::cmp::Reverse((0u64, from)));
    while let Some(std::cmp::Reverse((d, n))) = heap.pop() {
        if d > dist[n as usize] {
            continue;
        }
        for e in open_neighbours(maze, n) {
            let nd = d + e.cost;
            if nd < dist[e.target as usize] {
                dist[e.target as usize] = nd;
                heap.push(std::cmp::Reverse((nd, e.target)));
            }
        }
    }
    dist[to as usize]
}

fn maze_5x5() -> Vec<Vec<u8>> {
    vec![
        vec![0, 1, 0, 0, 0],
        vec![0, 1, 0, 1, 0],
        vec![0, 0, 0, 1, 0],
        vec![0, 1, 0, 1, 0],
        vec![0, 0, 1, 0, 0],
    ]
}

#[test]
fn test_dstarlite() {
    let maze = maze_5x5();
    let width = maze[0].len();
    let heuristic = |a: &u64, b: &u64| -> u64 { manhattan(*a, *b, width) };
    let successors = |a: &u64| -> Vec<EdgeTo> { open_neighbours(&maze, *a) };
    let predecessors = |a: &u64| -> Vec<EdgeTo> { open_neighbours(&maze, *a) };
    let n = |x: usize, y: usize| node(x, y, width);

    let mut dstar = DStarLite::new(n(0, 0), n(4, 4), heuristic, successors, predecessors);
    assert!(dstar.try_next().unwrap() == Some(n(0, 1)));
    assert!(dstar.try_next().unwrap() == Some(n(0, 2)));
    assert!(dstar.try_next().unwrap() == Some(n(1, 2)));
    assert!(dstar.try_next().unwrap() == Some(n(2, 2)));
    assert!(dstar.try_next().unwrap() == Some(n(2, 1)));
    assert!(dstar.try_next().unwrap() == Some(n(2, 0)));
    assert!(dstar.try_next().unwrap() == Some(n(3, 0)));
    assert!(dstar.try_next().unwrap() == Some(n(4, 0)));
    assert!(dstar.try_next().unwrap() == Some(n(4, 1)));
    assert!(dstar.try_next().unwrap() == Some(n(4, 2)));
    assert!(dstar.try_next().unwrap() == Some(n(4, 3)));
    assert!(dstar.try_next().unwrap() == Some(n(4, 4)));
    assert!(dstar.try_next().unwrap() == None);
}

#[test]
fn new_seeds_goal_and_converges() {
    let maze = maze_5x5();
    let width = 5;
    let d = DStarLite::new(
        node(0, 0, width),
        node(4, 4, width),
        |a: &u64, b: &u64| manhattan(*a, *b, width),
        |a: &u64| open_neighbours(&maze, *a),
        |a: &u64| open_neighbours(&maze, *a),
    );
    assert_eq!(d.start, node(0, 0, width));
    assert_eq!(d.start_last, node(0, 0, width));
    assert_eq!(d.goal, node(4, 4, width));
    assert_eq!(d.k_m, 0);
    assert!(d.updated_edge_costs.is_empty());
    assert!(!d.needs_work());
    assert_eq!(d.score(&node(4, 4, width)), VertexScore { g: 0, rhs: 0 });
    assert_eq!(d.score(&node(4, 3, width)), VertexScore { g: 1, rhs: 1 });
    assert_eq!(d.score(&node(0, 0, width)).rhs, 12);
    assert!(d.expansions > 0);
}

#[test]
fn new_on_the_goal_expands_nothing() {
    let maze = maze_5x5();
    let width = 5;
    let goal = node(2, 2, width);
    let mut d = DStarLite::new(
        goal,
        goal,
        |a: &u64, b: &u64| manhattan(*a, *b, width),
        |a: &u64| open_neighbours(&maze, *a),
        |a: &u64| open_neighbours(&maze, *a),
    );
    assert_eq!(d.expansions, 0);
    assert_eq!(d.score(&goal), VertexScore { g: INF, rhs: 0 });
    assert_eq!(d.queue.len(), 1);
    assert_eq!(d.queue.get_priority(&goal), Some(&(0, 0)));
    assert_eq!(d.try_next(), Ok(None));
    assert_eq!(d.start, goal);
}

#[test]
fn unscored_node_has_infinite_score() {
    let d = DStarLite::new(
        0,
        1,
        |_: &u64, _: &u64| 0,
        |_: &u64| Vec::new(),
        |_: &u64| Vec::new(),
    );
    assert_eq!(d.score(&77), VertexScore { g: INF, rhs: INF });
    assert_eq!(VertexScore::default(), VertexScore { g: u64::MAX, rhs: u64::MAX });
}

#[test]
fn try_next_without_path_fails_and_stays() {
    // the goal is walled in
    let maze = vec![vec![0, 0, 1, 0], vec![0, 0, 1, 0]];
    let width = 4;
    let mut d = DStarLite::new(
        node(0, 0, width),
        node(3, 1, width),
        |a: &u64, b: &u64| manhattan(*a, *b, width),
        |a: &u64| open_neighbours(&maze, *a),
        |a: &u64| open_neighbours(&maze, *a),
    );
    assert_eq!(d.score(&node(0, 0, width)).rhs, INF);
    assert_eq!(d.try_next(), Err(NoPathError));
    assert_eq!(d.start, node(0, 0, width));
    assert_eq!(d.try_next(), Err(NoPathError));
    assert_eq!(d.start, node(0, 0, width));
}

#[test]
fn try_next_breaks_ties_by_enumeration_order() {
    // an open 3x3 field: from the corner both neighbours are equally good
    let maze = vec![vec![0, 0, 0], vec![0, 0, 0], vec![0, 0, 0]];
    let width = 3;
    let mut d = DStarLite::new(
        node(0, 0, width),
        node(2, 2, width),
        |a: &u64, b: &u64| manhattan(*a, *b, width),
        |a: &u64| open_neighbours(&maze, *a),
        |a: &u64| open_neighbours(&maze, *a),
    );
    // neighbours are listed right before down
    assert_eq!(d.try_next(), Ok(Some(node(1, 0, width))));
}

#[test]
fn calculate_key_adds_heuristic_and_modifier() {
    let maze = maze_5x5();
    let width = 5;
    let mut d = DStarLite::new(
        node(0, 0, width),
        node(4, 4, width),
        |a: &u64, b: &u64| manhattan(*a, *b, width),
        |a: &u64| open_neighbours(&maze, *a),
        |a: &u64| open_neighbours(&maze, *a),
    );
    // (4,3): min(g, rhs) = 1, heuristic from (0,0) = 7, k_m = 0
    assert_eq!(d.calculate_key(&node(4, 3, width)), Priority(8, 1));
    d.k_m = 5;
    assert_eq!(d.calculate_key(&node(4, 3, width)), Priority(13, 1));
    // a node without a score keeps an infinite key
    assert_eq!(d.calculate_key(&node(1, 0, width)), Priority(INF, INF));
}

#[test]
fn update_vertex_keeps_queue_in_line_with_scores() {
    let maze = maze_5x5();
    let width = 5;
    let mut d = DStarLite::new(
        node(0, 0, width),
        node(4, 4, width),
        |a: &u64, b: &u64| manhattan(*a, *b, width),
        |a: &u64| open_neighbours(&maze, *a),
        |a: &u64| open_neighbours(&maze, *a),
    );
    let n = node(4, 3, width);
    assert_eq!(d.queue.get_priority(&n), None);
    // make the node inconsistent by hand: it must be queued under its key
    d.vertex_scores.insert(n, VertexScore { g: 1, rhs: 4 });
    d.update_vertex(&n);
    assert_eq!(d.queue.get_priority(&n), Some(&(8, 1)));
    // change the score again: the key follows
    d.vertex_scores.insert(n, VertexScore { g: 9, rhs: 3 });
    d.update_vertex(&n);
    assert_eq!(d.queue.get_priority(&n), Some(&(10, 3)));
    // consistent again: it leaves the queue
    d.vertex_scores.insert(n, VertexScore { g: 1, rhs: 1 });
    d.update_vertex(&n);
    assert_eq!(d.queue.get_priority(&n), None);
}

#[test]
fn lookahead_is_least_cost_through_an_edge() {
    let maze = maze_5x5();
    let width = 5;
    let d = DStarLite::new(
        node(0, 0, width),
        node(4, 4, width),
        |a: &u64, b: &u64| manhattan(*a, *b, width),
        |a: &u64| open_neighbours(&maze, *a),
        |a: &u64| open_neighbours(&maze, *a),
    );
    assert_eq!(d.lookahead_of(&node(4, 2, width)), 2);
    assert_eq!(d.lookahead_of(&node(0, 0, width)), 12);
    // the goal's own lookahead over its edges is not its rhs
    assert_eq!(d.lookahead_of(&node(4, 4, width)), 2);
}

#[test]
fn absorb_edge_update_lowers_and_recomputes() {
    let maze = maze_5x5();
    let width = 5;
    let mut d = DStarLite::new(
        node(0, 0, width),
        node(4, 4, width),
        |a: &u64, b: &u64| manhattan(*a, *b, width),
        |a: &u64| open_neighbours(&maze, *a),
        |a: &u64| open_neighbours(&maze, *a),
    );
    let s = node(0, 0, width);
    let far = node(0, 1, width);
    assert_eq!(d.score(&s), VertexScore { g: INF, rhs: 12 });
    assert_eq!(d.score(&far).g, 11);
    // a cost that rose, on an edge that the rhs does not rest on: no change
    d.absorb_edge_update(Edge { predecessor: far, successor: s, cost: 7 }, 9);
    assert_eq!(d.score(&s).rhs, 12);
    // a cost that fell from 5 to 0: rhs comes down to 0 + g(far)
    d.absorb_edge_update(Edge { predecessor: far, successor: s, cost: 5 }, 0);
    assert_eq!(d.score(&s), VertexScore { g: INF, rhs: 11 });
    assert_eq!(d.queue.get_priority(&s), Some(&(11, 11)));
    // a cost that rose from 0, on which the rhs rests: computed anew
    d.absorb_edge_update(Edge { predecessor: far, successor: s, cost: 0 }, 1);
    assert_eq!(d.score(&s), VertexScore { g: INF, rhs: 12 });
    assert_eq!(d.queue.get_priority(&s), Some(&(12, 12)));
}

#[test]
fn static_paths_cost_what_dijkstra_finds() {
    let mazes = vec![
        maze_5x5(),
        vec![vec![0, 0, 0, 0], vec![0, 1, 1, 0], vec![0, 0, 0, 0]],
        vec![vec![0, 0, 0], vec![1, 1, 0], vec![0, 0, 0], vec![0, 1, 1], vec![0, 0, 0]],
    ];
    for maze in mazes {
        let width = maze[0].len();
        let height = maze.len();
        let start = node(0, 0, width);
        let goal = node(width - 1, height - 1, width);
        let mut d = DStarLite::new(
            start,
            goal,
            |a: &u64, b: &u64| manhattan(*a, *b, width),
            |a: &u64| open_neighbours(&maze, *a),
            |a: &u64| open_neighbours(&maze, *a),
        );
        let mut cost = 0;
        let mut steps = 0;
        while let Some(_) = d.try_next().unwrap() {
            cost += 1;
            steps += 1;
            assert!(steps < 100);
        }
        assert_eq!(d.start, goal);
        assert_eq!(cost, dijkstra(&maze, start, goal));
    }
}

type Heuristic = Box<dyn Fn(&u64, &u64) -> u64>;
type Edges = Box<dyn Fn(&u64) -> Vec<EdgeTo>>;
type BoxedPlanner = DStarLite<Heuristic, Edges, Edges>;

/// Terrain functions over a copy of the maze as it is now.
fn maze_edges(maze: &[Vec<u8>]) -> Edges {
    let snapshot = maze.to_vec();
    Box::new(move |a: &u64| all_neighbours(&snapshot, *a))
}

fn maze_heuristic(width: usize) -> Heuristic {
    Box::new(move |a: &u64, b: &u64| manhattan(*a, *b, width))
}

/// Blocks or opens a cell, buffers the cost changes of all edges at it and
/// hands the planner the terrain functions of the changed maze.
fn set_cell(maze: &mut Vec<Vec<u8>>, d: &mut BoxedPlanner, x: usize, y: usize, wall: u8) {
    let width = maze[0].len();
    let cell = node(x, y, width);
    let before = all_neighbours(maze, cell);
    maze[y][x] = wall;
    let after = all_neighbours(maze, cell);
    for (old, new) in before.iter().zip(after.iter()) {
        if old.cost != new.cost {
            d.updated_edge_costs.push((
                Edge { predecessor: old.target, successor: cell, cost: old.cost },
                new.cost,
            ));
            d.updated_edge_costs.push((
                Edge { predecessor: cell, successor: old.target, cost: old.cost },
                new.cost,
            ));
        }
    }
    d.successors = maze_edges(maze);
    d.predecessors = maze_edges(maze);
}

fn walk_cost(d: &mut BoxedPlanner) -> u64 {
    let mut cost = 0;
    while let Some(_) = d.try_next().unwrap() {
        cost += 1;
        assert!(cost < 1000);
    }
    cost
}

#[test]
fn replanning_agrees_with_search_from_scratch() {
    let mut maze = vec![
        vec![0, 0, 0, 0, 0],
        vec![0, 1, 1, 1, 0],
        vec![0, 0, 0, 0, 0],
        vec![0, 1, 1, 1, 0],
        vec![0, 0, 0, 0, 0],
    ];
    let width = 5;
    let goal = node(4, 4, width);
    let mut d: BoxedPlanner = DStarLite::new(
        node(0, 0, width),
        goal,
        maze_heuristic(width),
        maze_edges(&maze),
        maze_edges(&maze),
    );
    assert_eq!(d.score(&d.start).rhs, 8);
    // two steps, then the way ahead closes
    d.try_next().unwrap();
    d.try_next().unwrap();
    let here = d.start;
    set_cell(&mut maze, &mut d, 4, 1, 1);
    set_cell(&mut maze, &mut d, 4, 3, 1);
    set_cell(&mut maze, &mut d, 0, 3, 1);
    let moved_by = manhattan(here, node(0, 0, width), width);
    d.update_from_updated_edges();
    assert!(d.updated_edge_costs.is_empty());
    assert_eq!(d.start_last, here);
    assert_eq!(d.k_m, moved_by);
    assert!(!d.needs_work());
    let expected = dijkstra(&maze, here, goal);
    assert_eq!(d.score(&here).rhs, expected);
    assert_eq!(expected, INF);
    assert_eq!(d.try_next(), Err(NoPathError));
    // a wall opens again: a way exists and is as short as a fresh search says
    set_cell(&mut maze, &mut d, 4, 3, 0);
    set_cell(&mut maze, &mut d, 2, 3, 0);
    d.update_from_updated_edges();
    assert_eq!(d.k_m, moved_by);
    let expected = dijkstra(&maze, here, goal);
    assert!(expected < INF);
    assert_eq!(d.score(&here).rhs, expected);
    assert_eq!(walk_cost(&mut d), expected);
    assert_eq!(d.start, goal);
}

#[test]
fn replanning_matches_fresh_planner_after_many_changes() {
    let mut maze = vec![vec![0u8; 6]; 6];
    let width = 6;
    let goal = node(5, 5, width);
    let mut d: BoxedPlanner = DStarLite::new(
        node(0, 0, width),
        goal,
        maze_heuristic(width),
        maze_edges(&maze),
        maze_edges(&maze),
    );
    let walls = [(1, 0), (1, 1), (1, 2), (3, 5), (3, 4), (3, 3), (3, 2), (4, 2), (1, 4), (2, 4)];
    let mut seed: u64 = 12345;
    for round in 0..40 {
        seed = seed.wrapping_mul(6364136223846793005).wrapping_add(1442695040888963407);
        let (x, y) = walls[(seed >> 33) as usize % walls.len()];
        let now = maze[y][x];
        if node(x, y, width) != d.start {
            set_cell(&mut maze, &mut d, x, y, 1 - now);
        }
        d.update_from_updated_edges();
        let expected = dijkstra(&maze, d.start, goal);
        assert_eq!(d.score(&d.start).rhs, expected, "round {}", round);
        let fresh: BoxedPlanner =
            DStarLite::new(d.start, goal, maze_heuristic(width), maze_edges(&maze), maze_edges(&maze));
        assert_eq!(fresh.score(&d.start).rhs, expected, "round {}", round);
        if expected < INF && d.start != goal && round % 3 == 0 {
            let before = d.start;
            let next = d.try_next().unwrap().unwrap();
            assert_eq!(dijkstra(&maze, next, goal) + 1, dijkstra(&maze, before, goal));
        }
    }
}

#[test]
fn priority_orders_lexicographically() {
    assert!(Priority(1, 9).less_than(&Priority(2, 0)));
    assert!(Priority(2, 3).less_than(&Priority(2, 4)));
    assert!(!Priority(2, 4).less_than(&Priority(2, 4)));
    assert!(!Priority(3, 0).less_than(&Priority(2, 9)));
    assert!(!Priority(2, 5).less_than(&Priority(2, 4)));
}

#[test]
fn no_path_error_has_its_message() {
    assert_eq!(NoPathError.message(), "No path found");
}

#[test]
fn priority_compares_like_its_pair() {
    assert_eq!(Priority(1, 9).partial_cmp(&Priority(2, 0)), Some(Ordering::Less));
    assert_eq!(Priority(2, 0).partial_cmp(&Priority(1, 9)), Some(Ordering::Greater));
    assert_eq!(Priority(2, 3).partial_cmp(&Priority(2, 4)), Some(Ordering::Less));
    assert_eq!(Priority(2, 5).partial_cmp(&Priority(2, 4)), Some(Ordering::Greater));
    assert_eq!(Priority(2, 4).partial_cmp(&Priority(2, 4)), Some(Ordering::Equal));
    assert!(Priority(0, 7) < Priority(1, 0));
}

#[test]
fn buffered_changes_are_absorbed_last_first() {
    let maze = maze_5x5();
    let width = 5;
    let mut d = DStarLite::new(
        node(0, 0, width),
        node(4, 4, width),
        |a: &u64, b: &u64| manhattan(*a, *b, width),
        |a: &u64| open_neighbours(&maze, *a),
        |a: &u64| open_neighbours(&maze, *a),
    );
    let s = node(0, 0, width);
    let far = node(0, 1, width);
    // g(far) = 11 and rhs(s) = 12.
    let lower = (Edge { predecessor: far, successor: s, cost: 5 }, 0);
    let raise = (Edge { predecessor: far, successor: s, cost: 0 }, 1);
    // `lower` is submitted last and absorbed first: the rhs comes down to
    // 0 + 11; `raise` then finds the rhs resting on its old cost 0 and has it
    // computed anew, which gives 12 again.
    d.updated_edge_costs.push(raise);
    d.updated_edge_costs.push(lower);
    d.absorb_updated_edges();
    assert!(d.updated_edge_costs.is_empty());
    assert_eq!(d.score(&s), VertexScore { g: INF, rhs: 12 });
    assert_eq!(d.queue.get_priority(&s), Some(&(12, 12)));
    // In the other order `raise` is absorbed first and changes nothing, as
    // the rhs does not rest on the cost 0; `lower` leaves the rhs at 0 + 11.
    d.updated_edge_costs.push(lower);
    d.updated_edge_costs.push(raise);
    d.absorb_updated_edges();
    assert!(d.updated_edge_costs.is_empty());
    assert_eq!(d.score(&s), VertexScore { g: INF, rhs: 11 });
    assert_eq!(d.queue.get_priority(&s), Some(&(11, 11)));
    assert_eq!(d.k_m, 0);
}

/// A directed graph with weighted edges, given as `(from, to, cost)`.
fn out_edges(edges: &[(u64, u64, u64)], n: u64) -> Vec<EdgeTo> {
    edges
        .iter()
        .filter(|e| e.0 == n)
        .map(|e| EdgeTo { target: e.1, cost: e.2 })
        .collect()
}

fn in_edges(edges: &[(u64, u64, u64)], n: u64) -> Vec<EdgeTo> {
    edges
        .iter()
        .filter(|e| e.1 == n)
        .map(|e| EdgeTo { target: e.0, cost: e.2 })
        .collect()
}

/// Reference search on a directed graph, by repeated relaxation.
fn cheapest(edges: &[(u64, u64, u64)], from: u64, to: u64) -> u64 {
    let mut dist = vec![INF; 16];
    dist[to as usize] = 0;
    for _ in 0..16 {
        for &(a, b, c) in edges {
            let through = dist[b as usize].saturating_add(c);
            if through < dist[a as usize] {
                dist[a as usize] = through;
            }
        }
    }
    dist[from as usize]
}

fn one_way_graph() -> Vec<(u64, u64, u64)> {
    vec![
        (0, 1, 4),
        (0, 2, 1),
        (2, 1, 2),
        (1, 3, 5),
        (2, 3, 9),
        (3, 4, 3),
        (1, 4, 10),
        (4, 0, 1),
        (3, 2, 1),
    ]
}

#[test]
fn one_way_edges_are_followed_forward() {
    let graph = one_way_graph();
    let mut d = DStarLite::new(
        0,
        4,
        |_: &u64, _: &u64| 0,
        |a: &u64| out_edges(&graph, *a),
        |a: &u64| in_edges(&graph, *a),
    );
    // 0 -> 2 -> 1 -> 3 -> 4 costs 1 + 2 + 5 + 3
    assert_eq!(cheapest(&graph, 0, 4), 11);
    assert_eq!(d.score(&0).rhs, 11);
    assert_eq!(d.try_next(), Ok(Some(2)));
    assert_eq!(d.try_next(), Ok(Some(1)));
    assert_eq!(d.try_next(), Ok(Some(3)));
    assert_eq!(d.try_next(), Ok(Some(4)));
    assert_eq!(d.try_next(), Ok(None));
}

fn graph_out(graph: &[(u64, u64, u64)]) -> Edges {
    let snapshot = graph.to_vec();
    Box::new(move |a: &u64| out_edges(&snapshot, *a))
}

fn graph_in(graph: &[(u64, u64, u64)]) -> Edges {
    let snapshot = graph.to_vec();
    Box::new(move |a: &u64| in_edges(&snapshot, *a))
}

fn no_heuristic() -> Heuristic {
    Box::new(|_: &u64, _: &u64| 0)
}

#[test]
fn replanning_on_weighted_one_way_graph() {
    let mut graph = one_way_graph();
    let mut d: BoxedPlanner = DStarLite::new(0, 4, no_heuristic(), graph_out(&graph), graph_in(&graph));
    assert_eq!(d.try_next(), Ok(Some(2)));
    // the edge 1 -> 3 gets dearer and the edge 2 -> 3 cheaper
    let changes = [(1u64, 3u64, 20u64), (2, 3, 4)];
    for &(from, to, cost) in changes.iter() {
        let e = graph.iter_mut().find(|e| e.0 == from && e.1 == to).unwrap();
        d.updated_edge_costs.push((Edge { predecessor: to, successor: from, cost: e.2 }, cost));
        e.2 = cost;
    }
    d.successors = graph_out(&graph);
    d.predecessors = graph_in(&graph);
    d.update_from_updated_edges();
    assert_eq!(cheapest(&graph, 2, 4), 7);
    assert_eq!(d.score(&2).rhs, 7);
    assert_eq!(d.try_next(), Ok(Some(3)));
    assert_eq!(d.try_next(), Ok(Some(4)));
    assert_eq!(d.try_next(), Ok(None));
    // a search from nothing finds the same
    let fresh: BoxedPlanner = DStarLite::new(2, 4, no_heuristic(), graph_out(&graph), graph_in(&graph));
    assert_eq!(fresh.score(&2).rhs, 7);
}

#[test]
fn zero_cost_edges_on_a_fresh_planner() {
    // 0 -> 1 at no cost, 1 -> 2 at cost 3, 0 -> 2 at cost 5, 2 -> 3 at no cost
    let graph = vec![(0u64, 1u64, 0u64), (1, 2, 3), (0, 2, 5), (2, 3, 0)];
    let mut d: BoxedPlanner = DStarLite::new(0, 3, no_heuristic(), graph_out(&graph), graph_in(&graph));
    assert_eq!(d.score(&0).rhs, 3);
    assert_eq!(d.try_next(), Ok(Some(1)));
    assert_eq!(d.score(&1), VertexScore { g: 3, rhs: 3 });
    assert_eq!(d.try_next(), Ok(Some(2)));
    assert_eq!(d.try_next(), Ok(Some(3)));
    assert_eq!(d.try_next(), Ok(None));
}

#[test]
fn terrain_without_edges_has_no_path() {
    let mut d = DStarLite::new(0, 1, |_: &u64, _: &u64| 0, |_: &u64| Vec::new(), |_: &u64| Vec::new());
    assert_eq!(d.expansions, 1);
    assert_eq!(d.try_next(), Err(NoPathError));
    assert_eq!(d.start, 0);
    assert_eq!(d.try_next(), Err(NoPathError));
    assert_eq!(d.start, 0);
}

#[test]
fn replanning_when_an_edge_is_gone() {
    let mut graph = one_way_graph();
    let mut d: BoxedPlanner = DStarLite::new(0, 4, no_heuristic(), graph_out(&graph), graph_in(&graph));
    assert_eq!(d.score(&0).rhs, 11);
    // the edge 2 -> 1 is no longer listed: its new cost is infinite
    graph.retain(|e| !(e.0 == 2 && e.1 == 1));
    d.updated_edge_costs.push((Edge { predecessor: 1, successor: 2, cost: 2 }, INF));
    d.successors = graph_out(&graph);
    d.predecessors = graph_in(&graph);
    d.update_from_updated_edges();
    // 0 -> 1 -> 3 -> 4 costs 4 + 5 + 3, and 0 -> 2 -> 3 -> 4 costs 1 + 9 + 3
    assert_eq!(cheapest(&graph, 0, 4), 12);
    assert_eq!(d.score(&0).rhs, 12);
    assert_eq!(d.try_next(), Ok(Some(1)));
    assert_eq!(d.try_next(), Ok(Some(3)));
    assert_eq!(d.try_next(), Ok(Some(4)));
    assert_eq!(d.try_next(), Ok(None));
}

#[test]
fn replanning_with_two_edges_between_the_same_nodes() {
    // two edges 0 -> 1, at cost 2 and at cost 6, and 1 -> 2 at cost 1
    let mut graph = vec![(0u64, 1u64, 2u64), (0, 1, 6), (1, 2, 1)];
    let mut d: BoxedPlanner = DStarLite::new(0, 2, no_heuristic(), graph_out(&graph), graph_in(&graph));
    assert_eq!(d.score(&0).rhs, 3);
    // the cheaper of the two gets dearer than the other
    graph[0].2 = 9;
    d.updated_edge_costs.push((Edge { predecessor: 1, successor: 0, cost: 2 }, 9));
    d.successors = graph_out(&graph);
    d.predecessors = graph_in(&graph);
    d.update_from_updated_edges();
    assert_eq!(d.score(&0).rhs, 7);
    assert_eq!(d.try_next(), Ok(Some(1)));
    assert_eq!(d.try_next(), Ok(Some(2)));
    assert_eq!(d.try_next(), Ok(None));
}

#[test]
fn fresh_search_takes_no_more_rounds_than_nodes() {
    let maze = maze_5x5();
    let width = 5;
    let d = DStarLite::new(
        node(0, 0, width),
        node(4, 4, width),
        |a: &u64, b: &u64| manhattan(*a, *b, width),
        |a: &u64| open_neighbours(&maze, *a),
        |a: &u64| open_neighbours(&maze, *a),
    );
    assert!(!d.needs_work());
    // every round expands a node that was never expanded before
    assert!(d.expansions <= 25);
    let reached = (0..25u64).filter(|n| d.score(n).g != INF).count() as u64;
    assert_eq!(d.expansions, reached);
}
