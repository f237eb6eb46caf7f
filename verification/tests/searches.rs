use core_sim::search::astar::a_star;
use core_sim::search::graph::ListedGraph;
use core_sim::grid::{heuristic, GridMap, GridPos};
use core_sim::hpa::local::a_star_local;
use core_sim::search::queue::{MinQueue, QueueEntry};

fn diamond() -> ListedGraph {
    // 0 -> 1 (1), 0 -> 2 (4), 1 -> 2 (1), 1 -> 3 (7), 2 -> 3 (2), 4 is cut off.
    ListedGraph {
        edges: vec![vec![(1, 1), (2, 4)], vec![(2, 1), (3, 7)], vec![(3, 2)], vec![], vec![(0, 1)]],
        estimates: vec![0, 0, 0, 0, 0],
        goals: vec![false, false, false, true, false],
    }
}

#[test]
fn listed_graph_knows_whether_it_is_valid() {
    let mut graph = diamond();
    assert!(graph.is_valid());
    graph.edges[2].push((5, 1));
    assert!(!graph.is_valid());
    graph.edges[2].pop();
    graph.goals.pop();
    assert!(!graph.is_valid());
}

#[test]
fn search_finds_the_cheapest_route() {
    let graph = diamond();
    let (cost, path) = a_star(&graph, 0).unwrap();
    assert_eq!(cost, 4);
    assert_eq!(path, vec![0, 1, 2, 3]);
}

#[test]
fn search_with_an_admissible_estimate_finds_the_same_cost() {
    let mut graph = diamond();
    graph.estimates = vec![4, 3, 2, 0, 5];
    let (cost, path) = a_star(&graph, 0).unwrap();
    assert_eq!(cost, 4);
    assert_eq!(path[0], 0);
    assert_eq!(path[path.len() - 1], 3);
}

#[test]
fn search_from_a_goal_stays_there() {
    let graph = diamond();
    let (cost, path) = a_star(&graph, 3).unwrap();
    assert_eq!(cost, 0);
    assert_eq!(path, vec![3]);
}

#[test]
fn search_without_a_reachable_goal_finds_nothing() {
    let mut graph = diamond();
    graph.goals = vec![false, false, false, false, true];
    assert!(a_star(&graph, 0).is_none());
}

#[test]
fn search_tolerates_edges_of_no_cost() {
    let graph = ListedGraph {
        edges: vec![vec![(1, 0)], vec![(0, 0), (2, 0)], vec![(1, 0), (3, 5)], vec![]],
        estimates: vec![0, 0, 0, 0],
        goals: vec![false, false, false, true],
    };
    let (cost, path) = a_star(&graph, 0).unwrap();
    assert_eq!(cost, 5);
    assert_eq!(path, vec![0, 1, 2, 3]);
}

#[test]
fn queue_serves_lowest_priority_first() {
    let mut q = MinQueue::new();
    assert!(q.is_empty());
    q.push(QueueEntry { priority: 7, cost: 1, node: 0 });
    q.push(QueueEntry { priority: 3, cost: 1, node: 1 });
    q.push(QueueEntry { priority: 5, cost: 2, node: 2 });
    q.push(QueueEntry { priority: 3, cost: 2, node: 3 });
    assert_eq!(q.len(), 4);
    // Equal priorities: the entry that has come further is served first.
    assert_eq!(q.pop().unwrap().node, 3);
    assert_eq!(q.pop().unwrap().node, 1);
    assert_eq!(q.pop().unwrap().node, 2);
    assert_eq!(q.pop().unwrap().node, 0);
    assert!(q.pop().is_none());
}

#[test]
fn grid_is_walkable_inside_and_nowhere_else() {
    let mut grid = GridMap::new(4, 3);
    assert_eq!(grid.walls.len(), 12);
    assert!(grid.is_walkable(GridPos::new(0, 0)));
    assert!(grid.is_walkable(GridPos::new(3, 2)));
    assert!(!grid.is_walkable(GridPos::new(4, 0)));
    assert!(!grid.is_walkable(GridPos::new(0, 3)));
    assert!(!grid.is_walkable(GridPos::new(-1, 0)));
    assert!(!grid.is_walkable(GridPos::new(0, -1)));
    grid.set_obstacle(GridPos::new(1, 2), true);
    assert!(!grid.is_walkable(GridPos::new(1, 2)));
    assert!(grid.walls[2 * 4 + 1]);
    grid.set_obstacle(GridPos::new(1, 2), false);
    assert!(grid.is_walkable(GridPos::new(1, 2)));
    let walls = grid.walls.clone();
    grid.set_obstacle(GridPos::new(9, 9), true);
    grid.set_obstacle(GridPos::new(-1, 1), true);
    assert_eq!(grid.walls, walls);
}

#[test]
fn heuristic_is_the_manhattan_distance() {
    assert_eq!(heuristic(GridPos::new(1, 1), GridPos::new(8, 8)), 14);
    assert_eq!(heuristic(GridPos::new(8, 1), GridPos::new(1, 8)), 14);
    assert_eq!(heuristic(GridPos::new(3, 3), GridPos::new(3, 3)), 0);
}

#[test]
fn local_search_stays_in_its_box() {
    let mut grid = GridMap::new(10, 10);
    // A wall across the box with a gap only outside the box.
    for y in 0..5 {
        grid.set_obstacle(GridPos::new(2, y), true);
    }
    let boxed = a_star_local(
        &grid,
        GridPos::new(0, 0),
        GridPos::new(4, 0),
        GridPos::new(0, 0),
        GridPos::new(5, 5),
    );
    assert!(boxed.is_none());
    let (cost, path) = a_star_local(
        &grid,
        GridPos::new(0, 0),
        GridPos::new(4, 0),
        GridPos::new(0, 0),
        GridPos::new(10, 10),
    )
    .unwrap();
    assert_eq!(cost, 14);
    assert_eq!(path.len(), 15);
    assert_eq!(path[0], GridPos::new(0, 0));
    assert_eq!(path[14], GridPos::new(4, 0));
}

#[test]
fn local_search_to_its_own_start_is_one_cell() {
    let grid = GridMap::new(3, 3);
    let (cost, path) = a_star_local(
        &grid,
        GridPos::new(1, 1),
        GridPos::new(1, 1),
        GridPos::new(0, 0),
        GridPos::new(3, 3),
    )
    .unwrap();
    assert_eq!(cost, 0);
    assert_eq!(path, vec![GridPos::new(1, 1)]);
}

#[test]
fn queue_serves_many_entries_in_order() {
    let mut q = MinQueue::new();
    let mut seed: u64 = 7;
    let mut pushed = Vec::new();
    for node in 0..500usize {
        seed = seed.wrapping_mul(6364136223846793005).wrapping_add(1442695040888963407);
        let priority = (seed >> 33) % 64;
        let cost = (seed >> 20) % 8;
        q.push(QueueEntry { priority, cost, node });
        pushed.push((priority, cost));
    }
    pushed.sort_by(|a, b| a.0.cmp(&b.0).then(b.1.cmp(&a.1)));
    let mut served = Vec::new();
    while let Some(e) = q.pop() {
        served.push((e.priority, e.cost));
    }
    assert_eq!(served, pushed);
    assert!(q.is_empty());
}

#[test]
fn queue_can_be_refilled_between_takes() {
    let mut q = MinQueue::new();
    q.push(QueueEntry { priority: 5, cost: 0, node: 0 });
    q.push(QueueEntry { priority: 9, cost: 0, node: 1 });
    assert_eq!(q.pop().unwrap().priority, 5);
    q.push(QueueEntry { priority: 1, cost: 0, node: 2 });
    q.push(QueueEntry { priority: 7, cost: 0, node: 3 });
    assert_eq!(q.pop().unwrap().priority, 1);
    assert_eq!(q.pop().unwrap().priority, 7);
    assert_eq!(q.pop().unwrap().priority, 9);
    assert_eq!(q.len(), 0);
}

#[test]
fn search_from_a_goal_asks_for_no_way_on() {
    // The start is a goal, and another goal lies one free step away.
    let graph = ListedGraph {
        edges: vec![vec![(1, 0)], vec![]],
        estimates: vec![9, 0],
        goals: vec![true, true],
    };
    assert_eq!(a_star(&graph, 0), Some((0, vec![0])));
}

#[test]
fn search_visits_no_node_twice_on_its_path() {
    let graph = ListedGraph {
        edges: vec![vec![(1, 0), (2, 3)], vec![(0, 0), (2, 0)], vec![(0, 0), (1, 0), (3, 1)], vec![]],
        estimates: vec![0, 0, 0, 0],
        goals: vec![false, false, false, true],
    };
    let (cost, path) = a_star(&graph, 0).unwrap();
    assert_eq!(cost, 1);
    assert_eq!(path, vec![0, 1, 2, 3]);
    let mut seen = path.clone();
    seen.sort();
    seen.dedup();
    assert_eq!(seen.len(), path.len());
}
