use core_sim::grid::{GridMap, GridPos};
use core_sim::hpa::HPAGrid;

fn step_apart(a: GridPos, b: GridPos) -> bool {
    (a.x - b.x).abs() + (a.y - b.y).abs() == 1
}

fn open_grid() -> HPAGrid {
    let grid = GridMap::new(20, 20);
    let mut hpa = HPAGrid::new(grid, 10);
    hpa.build();
    hpa
}

#[test]
fn same_cluster_query_is_manhattan() {
    let hpa = open_grid();
    let path = hpa.find_path(GridPos::new(1, 1), GridPos::new(8, 8)).unwrap();
    assert_eq!(path.len(), 15);
    assert_eq!(path[0], GridPos::new(1, 1));
    assert_eq!(path[14], GridPos::new(8, 8));
    for p in &path {
        assert!(p.x >= 0 && p.x < 10 && p.y >= 0 && p.y < 10);
    }
    for i in 1..path.len() {
        assert!(step_apart(path[i - 1], path[i]));
    }
}

#[test]
fn cross_cluster_query_has_length_35() {
    let hpa = open_grid();
    let path = hpa.find_path(GridPos::new(1, 1), GridPos::new(18, 18)).unwrap();
    assert_eq!(path.len(), 35);
    assert_eq!(path[0], GridPos::new(1, 1));
    assert_eq!(path[34], GridPos::new(18, 18));
    for p in &path {
        assert!(hpa.grid.is_walkable(*p));
    }
    for i in 1..path.len() {
        assert!(step_apart(path[i - 1], path[i]));
    }
}

#[test]
fn open_grid_has_two_portal_pairs_per_border() {
    let hpa = open_grid();
    assert_eq!(hpa.portals.len(), 16);
    assert_eq!(hpa.graph.len(), 16);
    assert_eq!(hpa.cluster_lookup.len(), 4);
    assert_eq!(hpa.portals[0].pos, GridPos::new(9, 0));
    assert_eq!(hpa.portals[0].cluster_xy, GridPos::new(0, 0));
    assert_eq!(hpa.portals[1].pos, GridPos::new(10, 0));
    assert_eq!(hpa.portals[1].cluster_xy, GridPos::new(1, 0));
    assert_eq!(hpa.portals[2].pos, GridPos::new(9, 9));
    assert_eq!(hpa.portals[3].pos, GridPos::new(10, 9));
}
