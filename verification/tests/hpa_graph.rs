use core_sim::grid::{GridMap, GridPos};
use core_sim::hpa::{HPAGrid, PortalId};

fn built(grid: GridMap, cluster_size: i32) -> HPAGrid {
    let mut hpa = HPAGrid::new(grid, cluster_size);
    hpa.build();
    hpa
}

fn positions(hpa: &HPAGrid) -> Vec<(i32, i32)> {
    hpa.portals.iter().map(|p| (p.pos.x, p.pos.y)).collect()
}

fn one_step(a: GridPos, b: GridPos) -> bool {
    (a.x - b.x).abs() + (a.y - b.y).abs() == 1
}

#[test]
fn short_stretch_gets_one_portal_pair_at_its_middle() {
    let hpa = built(GridMap::new(10, 5), 5);
    assert_eq!(positions(&hpa), vec![(4, 2), (5, 2)]);
    assert_eq!(hpa.portals[0].id, PortalId(0));
    assert_eq!(hpa.portals[0].cluster_xy, GridPos::new(0, 0));
    assert_eq!(hpa.portals[1].id, PortalId(1));
    assert_eq!(hpa.portals[1].cluster_xy, GridPos::new(1, 0));
    assert_eq!(hpa.cluster_lookup, vec![vec![PortalId(0)], vec![PortalId(1)]]);
}

#[test]
fn long_stretch_gets_a_portal_pair_at_each_end() {
    let hpa = built(GridMap::new(12, 6), 6);
    assert_eq!(positions(&hpa), vec![(5, 0), (6, 0), (5, 5), (6, 5)]);
}

#[test]
fn walls_on_either_side_cut_the_border_into_stretches() {
    let mut grid = GridMap::new(20, 10);
    grid.set_obstacle(GridPos::new(9, 3), true);
    let hpa = built(grid, 10);
    // Rows 0 to 2 are a stretch of three cells, rows 4 to 9 one of six.
    assert_eq!(positions(&hpa), vec![(9, 1), (10, 1), (9, 4), (10, 4), (9, 9), (10, 9)]);

    let mut grid = GridMap::new(20, 10);
    grid.set_obstacle(GridPos::new(10, 5), true);
    let hpa = built(grid, 10);
    // Rows 0 to 4 are a stretch of five cells, rows 6 to 9 one of four.
    assert_eq!(positions(&hpa), vec![(9, 2), (10, 2), (9, 8), (10, 8)]);
}

#[test]
fn side_borders_come_before_stacked_borders() {
    let hpa = built(GridMap::new(4, 4), 2);
    assert_eq!(
        positions(&hpa),
        vec![(1, 1), (2, 1), (1, 3), (2, 3), (1, 1), (1, 2), (3, 1), (3, 2)]
    );
    assert_eq!(hpa.cluster_lookup.len(), 4);
    assert_eq!(hpa.cluster_lookup[0], vec![PortalId(0), PortalId(4)]);
    assert_eq!(hpa.cluster_lookup[1], vec![PortalId(1), PortalId(6)]);
    assert_eq!(hpa.cluster_lookup[2], vec![PortalId(2), PortalId(5)]);
    assert_eq!(hpa.cluster_lookup[3], vec![PortalId(3), PortalId(7)]);
}

#[test]
fn grid_of_one_cluster_has_no_portals() {
    let hpa = built(GridMap::new(7, 7), 10);
    assert!(hpa.portals.is_empty());
    assert!(hpa.graph.is_empty());
    assert_eq!(hpa.cluster_lookup.len(), 1);
    let path = hpa.find_path(GridPos::new(0, 0), GridPos::new(6, 6)).unwrap();
    assert_eq!(path.len(), 13);
}

#[test]
fn empty_grid_builds_to_nothing() {
    let hpa = built(GridMap::new(0, 0), 4);
    assert!(hpa.portals.is_empty());
    assert!(hpa.cluster_lookup.is_empty());
    assert!(hpa.find_path(GridPos::new(0, 0), GridPos::new(0, 0)).is_none());
}

#[test]
fn edges_between_clusters_are_single_steps() {
    let hpa = built(GridMap::new(20, 20), 10);
    let mut seen = 0;
    for (i, row) in hpa.graph.iter().enumerate() {
        for edge in row {
            if edge.is_inter_cluster {
                seen += 1;
                let from = &hpa.portals[i];
                let to = &hpa.portals[edge.to.0];
                assert!(one_step(from.pos, to.pos));
                assert_ne!(from.cluster_xy, to.cluster_xy);
                assert_eq!(edge.cost, 1);
                assert!(edge.cached_path.is_none());
            }
        }
    }
    assert!(seen >= 16);
}

#[test]
fn steps_between_clusters_come_first_in_every_row() {
    let hpa = built(GridMap::new(20, 20), 10);
    for row in &hpa.graph {
        let first_cached = row.iter().position(|e| !e.is_inter_cluster).unwrap_or(row.len());
        assert!(row[first_cached..].iter().all(|e| !e.is_inter_cluster));
    }
}

#[test]
fn edges_inside_a_cluster_cache_a_shortest_path() {
    let mut grid = GridMap::new(20, 20);
    grid.set_obstacle(GridPos::new(5, 5), true);
    grid.set_obstacle(GridPos::new(9, 4), true);
    let hpa = built(grid, 10);
    let mut seen = 0;
    for (i, row) in hpa.graph.iter().enumerate() {
        for edge in row {
            if !edge.is_inter_cluster {
                seen += 1;
                let from = &hpa.portals[i];
                let to = &hpa.portals[edge.to.0];
                assert_eq!(from.cluster_xy, to.cluster_xy);
                let path = edge.cached_path.as_ref().unwrap();
                assert_eq!(path[0], from.pos);
                assert_eq!(path[path.len() - 1], to.pos);
                assert_eq!(edge.cost as usize, path.len() - 1);
                for k in 1..path.len() {
                    assert!(one_step(path[k - 1], path[k]));
                    assert!(hpa.grid.is_walkable(path[k]));
                    assert_eq!(path[k].x / 10, from.cluster_xy.x);
                    assert_eq!(path[k].y / 10, from.cluster_xy.y);
                }
                let back = hpa.graph[edge.to.0]
                    .iter()
                    .find(|e| !e.is_inter_cluster && e.to.0 == i)
                    .expect("an edge back");
                let mut reversed = back.cached_path.clone().unwrap();
                reversed.reverse();
                assert_eq!(&reversed, path);
                assert_eq!(back.cost, edge.cost);
            }
        }
    }
    assert!(seen > 0);
}

#[test]
fn every_portal_is_listed_in_its_own_cluster() {
    let mut grid = GridMap::new(25, 17);
    grid.set_obstacle(GridPos::new(9, 3), true);
    grid.set_obstacle(GridPos::new(12, 9), true);
    let hpa = built(grid, 10);
    assert_eq!(hpa.cluster_lookup.len(), 6);
    let mut listed = 0;
    for (k, ids) in hpa.cluster_lookup.iter().enumerate() {
        for id in ids {
            listed += 1;
            let p = &hpa.portals[id.0];
            assert_eq!(p.id, *id);
            assert_eq!((p.cluster_xy.y * 3 + p.cluster_xy.x) as usize, k);
            assert_eq!(p.pos.x / 10, p.cluster_xy.x);
            assert_eq!(p.pos.y / 10, p.cluster_xy.y);
            assert!(hpa.grid.is_walkable(p.pos));
        }
    }
    assert_eq!(listed, hpa.portals.len());
    assert_eq!(hpa.graph.len(), hpa.portals.len());
}

#[test]
fn clusters_at_the_border_of_the_grid_are_cut_off() {
    let hpa = HPAGrid::new(GridMap::new(25, 17), 10);
    assert_eq!(hpa.clusters_wide(), 3);
    assert_eq!(hpa.clusters_high(), 2);
    assert_eq!(hpa.cluster_at(GridPos::new(24, 16)), GridPos::new(2, 1));
    assert_eq!(
        hpa.cluster_bounds(GridPos::new(2, 1)),
        (GridPos::new(20, 10), GridPos::new(25, 17))
    );
    assert_eq!(
        hpa.cluster_bounds(GridPos::new(0, 0)),
        (GridPos::new(0, 0), GridPos::new(10, 10))
    );
}

#[test]
fn path_is_found_round_walls_and_across_three_clusters() {
    let mut grid = GridMap::new(30, 10);
    for y in 0..9 {
        grid.set_obstacle(GridPos::new(9, y), true);
    }
    for y in 1..10 {
        grid.set_obstacle(GridPos::new(19, y), true);
    }
    let hpa = built(grid, 10);
    let start = GridPos::new(0, 0);
    let end = GridPos::new(29, 9);
    let path = hpa.find_path(start, end).unwrap();
    assert_eq!(path[0], start);
    assert_eq!(path[path.len() - 1], end);
    for p in &path {
        assert!(hpa.grid.is_walkable(*p));
    }
    for k in 1..path.len() {
        assert!(one_step(path[k - 1], path[k]));
    }
    // Down to the gap at (9, 9), up to the gap at (19, 0), and down again.
    assert!(path.contains(&GridPos::new(9, 9)));
    assert!(path.contains(&GridPos::new(19, 0)));
    assert_eq!(path.len(), 1 + 18 + 19 + 19);
}

#[test]
fn no_path_from_or_to_a_wall_or_off_the_grid() {
    let mut grid = GridMap::new(20, 20);
    grid.set_obstacle(GridPos::new(3, 3), true);
    let hpa = built(grid, 10);
    assert!(hpa.find_path(GridPos::new(3, 3), GridPos::new(15, 15)).is_none());
    assert!(hpa.find_path(GridPos::new(1, 1), GridPos::new(3, 3)).is_none());
    assert!(hpa.find_path(GridPos::new(-1, 0), GridPos::new(5, 5)).is_none());
    assert!(hpa.find_path(GridPos::new(1, 1), GridPos::new(20, 5)).is_none());
}

#[test]
fn no_path_across_a_closed_border() {
    let mut grid = GridMap::new(20, 10);
    for y in 0..10 {
        grid.set_obstacle(GridPos::new(10, y), true);
    }
    let hpa = built(grid, 10);
    assert!(hpa.portals.is_empty());
    assert!(hpa.find_path(GridPos::new(1, 1), GridPos::new(15, 5)).is_none());
    assert!(hpa.find_path(GridPos::new(1, 1), GridPos::new(9, 9)).is_some());
}

#[test]
fn no_path_out_of_a_walled_in_cell() {
    let mut grid = GridMap::new(20, 20);
    grid.set_obstacle(GridPos::new(4, 5), true);
    grid.set_obstacle(GridPos::new(6, 5), true);
    grid.set_obstacle(GridPos::new(5, 4), true);
    grid.set_obstacle(GridPos::new(5, 6), true);
    let hpa = built(grid, 10);
    assert!(hpa.find_path(GridPos::new(5, 5), GridPos::new(15, 15)).is_none());
    assert!(hpa.find_path(GridPos::new(15, 15), GridPos::new(5, 5)).is_none());
    assert!(hpa.find_path(GridPos::new(5, 5), GridPos::new(1, 1)).is_none());
    assert_eq!(
        hpa.find_path(GridPos::new(5, 5), GridPos::new(5, 5)),
        Some(vec![GridPos::new(5, 5)])
    );
}

#[test]
fn without_portals_a_path_stays_in_its_cluster() {
    let hpa = HPAGrid::new(GridMap::new(20, 20), 10);
    assert!(hpa.find_path(GridPos::new(1, 1), GridPos::new(15, 15)).is_none());
    let path = hpa.find_path(GridPos::new(1, 1), GridPos::new(8, 8)).unwrap();
    assert_eq!(path.len(), 15);
}

#[test]
fn path_within_a_cluster_does_not_leave_it() {
    // The straight way is walled off; the way round leads through the next cluster only.
    let mut grid = GridMap::new(20, 10);
    for x in 0..10 {
        grid.set_obstacle(GridPos::new(x, 5), true);
    }
    let hpa = built(grid, 10);
    assert!(hpa.find_path(GridPos::new(2, 2), GridPos::new(2, 8)).is_none());
}

#[test]
fn paths_on_a_scattered_map_are_valid() {
    let mut grid = GridMap::new(40, 30);
    let mut seed: u32 = 12345;
    for y in 0..30 {
        for x in 0..40 {
            seed = seed.wrapping_mul(1664525).wrapping_add(1013904223);
            if (seed >> 24) % 5 == 0 {
                grid.set_obstacle(GridPos::new(x, y), true);
            }
        }
    }
    let hpa = built(grid, 8);
    let mut found = 0;
    for k in 0..60 {
        let start = GridPos::new((k * 7) % 40, (k * 11) % 30);
        let end = GridPos::new((k * 13 + 5) % 40, (k * 3 + 17) % 30);
        match hpa.find_path(start, end) {
            Some(path) => {
                found += 1;
                assert_eq!(path[0], start);
                assert_eq!(path[path.len() - 1], end);
                for p in &path {
                    assert!(hpa.grid.is_walkable(*p));
                }
                for i in 1..path.len() {
                    assert!(one_step(path[i - 1], path[i]));
                }
            }
            None => {}
        }
    }
    assert!(found > 0);
}

/// Whether any path of walkable cells leads from `a` to `b`, by flooding the grid from `a`.
fn flooded(grid: &GridMap, a: GridPos, b: GridPos) -> bool {
    if !grid.is_walkable(a) || !grid.is_walkable(b) {
        return false;
    }
    let mut seen = vec![false; (grid.width * grid.height) as usize];
    let mut stack = vec![a];
    seen[(a.y * grid.width + a.x) as usize] = true;
    while let Some(p) = stack.pop() {
        if p == b {
            return true;
        }
        for (dx, dy) in [(1, 0), (-1, 0), (0, 1), (0, -1)] {
            let q = GridPos::new(p.x + dx, p.y + dy);
            if grid.is_walkable(q) && !seen[(q.y * grid.width + q.x) as usize] {
                seen[(q.y * grid.width + q.x) as usize] = true;
                stack.push(q);
            }
        }
    }
    false
}

#[test]
fn between_clusters_a_path_is_found_exactly_where_one_exists() {
    let mut some = 0;
    let mut none = 0;
    for (seed0, density, size) in [(1u32, 3u32, 4i32), (7, 2, 5), (99, 4, 7), (2024, 3, 1), (5, 2, 16)] {
        let mut grid = GridMap::new(23, 19);
        let mut seed = seed0;
        for y in 0..19 {
            for x in 0..23 {
                seed = seed.wrapping_mul(1664525).wrapping_add(1013904223);
                if (seed >> 24) % density == 0 {
                    grid.set_obstacle(GridPos::new(x, y), true);
                }
            }
        }
        let hpa = built(grid, size);
        for k in 0..400 {
            seed = seed.wrapping_mul(1664525).wrapping_add(1013904223);
            let a = GridPos::new(((seed >> 8) % 23) as i32, ((seed >> 16) % 19) as i32);
            seed = seed.wrapping_mul(1664525).wrapping_add(1013904223);
            let b = GridPos::new(((seed >> 8) % 23) as i32, ((seed >> 16) % 19) as i32);
            if a.x / size == b.x / size && a.y / size == b.y / size {
                continue;
            }
            let found = hpa.find_path(a, b);
            assert_eq!(found.is_some(), flooded(&hpa.grid, a, b), "query {} from {:?} to {:?}", k, a, b);
            match found {
                Some(_) => some += 1,
                None => none += 1,
            }
        }
    }
    assert!(some > 100 && none > 100);
}

#[test]
fn every_row_has_one_cached_path_to_each_portal_of_its_cluster_in_order() {
    let mut grid = GridMap::new(30, 20);
    grid.set_obstacle(GridPos::new(9, 2), true);
    grid.set_obstacle(GridPos::new(15, 9), true);
    let hpa = built(grid, 10);
    for (a, row) in hpa.graph.iter().enumerate() {
        let c = hpa.portals[a].cluster_xy;
        let list = &hpa.cluster_lookup[(c.y * 3 + c.x) as usize];
        let want: Vec<usize> = list.iter().map(|id| id.0).filter(|&b| b != a).collect();
        let got: Vec<usize> = row.iter().filter(|e| !e.is_inter_cluster).map(|e| e.to.0).collect();
        assert_eq!(got, want);
    }
}

#[test]
fn portals_walled_off_from_each_other_inside_a_cluster_are_not_linked() {
    // A wall across the left cluster, from border to border, parts its two portals.
    let mut grid = GridMap::new(20, 10);
    for x in 0..10 {
        grid.set_obstacle(GridPos::new(x, 5), true);
    }
    let hpa = built(grid, 10);
    // The border is crossed at rows 0 to 4 and 6 to 9: a stretch of five and one of four.
    assert_eq!(positions(&hpa), vec![(9, 2), (10, 2), (9, 8), (10, 8)]);
    assert!(hpa.graph[0].iter().all(|e| e.is_inter_cluster));
    assert!(hpa.graph[2].iter().all(|e| e.is_inter_cluster));
    assert_eq!(hpa.graph[1].iter().filter(|e| !e.is_inter_cluster).count(), 1);
    // Round the wall through the right cluster there is a way all the same.
    let path = hpa.find_path(GridPos::new(2, 2), GridPos::new(12, 8)).unwrap();
    assert_eq!(path.len(), 17);
}

#[test]
fn every_portal_has_a_step_to_every_portal_of_another_cluster_next_to_it() {
    for grid in [GridMap::new(20, 20), GridMap::new(4, 4), GridMap::new(23, 9)] {
        for size in [1, 2, 10] {
            let hpa = built(grid.clone(), size);
            for (a, p) in hpa.portals.iter().enumerate() {
                for (b, q) in hpa.portals.iter().enumerate() {
                    let near = one_step(p.pos, q.pos) && p.cluster_xy != q.cluster_xy;
                    let steps: Vec<_> =
                        hpa.graph[a].iter().filter(|e| e.is_inter_cluster && e.to.0 == b).collect();
                    assert_eq!(steps.len(), if near { 1 } else { 0 });
                    for e in steps {
                        assert_eq!(e.cost, 1);
                        assert!(e.cached_path.is_none());
                    }
                }
            }
        }
    }
}

#[test]
fn both_portals_on_a_corner_cell_are_stepped_to() {
    let hpa = built(GridMap::new(20, 20), 10);
    // Portals 2 and 10 lie on (9, 9), portals 3 and 12 on (10, 9), portals 4 and 11 on (9, 10).
    assert_eq!(hpa.portals[2].pos, GridPos::new(9, 9));
    assert_eq!(hpa.portals[10].pos, GridPos::new(9, 9));
    assert_eq!(hpa.portals[3].pos, GridPos::new(10, 9));
    assert_eq!(hpa.portals[12].pos, GridPos::new(10, 9));
    let steps: Vec<usize> =
        hpa.graph[2].iter().filter(|e| e.is_inter_cluster).map(|e| e.to.0).collect();
    assert_eq!(hpa.portals[4].pos, GridPos::new(9, 10));
    assert_eq!(hpa.portals[11].pos, GridPos::new(9, 10));
    assert_eq!(steps, vec![3, 12, 4, 11]);
}

#[test]
fn path_through_one_portal_pair_is_its_four_cells() {
    let hpa = built(GridMap::new(4, 1), 2);
    assert_eq!(
        hpa.find_path(GridPos::new(0, 0), GridPos::new(3, 0)),
        Some(vec![GridPos::new(0, 0), GridPos::new(1, 0), GridPos::new(2, 0), GridPos::new(3, 0)])
    );
}
