use core_sim::flow::{FlowField, UNREACHED, WALL};
use core_sim::grid::GridPos;

fn at(field: &FlowField, x: usize, y: usize) -> usize {
    y * field.width + x
}

#[test]
fn open_field_measures_manhattan_distance() {
    let mut field = FlowField::new(10, 10);
    field.generate_target(5, 5);
    assert_eq!(field.integration[at(&field, 5, 5)], 0);
    assert_eq!(field.integration[at(&field, 0, 0)], 10);
    assert_eq!(field.integration[at(&field, 9, 9)], 8);
    assert_eq!(field.vectors[at(&field, 5, 5)], GridPos::new(0, 0));
    assert_eq!(field.vectors[at(&field, 0, 0)], GridPos::new(1, 0));
    for y in 0..10usize {
        for x in 0..10usize {
            let want = (x as i64 - 5).abs() + (y as i64 - 5).abs();
            assert_eq!(field.integration[at(&field, x, y)], want as u64);
        }
    }
}

#[test]
fn gradient_prefers_up_then_right_then_down_then_left() {
    let mut field = FlowField::new(10, 10);
    field.generate_target(5, 5);
    // Above and to the left of the target both "right" and "down" descend; right is tried first.
    assert_eq!(field.get_direction(4, 4), GridPos::new(1, 0));
    // Below and to the right both "up" and "left" descend; up is tried first.
    assert_eq!(field.get_direction(6, 6), GridPos::new(0, -1));
    assert_eq!(field.get_direction(5, 0), GridPos::new(0, 1));
    assert_eq!(field.get_direction(9, 5), GridPos::new(-1, 0));
}

#[test]
fn wall_with_one_gap_is_passed_through_the_gap() {
    let mut field = FlowField::new(5, 5);
    for y in 0..5usize {
        if y != 2 {
            field.set_obstacle(2, y, true);
        }
    }
    field.generate_target(4, 2);
    assert_eq!(field.integration[at(&field, 4, 2)], 0);
    assert_eq!(field.integration[at(&field, 3, 2)], 1);
    assert_eq!(field.integration[at(&field, 2, 2)], 2);
    assert_eq!(field.integration[at(&field, 1, 2)], 3);
    assert_eq!(field.integration[at(&field, 0, 2)], 4);
    assert_eq!(field.integration[at(&field, 0, 0)], 6);
    assert_eq!(field.integration[at(&field, 0, 4)], 6);
    for y in 0..5usize {
        if y != 2 {
            assert_eq!(field.costs[at(&field, 2, y)], WALL);
            assert_eq!(field.vectors[at(&field, 2, y)], GridPos::new(0, 0));
            assert_eq!(field.integration[at(&field, 2, y)], UNREACHED);
        }
    }
    assert_eq!(field.get_direction(0, 2), GridPos::new(1, 0));
}

#[test]
fn relaxed_bellman_condition_holds() {
    let mut field = FlowField::new(7, 6);
    field.set_obstacle(3, 1, true);
    field.set_obstacle(3, 2, true);
    field.set_obstacle(3, 3, true);
    field.set_obstacle(1, 4, true);
    field.generate_target(6, 2);
    let w = field.width as i64;
    let h = field.height as i64;
    for y in 0..h {
        for x in 0..w {
            let c = (y * w + x) as usize;
            if field.integration[c] == UNREACHED {
                continue;
            }
            for (dx, dy) in [(0i64, -1i64), (1, 0), (0, 1), (-1, 0)] {
                let nx = x + dx;
                let ny = y + dy;
                if nx < 0 || ny < 0 || nx >= w || ny >= h {
                    continue;
                }
                let n = (ny * w + nx) as usize;
                if field.integration[n] == UNREACHED {
                    continue;
                }
                assert!(field.integration[c] <= field.integration[n] + field.costs[c] as u64);
            }
        }
    }
}

#[test]
fn gradient_points_downhill_or_nowhere() {
    let mut field = FlowField::new(7, 6);
    field.set_obstacle(3, 1, true);
    field.set_obstacle(3, 2, true);
    field.set_obstacle(1, 4, true);
    field.generate_target(0, 0);
    let w = field.width as i64;
    let h = field.height as i64;
    for y in 0..h {
        for x in 0..w {
            let c = (y * w + x) as usize;
            let g = field.vectors[c];
            if field.costs[c] == WALL {
                assert_eq!(g, GridPos::new(0, 0));
                continue;
            }
            if g == GridPos::new(0, 0) {
                continue;
            }
            assert_eq!(g.x.abs() + g.y.abs(), 1);
            let nx = x + g.x as i64;
            let ny = y + g.y as i64;
            assert!(nx >= 0 && ny >= 0 && nx < w && ny < h);
            let n = (ny * w + nx) as usize;
            assert!(field.integration[n] < field.integration[c]);
        }
    }
}

#[test]
fn target_off_the_grid_changes_nothing() {
    let mut field = FlowField::new(4, 4);
    field.generate_target(1, 1);
    let integration = field.integration.clone();
    let vectors = field.vectors.clone();
    field.generate_target(4, 0);
    field.generate_target(0, 9);
    assert_eq!(field.integration, integration);
    assert_eq!(field.vectors, vectors);
    assert_eq!(field.get_direction(4, 0), GridPos::new(0, 0));
    assert_eq!(field.get_direction(0, 4), GridPos::new(0, 0));
}

#[test]
fn obstacle_off_the_grid_is_ignored() {
    let mut field = FlowField::new(3, 2);
    let costs = field.costs.clone();
    field.set_obstacle(3, 0, true);
    field.set_obstacle(0, 2, true);
    assert_eq!(field.costs, costs);
    field.set_obstacle(2, 1, true);
    assert_eq!(field.costs[5], WALL);
    field.set_obstacle(2, 1, false);
    assert_eq!(field.costs[5], 1);
}

#[test]
fn equal_fields_and_targets_give_equal_results() {
    let mut a = FlowField::new(8, 5);
    let mut b = FlowField::new(8, 5);
    for f in [&mut a, &mut b] {
        f.set_obstacle(4, 0, true);
        f.set_obstacle(4, 1, true);
        f.set_obstacle(4, 2, true);
    }
    b.generate_target(0, 0);
    a.generate_target(7, 3);
    b.generate_target(7, 3);
    assert_eq!(a.integration, b.integration);
    assert_eq!(a.vectors, b.vectors);
}

#[test]
fn walled_in_target_reaches_only_itself() {
    let mut field = FlowField::new(3, 3);
    field.set_obstacle(1, 0, true);
    field.set_obstacle(0, 1, true);
    field.generate_target(0, 0);
    assert_eq!(field.integration[0], 0);
    for c in 1..9usize {
        assert_eq!(field.integration[c], UNREACHED);
    }
    assert_eq!(field.vectors[0], GridPos::new(0, 0));
}

#[test]
fn dearer_cells_are_passed_by_where_a_cheaper_way_leads_round() {
    let mut field = FlowField::new(3, 3);
    // The middle cell costs 9 to enter: the way from corner to corner leads round it.
    field.costs[4] = 9;
    field.generate_target(0, 1);
    assert_eq!(field.integration[at(&field, 0, 1)], 0);
    assert_eq!(field.integration[at(&field, 1, 1)], 9);
    assert_eq!(field.integration[at(&field, 2, 1)], 4);
    assert_eq!(field.integration[at(&field, 1, 0)], 2);
    assert_eq!(field.get_direction(2, 1), GridPos::new(0, -1));
    // From the dear cell itself the cheapest neighbour is the target.
    assert_eq!(field.get_direction(1, 1), GridPos::new(-1, 0));
}

#[test]
fn target_on_a_wall_is_the_start_of_every_route() {
    let mut field = FlowField::new(4, 1);
    field.set_obstacle(1, 0, true);
    field.generate_target(1, 0);
    assert_eq!(field.integration, vec![1, 0, 1, 2]);
    assert_eq!(
        field.vectors,
        vec![GridPos::new(1, 0), GridPos::new(0, 0), GridPos::new(-1, 0), GridPos::new(-1, 0)]
    );
}

#[test]
fn field_without_cells_is_left_alone() {
    let mut field = FlowField::new(0, 5);
    field.generate_target(0, 0);
    field.set_obstacle(0, 0, true);
    assert!(field.integration.is_empty());
    assert_eq!(field.get_direction(0, 0), GridPos::new(0, 0));
}

#[test]
fn cells_with_a_negative_coordinate_are_off_the_grid() {
    let mut field = FlowField::new(10, 10);
    field.generate_target(5, 5);
    assert_eq!(field.get_direction(-3, 5), GridPos::new(0, 0));
    assert_eq!(field.get_direction(5, -1), GridPos::new(0, 0));
    assert_eq!(field.get_direction(10, 5), GridPos::new(0, 0));
    assert_eq!(field.get_direction(i64::MIN, i64::MAX), GridPos::new(0, 0));
    assert_eq!(field.get_direction(0, 5), GridPos::new(1, 0));
    let integration = field.integration.clone();
    let vectors = field.vectors.clone();
    field.generate_target(-1, 5);
    field.generate_target(5, -7);
    assert_eq!(field.integration, integration);
    assert_eq!(field.vectors, vectors);
    assert!(!field.is_on_grid(-1, 0));
    assert!(field.is_on_grid(9, 9));
}
