use core_sim::grid::GridPos;
use core_sim::navmesh::funnel::{string_pulling, AreaSign, AskedCorridor, Funnel, PlaneCorridor};
use core_sim::navmesh::mesh::{covers, shared_edge};

/// A corridor whose points are known by their coordinates.
struct Plane {
    points: Vec<(f64, f64)>,
}

impl Plane {
    fn new(start: (f64, f64), portals: &[((f64, f64), (f64, f64))], end: (f64, f64)) -> Plane {
        let mut points = vec![start];
        for (l, r) in portals {
            points.push(*l);
            points.push(*r);
        }
        points.push(end);
        points.push(end);
        Plane { points }
    }

    fn portals(&self) -> usize {
        (self.points.len() - 1) / 2
    }

    fn pull(&self) -> Vec<(f64, f64)> {
        let points = &self.points;
        let corridor = AskedCorridor {
            count: points.len(),
            sign: |a: usize, b: usize, c: usize| {
                let (a, b, c) = (points[a], points[b], points[c]);
                sign_of((b.0 - a.0) * (c.1 - a.1) - (b.1 - a.1) * (c.0 - a.0))
            },
            same: |a: usize, b: usize| points[a] == points[b],
        };
        string_pulling(&corridor, self.portals()).iter().map(|&p| points[p]).collect()
    }
}

fn sign_of(v: f64) -> AreaSign {
    if v < 0.0 {
        AreaSign::Negative
    } else if v > 0.0 {
        AreaSign::Positive
    } else if v == 0.0 {
        AreaSign::Zero
    } else {
        AreaSign::Undefined
    }
}

#[test]
fn two_triangle_square_is_crossed_in_a_straight_line() {
    // Triangles (0,0),(50,0),(0,50) and (50,0),(50,50),(0,50): the shared edge runs from corner 1
    // to corner 2 of the first, so its second end (0,50) is the left end of the portal.
    let mut touch = [[false; 3]; 3];
    touch[1][0] = true;
    touch[2][2] = true;
    let mut alike = [[false; 3]; 3];
    for i in 0..3 {
        alike[i][i] = true;
    }
    assert_eq!(shared_edge(&touch, &alike), Some((2, 1)));
    let plane = Plane::new((5.0, 5.0), &[((0.0, 50.0), (50.0, 0.0))], (45.0, 45.0));
    assert_eq!(plane.pull(), vec![(5.0, 5.0), (45.0, 45.0)]);
}

#[test]
fn path_turns_round_the_corner_of_an_l_shaped_corridor() {
    // Up a corridor between x = 0 and x = 10, then to the right above y = 20.
    let plane = Plane::new(
        (5.0, 0.0),
        &[((0.0, 10.0), (10.0, 10.0)), ((0.0, 20.0), (10.0, 20.0)), ((10.0, 30.0), (10.0, 20.0))],
        (30.0, 25.0),
    );
    assert_eq!(plane.pull(), vec![(5.0, 0.0), (10.0, 20.0), (30.0, 25.0)]);
}

#[test]
fn corridor_of_one_portal_is_start_and_end() {
    let plane = Plane::new((1.0, 1.0), &[], (2.0, 3.0));
    assert_eq!(plane.pull(), vec![(1.0, 1.0), (2.0, 3.0)]);
}

#[test]
fn scan_ends_where_the_funnel_collapses_onto_its_apex() {
    for sign in [AreaSign::Negative, AreaSign::Zero, AreaSign::Positive, AreaSign::Undefined] {
        for same in [false, true] {
            let corridor = AskedCorridor {
                count: 13,
                sign: |_a: usize, _b: usize, _c: usize| sign,
                same: |_a: usize, _b: usize| same,
            };
            let points = string_pulling(&corridor, 6);
            assert_eq!(points[0], 0);
            assert_eq!(points[points.len() - 1], 11);
            assert!(points.len() <= 8);
            for j in 1..points.len().saturating_sub(2) {
                assert!((points[j] - 1) / 2 < (points[j + 1] - 1) / 2);
            }
        }
    }
}

#[test]
fn right_side_is_tightened_or_turns_the_path_round_the_left_side() {
    let f = Funnel { apex: 0, left: 1, right: 2, left_index: 0, right_index: 0, next: 1, floor: 0 };
    let s = f.tighten_right(AreaSign::Positive, false, AreaSign::Negative);
    assert_eq!(s.funnel.right, 4);
    assert_eq!(s.funnel.right_index, 1);
    assert_eq!(s.funnel.next, 1);
    assert_eq!(s.corner, None);
    let s = f.tighten_right(AreaSign::Negative, false, AreaSign::Negative);
    assert_eq!(s.funnel, f);
    assert_eq!(s.corner, None);
    let s = f.tighten_right(AreaSign::Undefined, true, AreaSign::Negative);
    assert_eq!(s.funnel, f);
    let s = f.tighten_right(AreaSign::Zero, false, AreaSign::Zero);
    assert_eq!(s.corner, Some(1));
    assert_eq!(s.funnel.apex, 1);
    assert_eq!(s.funnel.left, 1);
    assert_eq!(s.funnel.right, 1);
    assert_eq!(s.funnel.next, 1);
    assert_eq!(s.funnel.floor, 1);
    assert!(!s.stuck);
    let again = s.funnel.tighten_right(AreaSign::Zero, false, AreaSign::Zero);
    assert!(again.stuck);
    assert_eq!(again.funnel, s.funnel);
}

#[test]
fn left_side_is_tightened_or_turns_the_path_round_the_right_side() {
    let f = Funnel { apex: 0, left: 1, right: 2, left_index: 0, right_index: 0, next: 1, floor: 0 };
    let s = f.tighten_left(AreaSign::Negative, false, AreaSign::Positive);
    assert_eq!(s.funnel.left, 3);
    assert_eq!(s.funnel.left_index, 1);
    assert_eq!(s.funnel.next, 2);
    let s = f.tighten_left(AreaSign::Zero, true, AreaSign::Zero);
    assert_eq!(s.funnel.left, 3);
    assert_eq!(s.funnel.next, 2);
    let s = f.tighten_left(AreaSign::Positive, true, AreaSign::Zero);
    assert_eq!(s.funnel.left, 1);
    assert_eq!(s.funnel.next, 2);
    let s = f.tighten_left(AreaSign::Negative, false, AreaSign::Negative);
    assert_eq!(s.corner, Some(2));
    assert_eq!(s.funnel.apex, 2);
    assert_eq!(s.funnel.next, 1);
    assert_eq!(s.funnel.floor, 1);
}

#[test]
fn triangle_covers_points_inside_and_on_its_border() {
    let neg = AreaSign::Negative;
    let zero = AreaSign::Zero;
    let pos = AreaSign::Positive;
    assert!(covers(pos, pos, pos));
    assert!(covers(neg, neg, neg));
    assert!(covers(zero, pos, pos));
    assert!(covers(zero, zero, zero));
    assert!(!covers(neg, pos, pos));
    assert!(!covers(pos, zero, neg));
    assert!(covers(AreaSign::Undefined, pos, pos));
}

#[test]
fn triangles_that_do_not_share_two_corners_share_no_edge() {
    let mut alike = [[false; 3]; 3];
    for i in 0..3 {
        alike[i][i] = true;
    }
    let none = [[false; 3]; 3];
    assert_eq!(shared_edge(&none, &alike), None);
    let mut one = [[false; 3]; 3];
    one[0][1] = true;
    assert_eq!(shared_edge(&one, &alike), None);
    let mut three = [[false; 3]; 3];
    three[0][0] = true;
    three[1][1] = true;
    three[2][2] = true;
    assert_eq!(shared_edge(&three, &alike), None);
    // The edge from corner 2 back to corner 0 runs from corner to next corner as well.
    let mut wrap = [[false; 3]; 3];
    wrap[0][1] = true;
    wrap[2][0] = true;
    assert_eq!(shared_edge(&wrap, &alike), Some((0, 2)));
    // The edge from corner 0 to corner 1.
    let mut first = [[false; 3]; 3];
    first[0][2] = true;
    first[1][1] = true;
    assert_eq!(shared_edge(&first, &alike), Some((1, 0)));
}

#[test]
fn corridor_on_whole_coordinates_is_pulled_like_the_same_corridor_on_doubles() {
    let square = PlaneCorridor {
        points: vec![
            GridPos::new(5, 5),
            GridPos::new(0, 50),
            GridPos::new(50, 0),
            GridPos::new(45, 45),
            GridPos::new(45, 45),
        ],
    };
    assert_eq!(string_pulling(&square, 2), vec![0, 3]);
    let bend = PlaneCorridor {
        points: vec![
            GridPos::new(5, 0),
            GridPos::new(0, 10),
            GridPos::new(10, 10),
            GridPos::new(0, 20),
            GridPos::new(10, 20),
            GridPos::new(10, 30),
            GridPos::new(10, 20),
            GridPos::new(30, 25),
            GridPos::new(30, 25),
        ],
    };
    // The corner (10, 20) is the right end of the second portal and of the third.
    assert_eq!(string_pulling(&bend, 4), vec![0, 6, 7]);
    let far = PlaneCorridor {
        points: vec![
            GridPos::new(i32::MIN, i32::MIN),
            GridPos::new(i32::MIN, i32::MAX),
            GridPos::new(i32::MAX, i32::MIN),
            GridPos::new(i32::MAX, i32::MAX),
            GridPos::new(i32::MAX, i32::MAX),
        ],
    };
    assert_eq!(string_pulling(&far, 2), vec![0, 3]);
}
