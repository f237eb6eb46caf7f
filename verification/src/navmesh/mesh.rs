//! The decisions of the navigation mesh that follow from comparisons of
//! points: whether a triangle covers a point, and which edge two triangles
//! share.

use vstd::prelude::*;
use crate::navmesh::funnel::AreaSign;

verus! {

/// A point lies in a triangle, or on its border, unless it lies to the left
/// of one edge and to the right of another.
pub open spec fn covered(d1: AreaSign, d2: AreaSign, d3: AreaSign) -> bool {
    let has_neg = d1 == AreaSign::Negative || d2 == AreaSign::Negative || d3 == AreaSign::Negative;
    let has_pos = d1 == AreaSign::Positive || d2 == AreaSign::Positive || d3 == AreaSign::Positive;
    !(has_neg && has_pos)
}

/// Whether a triangle covers a point, from the side of each of its three
/// edges on which the point lies.
pub fn covers(d1: AreaSign, d2: AreaSign, d3: AreaSign) -> (b: bool)
    ensures
        b == covered(d1, d2, d3),
{
    let has_neg = d1 == AreaSign::Negative || d2 == AreaSign::Negative || d3 == AreaSign::Negative;
    let has_pos = d1 == AreaSign::Positive || d2 == AreaSign::Positive || d3 == AreaSign::Positive;
    !(has_neg && has_pos)
}

/// The place of the first item that holds.
pub open spec fn first_of(a: bool, b: bool, c: bool) -> Option<usize> {
    if a {
        Some(0usize)
    } else if b {
        Some(1usize)
    } else if c {
        Some(2usize)
    } else {
        None
    }
}

/// The corners of the first triangle that touch a corner of the second,
/// once for each corner that they touch: `touch[i][j]` says whether corner
/// `i` of the first touches corner `j` of the second. The first `k` of the
/// nine pairs are looked at.
pub open spec fn touching(touch: [[bool; 3]; 3], k: int) -> Seq<usize>
    decreases k,
{
    if k <= 0 {
        Seq::empty()
    } else {
        let rest = touching(touch, k - 1);
        if touch[(k - 1) / 3][(k - 1) % 3] {
            rest.push(((k - 1) / 3) as usize)
        } else {
            rest
        }
    }
}

/// The edge that two triangles share, as the corners of the first triangle
/// that lie to the left and to the right of a walk from the first into the
/// second; nothing unless exactly two corners touch. `alike[a][b]` says
/// whether the corners `a` and `b` of the first triangle lie together.
pub open spec fn shared_edge_of(touch: [[bool; 3]; 3], alike: [[bool; 3]; 3]) -> Option<(usize, usize)> {
    let shared = touching(touch, 9);
    if shared.len() != 2 {
        None
    } else {
        let v1 = shared[0];
        let v2 = shared[1];
        let at1 = first_of(alike[0][v1 as int], alike[1][v1 as int], alike[2][v1 as int]);
        let at2 = first_of(alike[0][v2 as int], alike[1][v2 as int], alike[2][v2 as int]);
        if at1 is None || at2 is None {
            None
        } else if (at1->0 + 1) % 3 == at2->0 {
            Some((v2, v1))
        } else {
            Some((v1, v2))
        }
    }
}

fn first_alike(alike: &[[bool; 3]; 3], v: usize) -> (r: Option<usize>)
    requires
        v < 3,
    ensures
        r == first_of(alike[0][v as int], alike[1][v as int], alike[2][v as int]),
{
    if alike[0][v] {
        Some(0)
    } else if alike[1][v] {
        Some(1)
    } else if alike[2][v] {
        Some(2)
    } else {
        None
    }
}

/// Finds the edge that two triangles share and says which of its ends lies
/// to the left of a walk from the first triangle into the second: where the
/// edge runs from corner to next corner in the first triangle, its second
/// end.
pub fn shared_edge(touch: &[[bool; 3]; 3], alike: &[[bool; 3]; 3]) -> (r: Option<(usize, usize)>)
    ensures
        r == shared_edge_of(*touch, *alike),
        r matches Some((left, right)) ==> left < 3 && right < 3,
{
    let mut shared: Vec<usize> = Vec::new();
    let mut i: usize = 0;
    while i < 3
        invariant
            i <= 3,
            shared@ == touching(*touch, 3 * i),
            forall|m: int| 0 <= m < shared@.len() ==> (#[trigger] shared@[m]) < 3,
        decreases 3 - i,
    {
        let mut j: usize = 0;
        while j < 3
            invariant
                i < 3,
                j <= 3,
                shared@ == touching(*touch, 3 * i + j),
                forall|m: int| 0 <= m < shared@.len() ==> (#[trigger] shared@[m]) < 3,
            decreases 3 - j,
        {
            proof {
                assert((3 * i + j) / 3 == i && (3 * i + j) % 3 == j) by {
                    vstd::arithmetic::div_mod::lemma_fundamental_div_mod_converse(
                        3 * i + j,
                        3,
                        i as int,
                        j as int,
                    );
                }
            }
            if touch[i][j] {
                shared.push(i);
            }
            j += 1;
        }
        i += 1;
    }
    if shared.len() != 2 {
        return None;
    }
    let v1 = shared[0];
    let v2 = shared[1];
    let at1 = first_alike(alike, v1);
    let at2 = first_alike(alike, v2);
    match (at1, at2) {
        (Some(a), Some(b)) => {
            if (a + 1) % 3 == b {
                Some((v2, v1))
            } else {
                Some((v1, v2))
            }
        },
        _ => None,
    }
}

} // verus!
