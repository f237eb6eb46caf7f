//! String pulling through a corridor of portals: the funnel that is opened
//! at the start, tightened portal by portal, and turned round a corner
//! wherever one of its sides would cross the other.
//!
//! Points are named by number: 0 is the start, and portal `k` has its left
//! end at `2k + 1` and its right end at `2k + 2`. The last portal holds the
//! end of the path at both of its ends. Where the points lie is known to the
//! corridor alone, which answers the two questions of the funnel: how three
//! points turn, and whether two points are the same.

use vstd::prelude::*;
use crate::grid::GridPos;

verus! {

/// The sign of twice the area of a triangle: positive where its corners run
/// counter-clockwise; undefined where the area is no number.
#[derive(Clone, Copy, Debug, PartialEq, Eq, Structural)]
pub enum AreaSign {
    Negative,
    Zero,
    Positive,
    Undefined,
}

impl AreaSign {
    pub open spec fn at_most_zero(self) -> bool {
        self == AreaSign::Negative || self == AreaSign::Zero
    }

    pub open spec fn at_least_zero(self) -> bool {
        self == AreaSign::Positive || self == AreaSign::Zero
    }

    pub fn is_at_most_zero(&self) -> (b: bool)
        ensures
            b == self.at_most_zero(),
    {
        match self {
            AreaSign::Negative => true,
            AreaSign::Zero => true,
            _ => false,
        }
    }

    pub fn is_at_least_zero(&self) -> (b: bool)
        ensures
            b == self.at_least_zero(),
    {
        match self {
            AreaSign::Positive => true,
            AreaSign::Zero => true,
            _ => false,
        }
    }
}

/// What knows where the points of a corridor lie.
pub trait Corridor {
    spec fn wf(&self) -> bool;

    /// The number of points of the corridor.
    spec fn points(&self) -> nat;

    /// The sign of twice the area of the triangle `a`, `b`, `c`.
    spec fn sign_of(&self, a: int, b: int, c: int) -> AreaSign;

    /// Whether `a` and `b` are the same point.
    spec fn same_of(&self, a: int, b: int) -> bool;

    fn area_sign(&self, a: usize, b: usize, c: usize) -> (s: AreaSign)
        requires
            self.wf(),
            a < self.points(),
            b < self.points(),
            c < self.points(),
        ensures
            s == self.sign_of(a as int, b as int, c as int),
    ;

    fn same_point(&self, a: usize, b: usize) -> (r: bool)
        requires
            self.wf(),
            a < self.points(),
            b < self.points(),
        ensures
            r == self.same_of(a as int, b as int),
    ;
}

/// A corridor that answers by asking two functions, which know where its
/// `count` points lie. Each has one answer to every question.
pub struct AskedCorridor<F, G> {
    pub count: usize,
    pub sign: F,
    pub same: G,
}

impl<F: Fn(usize, usize, usize) -> AreaSign, G: Fn(usize, usize) -> bool> Corridor for AskedCorridor<
    F,
    G,
> {
    open spec fn wf(&self) -> bool {
        &&& forall|asked: (usize, usize, usize)|
            asked.0 < self.count && asked.1 < self.count && asked.2 < self.count
                ==> #[trigger] call_requires(self.sign, asked)
        &&& forall|asked: (usize, usize, usize), r: AreaSign, s: AreaSign|
            #[trigger] call_ensures(self.sign, asked, r) && #[trigger] call_ensures(
                self.sign,
                asked,
                s,
            ) ==> r == s
        &&& forall|asked: (usize, usize)|
            asked.0 < self.count && asked.1 < self.count ==> #[trigger] call_requires(
                self.same,
                asked,
            )
        &&& forall|asked: (usize, usize), r: bool, s: bool|
            #[trigger] call_ensures(self.same, asked, r) && #[trigger] call_ensures(
                self.same,
                asked,
                s,
            ) ==> r == s
    }

    open spec fn points(&self) -> nat {
        self.count as nat
    }

    open spec fn sign_of(&self, a: int, b: int, c: int) -> AreaSign {
        let asked = (a as usize, b as usize, c as usize);
        choose|r: AreaSign| #[trigger] call_ensures(self.sign, asked, r)
    }

    open spec fn same_of(&self, a: int, b: int) -> bool {
        let asked = (a as usize, b as usize);
        choose|r: bool| #[trigger] call_ensures(self.same, asked, r)
    }

    fn area_sign(&self, a: usize, b: usize, c: usize) -> (s: AreaSign) {
        (self.sign)(a, b, c)
    }

    fn same_point(&self, a: usize, b: usize) -> (r: bool) {
        (self.same)(a, b)
    }
}

/// Twice the area of the triangle `a`, `b`, `c`: positive where its corners
/// run counter-clockwise.
pub open spec fn doubled_area(a: GridPos, b: GridPos, c: GridPos) -> int {
    (b.x - a.x) * (c.y - a.y) - (b.y - a.y) * (c.x - a.x)
}

pub open spec fn sign_of_area(v: int) -> AreaSign {
    if v < 0 {
        AreaSign::Negative
    } else if v > 0 {
        AreaSign::Positive
    } else {
        AreaSign::Zero
    }
}

/// A corridor whose points lie on whole coordinates.
pub struct PlaneCorridor {
    pub points: Vec<GridPos>,
}

impl Corridor for PlaneCorridor {
    open spec fn wf(&self) -> bool {
        true
    }

    open spec fn points(&self) -> nat {
        self.points@.len()
    }

    open spec fn sign_of(&self, a: int, b: int, c: int) -> AreaSign {
        sign_of_area(doubled_area(self.points@[a], self.points@[b], self.points@[c]))
    }

    open spec fn same_of(&self, a: int, b: int) -> bool {
        self.points@[a] == self.points@[b]
    }

    fn area_sign(&self, a: usize, b: usize, c: usize) -> (s: AreaSign) {
        let pa = self.points[a];
        let pb = self.points[b];
        let pc = self.points[c];
        let ux: i128 = pb.x as i128 - pa.x as i128;
        let uy: i128 = pb.y as i128 - pa.y as i128;
        let vx: i128 = pc.x as i128 - pa.x as i128;
        let vy: i128 = pc.y as i128 - pa.y as i128;
        proof {
            assert(-0x1_0000_0000_0000_0000 <= ux * vy <= 0x1_0000_0000_0000_0000) by (nonlinear_arith)
                requires
                    -0x1_0000_0000 <= ux <= 0x1_0000_0000,
                    -0x1_0000_0000 <= vy <= 0x1_0000_0000,
            ;
            assert(-0x1_0000_0000_0000_0000 <= uy * vx <= 0x1_0000_0000_0000_0000) by (nonlinear_arith)
                requires
                    -0x1_0000_0000 <= uy <= 0x1_0000_0000,
                    -0x1_0000_0000 <= vx <= 0x1_0000_0000,
            ;
        }
        let area: i128 = ux * vy - uy * vx;
        if area < 0 {
            AreaSign::Negative
        } else if area > 0 {
            AreaSign::Positive
        } else {
            AreaSign::Zero
        }
    }

    fn same_point(&self, a: usize, b: usize) -> (r: bool) {
        self.points[a] == self.points[b]
    }
}

pub open spec fn left_end(k: int) -> int {
    2 * k + 1
}

pub open spec fn right_end(k: int) -> int {
    2 * k + 2
}

/// The portal of a point that is not the start.
pub open spec fn portal_of(point: int) -> int {
    (point - 1) / 2
}

/// The funnel: its apex and its two sides, the portals at which the sides
/// were last tightened, the portal that is looked at next, and the first
/// portal after the apex.
#[derive(Clone, Copy, Debug, PartialEq, Eq, Structural)]
pub struct Funnel {
    pub apex: usize,
    pub left: usize,
    pub right: usize,
    pub left_index: usize,
    pub right_index: usize,
    pub next: usize,
    pub floor: usize,
}

/// What one half of a step did to the funnel.
#[derive(Clone, Copy, Debug, PartialEq, Eq, Structural)]
pub struct Step {
    pub funnel: Funnel,
    /// The corner that the path turns round, if the funnel collapsed.
    pub corner: Option<usize>,
    /// The funnel collapsed onto its own apex, so that the scan cannot go
    /// on.
    pub stuck: bool,
}

impl Funnel {
    /// What holds of a funnel in a corridor of `n` portals.
    #[verifier::opaque]
    pub open spec fn wf(self, n: int) -> bool {
        &&& 2 * n + 2 <= usize::MAX
        &&& self.floor <= self.next <= n
        &&& self.left_index <= self.next
        &&& self.right_index <= self.next
        &&& self.left_index < n
        &&& self.right_index < n
        &&& if self.floor == 0 {
            self.apex == 0
        } else {
            self.apex == left_end(self.floor - 1) || self.apex == right_end(self.floor - 1)
        }
        &&& (self.left_index >= self.floor && self.left == left_end(self.left_index as int))
            || (self.left_index + 1 == self.floor && self.left == self.apex)
        &&& (self.right_index >= self.floor && self.right == right_end(self.right_index as int))
            || (self.right_index + 1 == self.floor && self.right == self.apex)
    }

    /// The funnel turned round the corner `corner`, at which a side was
    /// last tightened at portal `index`.
    pub open spec fn turned(self, corner: usize, index: usize) -> Funnel {
        Funnel {
            apex: corner,
            left: corner,
            right: corner,
            left_index: index,
            right_index: index,
            next: (index + 1) as usize,
            floor: (index + 1) as usize,
        }
    }

    /// The right half of a step at portal `next`. `inward` is the sign of
    /// the triangle of the apex, the right side and the right end of the
    /// portal, `across` that of the apex, the left side and the right end of
    /// the portal. The right side is moved to the portal if that does not
    /// widen the funnel and stays to the right of the left side; if it would
    /// cross the left side, the path turns round the left side.
    pub open spec fn after_right(
        self,
        inward: AreaSign,
        apex_is_right: bool,
        across: AreaSign,
    ) -> Step {
        if inward.at_least_zero() {
            if apex_is_right || across == AreaSign::Negative {
                Step {
                    funnel: Funnel {
                        right: right_end(self.next as int) as usize,
                        right_index: self.next,
                        ..self
                    },
                    corner: None,
                    stuck: false,
                }
            } else if self.left_index >= self.floor {
                Step {
                    funnel: self.turned(self.left, self.left_index),
                    corner: Some(self.left),
                    stuck: false,
                }
            } else {
                Step { funnel: self, corner: None, stuck: true }
            }
        } else {
            Step { funnel: self, corner: None, stuck: false }
        }
    }

    /// The left half of a step at portal `next`, after which the next portal
    /// is looked at. `inward` is the sign of the triangle of the apex, the
    /// left side and the left end of the portal, `across` that of the apex,
    /// the right side and the left end of the portal. The left side is moved
    /// to the portal if that does not widen the funnel and stays to the left
    /// of the right side; if it would cross the right side, the path turns
    /// round the right side.
    pub open spec fn after_left(self, inward: AreaSign, apex_is_left: bool, across: AreaSign) -> Step {
        if inward.at_most_zero() {
            if apex_is_left || across == AreaSign::Positive {
                Step {
                    funnel: Funnel {
                        left: left_end(self.next as int) as usize,
                        left_index: self.next,
                        next: (self.next + 1) as usize,
                        ..self
                    },
                    corner: None,
                    stuck: false,
                }
            } else if self.right_index >= self.floor {
                Step {
                    funnel: self.turned(self.right, self.right_index),
                    corner: Some(self.right),
                    stuck: false,
                }
            } else {
                Step { funnel: self, corner: None, stuck: true }
            }
        } else {
            Step { funnel: Funnel { next: (self.next + 1) as usize, ..self }, corner: None, stuck: false }
        }
    }

    pub fn tighten_right(self, inward: AreaSign, apex_is_right: bool, across: AreaSign) -> (s: Step)
        requires
            self.next < usize::MAX / 2 - 1,
            self.left_index < usize::MAX,
        ensures
            s == self.after_right(inward, apex_is_right, across),
    {
        if inward.is_at_least_zero() {
            let crosses = match across {
                AreaSign::Negative => false,
                _ => true,
            };
            if apex_is_right || !crosses {
                Step {
                    funnel: Funnel {
                        apex: self.apex,
                        left: self.left,
                        right: 2 * self.next + 2,
                        left_index: self.left_index,
                        right_index: self.next,
                        next: self.next,
                        floor: self.floor,
                    },
                    corner: None,
                    stuck: false,
                }
            } else if self.left_index >= self.floor {
                Step {
                    funnel: Funnel {
                        apex: self.left,
                        left: self.left,
                        right: self.left,
                        left_index: self.left_index,
                        right_index: self.left_index,
                        next: self.left_index + 1,
                        floor: self.left_index + 1,
                    },
                    corner: Some(self.left),
                    stuck: false,
                }
            } else {
                Step { funnel: self, corner: None, stuck: true }
            }
        } else {
            Step { funnel: self, corner: None, stuck: false }
        }
    }

    pub fn tighten_left(self, inward: AreaSign, apex_is_left: bool, across: AreaSign) -> (s: Step)
        requires
            self.next < usize::MAX / 2 - 1,
            self.right_index < usize::MAX,
        ensures
            s == self.after_left(inward, apex_is_left, across),
    {
        if inward.is_at_most_zero() {
            let crosses = match across {
                AreaSign::Positive => false,
                _ => true,
            };
            if apex_is_left || !crosses {
                Step {
                    funnel: Funnel {
                        apex: self.apex,
                        left: 2 * self.next + 1,
                        right: self.right,
                        left_index: self.next,
                        right_index: self.right_index,
                        next: self.next + 1,
                        floor: self.floor,
                    },
                    corner: None,
                    stuck: false,
                }
            } else if self.right_index >= self.floor {
                Step {
                    funnel: Funnel {
                        apex: self.right,
                        left: self.right,
                        right: self.right,
                        left_index: self.right_index,
                        right_index: self.right_index,
                        next: self.right_index + 1,
                        floor: self.right_index + 1,
                    },
                    corner: Some(self.right),
                    stuck: false,
                }
            } else {
                Step { funnel: self, corner: None, stuck: true }
            }
        } else {
            Step {
                funnel: Funnel {
                    apex: self.apex,
                    left: self.left,
                    right: self.right,
                    left_index: self.left_index,
                    right_index: self.right_index,
                    next: self.next + 1,
                    floor: self.floor,
                },
                corner: None,
                stuck: false,
            }
        }
    }
}

/// The ends of portal `k` belong to portal `k`.
pub proof fn lemma_portal_of_end(k: int)
    requires
        0 <= k,
    ensures
        portal_of(left_end(k)) == k,
        portal_of(right_end(k)) == k,
        left_end(k) >= 1,
        right_end(k) >= 1,
{
}

/// The numbers of a funnel stay within the corridor.
pub proof fn lemma_funnel_bounds(f: Funnel, n: int)
    requires
        f.wf(n),
    ensures
        f.floor <= f.next <= n,
        f.left_index < n,
        f.right_index < n,
        2 * n + 2 <= usize::MAX,
        f.apex <= 2 * n,
        f.left <= 2 * n,
        f.right <= 2 * n,
{
    reveal(Funnel::wf);
}

/// The points with the end of the path after them; a last corner that lies
/// on the end gives way to it.
pub open spec fn closed_with<C: Corridor>(corridor: &C, n: int, points: Seq<usize>) -> Seq<usize> {
    let end = left_end(n - 1) as usize;
    if points.len() >= 2 && corridor.same_of(points.last() as int, end as int) {
        points.update(points.len() - 1, end)
    } else {
        points.push(end)
    }
}

/// What the right half of the next step makes of the corridor's answers.
pub open spec fn right_step<C: Corridor>(corridor: &C, f: Funnel) -> Step {
    let r = right_end(f.next as int);
    f.after_right(
        corridor.sign_of(f.apex as int, f.right as int, r),
        corridor.same_of(f.apex as int, f.right as int),
        corridor.sign_of(f.apex as int, f.left as int, r),
    )
}

/// What the left half of the next step makes of the corridor's answers.
pub open spec fn left_step<C: Corridor>(corridor: &C, f: Funnel) -> Step {
    let l = left_end(f.next as int);
    f.after_left(
        corridor.sign_of(f.apex as int, f.left as int, l),
        corridor.same_of(f.apex as int, f.left as int),
        corridor.sign_of(f.apex as int, f.right as int, l),
    )
}

/// The path that the funnel `f` and the points found so far lead to in a
/// corridor of `n` portals: portal after portal the right side is tightened,
/// then the left; every corner is added to the points and the scan goes on
/// behind it; the scan ends behind the last portal, or where the funnel
/// collapses onto its apex, and the end of the path closes the points.
pub open spec fn pulled_from<C: Corridor>(corridor: &C, n: int, f: Funnel, points: Seq<usize>) -> Seq<
    usize,
>
    decreases n - f.floor, n - f.next,
{
    if !f.wf(n) || f.next >= n {
        closed_with(corridor, n, points)
    } else {
        let r = right_step(corridor, f);
        if r.stuck {
            closed_with(corridor, n, points)
        } else if r.corner is Some {
            proof {
                lemma_step_goes_on(corridor, n, f);
            }
            pulled_from(corridor, n, r.funnel, points.push(r.corner->0))
        } else {
            let l = left_step(corridor, r.funnel);
            if l.stuck {
                closed_with(corridor, n, points)
            } else if l.corner is Some {
                proof {
                    lemma_step_goes_on(corridor, n, f);
                }
                pulled_from(corridor, n, l.funnel, points.push(l.corner->0))
            } else {
                proof {
                    lemma_step_goes_on(corridor, n, f);
                }
                pulled_from(corridor, n, l.funnel, points)
            }
        }
    }
}

/// A step leaves a funnel of the corridor that is further on: behind a
/// later apex, or at the next portal.
pub proof fn lemma_step_goes_on<C: Corridor>(corridor: &C, n: int, f: Funnel)
    requires
        f.wf(n),
        f.next < n,
    ensures
        ({
            let r = right_step(corridor, f);
            let l = left_step(corridor, r.funnel);
            &&& !r.stuck && r.corner is Some ==> r.funnel.wf(n) && f.floor < r.funnel.floor <= n
            &&& !r.stuck && r.corner is None ==> r.funnel.wf(n) && r.funnel.next == f.next
                && r.funnel.floor == f.floor
            &&& !r.stuck && r.corner is None && !l.stuck && l.corner is Some ==> l.funnel.wf(n)
                && f.floor < l.funnel.floor <= n
            &&& !r.stuck && r.corner is None && !l.stuck && l.corner is None ==> l.funnel.wf(n)
                && l.funnel.floor == f.floor && l.funnel.next == f.next + 1
        }),
{
    let r = right_step(corridor, f);
    let re = right_end(f.next as int);
    lemma_after_right(
        f,
        n,
        corridor.sign_of(f.apex as int, f.right as int, re),
        corridor.same_of(f.apex as int, f.right as int),
        corridor.sign_of(f.apex as int, f.left as int, re),
    );
    lemma_funnel_bounds(f, n);
    if !r.stuck {
        lemma_funnel_bounds(r.funnel, n);
        if r.corner is None {
            let g = r.funnel;
            let le = left_end(g.next as int);
            lemma_after_left(
                g,
                n,
                corridor.sign_of(g.apex as int, g.left as int, le),
                corridor.same_of(g.apex as int, g.left as int),
                corridor.sign_of(g.apex as int, g.right as int, le),
            );
            let l = left_step(corridor, g);
            if !l.stuck {
                lemma_funnel_bounds(l.funnel, n);
            }
        }
    }
}

/// The path through a corridor of `n` portals: what the funnel that opens
/// at the start leads to.
pub open spec fn pulled<C: Corridor>(corridor: &C, n: int) -> Seq<usize> {
    pulled_from(
        corridor,
        n,
        Funnel { apex: 0, left: 1, right: 2, left_index: 0, right_index: 0, next: 0, floor: 0 },
        seq![0usize],
    )
}

/// What the right half of a step leaves of a funnel in a corridor of `n`
/// portals: a funnel of that corridor, turned round an end of a portal that
/// comes after the apex or with the apex where it was.
pub proof fn lemma_after_right(f: Funnel, n: int, inward: AreaSign, apex_is_right: bool, across: AreaSign)
    requires
        f.wf(n),
        f.next < n,
    ensures
        ({
            let s = f.after_right(inward, apex_is_right, across);
            &&& s.stuck ==> s.funnel == f && s.corner is None
            &&& !s.stuck ==> s.funnel.wf(n)
            &&& s.corner matches Some(p) ==> {
                &&& p == left_end(f.left_index as int)
                &&& f.left_index >= f.floor
                &&& s.funnel.floor == f.left_index + 1
                &&& s.funnel.next == f.left_index + 1
                &&& s.funnel.apex == p
            }
            &&& s.corner is None ==> {
                &&& s.funnel.floor == f.floor
                &&& s.funnel.next == f.next
                &&& s.funnel.apex == f.apex
            }
        }),
{
    reveal(Funnel::wf);
}

/// What the left half of a step leaves of a funnel in a corridor of `n`
/// portals: a funnel of that corridor, turned round an end of a portal that
/// comes after the apex, or with the apex where it was and the next portal
/// to look at.
pub proof fn lemma_after_left(f: Funnel, n: int, inward: AreaSign, apex_is_left: bool, across: AreaSign)
    requires
        f.wf(n),
        f.next < n,
    ensures
        ({
            let s = f.after_left(inward, apex_is_left, across);
            &&& s.stuck ==> s.funnel == f && s.corner is None
            &&& !s.stuck ==> s.funnel.wf(n)
            &&& s.corner matches Some(p) ==> {
                &&& p == right_end(f.right_index as int)
                &&& f.right_index >= f.floor
                &&& s.funnel.floor == f.right_index + 1
                &&& s.funnel.next == f.right_index + 1
                &&& s.funnel.apex == p
            }
            &&& s.corner is None && !s.stuck ==> {
                &&& s.funnel.floor == f.floor
                &&& s.funnel.next == f.next + 1
                &&& s.funnel.apex == f.apex
            }
        }),
{
    reveal(Funnel::wf);
}

/// What holds of the points found so far.
pub open spec fn points_so_far(n: int, f: Funnel, points: Seq<usize>) -> bool {
    &&& f.wf(n)
    &&& 1 <= points.len() <= f.floor + 1
    &&& points[0] == 0
}

/// The path that a funnel leads to begins with the start, ends with the end
/// of the path, and has no more points than the corridor has portals, and
/// two more.
pub proof fn lemma_pulled_from_ends<C: Corridor>(corridor: &C, n: int, f: Funnel, points: Seq<usize>)
    requires
        1 <= n,
        points_so_far(n, f, points),
    ensures
        2 <= pulled_from(corridor, n, f, points).len() <= n + 2,
        pulled_from(corridor, n, f, points)[0] == 0,
        pulled_from(corridor, n, f, points).last() == left_end(n - 1),
    decreases n - f.floor, n - f.next,
{
    lemma_funnel_bounds(f, n);
    if f.next < n {
        lemma_step_goes_on(corridor, n, f);
        let r = right_step(corridor, f);
        if r.stuck {
        } else if r.corner is Some {
            lemma_pulled_from_ends(corridor, n, r.funnel, points.push(r.corner->0));
        } else {
            let l = left_step(corridor, r.funnel);
            if l.stuck {
            } else if l.corner is Some {
                lemma_pulled_from_ends(corridor, n, l.funnel, points.push(l.corner->0));
            } else {
                lemma_pulled_from_ends(corridor, n, l.funnel, points);
            }
        }
    }
}

/// The path pulled through a corridor begins with the start and ends with
/// the end of the path.
pub proof fn lemma_pulled_ends<C: Corridor>(corridor: &C, n: int)
    requires
        1 <= n,
        2 * n + 2 <= usize::MAX,
    ensures
        2 <= pulled(corridor, n).len() <= n + 2,
        pulled(corridor, n)[0] == 0,
        pulled(corridor, n).last() == left_end(n - 1),
{
    let f = Funnel { apex: 0, left: 1, right: 2, left_index: 0, right_index: 0, next: 0, floor: 0 };
    assert(f.wf(n)) by {
        reveal(Funnel::wf);
    }
    lemma_pulled_from_ends(corridor, n, f, seq![0usize]);
}

/// Pulls the path tight through a corridor of `portals` portals, the last of
/// which is the end of the path.
///
/// The returned points are those of `pulled`: they begin with the start and
/// end with the end of the path; between them stand the corners round which
/// the path turns, each an end of a later portal than the corner before it.
/// A last corner on the end of the path is not told apart from the end. A
/// corridor whose answers make the funnel collapse onto its own apex ends
/// the scan where it stands.
#[verifier::rlimit(60)]
pub fn string_pulling<C: Corridor>(corridor: &C, portals: usize) -> (points: Vec<usize>)
    requires
        corridor.wf(),
        corridor.points() == 2 * portals + 1,
        1 <= portals,
        portals < usize::MAX / 2 - 1,
    ensures
        points@ == pulled(corridor, portals as int),
        2 <= points@.len() <= portals + 2,
        points@[0] == 0,
        points@.last() == left_end(portals - 1),
        forall|j: int| 1 <= j < points@.len() ==> 1 <= (#[trigger] points@[j]) <= 2 * portals,
        forall|j: int|
            1 <= j < points@.len() - 2 ==> portal_of(#[trigger] points@[j] as int) < portal_of(
                points@[j + 1] as int,
            ),
{
    let mut points: Vec<usize> = Vec::new();
    points.push(0);
    let mut f = Funnel { apex: 0, left: 1, right: 2, left_index: 0, right_index: 0, next: 0, floor: 0 };
    let ghost n = portals as int;
    proof {
        reveal(Funnel::wf);
        assert(points@ =~= seq![0usize]);
    }
    loop
        invariant_except_break
            pulled_from(corridor, n, f, points@) == pulled(corridor, n),
        invariant
            corridor.wf(),
            corridor.points() == 2 * portals + 1,
            n == portals,
            1 <= portals < usize::MAX / 2 - 1,
            f.wf(portals as int),
            1 <= points@.len() <= f.floor + 1,
            points@[0] == 0,
            points@.last() == f.apex,
            forall|j: int| 1 <= j < points@.len() ==> 1 <= (#[trigger] points@[j]) <= 2 * portals,
            forall|j: int|
                1 <= j < points@.len() - 1 ==> portal_of(#[trigger] points@[j] as int) < portal_of(
                    points@[j + 1] as int,
                ),
            points@.len() >= 2 ==> portal_of(points@.last() as int) == f.floor - 1,
        ensures
            closed_with(corridor, n, points@) == pulled(corridor, n),
        decreases portals - f.floor, portals - f.next,
    {
        proof {
            lemma_funnel_bounds(f, portals as int);
        }
        if f.next >= portals {
            break ;
        }
        let ghost before = f;
        let i = f.next;
        let inward = corridor.area_sign(f.apex, f.right, 2 * i + 2);
        let apex_is_right = corridor.same_point(f.apex, f.right);
        let across = corridor.area_sign(f.apex, f.left, 2 * i + 2);
        proof {
            lemma_after_right(f, portals as int, inward, apex_is_right, across);
            lemma_portal_of_end(f.left_index as int);
            lemma_step_goes_on(corridor, n, before);
        }
        let s = f.tighten_right(inward, apex_is_right, across);
        proof {
            assert(s == right_step(corridor, before));
        }
        if s.stuck {
            break ;
        }
        f = s.funnel;
        match s.corner {
            Some(p) => {
                points.push(p);
                continue ;
            },
            None => {},
        }
        let inward = corridor.area_sign(f.apex, f.left, 2 * i + 1);
        let apex_is_left = corridor.same_point(f.apex, f.left);
        let across = corridor.area_sign(f.apex, f.right, 2 * i + 1);
        proof {
            lemma_funnel_bounds(f, portals as int);
            lemma_after_left(f, portals as int, inward, apex_is_left, across);
            lemma_portal_of_end(f.right_index as int);
        }
        let ghost between = f;
        let s = f.tighten_left(inward, apex_is_left, across);
        proof {
            assert(s == left_step(corridor, between));
        }
        if s.stuck {
            break ;
        }
        f = s.funnel;
        match s.corner {
            Some(p) => {
                points.push(p);
            },
            None => {},
        }
    }
    let end = 2 * (portals - 1) + 1;
    let count = points.len();
    proof {
        lemma_funnel_bounds(f, portals as int);
    }
    if count >= 2 && corridor.same_point(points[count - 1], end) {
        points.set(count - 1, end);
    } else {
        points.push(end);
    }
    points
}

} // verus!
