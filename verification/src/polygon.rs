//! Convex polygons and the separating-axis overlap test.
//!
//! A polygon is a centre and a closed loop of vertices given relative to it.
//! The overlap test projects both shapes onto the normal of every edge of the
//! first shape. All projections are exact integers: an axis is kept at its
//! full length, and the length is divided out only when the push vector is
//! formed.

use vstd::prelude::*;
use crate::vectors::{Vector2, clamp_coord, clamp_to_coord, div_toward_zero, divide_toward_zero};

verus! {

/// A direction to project onto: an edge turned by a quarter turn, at its full
/// length.
#[derive(Clone, Copy, Debug, PartialEq, Eq, Structural)]
pub struct Axis {
    pub x: i64,
    pub y: i64,
}

/// The largest magnitude an axis component can reach: the span of the
/// coordinate range.
pub const AXIS_MAX: i64 = 0xffff_ffff;

impl Axis {
    /// Both components lie within the span of the coordinate range.
    pub open spec fn in_range(self) -> bool {
        &&& -AXIS_MAX <= self.x <= AXIS_MAX
        &&& -AXIS_MAX <= self.y <= AXIS_MAX
    }

    /// The axis has no direction.
    pub open spec fn is_null(self) -> bool {
        self.x == 0 && self.y == 0
    }

    /// Whether both components lie within the span of the coordinate range.
    pub fn is_in_range(self) -> (ok: bool)
        ensures
            ok == self.in_range(),
    {
        -AXIS_MAX <= self.x && self.x <= AXIS_MAX && -AXIS_MAX <= self.y && self.y <= AXIS_MAX
    }

    /// Whether the axis has no direction.
    pub fn is_zero(self) -> (null: bool)
        ensures
            null == self.is_null(),
    {
        self.x == 0 && self.y == 0
    }

    /// The squared length of the axis.
    pub open spec fn norm_squared(self) -> int {
        self.x * self.x + self.y * self.y
    }

    /// The position of `p` along the axis, scaled by the length of the axis.
    pub open spec fn project(self, p: Vector2) -> int {
        self.x * p.x + self.y * p.y
    }

    /// The normal of the edge that runs from `a` to `b`: the edge turned a
    /// quarter turn counter-clockwise, so that it points out of a shape whose
    /// vertices run clockwise.
    pub open spec fn of_edge(a: Vector2, b: Vector2) -> Axis {
        Axis { x: (a.y - b.y) as i64, y: (b.x - a.x) as i64 }
    }

    /// The least projection among the first `k` of `points`.
    pub open spec fn shadow_min(self, points: Seq<Vector2>, k: nat) -> int
        decreases k,
    {
        if k <= 1 {
            self.project(points[0])
        } else {
            let rest = self.shadow_min(points, (k - 1) as nat);
            let last = self.project(points[k - 1]);
            if last < rest {
                last
            } else {
                rest
            }
        }
    }

    /// The greatest projection among the first `k` of `points`.
    pub open spec fn shadow_max(self, points: Seq<Vector2>, k: nat) -> int
        decreases k,
    {
        if k <= 1 {
            self.project(points[0])
        } else {
            let rest = self.shadow_max(points, (k - 1) as nat);
            let last = self.project(points[k - 1]);
            if last > rest {
                last
            } else {
                rest
            }
        }
    }

    /// The signed amount, in units of the axis length, by which the first
    /// shape has to move along the axis to stop overlapping the second, or
    /// `None` when the shadows of the two shapes do not overlap or one of the
    /// shapes has no points.
    pub open spec fn push_scalar(self, first: Seq<Vector2>, second: Seq<Vector2>) -> Option<int> {
        if first.len() == 0 || second.len() == 0 {
            None
        } else {
            let lo1 = self.shadow_min(first, first.len());
            let hi1 = self.shadow_max(first, first.len());
            let lo2 = self.shadow_min(second, second.len());
            let hi2 = self.shadow_max(second, second.len());
            if lo1 < lo2 {
                if hi1 < lo2 {
                    None
                } else {
                    Some(lo2 - hi1)
                }
            } else {
                if hi2 < lo1 {
                    None
                } else {
                    Some(hi2 - lo1)
                }
            }
        }
    }

    /// The axis scaled so that it moves a shape by `scalar` axis lengths:
    /// each component is rounded toward zero and held to the coordinate
    /// range.
    pub open spec fn scaled(self, scalar: int) -> Vector2 {
        Vector2 {
            x: clamp_coord(div_toward_zero(self.x * scalar, self.norm_squared())) as i32,
            y: clamp_coord(div_toward_zero(self.y * scalar, self.norm_squared())) as i32,
        }
    }

    /// The push that frees the first shape from the second along this axis,
    /// or `None` when the axis separates them.
    pub open spec fn push_vector(self, first: Seq<Vector2>, second: Seq<Vector2>) -> Option<
        Vector2,
    > {
        match self.push_scalar(first, second) {
            Some(s) => Some(self.scaled(s)),
            None => None,
        }
    }
}

/// The least and greatest projections bound every projection and are each
/// reached by some point.
pub proof fn lemma_shadow_bounds(axis: Axis, points: Seq<Vector2>, k: nat)
    requires
        1 <= k <= points.len(),
    ensures
        forall|i: int|
            0 <= i < k ==> axis.shadow_min(points, k) <= #[trigger] axis.project(points[i])
                <= axis.shadow_max(points, k),
        exists|i: int| 0 <= i < k && #[trigger] axis.project(points[i]) == axis.shadow_min(points, k),
        exists|i: int| 0 <= i < k && #[trigger] axis.project(points[i]) == axis.shadow_max(points, k),
    decreases k,
{
    if k > 1 {
        lemma_shadow_bounds(axis, points, (k - 1) as nat);
        let lo = choose|i: int|
            0 <= i < k - 1 && #[trigger] axis.project(points[i]) == axis.shadow_min(
                points,
                (k - 1) as nat,
            );
        let hi = choose|i: int|
            0 <= i < k - 1 && #[trigger] axis.project(points[i]) == axis.shadow_max(
                points,
                (k - 1) as nat,
            );
        let last = axis.project(points[k - 1]);
        if last < axis.shadow_min(points, (k - 1) as nat) {
            assert(axis.project(points[k - 1]) == axis.shadow_min(points, k));
        } else {
            assert(axis.project(points[lo]) == axis.shadow_min(points, k));
        }
        if last > axis.shadow_max(points, (k - 1) as nat) {
            assert(axis.project(points[k - 1]) == axis.shadow_max(points, k));
        } else {
            assert(axis.project(points[hi]) == axis.shadow_max(points, k));
        }
    } else {
        assert(axis.project(points[0]) == axis.shadow_min(points, k));
        assert(axis.project(points[0]) == axis.shadow_max(points, k));
    }
}

/// A product of two bounded factors is bounded by the product of the bounds.
proof fn lemma_product_bound(a: int, b: int, ma: int, mb: int)
    requires
        -ma <= a <= ma,
        -mb <= b <= mb,
    ensures
        -(ma * mb) <= a * b <= ma * mb,
{
    assert(-(ma * mb) <= a * b <= ma * mb) by (nonlinear_arith)
        requires
            -ma <= a <= ma,
            -mb <= b <= mb,
    ;
}

/// Every projection of a point onto an axis in range stays far inside the
/// range of the wide integers the test computes with.
pub proof fn lemma_project_bound(axis: Axis, p: Vector2)
    requires
        axis.in_range(),
    ensures
        -0x1_0000_0000_0000_0000 <= axis.project(p) <= 0x1_0000_0000_0000_0000,
{
    lemma_product_bound(axis.x as int, p.x as int, 0xffff_ffff, 0x8000_0000);
    lemma_product_bound(axis.y as int, p.y as int, 0xffff_ffff, 0x8000_0000);
}

/// A convex shape: a centre in world space and the vertices of a closed loop,
/// given relative to the centre. Edge `i` runs from vertex `i` to vertex
/// `i + 1`, and the last edge closes the loop.
#[derive(Clone, Debug)]
pub struct Polygon {
    pub center: Vector2,
    pub verticies: Vec<Vector2>,
}

impl Polygon {
    /// The vertices relative to the centre, in loop order.
    pub open spec fn vertices(&self) -> Seq<Vector2> {
        self.verticies@
    }

    /// Vertex `i` in world space.
    pub open spec fn point(&self, i: int) -> Vector2 {
        self.vertices()[i].spec_plus(self.center)
    }

    /// All vertices in world space, in loop order.
    pub open spec fn points(&self) -> Seq<Vector2> {
        Seq::new(self.vertices().len(), |i: int| self.point(i))
    }

    /// Edge `i` in world space, from its start to its end.
    pub open spec fn edge(&self, i: int) -> (Vector2, Vector2) {
        (self.point(i), self.point((i + 1) % (self.vertices().len() as int)))
    }

    /// All edges in world space, in loop order.
    pub open spec fn edges(&self) -> Seq<(Vector2, Vector2)> {
        Seq::new(self.vertices().len(), |i: int| self.edge(i))
    }

    /// The normal of edge `i`.
    pub open spec fn axis(&self, i: int) -> Axis {
        Axis::of_edge(self.edge(i).0, self.edge(i).1)
    }

    /// The push along the normal of edge `i` that frees this shape from
    /// `other`, or `None` when that normal separates the two shapes.
    pub open spec fn push_on_edge(&self, other: &Polygon, i: int) -> Option<Vector2> {
        self.axis(i).push_vector(self.points(), other.points())
    }

    /// Edge `i` has a direction and its normal separates this shape from
    /// `other`.
    pub open spec fn separates(&self, other: &Polygon, i: int) -> bool {
        !self.axis(i).is_null() && self.push_on_edge(other, i) is None
    }

    /// The shortest push among the first `k` edges, the earliest edge winning
    /// a tie. Edges without a direction and separating edges offer no push.
    pub open spec fn shortest_push(&self, other: &Polygon, k: nat) -> Option<Vector2>
        decreases k,
    {
        if k == 0 {
            None
        } else {
            let before = self.shortest_push(other, (k - 1) as nat);
            if self.axis(k - 1).is_null() {
                before
            } else {
                match (self.push_on_edge(other, k - 1), before) {
                    (Some(v), Some(b)) => if v.norm_squared() < b.norm_squared() {
                        Some(v)
                    } else {
                        before
                    },
                    (Some(v), None) => Some(v),
                    (None, _) => before,
                }
            }
        }
    }

    /// The minimum translation vector of this shape against `other`: `None`
    /// when the normal of some edge of this shape separates the two, else the
    /// shortest push over all edges of this shape.
    pub open spec fn overlap_push(&self, other: &Polygon) -> Option<Vector2> {
        if exists|i: int| 0 <= i < self.vertices().len() && self.separates(other, i) {
            None
        } else {
            self.shortest_push(other, self.vertices().len())
        }
    }

    /// A polygon around `center` with the given vertices relative to it.
    pub fn new(center: Vector2, verticies: Vec<Vector2>) -> (p: Polygon)
        ensures
            p.center == center,
            p.vertices() == verticies@,
    {
        Polygon { center, verticies }
    }

    /// The number of vertices, which is also the number of edges.
    pub fn vertex_count(&self) -> (n: usize)
        ensures
            n == self.vertices().len(),
    {
        self.verticies.len()
    }

    /// The edges in world space, in loop order.
    pub fn get_edges(&self) -> (out: Vec<(Vector2, Vector2)>)
        ensures
            out@ == self.edges(),
    {
        let mut out: Vec<(Vector2, Vector2)> = Vec::new();
        let n = self.verticies.len();
        let mut i: usize = 0;
        while i < n
            invariant
                n == self.verticies@.len(),
                i <= n,
                out@.len() == i,
                forall|j: int| 0 <= j < i ==> out@[j] == self.edge(j),
            decreases n - i,
        {
            let a = self.verticies[i].plus(self.center);
            let next = if i + 1 == n {
                0
            } else {
                i + 1
            };
            assert(next == (i + 1) % (n as int)) by {
                if i + 1 == n {
                    assert((n as int) % (n as int) == 0) by (nonlinear_arith)
                        requires
                            n > 0,
                    ;
                } else {
                    assert((i + 1) % (n as int) == i + 1) by (nonlinear_arith)
                        requires
                            0 <= i + 1 < n,
                    ;
                }
            }
            let b = self.verticies[next].plus(self.center);
            out.push((a, b));
            i += 1;
        }
        assert(out@ =~= self.edges());
        out
    }

    /// The vertices in world space, in loop order.
    pub fn get_points(&self) -> (out: Vec<Vector2>)
        ensures
            out@ == self.points(),
    {
        let mut out: Vec<Vector2> = Vec::new();
        let n = self.verticies.len();
        let mut i: usize = 0;
        while i < n
            invariant
                n == self.verticies@.len(),
                i <= n,
                out@.len() == i,
                forall|j: int| 0 <= j < i ==> out@[j] == self.point(j),
            decreases n - i,
        {
            out.push(self.verticies[i].plus(self.center));
            i += 1;
        }
        assert(out@ =~= self.points());
        out
    }

    /// Tests this shape against `other` along the normals of this shape's
    /// edges. Returns `None` as soon as one normal separates the two shapes,
    /// and otherwise the shortest of the pushes that would move this shape out
    /// of `other`. Only this shape supplies axes.
    pub fn collide(&self, other: &Polygon) -> (push: Option<Vector2>)
        ensures
            push == self.overlap_push(other),
    {
        let edges = self.get_edges();
        let n = edges.len();
        let mut push: Option<Vector2> = None;
        let mut i: usize = 0;
        while i < n
            invariant
                i <= n,
                n == self.vertices().len(),
                edges@ == self.edges(),
                push == self.shortest_push(other, i as nat),
                forall|j: int| 0 <= j < i ==> !self.separates(other, j),
            decreases n - i,
        {
            let edge = edges[i];
            let axis = edge_axis(edge.0, edge.1);
            assert(axis == self.axis(i as int));
            if !axis.is_zero() {
                match get_push_vector(self, other, axis) {
                    Some(v) => {
                        let better = match push {
                            Some(b) => v.length_squared() < b.length_squared(),
                            None => true,
                        };
                        if better {
                            push = Some(v);
                        }
                    },
                    None => {
                        assert(self.separates(other, i as int));
                        return None;
                    },
                }
            }
            i += 1;
        }
        push
    }
}

/// The normal of the edge from `a` to `b`.
pub fn edge_axis(a: Vector2, b: Vector2) -> (axis: Axis)
    ensures
        axis == Axis::of_edge(a, b),
        axis.in_range(),
{
    Axis { x: a.y as i64 - b.y as i64, y: b.x as i64 - a.x as i64 }
}

/// The extent of `shape` along `axis`: the least and the greatest projection
/// of its world-space points, or `None` for a shape without points.
pub fn get_shadow(shape: &Polygon, axis: Axis) -> (shadow: Option<(i128, i128)>)
    requires
        axis.in_range(),
    ensures
        shadow is None <==> shape.vertices().len() == 0,
        shadow matches Some(s) ==> {
            &&& s.0 == axis.shadow_min(shape.points(), shape.vertices().len())
            &&& s.1 == axis.shadow_max(shape.points(), shape.vertices().len())
            &&& -0x1_0000_0000_0000_0000 <= s.0 <= s.1 <= 0x1_0000_0000_0000_0000
        },
{
    let points = shape.get_points();
    let n = points.len();
    if n == 0 {
        return None;
    }
    let first = project(axis, points[0]);
    let mut min: i128 = first;
    let mut max: i128 = first;
    let mut i: usize = 1;
    while i < n
        invariant
            1 <= i <= n,
            n == points@.len(),
            axis.in_range(),
            min == axis.shadow_min(points@, i as nat),
            max == axis.shadow_max(points@, i as nat),
            -0x1_0000_0000_0000_0000 <= min <= max <= 0x1_0000_0000_0000_0000,
        decreases n - i,
    {
        let dot = project(axis, points[i]);
        if dot < min {
            min = dot;
        }
        if dot > max {
            max = dot;
        }
        i += 1;
    }
    Some((min, max))
}

/// The position of `p` along `axis`, scaled by the length of the axis.
pub fn project(axis: Axis, p: Vector2) -> (dot: i128)
    requires
        axis.in_range(),
    ensures
        dot == axis.project(p),
        -0x1_0000_0000_0000_0000 <= dot <= 0x1_0000_0000_0000_0000,
{
    proof {
        lemma_project_bound(axis, p);
        lemma_product_bound(axis.x as int, p.x as int, 0xffff_ffff, 0x8000_0000);
        lemma_product_bound(axis.y as int, p.y as int, 0xffff_ffff, 0x8000_0000);
    }
    (axis.x as i128) * (p.x as i128) + (axis.y as i128) * (p.y as i128)
}

/// The push along `axis` that moves `first` out of `second`, or `None` when the
/// shadows of the two shapes on the axis do not overlap. Shadows that only
/// touch count as overlapping, with a null push.
pub fn get_push_vector(first: &Polygon, second: &Polygon, axis: Axis) -> (push: Option<Vector2>)
    requires
        axis.in_range(),
        !axis.is_null(),
    ensures
        push == axis.push_vector(first.points(), second.points()),
{
    let s1 = match get_shadow(first, axis) {
        Some(s) => s,
        None => {
            return None;
        },
    };
    let s2 = match get_shadow(second, axis) {
        Some(s) => s,
        None => {
            return None;
        },
    };
    let push_scalar = if s1.0 < s2.0 {
        if s1.1 < s2.0 {
            return None;
        }
        s2.0 - s1.1
    } else {
        if s2.1 < s1.0 {
            return None;
        }
        s2.1 - s1.0
    };
    assert(Some(push_scalar as int) == axis.push_scalar(first.points(), second.points()));
    Some(scale_axis(axis, push_scalar))
}

/// The axis scaled to move a shape by `scalar` axis lengths.
pub fn scale_axis(axis: Axis, scalar: i128) -> (v: Vector2)
    requires
        axis.in_range(),
        !axis.is_null(),
        -0x2_0000_0000_0000_0000 <= scalar <= 0x2_0000_0000_0000_0000,
    ensures
        v == axis.scaled(scalar as int),
{
    let ax = axis.x as i128;
    let ay = axis.y as i128;
    proof {
        lemma_product_bound(ax as int, ax as int, 0xffff_ffff, 0xffff_ffff);
        lemma_product_bound(ay as int, ay as int, 0xffff_ffff, 0xffff_ffff);
        lemma_product_bound(ax as int, scalar as int, 0xffff_ffff, 0x2_0000_0000_0000_0000);
        lemma_product_bound(ay as int, scalar as int, 0xffff_ffff, 0x2_0000_0000_0000_0000);
        assert(ax * ax + ay * ay > 0) by (nonlinear_arith)
            requires
                ax != 0 || ay != 0,
        ;
        assert(ax * ax >= 0 && ay * ay >= 0) by (nonlinear_arith);
    }
    let norm = ax * ax + ay * ay;
    Vector2 {
        x: clamp_to_coord(divide_toward_zero(ax * scalar, norm)),
        y: clamp_to_coord(divide_toward_zero(ay * scalar, norm)),
    }
}

/// The shortest push over the first `k` edges is the push of one of these
/// edges, and no edge among them that has a direction and overlaps offers a
/// shorter one. There is none exactly when every edge among them lacks a
/// direction or separates the shapes.
pub proof fn lemma_shortest_push(a: Polygon, b: Polygon, k: nat)
    ensures
        match a.shortest_push(&b, k) {
            Some(v) => {
                &&& exists|i: int|
                    0 <= i < k && !a.axis(i).is_null() && #[trigger] a.push_on_edge(&b, i) == Some(v)
                &&& forall|j: int|
                    0 <= j < k && !a.axis(j).is_null() && (#[trigger] a.push_on_edge(&b, j))
                        is Some ==> v.norm_squared() <= a.push_on_edge(&b, j)->0.norm_squared()
            },
            None => forall|j: int|
                0 <= j < k ==> a.axis(j).is_null() || (#[trigger] a.push_on_edge(&b, j)) is None,
        },
    decreases k,
{
    if k > 0 {
        lemma_shortest_push(a, b, (k - 1) as nat);
        let before = a.shortest_push(&b, (k - 1) as nat);
        let now = a.shortest_push(&b, k);
        match now {
            Some(v) => {
                if before == now {
                    let i = choose|i: int|
                        0 <= i < k - 1 && !a.axis(i).is_null() && #[trigger] a.push_on_edge(&b, i)
                            == Some(v);
                    assert(0 <= i < k && !a.axis(i).is_null() && a.push_on_edge(&b, i) == Some(v));
                } else {
                    assert(!a.axis(k - 1).is_null() && a.push_on_edge(&b, k - 1) == Some(v));
                }
            },
            None => {},
        }
    }
}

/// The overlap test answers with a push exactly when no edge with a
/// direction separates the shapes and at least one edge has a direction; the
/// push is then the shortest that any edge offers.
pub proof fn lemma_overlap_push(a: Polygon, b: Polygon)
    ensures
        match a.overlap_push(&b) {
            Some(v) => {
                &&& forall|i: int| 0 <= i < a.vertices().len() ==> !a.separates(&b, i)
                &&& exists|i: int|
                    0 <= i < a.vertices().len() && !a.axis(i).is_null() && #[trigger] a.push_on_edge(
                        &b,
                        i,
                    ) == Some(v)
                &&& forall|j: int|
                    0 <= j < a.vertices().len() && !a.axis(j).is_null() ==> v.norm_squared() <= (
                    #[trigger] a.push_on_edge(&b, j))->0.norm_squared()
            },
            None => (exists|i: int| 0 <= i < a.vertices().len() && a.separates(&b, i)) || forall|
                j: int,
            |
                0 <= j < a.vertices().len() ==> (#[trigger] a.axis(j)).is_null(),
        },
{
    lemma_shortest_push(a, b, a.vertices().len());
    match a.overlap_push(&b) {
        Some(v) => {
            assert forall|j: int|
                0 <= j < a.vertices().len() && !a.axis(j).is_null() implies v.norm_squared() <= (
            #[trigger] a.push_on_edge(&b, j))->0.norm_squared() by {
                assert(!a.separates(&b, j));
            }
        },
        None => {
            if !(exists|i: int| 0 <= i < a.vertices().len() && a.separates(&b, i)) {
                assert forall|j: int| 0 <= j < a.vertices().len() implies (#[trigger] a.axis(
                    j,
                )).is_null() by {
                    assert(!a.separates(&b, j));
                    assert(a.axis(j).is_null() || a.push_on_edge(&b, j) is None);
                }
            }
        },
    }
}

} // verus!
