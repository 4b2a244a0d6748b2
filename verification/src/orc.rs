//! Turning a route of room cubes into the points an orc walks through.
//! Points are in half-cube units, so that cube centres and cube edges are
//! both whole numbers; the walker adds the height its origin sits above the
//! floor.
use vstd::prelude::*;
use crate::sparse3d::IVec3;

verus! {

/// A point to walk to: `x2` and `z2` are twice the x and z coordinates (a
/// cube's centre is odd, its edges even), `level` the floor height the point
/// is at.
#[derive(Clone, Copy, PartialEq, Eq, Debug, Structural)]
pub struct Waypoint {
    pub x2: i64,
    pub level: i32,
    pub z2: i64,
}

/// The centre of the bottom of `cube`.
pub open spec fn centre_of(cube: IVec3) -> Waypoint {
    Waypoint { x2: (2 * cube.x + 1) as i64, level: cube.y, z2: (2 * cube.z + 1) as i64 }
}

/// The points one step of a route, from `a` to `b`, contributes: the centre
/// of `a` on level ground; on a change of level (a flight of stairs in `a`),
/// the edge of `a` it is entered by, at `a`'s floor height, and the edge it
/// is left by, at `b`'s, so that the climb spreads over the stairs' own
/// footprint.
pub open spec fn step_points(a: IVec3, b: IVec3) -> Seq<Waypoint> {
    if a.y == b.y {
        seq![centre_of(a)]
    } else {
        seq![
            Waypoint { x2: (2 * a.x + 1 - (b.x - a.x)) as i64, level: a.y, z2: (2 * a.z + 1 - (b.z - a.z)) as i64 },
            Waypoint { x2: (2 * a.x + 1 + (b.x - a.x)) as i64, level: b.y, z2: (2 * a.z + 1 + (b.z - a.z)) as i64 },
        ]
    }
}

/// The points of the first `n` steps of `path`.
pub open spec fn steps_points(path: Seq<IVec3>, n: int) -> Seq<Waypoint>
    decreases n,
{
    if n <= 0 {
        seq![]
    } else {
        steps_points(path, n - 1) + step_points(path[n - 1], path[n])
    }
}

/// The points a route of room cubes expands to: those of each step in turn,
/// then the centre of the last cube. An empty route has none.
pub open spec fn route_points(path: Seq<IVec3>) -> Seq<Waypoint> {
    if path.len() == 0 {
        seq![]
    } else {
        steps_points(path, path.len() - 1) + seq![centre_of(path.last())]
    }
}

fn centre(cube: IVec3) -> (w: Waypoint)
    ensures
        w == centre_of(cube),
{
    Waypoint { x2: 2 * (cube.x as i64) + 1, level: cube.y, z2: 2 * (cube.z as i64) + 1 }
}

/// The points a route of room cubes expands to (see `route_points`).
pub fn expand_path_to_waypoints(path: &[IVec3]) -> (points: Vec<Waypoint>)
    ensures
        points@ == route_points(path@),
{
    let mut points: Vec<Waypoint> = Vec::new();
    if path.len() == 0 {
        return points;
    }
    let last = path.len() - 1;
    let mut k: usize = 0;
    while k < last
        invariant
            last == path@.len() - 1,
            k <= last,
            points@ == steps_points(path@, k as int),
        decreases path@.len() - k,
    {
        let a = path[k];
        let b = path[k + 1];
        let ghost before = points@;
        if a.y == b.y {
            points.push(centre(a));
        } else {
            let dx = b.x as i64 - a.x as i64;
            let dz = b.z as i64 - a.z as i64;
            let cx = 2 * (a.x as i64) + 1;
            let cz = 2 * (a.z as i64) + 1;
            points.push(Waypoint { x2: cx - dx, level: a.y, z2: cz - dz });
            points.push(Waypoint { x2: cx + dx, level: b.y, z2: cz + dz });
        }
        proof {
            assert(points@ =~= before + step_points(path@[k as int], path@[k + 1]));
        }
        k += 1;
    }
    points.push(centre(path[path.len() - 1]));
    points
}

/// Each step of a route contributes one point on level ground and two on a
/// change of level, and the route ends at the centre of its last cube.
pub proof fn lemma_route_point_count(path: Seq<IVec3>, n: int)
    requires
        0 <= n < path.len(),
    ensures
        steps_points(path, n).len() == n + climbs(path, n),
        path.len() > 0 ==> route_points(path).last() == centre_of(path.last()),
    decreases n,
{
    if n > 0 {
        lemma_route_point_count(path, n - 1);
    }
}

/// How many of the first `n` steps of `path` change level.
pub open spec fn climbs(path: Seq<IVec3>, n: int) -> int
    decreases n,
{
    if n <= 0 {
        0
    } else {
        climbs(path, n - 1) + if path[n - 1].y == path[n].y { 0int } else { 1int }
    }
}


/// A step that changes level crosses the stairs cube `a` towards `b`: its
/// two points sit symmetrically about `a`'s centre, the first at `a`'s floor
/// height and the second at `b`'s, and the second lies one full step of
/// `b - a` further along than the first (half a step on each side of the
/// centre), so the climb only ever moves towards `b`. A level step is the
/// centre of `a`.
pub proof fn lemma_climb_moves_towards_landing(a: IVec3, b: IVec3)
    ensures
        a.y != b.y ==> ({
            let p = step_points(a, b);
            &&& p.len() == 2
            &&& p[0].level == a.y && p[1].level == b.y
            &&& p[1].x2 - p[0].x2 == 2 * (b.x - a.x)
            &&& p[1].z2 - p[0].z2 == 2 * (b.z - a.z)
            &&& p[0].x2 + p[1].x2 == 2 * (2 * a.x + 1)
            &&& p[0].z2 + p[1].z2 == 2 * (2 * a.z + 1)
        }),
        a.y == b.y ==> step_points(a, b) == seq![Waypoint { x2: (2 * a.x + 1) as i64, level: a.y, z2: (2 * a.z + 1) as i64 }],
{
}

} // verus!
