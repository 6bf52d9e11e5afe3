use vstd::prelude::*;
use crate::geom::{Circle, RotCircle};
use crate::orbit::OrbitRecord;

verus! {

/// Whether `radius` is what the numeric kernel finds as the distance from
/// `point` to the nearest boundary among the first `upto` generators: the gap
/// to the first boundary, made smaller by the gap to each further one in turn.
/// Without a generator there is no such distance.
pub open spec fn nearest<P, R, FG, FM>(
    circles: Seq<RotCircle<P, R>>,
    point: P,
    gap: FG,
    smaller: FM,
    upto: nat,
    radius: R,
) -> bool where FG: Fn(&Circle<P, R>, &P) -> R, FM: Fn(R, R) -> R
    decreases upto,
{
    if upto == 0 {
        false
    } else if upto == 1 {
        call_ensures(gap, (&circles[0].circle, &point), radius)
    } else {
        exists|rest: R, next: R|
            {
                &&& nearest(circles, point, gap, smaller, (upto - 1) as nat, rest)
                &&& call_ensures(gap, (&circles[upto - 1].circle, &point), next)
                &&& #[trigger] call_ensures(smaller, (rest, next), radius)
            }
    }
}

/// Whether `radius` is what the numeric kernel finds as the packing radius of
/// `point`: the distance to the nearest generator boundary, capped by the
/// horizon of the model at the point.
pub open spec fn packed<P, R, FG, FM, FH>(
    circles: Seq<RotCircle<P, R>>,
    point: P,
    gap: FG,
    smaller: FM,
    horizon: FH,
    radius: R,
) -> bool where FG: Fn(&Circle<P, R>, &P) -> R, FM: Fn(R, R) -> R, FH: Fn(&P) -> R {
    exists|near: R, cap: R|
        {
            &&& nearest(circles, point, gap, smaller, circles.len(), near)
            &&& call_ensures(horizon, (&point,), cap)
            &&& #[trigger] call_ensures(smaller, (near, cap), radius)
        }
}

/// The distance from `point` to the nearest generator boundary: the radius of
/// the largest circle about the point that crosses no generator.
///
/// `gap` measures how far a point is from the boundary of a circle, and
/// `smaller` picks the smaller of two distances.
pub fn point_max_rad<P, R: Copy, FG, FM>(point: &P, circles: &Vec<RotCircle<P, R>>, gap: &FG, smaller: &FM) -> (radius:
    R) where FG: Fn(&Circle<P, R>, &P) -> R, FM: Fn(R, R) -> R
    requires
        circles.len() >= 1,
        forall|c: &Circle<P, R>, p: &P| call_requires(*gap, (c, p)),
        forall|a: R, b: R| call_requires(*smaller, (a, b)),
    ensures
        nearest(circles@, *point, *gap, *smaller, circles@.len(), radius),
{
    let mut radius = gap(&circles[0].circle, point);
    let mut k: usize = 1;
    while k < circles.len()
        invariant
            1 <= k <= circles.len(),
            nearest(circles@, *point, *gap, *smaller, k as nat, radius),
            forall|c: &Circle<P, R>, p: &P| call_requires(*gap, (c, p)),
            forall|a: R, b: R| call_requires(*smaller, (a, b)),
        decreases circles.len() - k,
    {
        let next = gap(&circles[k].circle, point);
        let less = smaller(radius, next);
        assert(nearest(circles@, *point, *gap, *smaller, (k + 1) as nat, less));
        radius = less;
        k += 1;
    }
    radius
}

/// The packing radius of `point`: the distance to the nearest generator
/// boundary, capped by `horizon`, the distance from the point to where the
/// model ends.
pub fn packing_radius<P, R: Copy, FG, FM, FH>(
    point: &P,
    circles: &Vec<RotCircle<P, R>>,
    gap: &FG,
    smaller: &FM,
    horizon: &FH,
) -> (radius: R) where FG: Fn(&Circle<P, R>, &P) -> R, FM: Fn(R, R) -> R, FH: Fn(&P) -> R
    requires
        circles.len() >= 1,
        forall|c: &Circle<P, R>, p: &P| call_requires(*gap, (c, p)),
        forall|a: R, b: R| call_requires(*smaller, (a, b)),
        forall|p: &P| call_requires(*horizon, (p,)),
    ensures
        packed(circles@, *point, *gap, *smaller, *horizon, radius),
{
    let near = point_max_rad(point, circles, gap, smaller);
    let cap = horizon(point);
    smaller(near, cap)
}

/// The packing radius of each point of an orbit, in the order of its records.
pub fn packing_radii<P, R: Copy, FG, FM, FH>(
    records: &Vec<OrbitRecord<P>>,
    circles: &Vec<RotCircle<P, R>>,
    gap: &FG,
    smaller: &FM,
    horizon: &FH,
) -> (radii: Vec<R>) where FG: Fn(&Circle<P, R>, &P) -> R, FM: Fn(R, R) -> R, FH: Fn(&P) -> R
    requires
        circles.len() >= 1,
        forall|c: &Circle<P, R>, p: &P| call_requires(*gap, (c, p)),
        forall|a: R, b: R| call_requires(*smaller, (a, b)),
        forall|p: &P| call_requires(*horizon, (p,)),
    ensures
        radii@.len() == records@.len(),
        forall|i: int|
            0 <= i < records@.len() ==> packed(
                circles@,
                records@[i].point,
                *gap,
                *smaller,
                *horizon,
                #[trigger] radii@[i],
            ),
{
    let mut radii: Vec<R> = Vec::new();
    let mut i: usize = 0;
    while i < records.len()
        invariant
            i <= records.len(),
            circles.len() >= 1,
            radii@.len() == i,
            forall|j: int|
                0 <= j < i ==> packed(
                    circles@,
                    records@[j].point,
                    *gap,
                    *smaller,
                    *horizon,
                    #[trigger] radii@[j],
                ),
            forall|c: &Circle<P, R>, p: &P| call_requires(*gap, (c, p)),
            forall|a: R, b: R| call_requires(*smaller, (a, b)),
            forall|p: &P| call_requires(*horizon, (p,)),
        decreases records.len() - i,
    {
        radii.push(packing_radius(&records[i].point, circles, gap, smaller, horizon));
        i += 1;
    }
    radii
}

/// Where the smaller of two distances is always one of the two, the distance
/// to the nearest boundary is the gap to the boundary of one of the
/// generators: the circle of that radius touches a generator.
pub proof fn lemma_nearest_is_a_gap<P, R, FG, FM>(
    circles: Seq<RotCircle<P, R>>,
    point: P,
    gap: FG,
    smaller: FM,
    upto: nat,
    radius: R,
) where FG: Fn(&Circle<P, R>, &P) -> R, FM: Fn(R, R) -> R
    requires
        forall|a: R, b: R, least: R| #[trigger] call_ensures(smaller, (a, b), least) ==> least == a || least == b,
        nearest(circles, point, gap, smaller, upto, radius),
    ensures
        exists|k: int| 0 <= k < upto && #[trigger] call_ensures(gap, (&circles[k].circle, &point), radius),
    decreases upto,
{
    if upto == 1 {
        assert(call_ensures(gap, (&circles[0].circle, &point), radius));
    } else {
        let (rest, next) = choose|rest: R, next: R|
            {
                &&& nearest(circles, point, gap, smaller, (upto - 1) as nat, rest)
                &&& call_ensures(gap, (&circles[upto - 1].circle, &point), next)
                &&& #[trigger] call_ensures(smaller, (rest, next), radius)
            };
        if radius == next {
            assert(call_ensures(gap, (&circles[upto - 1].circle, &point), radius));
        } else {
            lemma_nearest_is_a_gap(circles, point, gap, smaller, (upto - 1) as nat, rest);
            let k = choose|k: int|
                0 <= k < upto - 1 && #[trigger] call_ensures(gap, (&circles[k].circle, &point), radius);
            assert(call_ensures(gap, (&circles[k].circle, &point), radius));
        }
    }
}

/// With a numeric kernel that answers each question in one way only, a point
/// has one distance to the nearest boundary.
pub proof fn lemma_nearest_is_determined<P, R, FG, FM>(
    circles: Seq<RotCircle<P, R>>,
    point: P,
    gap: FG,
    smaller: FM,
    upto: nat,
    a: R,
    b: R,
) where FG: Fn(&Circle<P, R>, &P) -> R, FM: Fn(R, R) -> R
    requires
        forall|c: &Circle<P, R>, p: &P, x: R, y: R|
            call_ensures(gap, (c, p), x) && call_ensures(gap, (c, p), y) ==> x == y,
        forall|u: R, v: R, x: R, y: R|
            call_ensures(smaller, (u, v), x) && call_ensures(smaller, (u, v), y) ==> x == y,
        nearest(circles, point, gap, smaller, upto, a),
        nearest(circles, point, gap, smaller, upto, b),
    ensures
        a == b,
    decreases upto,
{
    if upto > 1 {
        let (rest_a, next_a) = choose|rest: R, next: R|
            {
                &&& nearest(circles, point, gap, smaller, (upto - 1) as nat, rest)
                &&& call_ensures(gap, (&circles[upto - 1].circle, &point), next)
                &&& #[trigger] call_ensures(smaller, (rest, next), a)
            };
        let (rest_b, next_b) = choose|rest: R, next: R|
            {
                &&& nearest(circles, point, gap, smaller, (upto - 1) as nat, rest)
                &&& call_ensures(gap, (&circles[upto - 1].circle, &point), next)
                &&& #[trigger] call_ensures(smaller, (rest, next), b)
            };
        lemma_nearest_is_determined(circles, point, gap, smaller, (upto - 1) as nat, rest_a, rest_b);
    }
}

} // verus!
