use pentagon_garden::bucket::PointKey;
use pentagon_garden::geom::{Circle, Curvature, RotCircle};
use pentagon_garden::orbit::{expand_seed, OrbitRecord};
use pentagon_garden::packing::{packing_radii, packing_radius, point_max_rad};
use pentagon_garden::quantize::point_key;

type Pos = (f64, f64);

fn dist(a: &Pos, b: &Pos) -> f64 {
    ((a.0 - b.0).powi(2) + (a.1 - b.1).powi(2)).sqrt()
}

fn in_circle(c: &Circle<Pos, f64>, p: &Pos) -> bool {
    dist(&c.cen, p) < c.rad
}

fn rotate(g: &RotCircle<Pos, f64>, p: &Pos) -> Pos {
    let theta = std::f64::consts::TAU / g.step as f64;
    let x = p.0 - g.circle.cen.0;
    let y = p.1 - g.circle.cen.1;
    (
        theta.cos() * x + theta.sin() * y + g.circle.cen.0,
        theta.cos() * y - theta.sin() * x + g.circle.cen.1,
    )
}

fn bucket(p: &Pos) -> PointKey {
    point_key(p.0.to_bits(), p.1.to_bits(), 20)
}

fn gap(c: &Circle<Pos, f64>, p: &Pos) -> f64 {
    (dist(&c.cen, p) - c.rad).abs()
}

fn smaller(a: f64, b: f64) -> f64 {
    a.min(b)
}

fn no_horizon(_p: &Pos) -> f64 {
    f64::INFINITY
}

fn sphere_horizon(p: &Pos) -> f64 {
    2.0 * (1.0 / dist(p, &(0.0, 0.0))).atan() * 0.8
}

fn two_generators() -> Vec<RotCircle<Pos, f64>> {
    vec![
        RotCircle::new((-0.5, 0.0), 0.5, 5, Curvature::Euclidean, false),
        RotCircle::new((0.5, 0.0), 0.5, 5, Curvature::Euclidean, false),
    ]
}

#[test]
fn seed_on_the_boundary_has_packing_radius_zero() {
    let circles = two_generators();
    let search = expand_seed((0.0, 0.0), &circles, 500, in_circle, rotate, bucket);
    assert_eq!(search.len(), 1);
    let radii = packing_radii(search.records(), &circles, &gap, &smaller, &no_horizon);
    assert_eq!(radii, vec![0.0]);
    assert_eq!(point_max_rad(&(0.0, 0.0), &circles, &gap, &smaller), 0.0);
}

#[test]
fn nearest_boundary_is_the_least_gap() {
    let circles = vec![
        RotCircle::new((0.0, 0.0), 1.0, 5, Curvature::Euclidean, false),
        RotCircle::new((4.0, 0.0), 1.0, 5, Curvature::Euclidean, false),
        RotCircle::new((0.0, 3.0), 0.5, 5, Curvature::Euclidean, true),
    ];
    // halfway between the first two circles, one from the rim of each
    assert_eq!(point_max_rad(&(2.0, 0.0), &circles, &gap, &smaller), 1.0);
    // at the centre of the first circle, one from its rim
    assert_eq!(point_max_rad(&(0.0, 0.0), &circles, &gap, &smaller), 1.0);
    // inside the first circle, a quarter from its rim
    assert_eq!(point_max_rad(&(0.75, 0.0), &circles, &gap, &smaller), 0.25);
    // outside the last circle, a quarter from its rim; inversion plays no part
    assert_eq!(point_max_rad(&(0.0, 2.25), &circles, &gap, &smaller), 0.25);
    // on the rim of the second circle
    assert_eq!(point_max_rad(&(3.0, 0.0), &circles, &gap, &smaller), 0.0);
    // with the first circle alone
    let first = vec![circles[0]];
    assert_eq!(point_max_rad(&(3.0, 0.0), &first, &gap, &smaller), 2.0);
}

#[test]
fn kernel_is_asked_about_each_generator_in_order() {
    let circles: Vec<RotCircle<Pos, f64>> =
        (0..5).map(|i| RotCircle::new((i as f64, 0.0), 0.5, 5, Curvature::Euclidean, false)).collect();
    let asked = std::cell::RefCell::new(Vec::new());
    let spy = |c: &Circle<Pos, f64>, p: &Pos| -> f64 {
        asked.borrow_mut().push(c.cen.0);
        gap(c, p)
    };
    let folded = std::cell::RefCell::new(Vec::new());
    let fold = |a: f64, b: f64| -> f64 {
        folded.borrow_mut().push((a, b));
        a.min(b)
    };
    let r = point_max_rad(&(2.25, 0.0), &circles, &spy, &fold);
    assert_eq!(r, 0.25);
    assert_eq!(asked.into_inner(), vec![0.0, 1.0, 2.0, 3.0, 4.0]);
    assert_eq!(folded.into_inner(), vec![(1.75, 0.75), (0.75, 0.25), (0.25, 0.25), (0.25, 1.25)]);
}

#[test]
fn horizon_caps_the_packing_radius() {
    let circles = vec![RotCircle::new((0.0, 0.0), 3.0, 5, Curvature::Spherical, false)];
    let p = (2.0, 0.0);
    let near = point_max_rad(&p, &circles, &gap, &smaller);
    assert_eq!(near, 1.0);
    let cap = 2.0 * 0.5f64.atan() * 0.8;
    assert!(cap < near);
    assert_eq!(packing_radius(&p, &circles, &gap, &smaller, &sphere_horizon), cap);
    assert_eq!(packing_radius(&p, &circles, &gap, &smaller, &no_horizon), 1.0);
    // close to the rim the boundary is nearer than the horizon
    let q = (2.9, 0.0);
    assert_eq!(packing_radius(&q, &circles, &gap, &smaller, &sphere_horizon), gap(&circles[0].circle, &q));
}

#[test]
fn each_record_has_its_own_packing_radius() {
    let circles = two_generators();
    let search = expand_seed((0.1, 0.0), &circles, 500, in_circle, rotate, bucket);
    let records = search.records();
    assert_eq!(records.len(), 5);
    let radii = packing_radii(records, &circles, &gap, &smaller, &no_horizon);
    assert_eq!(radii.len(), 5);
    for (record, radius) in records.iter().zip(radii.iter()) {
        let expected = gap(&circles[0].circle, &record.point).min(gap(&circles[1].circle, &record.point));
        assert_eq!(*radius, expected);
        assert!((*radius - 0.1).abs() < 1e-12);
    }
    let none: Vec<OrbitRecord<Pos>> = vec![];
    assert!(packing_radii(&none, &circles, &gap, &smaller, &no_horizon).is_empty());
}
