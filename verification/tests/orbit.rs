use pentagon_garden::bucket::PointKey;
use pentagon_garden::geom::{Circle, Curvature, RotCircle};
use pentagon_garden::orbit::{expand_seed, Outcome, PointOrbit, Probe};
use pentagon_garden::quantize::point_key;

type Pos = (f64, f64);

fn add(a: Pos, b: Pos) -> Pos {
    (a.0 + b.0, a.1 + b.1)
}

fn sub(a: Pos, b: Pos) -> Pos {
    (a.0 - b.0, a.1 - b.1)
}

fn scale(s: f64, a: Pos) -> Pos {
    (s * a.0, s * a.1)
}

fn conj(a: Pos) -> Pos {
    (a.0, -a.1)
}

fn mul(a: Pos, b: Pos) -> Pos {
    (a.0 * b.0 - a.1 * b.1, a.0 * b.1 + a.1 * b.0)
}

fn norm_sq(a: Pos) -> f64 {
    a.0 * a.0 + a.1 * a.1
}

fn div(a: Pos, b: Pos) -> Pos {
    mul(scale(1.0 / norm_sq(b), a), conj(b))
}

fn dist_in_space(a: Pos, b: Pos, curvature: Curvature) -> f64 {
    match curvature {
        Curvature::Spherical => {
            let q = div(sub(b, a), add(mul(conj(a), b), (1.0, 0.0)));
            2.0 * norm_sq(q).sqrt().atan()
        }
        Curvature::Euclidean => norm_sq(sub(a, b)).sqrt(),
        Curvature::Hyperbolic => {
            let q = div(sub(b, a), add(scale(-1.0, mul(conj(a), b)), (1.0, 0.0)));
            2.0 * norm_sq(q).sqrt().atanh()
        }
    }
}

fn in_circle(c: &Circle<Pos, f64>, p: &Pos) -> bool {
    dist_in_space(c.cen, *p, c.curvature) < c.rad
}

fn rotate(g: &RotCircle<Pos, f64>, p: &Pos) -> Pos {
    let theta = std::f64::consts::TAU / g.step as f64;
    let cen = g.circle.cen;
    match g.circle.curvature {
        Curvature::Spherical => {
            let phi = ((theta / 2.0).cos(), (theta / 2.0).sin());
            let a = add(phi, scale(norm_sq(cen), conj(phi)));
            let b = mul((0.0, -2.0 * phi.1), conj(cen));
            div(sub(mul(a, *p), conj(b)), add(mul(b, *p), conj(a)))
        }
        Curvature::Euclidean => {
            let x = p.0 - cen.0;
            let y = p.1 - cen.1;
            (theta.cos() * x + theta.sin() * y + cen.0, theta.cos() * y - theta.sin() * x + cen.1)
        }
        Curvature::Hyperbolic => {
            let phi = ((theta / 2.0).cos(), (theta / 2.0).sin());
            let a = sub(phi, scale(norm_sq(cen), conj(phi)));
            let b = mul((0.0, 2.0 * phi.1), conj(cen));
            div(add(mul(a, *p), conj(b)), add(mul(b, *p), conj(a)))
        }
    }
}

/// Coordinates that round to the same multiple of 2^-20 are one state.
fn bucket(p: &Pos) -> PointKey {
    point_key(p.0.to_bits(), p.1.to_bits(), 20)
}

fn two_generators() -> Vec<RotCircle<Pos, f64>> {
    vec![
        RotCircle::new((-0.5, 0.0), 0.5, 5, Curvature::Euclidean, false),
        RotCircle::new((0.5, 0.0), 0.5, 5, Curvature::Euclidean, false),
    ]
}

fn close(a: Pos, b: Pos) -> bool {
    (a.0 - b.0).abs() < 1e-12 && (a.1 - b.1).abs() < 1e-12
}

#[test]
fn seed_on_both_boundaries_stays_alone() {
    // the seed is at distance 0.5 from both centres: not less than the radius
    let search = expand_seed((0.0, 0.0), &two_generators(), 500, in_circle, rotate, bucket);
    assert_eq!(search.len(), 1);
    assert_eq!(search.records().len(), 1);
    assert_eq!(search.records()[0].point, (0.0, 0.0));
    assert_eq!(search.records()[0].parent, 0);
    assert_eq!(search.keys()[0], PointKey::new(0, 0));
    assert!(!search.truncated());
    assert_eq!(search.pending(), None);
}

#[test]
fn seed_in_the_right_generator_turns_by_a_fifth() {
    let search = expand_seed((0.1, 0.0), &two_generators(), 500, in_circle, rotate, bucket);
    let records = search.records();
    assert!(records.len() >= 2);
    assert_eq!(records[0].point, (0.1, 0.0));
    assert_eq!(records[0].parent, 0);
    // the second point is the seed turned by 72 degrees about (0.5, 0)
    let angle = 72.0f64.to_radians();
    let expected = (0.5 - 0.4 * angle.cos(), 0.4 * angle.sin());
    assert!(close(records[1].point, expected));
    assert_eq!(records[1].parent, 0);
    // the orbit is the regular pentagon about (0.5, 0) and closes
    assert_eq!(records.len(), 5);
    assert!(!search.truncated());
    for (i, record) in records.iter().enumerate() {
        assert!((dist_in_space(record.point, (0.5, 0.0), Curvature::Euclidean) - 0.4).abs() < 1e-12);
        assert_eq!(record.parent, if i == 0 { 0 } else { i - 1 });
    }
}

fn single_generator_orbit(curvature: Curvature, cen: Pos, rad: f64, step: u32, seed: Pos) {
    let circles = vec![RotCircle::new(cen, rad, step, curvature, false)];
    assert!(in_circle(&circles[0].circle, &seed));
    let search = expand_seed(seed, &circles, 500, in_circle, rotate, bucket);
    let records = search.records();
    assert_eq!(records.len(), step as usize);
    assert!(!search.truncated());
    assert_eq!(search.pending(), None);
    let d = dist_in_space(cen, seed, curvature);
    for (i, record) in records.iter().enumerate() {
        assert!((dist_in_space(cen, record.point, curvature) - d).abs() < 1e-9);
        assert_eq!(record.parent, if i == 0 { 0 } else { i - 1 });
        for other in records.iter().skip(i + 1) {
            assert_ne!(bucket(&record.point), bucket(&other.point));
        }
    }
    // one more turn of the last point comes back to the seed
    let back = rotate(&circles[0], &records[records.len() - 1].point);
    assert!(close(back, seed));
}

#[test]
fn single_generator_gives_step_points_in_the_plane() {
    single_generator_orbit(Curvature::Euclidean, (0.2, -0.1), 1.0, 7, (0.5, 0.3));
    single_generator_orbit(Curvature::Euclidean, (0.0, 0.0), 0.5, 2, (0.25, 0.0));
    single_generator_orbit(Curvature::Euclidean, (-1.0, 3.0), 2.0, 16, (-0.5, 2.0));
}

#[test]
fn single_generator_gives_step_points_on_the_sphere() {
    single_generator_orbit(Curvature::Spherical, (0.2, -0.1), 1.0, 7, (0.5, 0.3));
    single_generator_orbit(Curvature::Spherical, (0.0, 0.0), 1.0, 5, (0.25, 0.1));
    single_generator_orbit(Curvature::Spherical, (-0.7, 0.4), 1.5, 3, (-0.2, 0.1));
}

#[test]
fn single_generator_gives_step_points_in_the_disc() {
    single_generator_orbit(Curvature::Hyperbolic, (0.2, -0.1), 1.0, 7, (0.4, 0.1));
    single_generator_orbit(Curvature::Hyperbolic, (0.0, 0.0), 1.0, 5, (0.25, 0.1));
    single_generator_orbit(Curvature::Hyperbolic, (-0.3, 0.4), 0.8, 4, (-0.2, 0.2));
}

#[test]
fn seed_at_the_centre_is_its_own_orbit() {
    let circles = vec![RotCircle::new((0.5, 0.0), 0.5, 5, Curvature::Euclidean, false)];
    let search = expand_seed((0.5, 0.0), &circles, 500, in_circle, rotate, bucket);
    assert_eq!(search.len(), 1);
    assert!(!search.truncated());
}

#[test]
fn inverted_generator_turns_what_lies_outside_its_circle() {
    let circles = vec![RotCircle::new((0.0, 0.0), 0.5, 4, Curvature::Euclidean, true)];
    let inside = expand_seed((0.25, 0.0), &circles, 500, in_circle, rotate, bucket);
    assert_eq!(inside.len(), 1);
    let outside = expand_seed((2.0, 0.0), &circles, 500, in_circle, rotate, bucket);
    assert_eq!(outside.len(), 4);
    assert!(close(outside.records()[1].point, (0.0, -2.0)));
    assert!(close(outside.records()[2].point, (-2.0, 0.0)));
    assert!(close(outside.records()[3].point, (0.0, 2.0)));
}

fn overlapping_generators() -> Vec<RotCircle<Pos, f64>> {
    vec![
        RotCircle::new((-0.3, 0.0), 0.5, 5, Curvature::Euclidean, false),
        RotCircle::new((0.3, 0.0), 0.5, 5, Curvature::Euclidean, false),
    ]
}

#[test]
fn budget_bounds_the_records_that_are_expanded() {
    let circles = overlapping_generators();
    for depth in [0u32, 1, 2, 5, 20] {
        let search = expand_seed((0.0, 0.1), &circles, depth, in_circle, rotate, bucket);
        let records = search.records();
        assert!(records.len() <= 1 + depth as usize * circles.len());
        assert_eq!(search.pending(), None);
        assert!(search.truncated());
        assert_eq!(search.truncated(), records.len() > depth as usize);
        for (i, record) in records.iter().enumerate().skip(1) {
            assert!(record.parent < i);
            assert!(record.parent < depth as usize);
            assert!(records[i - 1].parent <= record.parent);
        }
        for (i, key) in search.keys().iter().enumerate() {
            assert_eq!(*key, bucket(&records[i].point));
            assert!(!search.keys()[..i].contains(key));
        }
    }
}

#[test]
fn budget_of_nothing_expands_nothing() {
    let search = expand_seed((0.0, 0.1), &overlapping_generators(), 0, in_circle, rotate, bucket);
    assert_eq!(search.len(), 1);
    assert!(search.truncated());
}

#[test]
fn budget_of_one_expands_the_seed_only() {
    let circles = overlapping_generators();
    let seed = (0.0, 0.1);
    let search = expand_seed(seed, &circles, 1, in_circle, rotate, bucket);
    let records = search.records();
    assert_eq!(records.len(), 3);
    assert!(close(records[1].point, rotate(&circles[0], &seed)));
    assert!(close(records[2].point, rotate(&circles[1], &seed)));
    assert_eq!(records[1].parent, 0);
    assert_eq!(records[2].parent, 0);
}

#[test]
fn orbit_expansion_is_reproducible() {
    let circles = overlapping_generators();
    let a = expand_seed((0.0, 0.1), &circles, 40, in_circle, rotate, bucket);
    let b = expand_seed((0.0, 0.1), &circles, 40, in_circle, rotate, bucket);
    assert_eq!(a.len(), b.len());
    for (x, y) in a.records().iter().zip(b.records().iter()) {
        assert_eq!(x.point, y.point);
        assert_eq!(x.parent, y.parent);
    }
}

#[test]
fn generators_are_tried_in_ascending_order() {
    let circles = overlapping_generators();
    let asked = std::cell::RefCell::new(Vec::new());
    let spy = |c: &Circle<Pos, f64>, p: &Pos| -> bool {
        asked.borrow_mut().push((c.cen, *p));
        in_circle(c, p)
    };
    let search = expand_seed((0.0, 0.1), &circles, 3, spy, rotate, bucket);
    let records = search.records();
    let asked = asked.into_inner();
    assert_eq!(asked.len(), 6);
    for (n, (cen, p)) in asked.iter().enumerate() {
        assert_eq!(*cen, circles[n % 2].circle.cen);
        assert_eq!(*p, records[n / 2].point);
    }
}

#[test]
fn orbit_search_asks_one_question_at_a_time() {
    let mut search: PointOrbit<u32> = PointOrbit::new(7, PointKey::new(0, 0), 2, 3);
    assert_eq!(search.pending(), Some(Probe { entry: 0, generator: 0 }));
    assert!(search.resolve(Outcome::Image { point: 8, key: PointKey::new(1, 0) }));
    assert_eq!(search.pending(), Some(Probe { entry: 0, generator: 1 }));
    assert!(!search.resolve(Outcome::Outside));
    assert_eq!(search.pending(), Some(Probe { entry: 1, generator: 0 }));
    // the bucket of the seed again: no new record
    assert!(!search.resolve(Outcome::Image { point: 9, key: PointKey::new(0, 0) }));
    assert_eq!(search.pending(), Some(Probe { entry: 1, generator: 1 }));
    assert!(search.resolve(Outcome::Image { point: 10, key: PointKey::new(0, 1) }));
    assert_eq!(search.pending(), Some(Probe { entry: 2, generator: 0 }));
    assert!(search.resolve(Outcome::Image { point: 11, key: PointKey::new(2, 2) }));
    assert!(!search.resolve(Outcome::Image { point: 12, key: PointKey::new(2, 2) }));
    // three records were expanded: the budget is spent
    assert_eq!(search.pending(), None);
    assert!(!search.resolve(Outcome::Image { point: 13, key: PointKey::new(5, 5) }));
    assert_eq!(search.len(), 4);
    assert!(search.truncated());
    let records = search.into_records();
    let found: Vec<(u32, usize)> = records.iter().map(|r| (r.point, r.parent)).collect();
    assert_eq!(found, vec![(7, 0), (8, 0), (10, 1), (11, 2)]);
}

#[test]
fn search_ends_when_no_record_is_left() {
    let mut search: PointOrbit<char> = PointOrbit::new('a', PointKey::new(0, 0), 1, 100);
    assert!(search.resolve(Outcome::Image { point: 'b', key: PointKey::new(1, 0) }));
    assert!(search.resolve(Outcome::Image { point: 'c', key: PointKey::new(2, 0) }));
    assert!(!search.resolve(Outcome::Image { point: 'a', key: PointKey::new(0, 0) }));
    assert_eq!(search.pending(), None);
    assert!(!search.truncated());
    assert_eq!(search.len(), 3);
    assert_eq!(search.keys(), &vec![PointKey::new(0, 0), PointKey::new(1, 0), PointKey::new(2, 0)]);
}

#[test]
fn same_bucket_is_recorded_once() {
    let mut search: PointOrbit<Pos> = PointOrbit::new((0.0, 0.0), bucket(&(0.0, 0.0)), 4, 10);
    let p = (0.25, 0.75);
    assert!(search.resolve(Outcome::Image { point: p, key: bucket(&p) }));
    assert!(!search.resolve(Outcome::Image { point: p, key: bucket(&p) }));
    assert!(!search.resolve(Outcome::Image { point: (0.25 + 1e-9, 0.75), key: bucket(&(0.25 + 1e-9, 0.75)) }));
    assert!(search.resolve(Outcome::Image { point: (0.25 + 1e-5, 0.75), key: bucket(&(0.25 + 1e-5, 0.75)) }));
    assert_eq!(search.len(), 3);
}

#[test]
fn large_budget_keeps_every_bucket_once() {
    let circles = vec![
        RotCircle::new((-0.3, 0.0), 2.0, 5, Curvature::Euclidean, false),
        RotCircle::new((0.3, 0.0), 2.0, 7, Curvature::Euclidean, false),
    ];
    let depth = 3000u32;
    let search = expand_seed((0.0, 0.1), &circles, depth, in_circle, rotate, bucket);
    assert!(search.len() > 1000);
    assert!(search.len() <= 1 + 2 * depth as usize);
    assert_eq!(search.truncated(), search.len() > depth as usize);
    assert_eq!(search.pending(), None);
    let mut keys: Vec<(i64, i64)> = search.keys().iter().map(|k| (k.x, k.y)).collect();
    let before = keys.len();
    keys.sort();
    keys.dedup();
    assert_eq!(keys.len(), before);
    assert_eq!(before, search.len());
    for (i, record) in search.records().iter().enumerate().skip(1) {
        let parent = &search.records()[record.parent];
        assert!(record.parent < i);
        assert!(circles.iter().any(|g| in_circle(&g.circle, &parent.point)
            && bucket(&rotate(g, &parent.point)) == search.keys()[i]));
    }
}

#[test]
fn closed_orbit_is_closed_under_the_generators() {
    let circles = overlapping_generators();
    let search = expand_seed((0.0, 0.1), &circles, 100_000, in_circle, rotate, bucket);
    assert!(!search.truncated());
    assert!(search.len() > 5);
    for record in search.records().iter() {
        for g in circles.iter() {
            if in_circle(&g.circle, &record.point) {
                assert!(search.keys().contains(&bucket(&rotate(g, &record.point))));
            }
        }
    }
}

#[test]
fn truncated_orbit_is_closed_where_it_was_expanded() {
    let circles = vec![
        RotCircle::new((-0.3, 0.0), 2.0, 5, Curvature::Euclidean, false),
        RotCircle::new((0.3, 0.0), 2.0, 7, Curvature::Euclidean, false),
    ];
    let depth = 50usize;
    let search = expand_seed((0.0, 0.1), &circles, depth as u32, in_circle, rotate, bucket);
    assert!(search.truncated());
    let mut open = 0;
    for (i, record) in search.records().iter().enumerate() {
        for g in circles.iter() {
            if in_circle(&g.circle, &record.point) {
                let closed = search.keys().contains(&bucket(&rotate(g, &record.point)));
                if i < depth {
                    assert!(closed);
                } else if !closed {
                    open += 1;
                }
            }
        }
    }
    assert!(open > 0);
}

#[test]
fn records_stand_in_breadth_first_order() {
    let circles = vec![
        RotCircle::new((-0.3, 0.0), 2.0, 5, Curvature::Euclidean, false),
        RotCircle::new((0.3, 0.0), 2.0, 7, Curvature::Euclidean, false),
    ];
    let search = expand_seed((0.0, 0.1), &circles, 200, in_circle, rotate, bucket);
    let records = search.records();
    let mut levels = vec![0usize; records.len()];
    for i in 1..records.len() {
        levels[i] = levels[records[i].parent] + 1;
        assert!(levels[i - 1] <= levels[i]);
    }
    assert!(levels[records.len() - 1] >= 3);
}
