use pentagon_garden::geom::{Circle, Curvature, RotCircle};
use pentagon_garden::palette::{gen_colors, Rgb};
use pentagon_garden::puzzle::{Grip, Piece};

type Pos = (f64, f64);

fn in_circle(c: &Circle<Pos, f64>, p: &Pos) -> bool {
    ((c.cen.0 - p.0).powi(2) + (c.cen.1 - p.1).powi(2)).sqrt() < c.rad
}

#[test]
fn default_curvature_is_flat() {
    assert_eq!(Curvature::default(), Curvature::Euclidean);
    assert_ne!(Curvature::Spherical, Curvature::Hyperbolic);
}

#[test]
fn circle_keeps_what_it_was_made_of() {
    let c = Circle::new((0.25, -1.5), 0.75, Curvature::Hyperbolic);
    assert_eq!(c.cen, (0.25, -1.5));
    assert_eq!(c.rad, 0.75);
    assert_eq!(c.curvature, Curvature::Hyperbolic);
}

#[test]
fn generator_keeps_what_it_was_made_of() {
    let g = RotCircle::new((0.5, 0.0), 0.5, 5, Curvature::Euclidean, true);
    assert_eq!(g.circle.cen, (0.5, 0.0));
    assert_eq!(g.circle.rad, 0.5);
    assert_eq!(g.circle.curvature, Curvature::Euclidean);
    assert_eq!(g.step, 5);
    assert!(g.inverted);
}

#[test]
fn contains_is_the_circle_test_for_a_plain_generator() {
    let g = RotCircle::new((0.5, 0.0), 0.5, 5, Curvature::Euclidean, false);
    assert!(g.contains(&(0.1, 0.0), &in_circle));
    assert!(g.contains(&(0.5, 0.0), &in_circle));
    assert!(!g.contains(&(-0.1, 0.0), &in_circle));
    // on the boundary: the distance is not less than the radius
    assert!(!g.contains(&(0.0, 0.0), &in_circle));
    assert!(!g.contains(&(1.0, 0.0), &in_circle));
}

#[test]
fn inverted_contains_negates_plain_contains() {
    let plain = RotCircle::new((0.5, 0.0), 0.5, 5, Curvature::Euclidean, false);
    let inverted = RotCircle::new((0.5, 0.0), 0.5, 5, Curvature::Euclidean, true);
    let points = [(0.1, 0.0), (0.5, 0.0), (-0.1, 0.0), (0.0, 0.0), (1.0, 0.0), (3.0, 4.0), (0.5, 0.49), (0.5, 0.51)];
    for p in points.iter() {
        assert_eq!(inverted.contains(p, &in_circle), !plain.contains(p, &in_circle));
    }
    assert!(inverted.contains(&(0.0, 0.0), &in_circle));
    assert!(!inverted.contains(&(0.1, 0.0), &in_circle));
}

#[test]
fn contains_asks_the_kernel_about_its_own_circle() {
    let g = RotCircle::new((2.0, 3.0), 0.125, 7, Curvature::Spherical, true);
    let echo = |c: &Circle<Pos, f64>, p: &Pos| -> bool {
        c.cen == (2.0, 3.0) && c.rad == 0.125 && c.curvature == Curvature::Spherical && *p == (9.0, 8.0)
    };
    // the kernel says "in the circle", the generator is inverted
    assert!(!g.contains(&(9.0, 8.0), &echo));
    assert!(g.contains(&(9.0, 8.5), &echo));
}

#[test]
fn rotate_circle_moves_the_centre_and_nothing_else() {
    let by = RotCircle::new((0.5, 0.0), 0.5, 4, Curvature::Euclidean, false);
    let other = RotCircle::new((-0.5, 0.0), 0.25, 3, Curvature::Hyperbolic, true);
    let quarter = |g: &RotCircle<Pos, f64>, p: &Pos| -> Pos {
        assert_eq!(g.step, 4);
        let (x, y) = (p.0 - g.circle.cen.0, p.1 - g.circle.cen.1);
        (y + g.circle.cen.0, -x + g.circle.cen.1)
    };
    let moved = by.rotate_circle(&other, &quarter);
    assert_eq!(moved.circle.cen, (0.5, 1.0));
    assert_eq!(moved.circle.rad, 0.25);
    assert_eq!(moved.circle.curvature, Curvature::Hyperbolic);
    assert_eq!(moved.step, 3);
    assert!(moved.inverted);
}

#[test]
fn rotating_a_generator_by_itself_keeps_its_centre() {
    let g = RotCircle::new((0.5, -0.25), 0.5, 4, Curvature::Euclidean, false);
    let quarter = |g: &RotCircle<Pos, f64>, p: &Pos| -> Pos {
        let (x, y) = (p.0 - g.circle.cen.0, p.1 - g.circle.cen.1);
        (y + g.circle.cen.0, -x + g.circle.cen.1)
    };
    let moved = g.rotate_circle(&g, &quarter);
    assert_eq!(moved.circle.cen, (0.5, -0.25));
    assert_eq!(moved.step, 4);
}

#[test]
fn grip_keeps_position_and_index() {
    let grip = Grip::new((0.5, 0.0), 3);
    assert_eq!(grip.pos, (0.5, 0.0));
    assert_eq!(grip.id, 3);
}

#[test]
fn piece_hands_out_its_grips_in_order() {
    let piece = Piece::new(vec![Grip::new(10u8, 1), Grip::new(20u8, 0)]);
    let grips = piece.grips();
    assert_eq!(grips.len(), 2);
    assert_eq!((grips[0].pos, grips[0].id), (10, 1));
    assert_eq!((grips[1].pos, grips[1].id), (20, 0));
    let empty: Piece<u8> = Piece::new(vec![]);
    assert!(empty.grips().is_empty());
}

#[test]
fn first_nine_generators_have_their_own_colours() {
    let expected = [
        (0xe4, 0x1a, 0x1c),
        (0x37, 0x7e, 0xb8),
        (0x4d, 0xaf, 0x4a),
        (0x98, 0x4e, 0xa3),
        (0xff, 0x7f, 0x00),
        (0xff, 0xff, 0x33),
        (0xa6, 0x56, 0x28),
        (0xf7, 0x81, 0xbf),
        (0x99, 0x99, 0x99),
    ];
    for (i, (r, g, b)) in expected.iter().enumerate() {
        assert_eq!(gen_colors(i), Rgb { r: *r, g: *g, b: *b });
        let c = colorous::SET1[i];
        assert_eq!(gen_colors(i), Rgb { r: c.r, g: c.g, b: c.b });
    }
}

#[test]
fn generators_beyond_the_palette_are_gold() {
    for i in [9usize, 10, 100, usize::MAX] {
        assert_eq!(gen_colors(i), Rgb { r: 255, g: 215, b: 0 });
    }
}
