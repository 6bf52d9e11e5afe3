use vstd::prelude::*;
use crate::geom::Curvature;

verus! {

/// A circle of the chosen model.  The library never reads a centre or a
/// radius: `P` and `R` are whatever the numeric kernel computes with.  The
/// radius is measured in the model's own metric.
#[derive(Debug, Clone, Copy)]
pub struct Circle<P, R> {
    pub cen: P,
    pub rad: R,
    pub curvature: Curvature,
}

impl<P, R> Circle<P, R> {
    pub fn new(cen: P, rad: R, curvature: Curvature) -> (c: Self)
        ensures
            c.cen == cen,
            c.rad == rad,
            c.curvature == curvature,
    {
        Circle { cen, rad, curvature }
    }
}

/// A rotation generator: a circle, the order of the rotation about its centre
/// (one turn is a `step`-th of the full angle), and whether its inside and
/// outside are swapped.
#[derive(Debug, Clone, Copy)]
pub struct RotCircle<P, R> {
    pub circle: Circle<P, R>,
    pub step: u32,
    pub inverted: bool,
}

impl<P, R> RotCircle<P, R> {
    /// A rotation of order one is the identity; a generator turns by a half
    /// turn at most.
    pub open spec fn wf(&self) -> bool {
        self.step >= 2
    }

    pub fn new(cen: P, rad: R, step: u32, curvature: Curvature, inverted: bool) -> (g: Self)
        requires
            step >= 2,
        ensures
            g.wf(),
            g.circle.cen == cen,
            g.circle.rad == rad,
            g.circle.curvature == curvature,
            g.step == step,
            g.inverted == inverted,
    {
        RotCircle { circle: Circle { cen, rad, curvature }, step, inverted }
    }

    /// Whether a point belongs to the generator, given whether it lies in the
    /// generator's circle.
    pub open spec fn holds(&self, in_circle: bool) -> bool {
        in_circle != self.inverted
    }

    /// Whether `point` belongs to the generator.  `in_circle` is the numeric
    /// test of a point against a circle; the generator's inversion flag is
    /// applied to what it answers.
    pub fn contains<F: Fn(&Circle<P, R>, &P) -> bool>(&self, point: &P, in_circle: &F) -> (inside: bool)
        requires
            call_requires(*in_circle, (&self.circle, point)),
        ensures
            exists|raw: bool| #[trigger]
                call_ensures(*in_circle, (&self.circle, point), raw) && inside == self.holds(raw),
    {
        let raw = in_circle(&self.circle, point);
        raw != self.inverted
    }

    /// Whether `moved` is `self` with its centre at `cen` and nothing else
    /// changed.
    pub open spec fn moved_to(&self, cen: P, moved: Self) -> bool {
        moved == (RotCircle { circle: Circle { cen, ..self.circle }, ..*self })
    }

    /// The image of the generator `circle` under the rotation of `self`: the
    /// same generator about the image of its centre.  `rotate` is the numeric
    /// rotation of a point about a generator's centre.
    pub fn rotate_circle<F: Fn(&Self, &P) -> P>(&self, circle: &Self, rotate: &F) -> (moved: Self) where
        R: Copy,

        requires
            call_requires(*rotate, (self, &circle.circle.cen)),
        ensures
            call_ensures(*rotate, (self, &circle.circle.cen), moved.circle.cen),
            circle.moved_to(moved.circle.cen, moved),
    {
        let cen = rotate(self, &circle.circle.cen);
        RotCircle {
            circle: Circle { cen, rad: circle.circle.rad, curvature: circle.circle.curvature },
            step: circle.step,
            inverted: circle.inverted,
        }
    }
}

/// Inverting a generator negates membership: for the same circle and the same
/// point, the inverted generator holds the point exactly when the plain one
/// does not.
pub proof fn lemma_inversion_negates<P, R>(generator: RotCircle<P, R>, in_circle: bool)
    ensures
        (RotCircle { inverted: true, ..generator }).holds(in_circle) == !(RotCircle {
            inverted: false,
            ..generator
        }).holds(in_circle),
{
}

/// Moving a generator changes its centre and nothing else, and moving it
/// again is moving it once.
pub proof fn lemma_moved_twice<P, R>(generator: RotCircle<P, R>, first: RotCircle<P, R>, second: RotCircle<P, R>)
    requires
        generator.moved_to(first.circle.cen, first),
        first.moved_to(second.circle.cen, second),
    ensures
        generator.moved_to(second.circle.cen, second),
        second.step == generator.step,
        second.inverted == generator.inverted,
        second.circle.rad == generator.circle.rad,
        second.circle.curvature == generator.circle.curvature,
{
}

} // verus!
