use vstd::prelude::*;
use crate::puzzle::grip::Grip;

verus! {

/// A piece: the grips that hold one seed.
#[derive(Debug, Clone)]
pub struct Piece<P> {
    grips: Vec<Grip<P>>,
}

impl<P> View for Piece<P> {
    type V = Seq<Grip<P>>;

    closed spec fn view(&self) -> Seq<Grip<P>> {
        self.grips@
    }
}

impl<P> Piece<P> {
    pub fn new(grips: Vec<Grip<P>>) -> (piece: Self)
        ensures
            piece@ == grips@,
    {
        Piece { grips }
    }

    pub fn grips(&self) -> (grips: &Vec<Grip<P>>)
        ensures
            grips@ == self@,
    {
        &self.grips
    }
}

} // verus!
