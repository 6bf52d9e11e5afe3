use vstd::prelude::*;

verus! {

/// A grip: the centre of a generator's image that holds the seed, with the
/// index of the generator it is an image of.
#[derive(Debug, Clone, Copy)]
pub struct Grip<P> {
    pub pos: P,
    pub id: usize,
}

impl<P> Grip<P> {
    pub fn new(pos: P, id: usize) -> (grip: Self)
        ensures
            grip.pos == pos,
            grip.id == id,
    {
        Grip { pos, id }
    }
}

} // verus!
