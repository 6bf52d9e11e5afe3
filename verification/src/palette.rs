use vstd::prelude::*;

verus! {

/// A colour as three bytes.
#[derive(Debug, Copy, Clone, PartialEq, Eq, Structural)]
pub struct Rgb {
    pub r: u8,
    pub g: u8,
    pub b: u8,
}

/// How many generators have a colour of their own.
pub const PALETTE_LEN: usize = 9;

/// The colour of the `i`-th generator, for the first nine.
pub open spec fn palette(i: int) -> Rgb {
    if i == 0 {
        Rgb { r: 0xe4, g: 0x1a, b: 0x1c }
    } else if i == 1 {
        Rgb { r: 0x37, g: 0x7e, b: 0xb8 }
    } else if i == 2 {
        Rgb { r: 0x4d, g: 0xaf, b: 0x4a }
    } else if i == 3 {
        Rgb { r: 0x98, g: 0x4e, b: 0xa3 }
    } else if i == 4 {
        Rgb { r: 0xff, g: 0x7f, b: 0x00 }
    } else if i == 5 {
        Rgb { r: 0xff, g: 0xff, b: 0x33 }
    } else if i == 6 {
        Rgb { r: 0xa6, g: 0x56, b: 0x28 }
    } else if i == 7 {
        Rgb { r: 0xf7, g: 0x81, b: 0xbf }
    } else {
        Rgb { r: 0x99, g: 0x99, b: 0x99 }
    }
}

/// The colour of every generator beyond the palette.
pub open spec fn gold() -> Rgb {
    Rgb { r: 255, g: 215, b: 0 }
}

/// Entry `i` of `colorous::SET1`, the nine-colour categorical scheme "Set1".
/// The contract states the nine entries as the crate's source lists them, and
/// that there is no entry beyond them.
#[verifier::external_body]
fn set1(i: usize) -> (colour: Option<Rgb>)
    ensures
        i < PALETTE_LEN ==> colour == Some(palette(i as int)),
        i >= PALETTE_LEN ==> colour is None,
{
    colorous::SET1.get(i).map(|c| Rgb { r: c.r, g: c.g, b: c.b })
}

/// The colour under which the grips of generator `i` are drawn: the
/// generator's own colour for the first nine, gold beyond.
pub fn gen_colors(i: usize) -> (colour: Rgb)
    ensures
        colour == if i < PALETTE_LEN {
            palette(i as int)
        } else {
            gold()
        },
{
    match set1(i) {
        Some(colour) => colour,
        None => Rgb { r: 255, g: 215, b: 0 },
    }
}

} // verus!
