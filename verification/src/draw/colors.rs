//! Named opaque colours.
use vstd::prelude::*;
use crate::draw::Color;

verus! {

pub fn black() -> (c: Color)
    ensures
        c == (Color { r: 0, g: 0, b: 0, a: 255 }),
{
    Color { r: 0, g: 0, b: 0, a: 255 }
}

pub fn white() -> (c: Color)
    ensures
        c == (Color { r: 220, g: 220, b: 220, a: 255 }),
{
    Color { r: 220, g: 220, b: 220, a: 255 }
}

pub fn blue() -> (c: Color)
    ensures
        c == (Color { r: 0, g: 0, b: 220, a: 255 }),
{
    Color { r: 0, g: 0, b: 220, a: 255 }
}

pub fn teal() -> (c: Color)
    ensures
        c == (Color { r: 0, g: 220, b: 220, a: 255 }),
{
    Color { r: 0, g: 220, b: 220, a: 255 }
}

pub fn red() -> (c: Color)
    ensures
        c == (Color { r: 220, g: 0, b: 0, a: 255 }),
{
    Color { r: 220, g: 0, b: 0, a: 255 }
}

pub fn green() -> (c: Color)
    ensures
        c == (Color { r: 0, g: 220, b: 0, a: 255 }),
{
    Color { r: 0, g: 220, b: 0, a: 255 }
}

pub fn purple() -> (c: Color)
    ensures
        c == (Color { r: 220, g: 0, b: 220, a: 255 }),
{
    Color { r: 220, g: 0, b: 220, a: 255 }
}

pub fn pink() -> (c: Color)
    ensures
        c == (Color { r: 255, g: 150, b: 210, a: 255 }),
{
    Color { r: 255, g: 150, b: 210, a: 255 }
}

pub fn grey() -> (c: Color)
    ensures
        c == (Color { r: 110, g: 110, b: 110, a: 255 }),
{
    Color { r: 110, g: 110, b: 110, a: 255 }
}

pub fn dark_blue() -> (c: Color)
    ensures
        c == (Color { r: 0, g: 0, b: 110, a: 255 }),
{
    Color { r: 0, g: 0, b: 110, a: 255 }
}

pub fn dark_teal() -> (c: Color)
    ensures
        c == (Color { r: 0, g: 110, b: 110, a: 255 }),
{
    Color { r: 0, g: 110, b: 110, a: 255 }
}

pub fn dark_red() -> (c: Color)
    ensures
        c == (Color { r: 110, g: 0, b: 0, a: 255 }),
{
    Color { r: 110, g: 0, b: 0, a: 255 }
}

pub fn dark_green() -> (c: Color)
    ensures
        c == (Color { r: 0, g: 110, b: 0, a: 255 }),
{
    Color { r: 0, g: 110, b: 0, a: 255 }
}

pub fn dark_purple() -> (c: Color)
    ensures
        c == (Color { r: 110, g: 0, b: 110, a: 255 }),
{
    Color { r: 110, g: 0, b: 110, a: 255 }
}

pub fn dark_pink() -> (c: Color)
    ensures
        c == (Color { r: 125, g: 75, b: 105, a: 255 }),
{
    Color { r: 125, g: 75, b: 105, a: 255 }
}

pub fn dark_grey() -> (c: Color)
    ensures
        c == (Color { r: 55, g: 55, b: 55, a: 255 }),
{
    Color { r: 55, g: 55, b: 55, a: 255 }
}

} // verus!
