use vstd::prelude::*;

verus! {

/// What occupies one location of the grid.
#[derive(Copy, Clone, Debug, PartialEq, Eq, Structural)]
pub enum ElementKind {
    Sand,
    Empty,
}

/// A display colour, held as the four bytes that are painted for it.
#[derive(Copy, Clone, Debug, PartialEq, Eq, Structural)]
pub struct Colour {
    pub r: u8,
    pub g: u8,
    pub b: u8,
    pub a: u8,
}

/// One location of the grid: what is there and how it is painted.
#[derive(Copy, Clone, Debug, PartialEq, Eq, Structural)]
pub struct Element {
    pub kind: ElementKind,
    pub colour: Colour,
}

impl Element {
    /// What an empty location holds.
    pub open spec fn blank() -> Element {
        Element { kind: ElementKind::Empty, colour: Colour { r: 0, g: 0, b: 0, a: 255 } }
    }

    /// A grain of sand of the given colour.
    pub open spec fn grain(colour: Colour) -> Element {
        Element { kind: ElementKind::Sand, colour }
    }

    /// An empty location, painted opaque black.
    pub fn empty() -> (e: Element)
        ensures
            e == Element::blank(),
    {
        Element { kind: ElementKind::Empty, colour: Colour { r: 0, g: 0, b: 0, a: 255 } }
    }

    /// A grain of sand of the given colour.
    pub fn sand(colour: Colour) -> (e: Element)
        ensures
            e == Element::grain(colour),
    {
        Element { kind: ElementKind::Sand, colour }
    }
}

} // verus!
