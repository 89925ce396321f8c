//! Body shading kinds and the flat colours of the reduced-cost mode.

use vstd::prelude::*;

verus! {

/// The closed set of surface models a body can be shaded with.
#[derive(Clone, Copy, Debug, PartialEq, Eq, Structural)]
pub enum PlanetKind {
    Star,
    Rocky,
    GasGiant,
    Ice,
    Volcanic,
}

/// The single colour that stands for a body of `kind` when per-pixel
/// shading is switched off.
pub open spec fn flat_color_spec(kind: PlanetKind) -> u32 {
    match kind {
        PlanetKind::Star => 0xFFE696,
        PlanetKind::Rocky => 0xAA8C6E,
        PlanetKind::GasGiant => 0xBEAAC8,
        PlanetKind::Ice => 0xB4DCFF,
        PlanetKind::Volcanic => 0xC85028,
    }
}

/// The flat disc colour of a body of `kind`.
pub fn flat_color(kind: PlanetKind) -> (c: u32)
    ensures
        c == flat_color_spec(kind),
{
    match kind {
        PlanetKind::Star => crate::draw::rgb(255, 230, 150),
        PlanetKind::Rocky => crate::draw::rgb(170, 140, 110),
        PlanetKind::GasGiant => crate::draw::rgb(190, 170, 200),
        PlanetKind::Ice => crate::draw::rgb(180, 220, 255),
        PlanetKind::Volcanic => crate::draw::rgb(200, 80, 40),
    }
}

} // verus!
