use vstd::prelude::*;

verus! {

/// Number of hues in the hue cycle (red, yellow, green, cyan, blue, magenta).
pub const HUE_CYCLE_SIZE: u8 = 6;

/// Number of steps in the lightness cycle (light, neutral, dark).
pub const LIGHTNESS_CYCLE_SIZE: u8 = 3;

/// The colour of one codel: black, white, or one of 18 colours given by a
/// hue (0 to 5, red to magenta) and a lightness (0 to 2, light to dark).
#[derive(Clone, Copy, Debug, PartialEq, Eq, Structural)]
pub enum Codel {
    Color { hue: u8, lightness: u8 },
    Black,
    White,
}

/// A pixel whose RGB value is none of the twenty Piet colours.
#[derive(Clone, Copy, Debug, PartialEq, Eq, Structural)]
pub struct UnsupportedColor {
    pub red: u8,
    pub green: u8,
    pub blue: u8,
}

/// Distance from `current` to `next` along a directed cycle of length `n`.
pub open spec fn cyclic(current: int, next: int, n: int) -> int {
    (next - current) % n
}

/// The Piet colour with the given RGB value, if there is one.
pub open spec fn rgb_codel(r: u8, g: u8, b: u8) -> Option<Codel> {
    let hl = |h: u8, l: u8| Some(Codel::Color { hue: h, lightness: l });
    if (r, g, b) == (0xFFu8, 0xC0u8, 0xC0u8) { hl(0, 0) }
    else if (r, g, b) == (0xFFu8, 0xFFu8, 0xC0u8) { hl(1, 0) }
    else if (r, g, b) == (0xC0u8, 0xFFu8, 0xC0u8) { hl(2, 0) }
    else if (r, g, b) == (0xC0u8, 0xFFu8, 0xFFu8) { hl(3, 0) }
    else if (r, g, b) == (0xC0u8, 0xC0u8, 0xFFu8) { hl(4, 0) }
    else if (r, g, b) == (0xFFu8, 0xC0u8, 0xFFu8) { hl(5, 0) }
    else if (r, g, b) == (0xFFu8, 0x00u8, 0x00u8) { hl(0, 1) }
    else if (r, g, b) == (0xFFu8, 0xFFu8, 0x00u8) { hl(1, 1) }
    else if (r, g, b) == (0x00u8, 0xFFu8, 0x00u8) { hl(2, 1) }
    else if (r, g, b) == (0x00u8, 0xFFu8, 0xFFu8) { hl(3, 1) }
    else if (r, g, b) == (0x00u8, 0x00u8, 0xFFu8) { hl(4, 1) }
    else if (r, g, b) == (0xFFu8, 0x00u8, 0xFFu8) { hl(5, 1) }
    else if (r, g, b) == (0xC0u8, 0x00u8, 0x00u8) { hl(0, 2) }
    else if (r, g, b) == (0xC0u8, 0xC0u8, 0x00u8) { hl(1, 2) }
    else if (r, g, b) == (0x00u8, 0xC0u8, 0x00u8) { hl(2, 2) }
    else if (r, g, b) == (0x00u8, 0xC0u8, 0xC0u8) { hl(3, 2) }
    else if (r, g, b) == (0x00u8, 0x00u8, 0xC0u8) { hl(4, 2) }
    else if (r, g, b) == (0xC0u8, 0x00u8, 0xC0u8) { hl(5, 2) }
    else if (r, g, b) == (0xFFu8, 0xFFu8, 0xFFu8) { Some(Codel::White) }
    else if (r, g, b) == (0x00u8, 0x00u8, 0x00u8) { Some(Codel::Black) }
    else { None }
}

impl Codel {
    /// A colour's hue and lightness lie within their cycles.
    pub open spec fn wf(self) -> bool {
        match self {
            Codel::Color { hue, lightness } => hue < HUE_CYCLE_SIZE && lightness < LIGHTNESS_CYCLE_SIZE,
            _ => true,
        }
    }

    pub open spec fn is_color(self) -> bool {
        self is Color
    }

    /// The (hue change, lightness change) from `self` to `next`, when both are colours.
    pub open spec fn spec_compare(self, next: Codel) -> Option<(u8, u8)> {
        match (self, next) {
            (Codel::Color { hue, lightness }, Codel::Color { hue: nh, lightness: nl }) => Some(
                (
                    cyclic(hue as int, nh as int, HUE_CYCLE_SIZE as int) as u8,
                    cyclic(lightness as int, nl as int, LIGHTNESS_CYCLE_SIZE as int) as u8,
                ),
            ),
            _ => None,
        }
    }

    /// Returns the distance from `current` to `next` along a directed cycle.
    pub fn cyclic_distance(current: &u8, next: &u8, cycle_size: &u8) -> (r: u8)
        requires
            *current < *cycle_size,
            *next < *cycle_size,
        ensures
            r as int == cyclic(*current as int, *next as int, *cycle_size as int),
            r < *cycle_size,
    {
        if *next >= *current {
            proof {
                vstd::arithmetic::div_mod::lemma_small_mod(
                    (*next - *current) as nat,
                    *cycle_size as nat,
                );
            }
            *next - *current
        } else {
            proof {
                let n = *cycle_size as int;
                let x = *next - *current;
                vstd::arithmetic::div_mod::lemma_mod_add_multiples_vanish(x, n);
                vstd::arithmetic::div_mod::lemma_small_mod((n + x) as nat, n as nat);
            }
            *cycle_size - (*current - *next)
        }
    }

    /// Compares two codels' hues and lightnesses and returns (hue change, lightness change).
    pub fn compare(&self, next: &Codel) -> (r: Option<(u8, u8)>)
        requires
            self.wf(),
            next.wf(),
        ensures
            r == self.spec_compare(*next),
            r is Some <==> (self.is_color() && next.is_color()),
            r matches Some((h, l)) ==> h < HUE_CYCLE_SIZE && l < LIGHTNESS_CYCLE_SIZE,
    {
        match (self, next) {
            (
                Codel::Color { hue, lightness },
                Codel::Color { hue: next_hue, lightness: next_lightness },
            ) => Some(
                (
                    Codel::cyclic_distance(hue, next_hue, &HUE_CYCLE_SIZE),
                    Codel::cyclic_distance(lightness, next_lightness, &LIGHTNESS_CYCLE_SIZE),
                ),
            ),
            _ => None,
        }
    }

    /// Classifies an RGB value as one of the twenty Piet colours.
    pub fn from_rgb(red: u8, green: u8, blue: u8) -> (r: Result<Codel, UnsupportedColor>)
        ensures
            match rgb_codel(red, green, blue) {
                Some(c) => r == Ok::<Codel, UnsupportedColor>(c),
                None => r == Err::<Codel, UnsupportedColor>(
                    UnsupportedColor { red, green, blue },
                ),
            },
            r matches Ok(c) ==> c.wf(),
    {
        let hl = |h: u8, l: u8| -> (c: Codel)
            ensures
                c == (Codel::Color { hue: h, lightness: l }),
            { Codel::Color { hue: h, lightness: l } };
        match (red, green, blue) {
            (0xFF, 0xC0, 0xC0) => Ok(hl(0, 0)),
            (0xFF, 0xFF, 0xC0) => Ok(hl(1, 0)),
            (0xC0, 0xFF, 0xC0) => Ok(hl(2, 0)),
            (0xC0, 0xFF, 0xFF) => Ok(hl(3, 0)),
            (0xC0, 0xC0, 0xFF) => Ok(hl(4, 0)),
            (0xFF, 0xC0, 0xFF) => Ok(hl(5, 0)),
            (0xFF, 0x00, 0x00) => Ok(hl(0, 1)),
            (0xFF, 0xFF, 0x00) => Ok(hl(1, 1)),
            (0x00, 0xFF, 0x00) => Ok(hl(2, 1)),
            (0x00, 0xFF, 0xFF) => Ok(hl(3, 1)),
            (0x00, 0x00, 0xFF) => Ok(hl(4, 1)),
            (0xFF, 0x00, 0xFF) => Ok(hl(5, 1)),
            (0xC0, 0x00, 0x00) => Ok(hl(0, 2)),
            (0xC0, 0xC0, 0x00) => Ok(hl(1, 2)),
            (0x00, 0xC0, 0x00) => Ok(hl(2, 2)),
            (0x00, 0xC0, 0xC0) => Ok(hl(3, 2)),
            (0x00, 0x00, 0xC0) => Ok(hl(4, 2)),
            (0xC0, 0x00, 0xC0) => Ok(hl(5, 2)),
            (0xFF, 0xFF, 0xFF) => Ok(Codel::White),
            (0x00, 0x00, 0x00) => Ok(Codel::Black),
            _ => Err(UnsupportedColor { red, green, blue }),
        }
    }
}

/// Going around a cycle from `a` to `b` and back from `b` to `a` covers a
/// whole number of turns.
pub proof fn lemma_cyclic_round_trip(a: int, b: int, n: int)
    requires
        n > 0,
    ensures
        (cyclic(a, b, n) + cyclic(b, a, n)) % n == 0,
{
    vstd::arithmetic::div_mod::lemma_add_mod_noop(b - a, a - b, n);
    vstd::arithmetic::div_mod::lemma_small_mod(0, n as nat);
}

} // verus!
