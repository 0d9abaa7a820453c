//! Color theme support — currently Catppuccin Mocha.
use vstd::prelude::*;

verus! {

/// A 24-bit color.
#[derive(Debug, Clone, Copy, PartialEq, Eq, Structural)]
pub struct Rgb {
    pub r: u8,
    pub g: u8,
    pub b: u8,
}

/// The colors of the screensaver's elements.
#[derive(Debug, Clone, Copy)]
pub struct Theme {
    pub wall: Rgb,
    pub floor: Rgb,
    /// Reserved for corridor rendering.
    pub corridor: Rgb,
    pub door: Rgb,
    pub explorer: Rgb,
    pub background: Rgb,
}

impl Theme {
    /// The Catppuccin Mocha palette: lavender walls, latte floor, subtext
    /// corridors, peach doors, a green explorer on the base background.
    pub open spec fn spec_catppuccin_mocha() -> Theme {
        Theme {
            wall: Rgb { r: 88, g: 86, b: 214 },
            floor: Rgb { r: 205, g: 214, b: 244 },
            corridor: Rgb { r: 186, g: 194, b: 222 },
            door: Rgb { r: 250, g: 179, b: 135 },
            explorer: Rgb { r: 166, g: 227, b: 161 },
            background: Rgb { r: 30, g: 30, b: 46 },
        }
    }

    /// The Catppuccin Mocha palette.
    pub fn catppuccin_mocha() -> (t: Self)
        ensures
            t == Theme::spec_catppuccin_mocha(),
    {
        Theme {
            wall: Rgb { r: 88, g: 86, b: 214 },
            floor: Rgb { r: 205, g: 214, b: 244 },
            corridor: Rgb { r: 186, g: 194, b: 222 },
            door: Rgb { r: 250, g: 179, b: 135 },
            explorer: Rgb { r: 166, g: 227, b: 161 },
            background: Rgb { r: 30, g: 30, b: 46 },
        }
    }

    /// The color a character of the ASCII drawing is printed in: walls `#`,
    /// floor `.`, doors `-` and `|`, the explorer `@`; `None` for anything
    /// else, which is printed in plain white.
    pub fn glyph_color(&self, ch: char) -> (c: Option<Rgb>)
        ensures
            c == (if ch == '#' {
                Some(self.wall)
            } else if ch == '.' {
                Some(self.floor)
            } else if ch == '-' || ch == '|' {
                Some(self.door)
            } else if ch == '@' {
                Some(self.explorer)
            } else {
                None
            }),
    {
        if ch == '#' {
            Some(self.wall)
        } else if ch == '.' {
            Some(self.floor)
        } else if ch == '-' || ch == '|' {
            Some(self.door)
        } else if ch == '@' {
            Some(self.explorer)
        } else {
            None
        }
    }
}

} // verus!
