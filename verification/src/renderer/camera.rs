//! Camera: viewport management and panning. Keeps the explorer roughly
//! centered on screen and follows its movement; dungeon space maps 1:1 to
//! screen space.
use vstd::prelude::*;

verus! {

/// The viewport: its top-left corner in dungeon space and its size.
#[derive(Debug, Clone, Copy)]
pub struct Camera {
    pub x: u32,
    pub y: u32,
    pub width: u32,
    pub height: u32,
}

/// `a - b`, or 0 when `b > a`.
pub open spec fn spec_saturating_sub(a: u32, b: u32) -> u32 {
    if a >= b {
        (a - b) as u32
    } else {
        0
    }
}

/// The explorer's offset from the viewport edge, as the camera computes it
/// (both coordinates taken as `i32`).
pub open spec fn spec_relative(pos: u32, cam: u32) -> int {
    (pos as i32) - (cam as i32)
}

/// New viewport coordinate along one axis: when the explorer is outside the
/// middle half of the viewport, the viewport is centered on it again.
pub open spec fn spec_pan(pos: u32, cam: u32, size: u32) -> u32 {
    let rel = spec_relative(pos, cam);
    if rel < ((size / 4) as i32) || rel > ((((size * 3) as u32) / 4) as i32) {
        spec_saturating_sub(pos, size / 2)
    } else {
        cam
    }
}

/// Whether panning along one axis can be computed without overflow.
pub open spec fn pan_defined(pos: u32, cam: u32, size: u32) -> bool {
    &&& size * 3 <= u32::MAX
    &&& i32::MIN <= spec_relative(pos, cam) <= i32::MAX
}

impl Camera {
    /// Whether `pos` lies within the viewport.
    pub open spec fn spec_is_visible(&self, pos: (u32, u32)) -> bool {
        &&& pos.0 >= self.x
        &&& pos.0 < self.x + self.width
        &&& pos.1 >= self.y
        &&& pos.1 < self.y + self.height
    }

    pub fn new(width: u32, height: u32) -> (c: Self)
        ensures
            c.x == 0,
            c.y == 0,
            c.width == width,
            c.height == height,
    {
        Camera { x: 0, y: 0, width, height }
    }

    /// Keeps the explorer roughly centered: when it reaches the outer quarter
    /// of the viewport on an axis, the viewport is centered on it on that axis.
    pub fn update(&mut self, explorer_pos: (u32, u32))
        requires
            pan_defined(explorer_pos.0, old(self).x, old(self).width),
            pan_defined(explorer_pos.1, old(self).y, old(self).height),
        ensures
            final(self).x == spec_pan(explorer_pos.0, old(self).x, old(self).width),
            final(self).y == spec_pan(explorer_pos.1, old(self).y, old(self).height),
            final(self).width == old(self).width,
            final(self).height == old(self).height,
    {
        let rel_x = explorer_pos.0 as i32 - self.x as i32;
        let rel_y = explorer_pos.1 as i32 - self.y as i32;
        let quarter_width = self.width / 4;
        let quarter_height = self.height / 4;
        let three_quarter_width = (self.width * 3) / 4;
        let three_quarter_height = (self.height * 3) / 4;
        if rel_x < quarter_width as i32 {
            self.x = explorer_pos.0.saturating_sub(self.width / 2);
        } else if rel_x > three_quarter_width as i32 {
            self.x = explorer_pos.0.saturating_sub(self.width / 2);
        }
        if rel_y < quarter_height as i32 {
            self.y = explorer_pos.1.saturating_sub(self.height / 2);
        } else if rel_y > three_quarter_height as i32 {
            self.y = explorer_pos.1.saturating_sub(self.height / 2);
        }
    }

    /// Centers the viewport on `pos` (as far as the dungeon origin allows).
    pub fn center_on(&mut self, pos: (u32, u32))
        ensures
            final(self).x == spec_saturating_sub(pos.0, old(self).width / 2),
            final(self).y == spec_saturating_sub(pos.1, old(self).height / 2),
            final(self).width == old(self).width,
            final(self).height == old(self).height,
    {
        self.x = pos.0.saturating_sub(self.width / 2);
        self.y = pos.1.saturating_sub(self.height / 2);
    }

    /// Changes the viewport size (terminal resize).
    pub fn resize(&mut self, new_width: u32, new_height: u32)
        ensures
            final(self).x == old(self).x,
            final(self).y == old(self).y,
            final(self).width == new_width,
            final(self).height == new_height,
    {
        self.width = new_width;
        self.height = new_height;
    }

    /// Whether `pos` lies within the viewport.
    pub fn is_visible(&self, pos: (u32, u32)) -> (b: bool)
        requires
            pos.0 >= self.x ==> self.x + self.width <= u32::MAX,
            pos.0 >= self.x && pos.0 < self.x + self.width && pos.1 >= self.y ==> self.y + self.height
                <= u32::MAX,
        ensures
            b == self.spec_is_visible(pos),
    {
        pos.0 >= self.x && pos.0 < self.x + self.width && pos.1 >= self.y && pos.1 < self.y
            + self.height
    }
}

/// Bound on coordinates and sizes under which the camera laws are stated.
pub open spec fn camera_small(c: Camera, pos: (u32, u32)) -> bool {
    &&& c.x <= 0x3fff_ffff
    &&& c.y <= 0x3fff_ffff
    &&& c.width <= 0x3fff_ffff
    &&& c.height <= 0x3fff_ffff
    &&& pos.0 <= 0x3fff_ffff
    &&& pos.1 <= 0x3fff_ffff
}

/// One axis of `lemma_update_keeps_explorer_visible`.
pub proof fn lemma_pan_keeps_visible(pos: u32, cam: u32, size: u32)
    requires
        size >= 1,
        cam <= 0x3fff_ffff,
        size <= 0x3fff_ffff,
        pos <= 0x3fff_ffff,
    ensures
        pan_defined(pos, cam, size),
        pos >= spec_pan(pos, cam, size),
        pos < spec_pan(pos, cam, size) + size,
{
    assert(spec_relative(pos, cam) == pos - cam);
    assert((size / 4) as i32 == size / 4);
    assert((((size * 3) as u32) / 4) as i32 == (size * 3) / 4);
}

/// The comfort zone on one axis: after following, an explorer at least half a
/// viewport from the dungeon's edge lies in the middle half of the viewport
/// (between a quarter and three quarters of its size from its edge).
pub proof fn lemma_pan_keeps_comfort_zone(pos: u32, cam: u32, size: u32)
    requires
        cam <= 0x3fff_ffff,
        size <= 0x3fff_ffff,
        pos <= 0x3fff_ffff,
        pos >= size / 2,
    ensures
        size / 4 <= pos - spec_pan(pos, cam, size) <= (size * 3) / 4,
{
    assert(spec_relative(pos, cam) == pos - cam);
    assert((size / 4) as i32 == size / 4);
    assert((((size * 3) as u32) / 4) as i32 == (size * 3) / 4);
}

/// After the camera follows the explorer, the explorer is in the middle half
/// of the viewport on each axis where it is at least half a viewport from the
/// dungeon's edge.
pub proof fn lemma_update_keeps_comfort_zone(c: Camera, pos: (u32, u32))
    requires
        camera_small(c, pos),
    ensures
        pos.0 >= c.width / 2 ==> c.width / 4 <= pos.0 - spec_pan(pos.0, c.x, c.width) <= (c.width * 3) / 4,
        pos.1 >= c.height / 2 ==> c.height / 4 <= pos.1 - spec_pan(pos.1, c.y, c.height) <= (c.height * 3) / 4,
{
    if pos.0 >= c.width / 2 {
        lemma_pan_keeps_comfort_zone(pos.0, c.x, c.width);
    }
    if pos.1 >= c.height / 2 {
        lemma_pan_keeps_comfort_zone(pos.1, c.y, c.height);
    }
}

/// After the camera follows the explorer, the explorer is visible.
pub proof fn lemma_update_keeps_explorer_visible(c: Camera, pos: (u32, u32))
    requires
        c.width >= 1,
        c.height >= 1,
        camera_small(c, pos),
    ensures
        pan_defined(pos.0, c.x, c.width),
        pan_defined(pos.1, c.y, c.height),
        (Camera {
            x: spec_pan(pos.0, c.x, c.width),
            y: spec_pan(pos.1, c.y, c.height),
            ..c
        }).spec_is_visible(pos),
{
    lemma_pan_keeps_visible(pos.0, c.x, c.width);
    lemma_pan_keeps_visible(pos.1, c.y, c.height);
}

/// Following the position the camera was just centered on moves nothing.
pub proof fn lemma_update_after_center_is_stable(c: Camera, pos: (u32, u32))
    requires
        camera_small(c, pos),
    ensures
        pan_defined(pos.0, spec_saturating_sub(pos.0, c.width / 2), c.width),
        pan_defined(pos.1, spec_saturating_sub(pos.1, c.height / 2), c.height),
        spec_pan(pos.0, spec_saturating_sub(pos.0, c.width / 2), c.width) == spec_saturating_sub(
            pos.0,
            c.width / 2,
        ),
        spec_pan(pos.1, spec_saturating_sub(pos.1, c.height / 2), c.height) == spec_saturating_sub(
            pos.1,
            c.height / 2,
        ),
{
    let x = spec_saturating_sub(pos.0, c.width / 2);
    let y = spec_saturating_sub(pos.1, c.height / 2);
    assert(spec_relative(pos.0, x) == pos.0 - x);
    assert(spec_relative(pos.1, y) == pos.1 - y);
    assert((c.width / 4) as i32 == c.width / 4);
    assert((((c.width * 3) as u32) / 4) as i32 == (c.width * 3) / 4);
    assert((c.height / 4) as i32 == c.height / 4);
    assert((((c.height * 3) as u32) / 4) as i32 == (c.height * 3) / 4);
}

} // verus!
