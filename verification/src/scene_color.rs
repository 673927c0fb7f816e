//! The scene colour the stylised water reflects: a snapshot of the view, kept at the view's size and
//! taken only for the stylised look.

use vstd::prelude::*;

use crate::mirror::{shrink_side, shrunk_side, wanted_size, SMALLEST_SIDE};
use crate::style::WaterStyle;

verus! {

/// How much smaller than the main view the snapshot is, per side. One: a march through it is looking
/// for a hit, and cannot afford less.
pub const SNAPSHOT_SCALE: u32 = 1;

/// The snapshot: its size, and whether it is taken at all.
#[derive(Clone, Copy, Debug, PartialEq, Eq, Structural)]
pub struct WaterSceneColor {
    pub width: u32,
    pub height: u32,
    pub armed: bool,
}

impl WaterSceneColor {
    /// The smallest snapshot there is, not taken.
    pub fn new() -> (r: Self)
        ensures
            r == (WaterSceneColor { width: SMALLEST_SIDE, height: SMALLEST_SIDE, armed: false }),
    {
        WaterSceneColor { width: SMALLEST_SIDE, height: SMALLEST_SIDE, armed: false }
    }

    /// The size the snapshot should have: the view's where there is a camera that knows it, and its
    /// own otherwise.
    pub open spec fn wanted(self, camera: Option<Option<(u32, u32)>>) -> (u32, u32) {
        match camera {
            Some(target) => wanted_size(target, SNAPSHOT_SCALE, (self.width, self.height)),
            None => (self.width, self.height),
        }
    }

    /// Keep the snapshot the size of the view, and armed only for the stylised look. Says whether
    /// its picture has to be made anew. `camera` is the size of the picture the world camera draws,
    /// as far as it is known, when there is one.
    pub fn drive_scene_color(
        &mut self,
        style: WaterStyle,
        camera: Option<Option<(u32, u32)>>,
    ) -> (resized: bool)
        ensures
            final(self).armed == (style == WaterStyle::Stylised),
            (final(self).width, final(self).height) == old(self).wanted(camera),
            resized == (old(self).wanted(camera) != (old(self).width, old(self).height)),
    {
        self.armed = style == WaterStyle::Stylised;
        let (width, height) = match camera {
            Some(Some((w, h))) => (shrink_side(w, SNAPSHOT_SCALE), shrink_side(h, SNAPSHOT_SCALE)),
            _ => (self.width, self.height),
        };
        let resized: bool = width != self.width || height != self.height;
        self.width = width;
        self.height = height;
        resized
    }

    /// Whether the snapshot is taken this frame, into a picture of one size from a view of another:
    /// only while it is armed, both are there, and they agree exactly.
    pub fn copies(&self, picture: Option<(u32, u32)>, view: Option<(u32, u32)>) -> (r: bool)
        ensures
            r == (self.armed && picture is Some && picture == view),
    {
        match (picture, view) {
            (Some((pw, ph)), Some((vw, vh))) => self.armed && pw == vw && ph == vh,
            _ => false,
        }
    }
}

/// A snapshot made for a view of some size is one that can be taken from it: its sides are the
/// view's, wherever those are not shorter than the shortest.
pub proof fn law_a_snapshot_fits_its_view(snap: WaterSceneColor, w: u32, h: u32)
    requires
        w >= SMALLEST_SIDE,
        h >= SMALLEST_SIDE,
    ensures
        snap.wanted(Some(Some((w, h)))) == (w, h),
{
    assert(w / SNAPSHOT_SCALE == w && h / SNAPSHOT_SCALE == h);
    assert(shrunk_side(w, SNAPSHOT_SCALE) == w);
}

/// Nothing is made anew while nothing changes: a snapshot kept at a view's size is at that size.
pub proof fn law_a_kept_snapshot_is_steady(
    snap: WaterSceneColor,
    kept: WaterSceneColor,
    camera: Option<Option<(u32, u32)>>,
)
    requires
        (kept.width, kept.height) == snap.wanted(camera),
    ensures
        kept.wanted(camera) == (kept.width, kept.height),
{
}

} // verus!
