//! Image placements: what a pane shows, and where.

use crate::protocol::HostCellSize;
use vstd::prelude::*;

verus! {

/// A rectangle of host cells.
#[derive(Debug, Clone, Copy, PartialEq, Eq, Hash, Structural)]
pub struct Rect {
    pub x: u16,
    pub y: u16,
    pub width: u16,
    pub height: u16,
}

impl Rect {
    /// The rectangle at `(x, y)` of the given size.
    pub fn new(x: u16, y: u16, width: u16, height: u16) -> (rect: Self)
        ensures
            rect == (Rect { x, y, width, height }),
    {
        Rect { x, y, width, height }
    }
}

/// Encoding of an image's pixel data.
#[derive(Debug, Clone, Copy, PartialEq, Eq, Hash, Structural)]
pub enum KittyImageFormat {
    Rgb,
    Rgba,
    Png,
}

/// Where a placement sits in its pane, and which part of the image it shows.
#[derive(Debug, Clone, Copy, PartialEq, Eq, Hash, Structural)]
pub struct KittyPlacementRenderInfo {
    pub pixel_width: u32,
    pub pixel_height: u32,
    /// Size of the placement in cells.
    pub grid_cols: u32,
    pub grid_rows: u32,
    /// Position of the placement in the pane, which may start outside of it.
    pub viewport_col: i32,
    pub viewport_row: i32,
    /// The shown part of the image; a size of zero reaches to the image's edge.
    pub source_x: u32,
    pub source_y: u32,
    pub source_width: u32,
    pub source_height: u32,
}

/// One placement of an image, with the image's pixel data where it is at hand.
#[derive(Debug)]
pub struct KittyImagePlacement {
    pub image_id: u32,
    pub placement_id: u32,
    pub z: i32,
    /// Padding in pixels inside the placement's first cell.
    pub x_offset: u32,
    pub y_offset: u32,
    pub image_width: u32,
    pub image_height: u32,
    pub format: KittyImageFormat,
    /// Length and fingerprint of the whole image's data. They also describe the
    /// image where `data` itself was left out.
    pub data_len: usize,
    pub data_fingerprint: u64,
    pub data: Vec<u8>,
    pub render: KittyPlacementRenderInfo,
}

/// A placement on the host's screen.
#[derive(Debug)]
pub struct HostPlacement {
    /// The pane the placement belongs to.
    pub area: Rect,
    pub cell_size: HostCellSize,
    pub placement: KittyImagePlacement,
}

/// What a [`HostPlacement`] holds.
#[verifier::ext_equal]
pub struct PlacementView {
    pub area: Rect,
    pub cell_size: HostCellSize,
    pub image_id: u32,
    pub placement_id: u32,
    pub z: i32,
    pub x_offset: u32,
    pub y_offset: u32,
    pub image_width: u32,
    pub image_height: u32,
    pub format: KittyImageFormat,
    pub data_len: usize,
    pub data_fingerprint: u64,
    pub data: Seq<u8>,
    pub render: KittyPlacementRenderInfo,
}

impl View for HostPlacement {
    type V = PlacementView;

    open spec fn view(&self) -> PlacementView {
        PlacementView {
            area: self.area,
            cell_size: self.cell_size,
            image_id: self.placement.image_id,
            placement_id: self.placement.placement_id,
            z: self.placement.z,
            x_offset: self.placement.x_offset,
            y_offset: self.placement.y_offset,
            image_width: self.placement.image_width,
            image_height: self.placement.image_height,
            format: self.placement.format,
            data_len: self.placement.data_len,
            data_fingerprint: self.placement.data_fingerprint,
            data: self.placement.data@,
            render: self.placement.render,
        }
    }
}

impl PlacementView {
    /// This placement with other pixel data.
    pub open spec fn with_data(self, data: Seq<u8>) -> PlacementView {
        PlacementView { data, ..self }
    }
}

/// The visible part of a placement.
#[derive(Debug, Clone, Copy, PartialEq, Eq, Hash, Structural)]
pub struct ClippedPlacement {
    /// Position on the host's screen, in cells.
    pub x: u32,
    pub y: u32,
    /// Visible size in cells.
    pub cols: u32,
    pub rows: u32,
    /// The part of the image that is shown.
    pub source_x: u32,
    pub source_y: u32,
    pub source_width: u32,
    pub source_height: u32,
    /// Padding in pixels before the first shown pixel.
    pub x_offset: u32,
    pub y_offset: u32,
}

/// The view of a placement tells its fields, each under its own name.
pub proof fn placement_views_tell_the_fields(held: HostPlacement)
    ensures
        held@.area == held.area,
        held@.cell_size == held.cell_size,
        held@.image_id == held.placement.image_id,
        held@.placement_id == held.placement.placement_id,
        held@.z == held.placement.z,
        held@.x_offset == held.placement.x_offset,
        held@.y_offset == held.placement.y_offset,
        held@.image_width == held.placement.image_width,
        held@.image_height == held.placement.image_height,
        held@.format == held.placement.format,
        held@.data_len == held.placement.data_len,
        held@.data_fingerprint == held.placement.data_fingerprint,
        held@.data == held.placement.data@,
        held@.render == held.placement.render,
{
}

} // verus!
