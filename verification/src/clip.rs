//! Clipping of placements to their pane and to the rows a host leaves free.

use crate::placement::{
    ClippedPlacement, HostPlacement, KittyImageFormat, PlacementView, Rect,
};
use vstd::prelude::*;

verus! {

/// The visible part of a placement along one axis.
#[derive(Debug, Clone, Copy, PartialEq, Eq, Structural)]
pub struct AxisClip {
    /// First visible cell, counted from the pane's edge.
    pub cell: u32,
    /// Number of visible cells.
    pub cells: u32,
    /// First shown image pixel.
    pub source: u32,
    /// Number of shown image pixels.
    pub source_len: u32,
    /// Padding before the first shown pixel.
    pub offset: u32,
}

/// A placement along one axis.
#[derive(Debug, Clone, Copy, PartialEq, Eq, Structural)]
pub struct AxisPlacement {
    /// First cell, counted from the pane's edge.
    pub start: i32,
    /// Number of cells.
    pub cells: u32,
    /// The part of the image that is placed; a length of zero reaches to the
    /// image's edge.
    pub source: u32,
    pub source_len: u32,
    /// Size of the image in pixels.
    pub image_len: u32,
    /// Padding in pixels inside the first cell.
    pub offset: u32,
}

impl AxisPlacement {
    /// First visible cell.
    pub open spec fn first(self) -> int {
        if self.start < 0 {
            0
        } else {
            self.start as int
        }
    }

    /// One past the last visible cell, where `limit` cells can be seen.
    pub open spec fn end(self, limit: int) -> int {
        if self.start + self.cells < limit {
            self.start + self.cells
        } else {
            limit
        }
    }

    /// Number of image pixels that the whole placement shows.
    pub open spec fn region_len(self) -> int {
        let to_edge = self.image_len - self.source;
        if self.source_len == 0 || to_edge < self.source_len {
            to_edge
        } else {
            self.source_len as int
        }
    }

    /// Something is left to see.
    pub open spec fn visible(self, limit: int) -> bool {
        &&& self.first() < self.end(limit)
        &&& self.source < self.image_len
    }

    /// The image pixels that lie completely before cell `n` of the placement.
    pub open spec fn pixels_before(self, n: int) -> int {
        n * self.region_len() / (self.cells as int)
    }

    /// The image pixels that start before the end of the first `n` cells.
    pub open spec fn pixels_begun(self, n: int) -> int {
        (n * self.region_len() + self.cells - 1) / (self.cells as int)
    }

    /// The visible part: all image pixels that touch a visible cell are shown.
    pub open spec fn clipped(self, limit: int) -> AxisClip {
        let hidden = self.first() - self.start;
        let seen = self.end(limit) - self.start;
        AxisClip {
            cell: self.first() as u32,
            cells: (self.end(limit) - self.first()) as u32,
            source: (self.source + self.pixels_before(hidden)) as u32,
            source_len: (self.pixels_begun(seen) - self.pixels_before(hidden)) as u32,
            offset: if hidden == 0 {
                self.offset
            } else {
                0
            },
        }
    }
}

proof fn lemma_shown_pixels(axis: AxisPlacement, limit: int)
    requires
        axis.visible(limit),
    ensures
        ({
            let hidden = axis.first() - axis.start;
            let seen = axis.end(limit) - axis.start;
            &&& 0 <= hidden < seen <= axis.cells
            &&& 0 < axis.region_len() <= axis.image_len - axis.source
            &&& 0 <= hidden * axis.region_len() <= 0xffff_ffff * 0xffff_ffff
            &&& 0 <= seen * axis.region_len() <= 0xffff_ffff * 0xffff_ffff
            &&& 0 <= axis.pixels_before(hidden) < axis.pixels_begun(seen) <= axis.region_len()
        }),
{
    let hidden = axis.first() - axis.start;
    let seen = axis.end(limit) - axis.start;
    let len = axis.region_len();
    let cells = axis.cells as int;
    let before = axis.pixels_before(hidden);
    let begun = axis.pixels_begun(seen);
    assert(0 <= hidden * len && hidden * len < seen * len && seen * len <= cells * len && cells
        * len <= 0xffff_ffff * 0xffff_ffff) by (nonlinear_arith)
        requires
            0 <= hidden < seen <= cells <= 0xffff_ffff,
            0 < len <= 0xffff_ffff,
    ;
    assert(0 <= before && before * cells <= hidden * len) by (nonlinear_arith)
        requires
            before == (hidden * len) / cells,
            0 <= hidden * len,
            0 < cells,
    ;
    assert(seen * len <= begun * cells && (begun - 1) * cells < seen * len) by (nonlinear_arith)
        requires
            begun == (seen * len + cells - 1) / cells,
            0 < cells,
    ;
    assert(before < begun) by (nonlinear_arith)
        requires
            before * cells <= hidden * len,
            hidden * len < seen * len,
            seen * len <= begun * cells,
            0 < cells,
    ;
    assert(begun <= len) by (nonlinear_arith)
        requires
            (begun - 1) * cells < seen * len,
            seen * len <= cells * len,
            0 < cells,
    ;
}

fn clip_axis(axis: AxisPlacement, limit: u32) -> (clip: Option<AxisClip>)
    requires
        limit <= 0xffff,
    ensures
        clip == (if axis.visible(limit as int) {
            Some(axis.clipped(limit as int))
        } else {
            None
        }),
{
    let first: i64 = if axis.start < 0 {
        0
    } else {
        axis.start as i64
    };
    let end_of_all: i64 = axis.start as i64 + axis.cells as i64;
    let end: i64 = if end_of_all < limit as i64 {
        end_of_all
    } else {
        limit as i64
    };
    if first >= end || axis.source >= axis.image_len {
        return None;
    }
    let to_edge: u32 = axis.image_len - axis.source;
    let region_len: u32 = if axis.source_len == 0 || to_edge < axis.source_len {
        to_edge
    } else {
        axis.source_len
    };
    proof {
        lemma_shown_pixels(axis, limit as int);
    }
    let hidden: u64 = (first - axis.start as i64) as u64;
    let seen: u64 = (end - axis.start as i64) as u64;
    let before: u64 = hidden * region_len as u64 / axis.cells as u64;
    let begun: u64 = (seen * region_len as u64 + (axis.cells as u64 - 1)) / axis.cells as u64;
    assert(before == axis.pixels_before(hidden as int));
    assert(begun == axis.pixels_begun(seen as int));
    Some(
        AxisClip {
            cell: first as u32,
            cells: (end - first) as u32,
            source: axis.source + before as u32,
            source_len: (begun - before) as u32,
            offset: if hidden == 0 {
                axis.offset
            } else {
                0
            },
        },
    )
}

/// The number by which the Kitty protocol tells an encoding.
pub open spec fn format_code(format: KittyImageFormat) -> u32 {
    match format {
        KittyImageFormat::Rgb => 24,
        KittyImageFormat::Rgba => 32,
        KittyImageFormat::Png => 100,
    }
}

/// The number by which the Kitty protocol tells an encoding.
pub fn kitty_format_code(format: KittyImageFormat) -> (code: u32)
    ensures
        code == format_code(format),
        code == (match format {
            KittyImageFormat::Rgb => 24u32,
            KittyImageFormat::Rgba => 32u32,
            KittyImageFormat::Png => 100u32,
        }),
{
    match format {
        KittyImageFormat::Rgb => 24,
        KittyImageFormat::Rgba => 32,
        KittyImageFormat::Png => 100,
    }
}

/// How many of a pane's rows can be painted. `safe_bottom` counts the host's
/// rows, from its top, that an image may paint.
pub open spec fn paintable_rows(area: Rect, safe_bottom: Option<u16>) -> int {
    match safe_bottom {
        Some(bottom) => if bottom <= area.y {
            0
        } else if bottom - area.y < area.height {
            bottom - area.y
        } else {
            area.height as int
        },
        None => area.height as int,
    }
}

impl PlacementView {
    pub open spec fn horizontal(self) -> AxisPlacement {
        AxisPlacement {
            start: self.render.viewport_col,
            cells: self.render.grid_cols,
            source: self.render.source_x,
            source_len: self.render.source_width,
            image_len: self.image_width,
            offset: self.x_offset,
        }
    }

    pub open spec fn vertical(self) -> AxisPlacement {
        AxisPlacement {
            start: self.render.viewport_row,
            cells: self.render.grid_rows,
            source: self.render.source_y,
            source_len: self.render.source_height,
            image_len: self.image_height,
            offset: self.y_offset,
        }
    }

    /// Something of the placement can be seen.
    pub open spec fn visible(self, safe_bottom: Option<u16>) -> bool {
        &&& self.horizontal().visible(self.area.width as int)
        &&& self.vertical().visible(paintable_rows(self.area, safe_bottom))
    }

    /// The visible part of the placement.
    pub open spec fn clipped(self, safe_bottom: Option<u16>) -> ClippedPlacement {
        let across = self.horizontal().clipped(self.area.width as int);
        let down = self.vertical().clipped(paintable_rows(self.area, safe_bottom));
        ClippedPlacement {
            x: (self.area.x + across.cell) as u32,
            y: (self.area.y + down.cell) as u32,
            cols: across.cells,
            rows: down.cells,
            source_x: across.source,
            source_y: down.source,
            source_width: across.source_len,
            source_height: down.source_len,
            x_offset: across.offset,
            y_offset: down.offset,
        }
    }
}

/// Clips a placement to its pane and to the host's rows above the limit.
///
/// Returns the visible part with the code of the image's format, or nothing where
/// no part of the placement can be seen.
pub fn clipped_placement_with_bottom_limit(
    placement: &HostPlacement,
    safe_bottom: Option<u16>,
) -> (result: Option<(ClippedPlacement, u32)>)
    ensures
        result == (if placement@.visible(safe_bottom) {
            Some((placement@.clipped(safe_bottom), format_code(placement.placement.format)))
        } else {
            None
        }),
        result matches Some((clipped, code)) ==> {
            let col = placement.placement.render.viewport_col;
            let row = placement.placement.render.viewport_row;
            &&& clipped.x == placement.area.x + (if col > 0 { col as int } else { 0 })
            &&& clipped.y == placement.area.y + (if row > 0 { row as int } else { 0 })
        },
{
    let area = placement.area;
    let render = placement.placement.render;
    let rows: u32 = match safe_bottom {
        Some(bottom) => {
            if bottom <= area.y {
                0
            } else if bottom - area.y < area.height {
                (bottom - area.y) as u32
            } else {
                area.height as u32
            }
        },
        None => area.height as u32,
    };
    let horizontal = AxisPlacement {
        start: render.viewport_col,
        cells: render.grid_cols,
        source: render.source_x,
        source_len: render.source_width,
        image_len: placement.placement.image_width,
        offset: placement.placement.x_offset,
    };
    let vertical = AxisPlacement {
        start: render.viewport_row,
        cells: render.grid_rows,
        source: render.source_y,
        source_len: render.source_height,
        image_len: placement.placement.image_height,
        offset: placement.placement.y_offset,
    };
    assert(horizontal == placement@.horizontal());
    assert(vertical == placement@.vertical());
    let across = clip_axis(horizontal, area.width as u32)?;
    let down = clip_axis(vertical, rows)?;
    let clipped = ClippedPlacement {
        x: area.x as u32 + across.cell,
        y: area.y as u32 + down.cell,
        cols: across.cells,
        rows: down.cells,
        source_x: across.source,
        source_y: down.source,
        source_width: across.source_len,
        source_height: down.source_len,
        x_offset: across.offset,
        y_offset: down.offset,
    };
    Some((clipped, kitty_format_code(placement.placement.format)))
}

/// Clips a placement for SIXEL output, honouring the host's safe bottom row.
pub fn clipped_sixel_placement(placement: &HostPlacement, safe_bottom: Option<u16>) -> (result:
    Option<(ClippedPlacement, u32)>)
    ensures
        result == (if placement@.visible(safe_bottom) {
            Some((placement@.clipped(safe_bottom), format_code(placement.placement.format)))
        } else {
            None
        }),
        result matches Some((clipped, code)) ==> {
            let col = placement.placement.render.viewport_col;
            let row = placement.placement.render.viewport_row;
            &&& clipped.x == placement.area.x + (if col > 0 { col as int } else { 0 })
            &&& clipped.y == placement.area.y + (if row > 0 { row as int } else { 0 })
        },
{
    clipped_placement_with_bottom_limit(placement, safe_bottom)
}

/// What is painted stays in the pane, and above the rows that the host leaves
/// unused.
pub proof fn clipping_stays_on_screen(p: PlacementView, safe_bottom: Option<u16>)
    requires
        p.visible(safe_bottom),
    ensures
        ({
            let clipped = p.clipped(safe_bottom);
            &&& 0 < clipped.cols
            &&& 0 < clipped.rows
            &&& p.area.x <= clipped.x
            &&& clipped.x + clipped.cols <= p.area.x + p.area.width
            &&& p.area.y <= clipped.y
            &&& clipped.y + clipped.rows <= p.area.y + p.area.height
            &&& safe_bottom matches Some(bottom) ==> clipped.y + clipped.rows <= bottom
        }),
{
    lemma_shown_pixels(p.horizontal(), p.area.width as int);
    lemma_shown_pixels(p.vertical(), paintable_rows(p.area, safe_bottom));
}

/// What is shown is a part of the image, and never empty.
pub proof fn clipping_stays_in_the_image(p: PlacementView, safe_bottom: Option<u16>)
    requires
        p.visible(safe_bottom),
    ensures
        ({
            let clipped = p.clipped(safe_bottom);
            &&& 0 < clipped.source_width
            &&& 0 < clipped.source_height
            &&& clipped.source_x + clipped.source_width <= p.image_width
            &&& clipped.source_y + clipped.source_height <= p.image_height
        }),
{
    lemma_shown_pixels(p.horizontal(), p.area.width as int);
    lemma_shown_pixels(p.vertical(), paintable_rows(p.area, safe_bottom));
}

/// A placement that fits into its pane along an axis is shown there as a whole.
pub proof fn fitting_axis_is_kept(axis: AxisPlacement, limit: int)
    requires
        axis.visible(limit),
        0 <= axis.start,
        axis.start + axis.cells <= limit,
    ensures
        axis.clipped(limit) == (AxisClip {
            cell: axis.start as u32,
            cells: axis.cells,
            source: axis.source,
            source_len: axis.region_len() as u32,
            offset: axis.offset,
        }),
{
    let len = axis.region_len();
    let cells = axis.cells as int;
    assert(axis.pixels_before(0) == 0) by (nonlinear_arith)
        requires
            axis.pixels_before(0) == 0 * len / cells,
            0 < cells,
    ;
    assert(axis.pixels_begun(cells) == len) by (nonlinear_arith)
        requires
            axis.pixels_begun(cells) == (cells * len + cells - 1) / cells,
            0 < cells,
    ;
}

/// A cell of the host belongs to the placement and to its pane, and lies above the
/// safe bottom.
pub open spec fn in_sight(
    p: PlacementView,
    safe_bottom: Option<u16>,
    column: int,
    row: int,
) -> bool {
    &&& p.area.x <= column < p.area.x + p.area.width
    &&& p.area.y <= row < p.area.y + p.area.height
    &&& p.area.x + p.render.viewport_col <= column < p.area.x + p.render.viewport_col
        + p.render.grid_cols
    &&& p.area.y + p.render.viewport_row <= row < p.area.y + p.render.viewport_row
        + p.render.grid_rows
    &&& safe_bottom matches Some(bottom) ==> row < bottom
}

/// Of a visible placement, exactly the cells in sight are painted.
pub proof fn cells_in_sight_are_painted(
    p: PlacementView,
    safe_bottom: Option<u16>,
    column: int,
    row: int,
)
    requires
        p.visible(safe_bottom),
    ensures
        ({
            let clipped = p.clipped(safe_bottom);
            in_sight(p, safe_bottom, column, row) <==> clipped.x <= column < clipped.x
                + clipped.cols && clipped.y <= row < clipped.y + clipped.rows
        }),
{
    lemma_shown_pixels(p.horizontal(), p.area.width as int);
    lemma_shown_pixels(p.vertical(), paintable_rows(p.area, safe_bottom));
}

/// A placement is visible where a cell of it is in sight, and the part of the image
/// that it shows starts inside the image.
pub proof fn a_cell_in_sight_makes_visible(p: PlacementView, safe_bottom: Option<u16>)
    ensures
        p.visible(safe_bottom) <==> {
            &&& p.render.source_x < p.image_width
            &&& p.render.source_y < p.image_height
            &&& exists|column: int, row: int| #[trigger] in_sight(p, safe_bottom, column, row)
        },
{
    if p.visible(safe_bottom) {
        let clipped = p.clipped(safe_bottom);
        clipping_stays_on_screen(p, safe_bottom);
        cells_in_sight_are_painted(p, safe_bottom, clipped.x as int, clipped.y as int);
        assert(in_sight(p, safe_bottom, clipped.x as int, clipped.y as int));
    }
}

/// A visible placement is painted at its own cell of the pane, or at the pane's edge
/// where it starts before it. Its padding stays with its first cell. No safe bottom
/// changes any of this.
pub proof fn placements_are_painted_where_they_are(p: PlacementView, safe_bottom: Option<u16>)
    requires
        p.visible(safe_bottom),
    ensures
        ({
            let clipped = p.clipped(safe_bottom);
            let col = p.render.viewport_col;
            let row = p.render.viewport_row;
            &&& clipped.x == p.area.x + (if col > 0 { col as int } else { 0 })
            &&& clipped.y == p.area.y + (if row > 0 { row as int } else { 0 })
            &&& clipped.x_offset == (if col >= 0 { p.x_offset } else { 0 })
            &&& clipped.y_offset == (if row >= 0 { p.y_offset } else { 0 })
        }),
{
    lemma_shown_pixels(p.horizontal(), p.area.width as int);
    lemma_shown_pixels(p.vertical(), paintable_rows(p.area, safe_bottom));
}

/// A safe bottom that cuts off no row changes nothing.
pub proof fn a_low_safe_bottom_changes_nothing(p: PlacementView, bottom: u16)
    requires
        p.visible(None),
        p.clipped(None).y + p.clipped(None).rows <= bottom,
    ensures
        p.visible(Some(bottom)),
        p.clipped(Some(bottom)) == p.clipped(None),
{
    lemma_shown_pixels(p.horizontal(), p.area.width as int);
    lemma_shown_pixels(p.vertical(), paintable_rows(p.area, None));
}

/// Pixel `at` of an image of `image_len` pixels is placed on `cells` cells, as a
/// part of the `source_len` pixels from `source` on, and touches one of the cells
/// from `hidden` up to `seen`. A length of zero, or one beyond the image, reaches to
/// the image's edge.
pub open spec fn touches_cells(
    at: int,
    source: int,
    source_len: int,
    image_len: int,
    cells: int,
    hidden: int,
    seen: int,
) -> bool {
    let len = if source_len == 0 || source + source_len > image_len {
        image_len - source
    } else {
        source_len
    };
    &&& source <= at < source + len
    &&& hidden * len < (at - source + 1) * cells
    &&& (at - source) * cells < seen * len
}

proof fn lemma_shown_pixels_touch(axis: AxisPlacement, limit: int, at: int)
    requires
        axis.visible(limit),
    ensures
        ({
            let clip = axis.clipped(limit);
            let hidden = axis.first() - axis.start;
            clip.source <= at < clip.source + clip.source_len <==> touches_cells(
                at,
                axis.source as int,
                axis.source_len as int,
                axis.image_len as int,
                axis.cells as int,
                hidden,
                hidden + clip.cells,
            )
        }),
{
    lemma_shown_pixels(axis, limit);
    let hidden = axis.first() - axis.start;
    let seen = axis.end(limit) - axis.start;
    let len = axis.region_len();
    let cells = axis.cells as int;
    let k = at - axis.source;
    assert(axis.pixels_before(hidden) <= k <==> hidden * len < (k + 1) * cells)
        by (nonlinear_arith)
        requires
            axis.pixels_before(hidden) == (hidden * len) / cells,
            0 < cells,
    ;
    assert(k < axis.pixels_begun(seen) <==> k * cells < seen * len) by (nonlinear_arith)
        requires
            axis.pixels_begun(seen) == (seen * len + cells - 1) / cells,
            0 < cells,
    ;
}

/// Of the image, exactly the columns and rows are shown that touch a painted cell.
pub proof fn shown_pixels_touch_painted_cells(
    p: PlacementView,
    safe_bottom: Option<u16>,
    column: int,
    row: int,
)
    requires
        p.visible(safe_bottom),
    ensures
        ({
            let clipped = p.clipped(safe_bottom);
            let left = clipped.x - p.area.x - p.render.viewport_col;
            let top = clipped.y - p.area.y - p.render.viewport_row;
            &&& clipped.source_x <= column < clipped.source_x + clipped.source_width
                <==> touches_cells(
                column,
                p.render.source_x as int,
                p.render.source_width as int,
                p.image_width as int,
                p.render.grid_cols as int,
                left,
                left + clipped.cols,
            )
            &&& clipped.source_y <= row < clipped.source_y + clipped.source_height
                <==> touches_cells(
                row,
                p.render.source_y as int,
                p.render.source_height as int,
                p.image_height as int,
                p.render.grid_rows as int,
                top,
                top + clipped.rows,
            )
        }),
{
    lemma_shown_pixels(p.horizontal(), p.area.width as int);
    lemma_shown_pixels(p.vertical(), paintable_rows(p.area, safe_bottom));
    lemma_shown_pixels_touch(p.horizontal(), p.area.width as int, column);
    lemma_shown_pixels_touch(p.vertical(), paintable_rows(p.area, safe_bottom), row);
}

} // verus!
