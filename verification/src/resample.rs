//! Cropping and scaling of decoded pixels.

use crate::coverage;
use crate::coverage::Footprint;
use crate::pixels::{DecodedRgba, RgbaView};
use crate::placement::ClippedPlacement;
use vstd::prelude::*;

verus! {

/// A rectangle of pixels inside an RGBA buffer.
pub struct Crop {
    pub data: Seq<u8>,
    /// Pixels per row of the buffer.
    pub stride: int,
    pub x: int,
    pub y: int,
    pub width: int,
    pub height: int,
}

impl Crop {
    /// Where the four bytes of pixel `(sx, sy)` of the rectangle start.
    pub open spec fn offset(self, sx: int, sy: int) -> int {
        ((self.y + sy) * self.stride + self.x + sx) * 4
    }

    /// Channel `c` of pixel `(sx, sy)`; channel 3 is alpha.
    pub open spec fn channel(self, sx: int, sy: int, c: int) -> int {
        self.data[self.offset(sx, sy) + c] as int
    }

    /// Pixel `(sx, sy)`, and with it every pixel before it, lies in the buffer.
    pub open spec fn reaches(self, sx: int, sy: int) -> bool {
        self.offset(sx, sy) + 4 <= self.data.len()
    }
}

/// The rectangle that a clipped placement shows.
pub open spec fn crop_of(source: RgbaView, clipped: ClippedPlacement) -> Crop {
    Crop {
        data: source.data,
        stride: source.width as int,
        x: clipped.source_x as int,
        y: clipped.source_y as int,
        width: clipped.source_width as int,
        height: clipped.source_height as int,
    }
}

/// What is added up over the source pixels under a destination pixel.
pub enum Measure {
    /// The units shared.
    Area,
    /// The units shared, weighted by alpha.
    Alpha,
    /// A color channel, weighted by alpha and the units shared.
    Color(int),
}

/// One pixel of a `cols` by `rows` raster laid over a crop.
pub struct Window {
    pub crop: Crop,
    pub cols: int,
    pub rows: int,
    pub x: int,
    pub y: int,
}

impl Window {
    /// The units that source pixel `(sx, sy)` shares with this pixel.
    pub open spec fn shared(self, sx: int, sy: int) -> int {
        coverage::overlap(self.x, self.crop.width, self.cols, sx) * coverage::overlap(
            self.y,
            self.crop.height,
            self.rows,
            sy,
        )
    }

    pub open spec fn term(self, measure: Measure, sx: int, sy: int) -> int {
        match measure {
            Measure::Area => self.shared(sx, sy),
            Measure::Alpha => self.shared(sx, sy) * self.crop.channel(sx, sy, 3),
            Measure::Color(c) => self.shared(sx, sy) * self.crop.channel(sx, sy, 3)
                * self.crop.channel(sx, sy, c),
        }
    }

    pub open spec fn row_terms(self, measure: Measure, sy: int) -> spec_fn(int) -> int {
        |sx: int| self.term(measure, sx, sy)
    }

    pub open spec fn row_sums(self, measure: Measure) -> spec_fn(int) -> int {
        |sy: int| coverage::sum(self.row_terms(measure, sy), 0, self.crop.width)
    }

    /// The measure over the whole crop.
    pub open spec fn total(self, measure: Measure) -> int {
        coverage::sum(self.row_sums(measure), 0, self.crop.height)
    }

    /// The pixel lies in its raster.
    pub open spec fn inside(self) -> bool {
        &&& 0 <= self.x < self.cols
        &&& 0 <= self.y < self.rows
        &&& 0 <= self.crop.width
        &&& 0 <= self.crop.height
    }

    /// Channel `c` of the average under this pixel: alpha over the area, color
    /// over alpha. Where nothing is visible, the pixel is transparent black.
    pub open spec fn averaged(self, c: int) -> int {
        if self.total(Measure::Alpha) == 0 {
            0
        } else if c == 3 {
            rounded_quotient(self.total(Measure::Alpha), self.crop.width * self.crop.height)
        } else {
            rounded_quotient(self.total(Measure::Color(c)), self.total(Measure::Alpha))
        }
    }
}

/// `n / d` to the nearest whole number, halves up.
pub open spec fn rounded_quotient(n: int, d: int) -> int {
    (2 * n + d) / (2 * d)
}

pub proof fn lemma_term_is_not_negative(w: Window, measure: Measure, sx: int, sy: int)
    ensures
        0 <= w.term(measure, sx, sy),
        0 <= w.shared(sx, sy),
{
    let a = coverage::overlap(w.x, w.crop.width, w.cols, sx);
    let b = coverage::overlap(w.y, w.crop.height, w.rows, sy);
    assert(0 <= a * b) by (nonlinear_arith)
        requires
            0 <= a,
            0 <= b,
    ;
    let alpha = w.crop.channel(sx, sy, 3);
    assert(0 <= a * b * alpha) by (nonlinear_arith)
        requires
            0 <= a * b,
            0 <= alpha,
    ;
    if let Measure::Color(c) = measure {
        let color = w.crop.channel(sx, sy, c);
        assert(0 <= a * b * alpha * color) by (nonlinear_arith)
            requires
                0 <= a * b * alpha,
                0 <= color,
        ;
    }
}

/// Comparing two scaled totals pixel by pixel.
proof fn lemma_total_scaled_le(w: Window, m: Measure, a: int, n: Measure, b: int)
    requires
        forall|sx: int, sy: int|
            0 <= sx < w.crop.width && 0 <= sy < w.crop.height ==> a * #[trigger] w.term(m, sx, sy)
                <= b * w.term(n, sx, sy),
    ensures
        a * w.total(m) <= b * w.total(n),
{
    assert forall|sy: int| 0 <= sy < w.crop.height implies a * #[trigger] w.row_sums(m)(sy) <= b
        * w.row_sums(n)(sy) by {
        assert forall|sx: int| 0 <= sx < w.crop.width implies a * #[trigger] w.row_terms(m, sy)(sx)
            <= b * w.row_terms(n, sy)(sx) by {
            assert(a * w.term(m, sx, sy) <= b * w.term(n, sx, sy));
        }
        coverage::lemma_sum_scaled_le(w.row_terms(m, sy), a, w.row_terms(n, sy), b, 0, w.crop.width);
    }
    coverage::lemma_sum_scaled_le(w.row_sums(m), a, w.row_sums(n), b, 0, w.crop.height);
}

/// The shared units of the whole crop are its area.
proof fn lemma_total_area(w: Window)
    requires
        w.inside(),
    ensures
        w.total(Measure::Area) == w.crop.width * w.crop.height,
{
    let columns = coverage::overlaps(w.x, w.crop.width, w.cols);
    let rows = coverage::overlaps(w.y, w.crop.height, w.rows);
    coverage::coverage_is_complete(w.x, w.crop.width, w.cols);
    coverage::coverage_is_complete(w.y, w.crop.height, w.rows);
    let sums = w.row_sums(Measure::Area);
    assert forall|sy: int| 0 <= sy < w.crop.height implies #[trigger] sums(sy) == w.crop.width
        * rows(sy) by {
        let terms = w.row_terms(Measure::Area, sy);
        assert forall|sx: int| 0 <= sx < w.crop.width implies 1 * #[trigger] terms(sx) <= rows(sy)
            * columns(sx) by {
            vstd::arithmetic::mul::lemma_mul_is_commutative(rows(sy), columns(sx));
        }
        assert forall|sx: int| 0 <= sx < w.crop.width implies rows(sy) * #[trigger] columns(sx)
            <= 1 * terms(sx) by {
            vstd::arithmetic::mul::lemma_mul_is_commutative(rows(sy), columns(sx));
        }
        coverage::lemma_sum_scaled_le(terms, 1, columns, rows(sy), 0, w.crop.width);
        coverage::lemma_sum_scaled_le(columns, rows(sy), terms, 1, 0, w.crop.width);
        vstd::arithmetic::mul::lemma_mul_is_commutative(rows(sy), w.crop.width);
    }
    assert forall|sy: int| 0 <= sy < w.crop.height implies 1 * #[trigger] sums(sy) <= w.crop.width
        * rows(sy) by {}
    assert forall|sy: int| 0 <= sy < w.crop.height implies w.crop.width * #[trigger] rows(sy) <= 1
        * sums(sy) by {
        assert(sums(sy) == w.crop.width * rows(sy));
    }
    coverage::lemma_sum_scaled_le(sums, 1, rows, w.crop.width, 0, w.crop.height);
    coverage::lemma_sum_scaled_le(rows, w.crop.width, sums, 1, 0, w.crop.height);
}

pub proof fn lemma_total_bounds(w: Window)
    requires
        w.inside(),
    ensures
        0 <= w.total(Measure::Alpha) <= 255 * (w.crop.width * w.crop.height),
        forall|c: int|
            0 <= #[trigger] w.total(Measure::Color(c)) <= 255 * w.total(Measure::Alpha),
{
    lemma_total_area(w);
    assert forall|sx: int, sy: int|
        0 <= sx < w.crop.width && 0 <= sy < w.crop.height implies 1 * #[trigger] w.term(
        Measure::Alpha,
        sx,
        sy,
    ) <= 255 * w.term(Measure::Area, sx, sy) by {
        lemma_term_is_not_negative(w, Measure::Area, sx, sy);
        let shared = w.shared(sx, sy);
        let alpha = w.crop.channel(sx, sy, 3);
        assert(shared * alpha <= 255 * shared) by (nonlinear_arith)
            requires
                0 <= shared,
                0 <= alpha <= 255,
        ;
    }
    lemma_total_scaled_le(w, Measure::Alpha, 1, Measure::Area, 255);
    assert forall|sx: int, sy: int|
        0 <= sx < w.crop.width && 0 <= sy < w.crop.height implies 0 * #[trigger] w.term(
        Measure::Area,
        sx,
        sy,
    ) <= 1 * w.term(Measure::Alpha, sx, sy) by {
        lemma_term_is_not_negative(w, Measure::Alpha, sx, sy);
    }
    lemma_total_scaled_le(w, Measure::Area, 0, Measure::Alpha, 1);
    assert forall|c: int|
        0 <= #[trigger] w.total(Measure::Color(c)) <= 255 * w.total(Measure::Alpha) by {
        let color = Measure::Color(c);
        assert forall|sx: int, sy: int|
            0 <= sx < w.crop.width && 0 <= sy < w.crop.height implies 1 * #[trigger] w.term(
            color,
            sx,
            sy,
        ) <= 255 * w.term(Measure::Alpha, sx, sy) by {
            lemma_term_is_not_negative(w, Measure::Alpha, sx, sy);
            let visible = w.term(Measure::Alpha, sx, sy);
            let shade = w.crop.channel(sx, sy, c);
            assert(visible * shade <= 255 * visible) by (nonlinear_arith)
                requires
                    0 <= visible,
                    0 <= shade <= 255,
            ;
        }
        lemma_total_scaled_le(w, color, 1, Measure::Alpha, 255);
        assert forall|sx: int, sy: int|
            0 <= sx < w.crop.width && 0 <= sy < w.crop.height implies 0 * #[trigger] w.term(
            Measure::Area,
            sx,
            sy,
        ) <= 1 * w.term(color, sx, sy) by {
            lemma_term_is_not_negative(w, color, sx, sy);
        }
        lemma_total_scaled_le(w, Measure::Area, 0, color, 1);
    }
}

/// What was added up before source pixel `(sx, sy)`, row by row.
spec fn partial(w: Window, measure: Measure, sx: int, sy: int) -> int {
    coverage::sum(w.row_sums(measure), 0, sy) + coverage::sum(w.row_terms(measure, sy), 0, sx)
}

proof fn lemma_partial_grows(w: Window, measure: Measure, sx: int, sy: int)
    requires
        0 <= sx <= w.crop.width,
        0 <= sy < w.crop.height,
    ensures
        0 <= partial(w, measure, sx, sy) <= w.total(measure),
{
    assert forall|j: int| 0 <= j < w.crop.height implies 0 <= #[trigger] w.row_sums(measure)(
        j,
    ) by {
        assert forall|i: int| 0 <= i < w.crop.width implies 0 <= #[trigger] w.row_terms(
            measure,
            j,
        )(i) by {
            lemma_term_is_not_negative(w, measure, i, j);
        }
        coverage::lemma_sum_grows(w.row_terms(measure, j), 0, 0, w.crop.width);
    }
    assert forall|i: int| 0 <= i < w.crop.width implies 0 <= #[trigger] w.row_terms(measure, sy)(
        i,
    ) by {
        lemma_term_is_not_negative(w, measure, i, sy);
    }
    coverage::lemma_sum_grows(w.row_terms(measure, sy), 0, sx, w.crop.width);
    coverage::lemma_sum_grows(w.row_sums(measure), 0, sy, w.crop.height);
    coverage::lemma_sum_grows(w.row_sums(measure), 0, sy + 1, w.crop.height);
    assert(coverage::sum(w.row_sums(measure), 0, sy + 1) == coverage::sum(
        w.row_sums(measure),
        0,
        sy,
    ) + w.row_sums(measure)(sy));
}

proof fn lemma_term_of_nothing_shared(w: Window, measure: Measure, sx: int, sy: int)
    requires
        coverage::overlap(w.x, w.crop.width, w.cols, sx) == 0 || coverage::overlap(
            w.y,
            w.crop.height,
            w.rows,
            sy,
        ) == 0,
    ensures
        w.term(measure, sx, sy) == 0,
{
    let a = coverage::overlap(w.x, w.crop.width, w.cols, sx);
    let b = coverage::overlap(w.y, w.crop.height, w.rows, sy);
    assert(a * b == 0) by (nonlinear_arith)
        requires
            a == 0 || b == 0,
    ;
    let alpha = w.crop.channel(sx, sy, 3);
    assert(0 * alpha == 0);
    if let Measure::Color(c) = measure {
        assert(0 * w.crop.channel(sx, sy, c) == 0);
    }
}

/// Columns outside of a footprint add nothing to a row.
proof fn lemma_row_within_footprint(w: Window, measure: Measure, sy: int, first: int, last: int)
    requires
        0 <= first <= last <= w.crop.width,
        forall|s: int|
            0 <= s < w.crop.width && !(first <= s < last) ==> #[trigger] coverage::overlap(
                w.x,
                w.crop.width,
                w.cols,
                s,
            ) == 0,
    ensures
        coverage::sum(w.row_terms(measure, sy), 0, first) == 0,
        coverage::sum(w.row_terms(measure, sy), 0, last) == w.row_sums(measure)(sy),
{
    assert forall|s: int| 0 <= s < w.crop.width && !(first <= s < last) implies #[trigger] w.row_terms(
        measure,
        sy,
    )(s) == 0 by {
        assert(coverage::overlap(w.x, w.crop.width, w.cols, s) == 0);
        lemma_term_of_nothing_shared(w, measure, s, sy);
    }
    coverage::lemma_sum_zero_ends(w.row_terms(measure, sy), 0, first, last, w.crop.width);
}

/// Rows outside of a footprint add nothing to the total.
proof fn lemma_total_within_footprint(w: Window, measure: Measure, first: int, last: int)
    requires
        0 <= first <= last <= w.crop.height,
        0 <= w.crop.width,
        forall|s: int|
            0 <= s < w.crop.height && !(first <= s < last) ==> #[trigger] coverage::overlap(
                w.y,
                w.crop.height,
                w.rows,
                s,
            ) == 0,
    ensures
        coverage::sum(w.row_sums(measure), 0, first) == 0,
        coverage::sum(w.row_sums(measure), 0, last) == w.total(measure),
{
    assert forall|s: int|
        0 <= s < w.crop.height && !(first <= s < last) implies #[trigger] w.row_sums(measure)(s)
        == 0 by {
        assert(coverage::overlap(w.y, w.crop.height, w.rows, s) == 0);
        let terms = w.row_terms(measure, s);
        assert forall|i: int| 0 <= i < w.crop.width implies #[trigger] terms(i) == 0 by {
            lemma_term_of_nothing_shared(w, measure, i, s);
        }
        coverage::lemma_sum_zero_ends(terms, 0, w.crop.width, w.crop.width, w.crop.width);
    }
    coverage::lemma_sum_zero_ends(w.row_sums(measure), 0, first, last, w.crop.height);
}

/// An earlier pixel of a crop starts at a lower offset.
proof fn lemma_offset_grows(crop: Crop, sx: int, sy: int, last_x: int, last_y: int)
    requires
        0 <= crop.stride,
        0 <= crop.x,
        0 <= crop.y,
        0 <= sx <= last_x,
        0 <= sy <= last_y,
        crop.reaches(last_x, last_y),
    ensures
        0 <= (crop.y + sy) * crop.stride,
        0 <= crop.offset(sx, sy) <= crop.offset(last_x, last_y),
        crop.reaches(sx, sy),
{
    assert(0 <= (crop.y + sy) * crop.stride <= (crop.y + last_y) * crop.stride)
        by (nonlinear_arith)
        requires
            0 <= crop.stride,
            0 <= crop.y,
            0 <= sy <= last_y,
    ;
}

fn rounded_to_byte(n: u128, d: u128) -> (rounded: u8)
    requires
        0 < d <= 0xffff_ffff_ffff_ffff_ffff,
        n <= 255 * d,
    ensures
        rounded == rounded_quotient(n as int, d as int),
{
    let quotient: u128 = (2 * n + d) / (2 * d);
    assert(quotient <= 255) by (nonlinear_arith)
        requires
            quotient == (2 * n + d) / (2 * d),
            0 < d,
            n <= 255 * d,
    ;
    quotient as u8
}

/// The window of pixel `(x, y)` of a `cols` by `rows` raster over a crop.
pub open spec fn window(
    source: RgbaView,
    clipped: ClippedPlacement,
    cols: u32,
    rows: u32,
    x: int,
    y: int,
) -> Window {
    Window { crop: crop_of(source, clipped), cols: cols as int, rows: rows as int, x, y }
}

/// Averages the source pixels under one destination pixel.
///
/// Color is weighted by alpha, so that transparent pixels do not bleed into
/// their neighbours.
fn averaged_pixel(
    source: &DecodedRgba,
    clipped: ClippedPlacement,
    cols: u32,
    rows: u32,
    x: u32,
    y: u32,
    column: &Footprint,
    row: &Footprint,
) -> (pixel: [u8; 4])
    requires
        x < cols,
        y < rows,
        column.covers(x as int, clipped.source_width as int, cols as int),
        row.covers(y as int, clipped.source_height as int, rows as int),
        clipped.source_width > 0 && clipped.source_height > 0 ==> crop_of(source@, clipped).reaches(
            clipped.source_width - 1,
            clipped.source_height - 1,
        ),
    ensures
        forall|c: int|
            0 <= c < 4 ==> #[trigger] pixel@[c] == window(
                source@,
                clipped,
                cols,
                rows,
                x as int,
                y as int,
            ).averaged(c),
{
    let ghost w = window(source@, clipped, cols, rows, x as int, y as int);
    let mut red: u128 = 0;
    let mut green: u128 = 0;
    let mut blue: u128 = 0;
    let mut alpha: u128 = 0;
    let mut j: usize = 0;
    proof {
        let first = row.first as int;
        let last = row.first + row.weights@.len();
        lemma_total_within_footprint(w, Measure::Color(0), first, last);
        lemma_total_within_footprint(w, Measure::Color(1), first, last);
        lemma_total_within_footprint(w, Measure::Color(2), first, last);
        lemma_total_within_footprint(w, Measure::Alpha, first, last);
        lemma_total_bounds(w);
        assert(w.crop.width * w.crop.height <= 0xffff_ffff * 0xffff_ffff) by (nonlinear_arith)
            requires
                0 <= w.crop.width <= 0xffff_ffff,
                0 <= w.crop.height <= 0xffff_ffff,
        ;
    }
    while j < row.weights.len()
        invariant
            w == window(source@, clipped, cols, rows, x as int, y as int),
            column.covers(x as int, clipped.source_width as int, cols as int),
            row.covers(y as int, clipped.source_height as int, rows as int),
            clipped.source_width > 0 && clipped.source_height > 0 ==> w.crop.reaches(
                clipped.source_width - 1,
                clipped.source_height - 1,
            ),
            forall|c: int| #[trigger] w.total(Measure::Color(c)) <= 0xffff_ffff_ffff_ffff_ffff,
            w.total(Measure::Alpha) <= 0xffff_ffff_ffff_ffff_ffff,
            j <= row.weights@.len(),
            red == coverage::sum(w.row_sums(Measure::Color(0)), 0, row.first + j),
            green == coverage::sum(w.row_sums(Measure::Color(1)), 0, row.first + j),
            blue == coverage::sum(w.row_sums(Measure::Color(2)), 0, row.first + j),
            alpha == coverage::sum(w.row_sums(Measure::Alpha), 0, row.first + j),
        decreases row.weights@.len() - j,
    {
        let ghost sy = row.first + j;
        let y_weight: u64 = row.weights[j];
        let mut i: usize = 0;
        proof {
            let first = column.first as int;
            let last = column.first + column.weights@.len();
            lemma_row_within_footprint(w, Measure::Color(0), sy, first, last);
            lemma_row_within_footprint(w, Measure::Color(1), sy, first, last);
            lemma_row_within_footprint(w, Measure::Color(2), sy, first, last);
            lemma_row_within_footprint(w, Measure::Alpha, sy, first, last);
        }
        while i < column.weights.len()
            invariant
                w == window(source@, clipped, cols, rows, x as int, y as int),
                column.covers(x as int, clipped.source_width as int, cols as int),
                row.covers(y as int, clipped.source_height as int, rows as int),
                clipped.source_width > 0 && clipped.source_height > 0 ==> w.crop.reaches(
                    clipped.source_width - 1,
                    clipped.source_height - 1,
                ),
                forall|c: int| #[trigger] w.total(Measure::Color(c)) <= 0xffff_ffff_ffff_ffff_ffff,
                w.total(Measure::Alpha) <= 0xffff_ffff_ffff_ffff_ffff,
                j < row.weights@.len(),
                sy == row.first + j,
                y_weight == row.weights@[j as int],
                i <= column.weights@.len(),
                red == partial(w, Measure::Color(0), column.first + i, sy),
                green == partial(w, Measure::Color(1), column.first + i, sy),
                blue == partial(w, Measure::Color(2), column.first + i, sy),
                alpha == partial(w, Measure::Alpha, column.first + i, sy),
            decreases column.weights@.len() - i,
        {
            let ghost sx = column.first + i;
            proof {
                lemma_offset_grows(
                    w.crop,
                    sx,
                    sy,
                    clipped.source_width - 1,
                    clipped.source_height - 1,
                );
                assert(source.data@.len() == source.data.len());
            }
            let line: u64 = clipped.source_y as u64 + row.first as u64 + j as u64;
            assert(line * source.width == (w.crop.y + sy) * w.crop.stride);
            let start: u64 = line * source.width as u64 + clipped.source_x as u64;
            let index: usize = ((start + column.first as u64 + i as u64) * 4) as usize;
            assert(index == w.crop.offset(sx, sy));
            let x_weight: u64 = column.weights[i];
            assert(x_weight * y_weight <= u128::MAX) by (nonlinear_arith)
                requires
                    x_weight <= u64::MAX,
                    y_weight <= u64::MAX,
            ;
            let shared: u128 = x_weight as u128 * y_weight as u128;
            assert(shared == w.shared(sx, sy));
            proof {
                lemma_partial_grows(w, Measure::Color(0), sx + 1, sy);
                lemma_partial_grows(w, Measure::Color(1), sx + 1, sy);
                lemma_partial_grows(w, Measure::Color(2), sx + 1, sy);
                lemma_partial_grows(w, Measure::Alpha, sx + 1, sy);
                lemma_partial_grows(w, Measure::Color(0), sx, sy);
                lemma_partial_grows(w, Measure::Color(1), sx, sy);
                lemma_partial_grows(w, Measure::Color(2), sx, sy);
                lemma_partial_grows(w, Measure::Alpha, sx, sy);
                assert(w.row_terms(Measure::Color(0), sy)(sx) == w.term(Measure::Color(0), sx, sy));
                assert(w.row_terms(Measure::Color(1), sy)(sx) == w.term(Measure::Color(1), sx, sy));
                assert(w.row_terms(Measure::Color(2), sy)(sx) == w.term(Measure::Color(2), sx, sy));
                assert(w.row_terms(Measure::Alpha, sy)(sx) == w.term(Measure::Alpha, sx, sy));
            }
            let visible: u128 = shared * source.data[index + 3] as u128;
            assert(visible == w.term(Measure::Alpha, sx, sy));
            red = red + visible * source.data[index] as u128;
            green = green + visible * source.data[index + 1] as u128;
            blue = blue + visible * source.data[index + 2] as u128;
            alpha = alpha + visible;
            i += 1;
        }
        j += 1;
    }
    if alpha == 0 {
        return [0, 0, 0, 0];
    }
    let area: u128 = clipped.source_width as u128 * clipped.source_height as u128;
    proof {
        lemma_total_bounds(w);
    }
    [
        rounded_to_byte(red, alpha),
        rounded_to_byte(green, alpha),
        rounded_to_byte(blue, alpha),
        rounded_to_byte(alpha, area),
    ]
}

/// Whether a raster of `cols` by `rows` pixels is too small to hold the crop.
pub open spec fn downscales(clipped: ClippedPlacement, cols: u32, rows: u32) -> bool {
    clipped.source_width > cols || clipped.source_height > rows
}

/// The source pixel at the start of destination pixel `dest`.
pub open spec fn nearest(dest: int, source_len: int, dest_len: int) -> int {
    dest * source_len / dest_len
}

/// `size` without the padding before the content.
pub open spec fn content_len(size: u32, offset: u32) -> u32 {
    if offset <= size {
        (size - offset) as u32
    } else {
        0
    }
}

/// The source pixel behind pixel `(x, y)` of a copied content has coordinates.
pub open spec fn has_coordinates(
    clipped: ClippedPlacement,
    cols: u32,
    rows: u32,
    x: int,
    y: int,
) -> bool {
    &&& clipped.source_x + nearest(x, clipped.source_width as int, cols as int) <= u32::MAX
    &&& clipped.source_y + nearest(y, clipped.source_height as int, rows as int) <= u32::MAX
}

/// Pixel `(x, y)` of a copied content is copied from inside the source's data.
pub open spec fn can_be_copied(
    source: RgbaView,
    clipped: ClippedPlacement,
    cols: u32,
    rows: u32,
    x: int,
    y: int,
) -> bool {
    &&& has_coordinates(clipped, cols, rows, x, y)
    &&& crop_of(source, clipped).reaches(
        nearest(x, clipped.source_width as int, cols as int),
        nearest(y, clipped.source_height as int, rows as int),
    )
}

/// The source pixel behind pixel `(x, y)` of a copied content lies so far outside
/// of the data that the place of its bytes is no `usize`.
pub open spec fn cannot_be_addressed(
    source: RgbaView,
    clipped: ClippedPlacement,
    cols: u32,
    rows: u32,
    x: int,
    y: int,
) -> bool {
    &&& has_coordinates(clipped, cols, rows, x, y)
    &&& !can_be_copied(source, clipped, cols, rows, x, y)
    &&& usize::MAX < crop_of(source, clipped).offset(
        nearest(x, clipped.source_width as int, cols as int),
        nearest(y, clipped.source_height as int, rows as int),
    )
}

/// All pixels of a copied content that come, row by row, before pixel `(x, y)` are
/// copied from inside the source's data.
pub open spec fn copied_before(
    source: RgbaView,
    clipped: ClippedPlacement,
    cols: u32,
    rows: u32,
    x: int,
    y: int,
) -> bool {
    forall|i: int, j: int|
        0 <= i < cols && 0 <= j < rows && (j < y || (j == y && i < x))
            ==> #[trigger] can_be_copied(source, clipped, cols, rows, i, j)
}

/// Copying the content, row by row, stops at pixel `(x, y)`.
pub open spec fn copying_stops_at(
    source: RgbaView,
    clipped: ClippedPlacement,
    cols: u32,
    rows: u32,
    x: int,
    y: int,
) -> bool {
    &&& 0 <= x < cols
    &&& 0 <= y < rows
    &&& copied_before(source, clipped, cols, rows, x, y)
    &&& cannot_be_addressed(source, clipped, cols, rows, x, y)
}

/// A content that is copied, but for a pixel that cannot be addressed.
pub open spec fn overruns(
    source: RgbaView,
    clipped: ClippedPlacement,
    cols: u32,
    rows: u32,
) -> bool {
    &&& !downscales(clipped, cols, rows)
    &&& exists|x: int, y: int| #[trigger]
        copying_stops_at(source, clipped, cols, rows, x, y)
}

/// Every source pixel that a raster of `cols` by `rows` pixels is made from lies
/// in the source's data.
pub open spec fn crop_readable(
    source: RgbaView,
    clipped: ClippedPlacement,
    cols: u32,
    rows: u32,
) -> bool {
    cols > 0 && rows > 0 ==> if downscales(clipped, cols, rows) {
        &&& clipped.source_y + nearest(rows - 1, clipped.source_height as int, rows as int)
            <= u32::MAX
        &&& clipped.source_width > 0 && clipped.source_height > 0 ==> crop_of(
            source,
            clipped,
        ).reaches(clipped.source_width - 1, clipped.source_height - 1)
    } else {
        can_be_copied(source, clipped, cols, rows, cols - 1, rows - 1)
    }
}

/// Channel `c` of pixel `(x, y)` of the content: an average where the crop is
/// scaled down, a copy of the nearest pixel where it is not.
pub open spec fn content_channel(
    source: RgbaView,
    clipped: ClippedPlacement,
    cols: u32,
    rows: u32,
    x: int,
    y: int,
    c: int,
) -> int {
    if downscales(clipped, cols, rows) {
        window(source, clipped, cols, rows, x, y).averaged(c)
    } else {
        crop_of(source, clipped).channel(
            nearest(x, clipped.source_width as int, cols as int),
            nearest(y, clipped.source_height as int, rows as int),
            c,
        )
    }
}

/// Channel `c` of pixel `(x, y)` of the target. The padding is transparent.
pub open spec fn target_channel(
    source: RgbaView,
    clipped: ClippedPlacement,
    width: u32,
    height: u32,
    x_offset: u32,
    y_offset: u32,
    x: int,
    y: int,
    c: int,
) -> int {
    if x < x_offset || y < y_offset {
        0
    } else {
        content_channel(
            source,
            clipped,
            content_len(width, x_offset),
            content_len(height, y_offset),
            x - x_offset,
            y - y_offset,
            c,
        )
    }
}

/// The whole target, four bytes per pixel, row by row.
pub open spec fn scaled_rgba(
    source: RgbaView,
    clipped: ClippedPlacement,
    width: u32,
    height: u32,
    x_offset: u32,
    y_offset: u32,
) -> Seq<u8> {
    Seq::new(
        (width * height * 4) as nat,
        |k: int|
            target_channel(
                source,
                clipped,
                width,
                height,
                x_offset,
                y_offset,
                (k / 4) % (width as int),
                (k / 4) / (width as int),
                k % 4,
            ) as u8,
    )
}

proof fn lemma_nearest_grows(dest: int, last: int, source_len: int, dest_len: int)
    requires
        0 <= dest <= last,
        0 <= source_len,
        0 < dest_len,
    ensures
        0 <= dest * source_len,
        0 <= nearest(dest, source_len, dest_len) <= nearest(last, source_len, dest_len),
{
    assert(0 <= dest * source_len <= last * source_len) by (nonlinear_arith)
        requires
            0 <= dest <= last,
            0 <= source_len,
    ;
    vstd::arithmetic::div_mod::lemma_div_is_ordered(dest * source_len, last * source_len, dest_len);
    vstd::arithmetic::div_mod::lemma_div_pos_is_pos(dest * source_len, dest_len);
}

pub proof fn lemma_nearest_is_inside(dest: int, source_len: int, dest_len: int)
    requires
        0 <= dest < dest_len,
        0 < source_len,
    ensures
        0 <= nearest(dest, source_len, dest_len) < source_len,
{
    lemma_nearest_grows(dest, dest, source_len, dest_len);
    assert(dest * source_len / dest_len < source_len) by (nonlinear_arith)
        requires
            0 <= dest < dest_len,
            0 < source_len,
    ;
}

/// A crop that lies inside its source can be read, and its pixels addressed, at
/// every size.
pub proof fn inner_crops_are_readable(
    source: RgbaView,
    clipped: ClippedPlacement,
    cols: u32,
    rows: u32,
)
    requires
        source.wf(),
        0 < clipped.source_width,
        0 < clipped.source_height,
        clipped.source_x + clipped.source_width <= source.width,
        clipped.source_y + clipped.source_height <= source.height,
    ensures
        crop_readable(source, clipped, cols, rows),
        !overruns(source, clipped, cols, rows),
{
    if cols > 0 && rows > 0 {
        let crop = crop_of(source, clipped);
        let last_x = nearest(cols - 1, clipped.source_width as int, cols as int);
        let last_y = nearest(rows - 1, clipped.source_height as int, rows as int);
        lemma_nearest_is_inside(cols - 1, crop.width, cols as int);
        lemma_nearest_is_inside(rows - 1, crop.height, rows as int);
        assert((crop.y + crop.height - 1) * crop.stride + crop.x + crop.width - 1 < source.height
            * source.width) by (nonlinear_arith)
            requires
                crop.stride == source.width,
                0 < crop.height,
                0 <= crop.y,
                crop.y + crop.height <= source.height,
                crop.x + crop.width <= source.width,
        ;
        vstd::arithmetic::mul::lemma_mul_is_commutative(source.width as int, source.height as int);
        lemma_offset_grows(crop, last_x, last_y, crop.width - 1, crop.height - 1);
        assert(can_be_copied(source, clipped, cols, rows, cols - 1, rows - 1));
        assert forall|x: int, y: int|
            0 <= x < cols && 0 <= y < rows implies #[trigger] can_be_copied(
            source,
            clipped,
            cols,
            rows,
            x,
            y,
        ) by {
            lemma_all_can_be_copied(source, clipped, cols, rows, x, y);
        }
        assert forall|x: int, y: int| !(#[trigger] copying_stops_at(
            source,
            clipped,
            cols,
            rows,
            x,
            y,
        )) by {
            if 0 <= x < cols && 0 <= y < rows {
                assert(can_be_copied(source, clipped, cols, rows, x, y));
            }
        }
    }
}

/// Where the last pixel can be copied, so can all others.
proof fn lemma_all_can_be_copied(
    source: RgbaView,
    clipped: ClippedPlacement,
    cols: u32,
    rows: u32,
    x: int,
    y: int,
)
    requires
        0 <= x < cols,
        0 <= y < rows,
        can_be_copied(source, clipped, cols, rows, cols - 1, rows - 1),
    ensures
        can_be_copied(source, clipped, cols, rows, x, y),
{
    let crop = crop_of(source, clipped);
    lemma_nearest_grows(x, cols - 1, crop.width, cols as int);
    lemma_nearest_grows(y, rows - 1, crop.height, rows as int);
    lemma_offset_grows(
        crop,
        nearest(x, crop.width, cols as int),
        nearest(y, crop.height, rows as int),
        nearest(cols - 1, crop.width, cols as int),
        nearest(rows - 1, crop.height, rows as int),
    );
}

/// The next pixel can be copied, or is the one that cannot be addressed.
proof fn lemma_next_pixel(
    source: RgbaView,
    clipped: ClippedPlacement,
    cols: u32,
    rows: u32,
    x: int,
    y: int,
)
    requires
        0 <= x < cols,
        0 <= y < rows,
        !downscales(clipped, cols, rows),
        crop_readable(source, clipped, cols, rows) || overruns(source, clipped, cols, rows),
        copied_before(source, clipped, cols, rows, x, y),
    ensures
        can_be_copied(source, clipped, cols, rows, x, y) || cannot_be_addressed(
            source,
            clipped,
            cols,
            rows,
            x,
            y,
        ),
{
    if crop_readable(source, clipped, cols, rows) {
        lemma_all_can_be_copied(source, clipped, cols, rows, x, y);
    } else {
        let (i, j) = choose|i: int, j: int| #[trigger]
            copying_stops_at(source, clipped, cols, rows, i, j);
        assert(!can_be_copied(source, clipped, cols, rows, i, j));
        assert((y < j || (y == j && x < i)) || (i == x && j == y));
    }
}

/// Copies the source pixel at the start of one destination pixel, where it can be
/// addressed.
fn nearest_pixel(
    source: &DecodedRgba,
    clipped: ClippedPlacement,
    cols: u32,
    rows: u32,
    x: u32,
    y: u32,
) -> (pixel: Option<[u8; 4]>)
    requires
        x < cols,
        y < rows,
        !downscales(clipped, cols, rows),
        can_be_copied(source@, clipped, cols, rows, x as int, y as int) || cannot_be_addressed(
            source@,
            clipped,
            cols,
            rows,
            x as int,
            y as int,
        ),
    ensures
        pixel is Some <==> can_be_copied(source@, clipped, cols, rows, x as int, y as int),
        pixel matches Some(bytes) ==> forall|c: int|
            0 <= c < 4 ==> #[trigger] bytes@[c] == content_channel(
                source@,
                clipped,
                cols,
                rows,
                x as int,
                y as int,
                c,
            ),
{
    let ghost crop = crop_of(source@, clipped);
    let ghost sx = nearest(x as int, crop.width, cols as int);
    let ghost sy = nearest(y as int, crop.height, rows as int);
    proof {
        lemma_nearest_grows(x as int, x as int, crop.width, cols as int);
        lemma_nearest_grows(y as int, y as int, crop.height, rows as int);
        assert(x * clipped.source_width <= 0xffff_ffff * 0xffff_ffff) by (nonlinear_arith)
            requires
                x <= 0xffff_ffff,
                clipped.source_width <= 0xffff_ffff,
        ;
        assert(y * clipped.source_height <= 0xffff_ffff * 0xffff_ffff) by (nonlinear_arith)
            requires
                y <= 0xffff_ffff,
                clipped.source_height <= 0xffff_ffff,
        ;
        assert(source.data@.len() == source.data.len());
    }
    let source_x: u32 = clipped.source_x + (x as u64 * clipped.source_width as u64 / cols as u64)
        as u32;
    let source_y: u32 = clipped.source_y + (y as u64 * clipped.source_height as u64 / rows as u64)
        as u32;
    assert(crop.offset(sx, sy) == (source_y * source.width + source_x) * 4) by {
        assert(source_y * source.width == (crop.y + sy) * crop.stride);
    }
    assert(0 <= source_y * source.width) by (nonlinear_arith)
        requires
            0 <= source_y,
            0 <= source.width,
    ;
    let index: usize = (source_y as usize).checked_mul(source.width as usize)?.checked_add(
        source_x as usize,
    )?.checked_mul(4)?;
    Some(
        [source.data[index], source.data[index + 1], source.data[index + 2], source.data[index + 3]],
    )
}

/// Where channel `c` of pixel `(x, y)` stands in the target.
proof fn lemma_target_index(width: u32, height: u32, x: int, y: int, c: int)
    requires
        0 <= x < width,
        0 <= y < height,
        0 <= c < 4,
    ensures
        ({
            let k = (y * width + x) * 4 + c;
            &&& 0 <= k < width * height * 4
            &&& (k / 4) % (width as int) == x
            &&& (k / 4) / (width as int) == y
            &&& k % 4 == c
        }),
{
    let k = (y * width + x) * 4 + c;
    assert(0 <= y * width + x < width * height) by (nonlinear_arith)
        requires
            0 <= x < width,
            0 <= y < height,
    ;
    assert(k / 4 == y * width + x);
    vstd::arithmetic::div_mod::lemma_fundamental_div_mod_converse(
        y * width + x,
        width as int,
        y,
        x,
    );
}

/// Every place of the target is a channel of one of its pixels.
proof fn lemma_pixel_of_index(width: u32, height: u32, k: int)
    requires
        0 <= k < width * height * 4,
    ensures
        0 <= (k / 4) % (width as int) < width,
        0 <= (k / 4) / (width as int) < height,
{
    let n = k / 4;
    assert(0 < width) by (nonlinear_arith)
        requires
            0 < width * height * 4,
            0 <= width,
    ;
    assert(0 <= n / (width as int) < height) by (nonlinear_arith)
        requires
            0 <= n < width * height,
            0 < width,
    ;
    vstd::arithmetic::div_mod::lemma_mod_bound(n, width as int);
}

/// Appends one pixel to a target that is filled row by row.
fn push_pixel(target: &mut Vec<u8>, pixel: [u8; 4])
    ensures
        final(target)@ == old(target)@ + pixel@,
{
    target.push(pixel[0]);
    target.push(pixel[1]);
    target.push(pixel[2]);
    target.push(pixel[3]);
    assert(target@ =~= old(target)@ + pixel@);
}

/// Crops and scales the source region into a `target_width` by `target_height`
/// RGBA buffer, offset by the placement's sub-cell padding.
///
/// The downscale path integrates each destination pixel's source footprint and
/// weights color by alpha, so thin strokes and transparent edges survive. The
/// sums are whole numbers, and only the final quotients are rounded.
///
/// There is no target where its length, or the place of a pixel to copy, is no
/// `usize`.
pub fn crop_scale_rgba(
    source: &DecodedRgba,
    clipped: ClippedPlacement,
    target_width: u32,
    target_height: u32,
    x_offset: u32,
    y_offset: u32,
) -> (target: Option<Vec<u8>>)
    requires
        target_width * target_height * 4 <= usize::MAX ==> {
            let cols = content_len(target_width, x_offset);
            let rows = content_len(target_height, y_offset);
            crop_readable(source@, clipped, cols, rows) || overruns(source@, clipped, cols, rows)
        },
    ensures
        target is Some <==> target_width * target_height * 4 <= usize::MAX && !overruns(
            source@,
            clipped,
            content_len(target_width, x_offset),
            content_len(target_height, y_offset),
        ),
        target matches Some(pixels) ==> pixels@ == scaled_rgba(
            source@,
            clipped,
            target_width,
            target_height,
            x_offset,
            y_offset,
        ),
{
    let target_pixels: usize = (target_width as usize).checked_mul(target_height as usize)?;
    let target_len: usize = target_pixels.checked_mul(4)?;
    let mut target: Vec<u8> = Vec::with_capacity(target_len);
    let cols: u32 = if x_offset <= target_width {
        target_width - x_offset
    } else {
        0
    };
    let rows: u32 = if y_offset <= target_height {
        target_height - y_offset
    } else {
        0
    };
    let downscale: bool = clipped.source_width > cols || clipped.source_height > rows;
    let mut columns: Vec<Footprint> = Vec::new();
    if downscale && rows > 0 {
        // Horizontal coverage is shared by every row; compute it once per payload.
        let mut dest_x: u32 = 0;
        while dest_x < cols
            invariant
                dest_x <= cols,
                columns@.len() == dest_x,
                forall|i: int|
                    0 <= i < columns@.len() ==> (#[trigger] columns@[i]).covers(
                        i,
                        clipped.source_width as int,
                        cols as int,
                    ),
            decreases cols - dest_x,
        {
            columns.push(coverage::footprint(dest_x, clipped.source_width, cols));
            dest_x += 1;
        }
    }
    let ghost whole = scaled_rgba(
        source@,
        clipped,
        target_width,
        target_height,
        x_offset,
        y_offset,
    );
    let mut y: u32 = 0;
    assert(target@ =~= whole.take(0));
    while y < target_height
        invariant
            crop_readable(source@, clipped, cols, rows) || overruns(source@, clipped, cols, rows),
            target_width * target_height * 4 <= usize::MAX,
            cols == content_len(target_width, x_offset),
            rows == content_len(target_height, y_offset),
            downscale == downscales(clipped, cols, rows),
            downscale && rows > 0 ==> columns@.len() == cols,
            forall|i: int|
                0 <= i < columns@.len() ==> (#[trigger] columns@[i]).covers(
                    i,
                    clipped.source_width as int,
                    cols as int,
                ),
            whole == scaled_rgba(
                source@,
                clipped,
                target_width,
                target_height,
                x_offset,
                y_offset,
            ),
            y <= target_height,
            target@ == whole.take(y * target_width * 4),
            !downscale ==> copied_before(source@, clipped, cols, rows, 0, y - y_offset),
        decreases target_height - y,
    {
        let row: Footprint = if downscale && y >= y_offset {
            coverage::footprint(y - y_offset, clipped.source_height, rows)
        } else {
            Footprint { first: 0, weights: Vec::new() }
        };
        let mut x: u32 = 0;
        assert((y * target_width + 0) * 4 == y * target_width * 4);
        while x < target_width
            invariant
                crop_readable(source@, clipped, cols, rows) || overruns(
                    source@,
                    clipped,
                    cols,
                    rows,
                ),
                target_width * target_height * 4 <= usize::MAX,
                cols == content_len(target_width, x_offset),
                rows == content_len(target_height, y_offset),
                downscale == downscales(clipped, cols, rows),
                downscale && rows > 0 ==> columns@.len() == cols,
                forall|i: int|
                    0 <= i < columns@.len() ==> (#[trigger] columns@[i]).covers(
                        i,
                        clipped.source_width as int,
                        cols as int,
                    ),
                downscale && y >= y_offset ==> row.covers(
                    y - y_offset,
                    clipped.source_height as int,
                    rows as int,
                ),
                whole == scaled_rgba(
                    source@,
                    clipped,
                    target_width,
                    target_height,
                    x_offset,
                    y_offset,
                ),
                y < target_height,
                x <= target_width,
                target@ == whole.take((y * target_width + x) * 4),
                !downscale ==> copied_before(
                    source@,
                    clipped,
                    cols,
                    rows,
                    x - x_offset,
                    y - y_offset,
                ),
            decreases target_width - x,
        {
            let pixel: [u8; 4] = if x < x_offset || y < y_offset {
                [0, 0, 0, 0]
            } else if downscale {
                // Integrate the source pixel footprint instead of dropping thin strokes.
                averaged_pixel(
                    source,
                    clipped,
                    cols,
                    rows,
                    x - x_offset,
                    y - y_offset,
                    &columns[(x - x_offset) as usize],
                    &row,
                )
            } else {
                let ghost at = (x - x_offset, y - y_offset);
                proof {
                    lemma_next_pixel(source@, clipped, cols, rows, at.0, at.1);
                }
                let copied = nearest_pixel(
                    source,
                    clipped,
                    cols,
                    rows,
                    x - x_offset,
                    y - y_offset,
                );
                match copied {
                    Some(pixel) => pixel,
                    None => {
                        assert(copying_stops_at(source@, clipped, cols, rows, at.0, at.1));
                        return None;
                    },
                }
            };
            push_pixel(&mut target, pixel);
            proof {
                let start = (y * target_width + x) * 4;
                lemma_target_index(target_width, target_height, x as int, y as int, 3);
                assert(0 <= start && start + 4 <= whole.len());
                assert forall|c: int| 0 <= c < 4 implies whole[start + c] == #[trigger] pixel@[c] by {
                    lemma_target_index(target_width, target_height, x as int, y as int, c);
                }
                assert((y * target_width + (x + 1)) * 4 == start + 4);
                assert(target@ =~= whole.take(start + 4));
            }
            x += 1;
        }
        assert((y * target_width + target_width) * 4 == (y + 1) * target_width * 4)
            by (nonlinear_arith);
        y += 1;
    }
    assert(target_height * target_width == target_width * target_height) by (nonlinear_arith);
    assert(whole.take(whole.len() as int) =~= whole);
    Some(target)
}

proof fn lemma_rounding_stays_between(n: int, d: int, lo: int, hi: int)
    requires
        0 < d,
        lo * d <= n <= hi * d,
    ensures
        lo <= rounded_quotient(n, d) <= hi,
{
    let q = rounded_quotient(n, d);
    assert(lo <= q <= hi) by (nonlinear_arith)
        requires
            0 < d,
            lo * d <= n <= hi * d,
            q == (2 * n + d) / (2 * d),
    ;
}

/// An averaged color channel lies between the darkest and the brightest visible
/// pixel under the destination pixel: transparent pixels leave no trace in it.
pub proof fn averaged_color_stays_between(w: Window, c: int, lo: int, hi: int)
    requires
        w.inside(),
        0 <= c < 3,
        w.total(Measure::Alpha) > 0,
        forall|sx: int, sy: int|
            0 <= sx < w.crop.width && 0 <= sy < w.crop.height && w.shared(sx, sy) > 0
                && w.crop.channel(sx, sy, 3) > 0 ==> lo <= #[trigger] w.crop.channel(sx, sy, c)
                <= hi,
    ensures
        lo <= w.averaged(c) <= hi,
{
    let color = Measure::Color(c);
    assert forall|sx: int, sy: int|
        0 <= sx < w.crop.width && 0 <= sy < w.crop.height implies lo * w.term(
        Measure::Alpha,
        sx,
        sy,
    ) <= 1 * #[trigger] w.term(color, sx, sy) <= hi * w.term(Measure::Alpha, sx, sy) by {
        lemma_term_is_not_negative(w, Measure::Alpha, sx, sy);
        let shared = w.shared(sx, sy);
        let alpha = w.crop.channel(sx, sy, 3);
        let shade = w.crop.channel(sx, sy, c);
        let visible = w.term(Measure::Alpha, sx, sy);
        assert(visible > 0 ==> shared > 0 && alpha > 0) by (nonlinear_arith)
            requires
                visible == shared * alpha,
                0 <= shared,
                0 <= alpha,
        ;
        assert(lo * visible <= visible * shade <= hi * visible) by (nonlinear_arith)
            requires
                0 <= visible,
                visible > 0 ==> lo <= shade <= hi,
        ;
    }
    assert forall|sx: int, sy: int|
        0 <= sx < w.crop.width && 0 <= sy < w.crop.height implies lo * #[trigger] w.term(
        Measure::Alpha,
        sx,
        sy,
    ) <= 1 * w.term(color, sx, sy) by {
        assert(1 * w.term(color, sx, sy) >= lo * w.term(Measure::Alpha, sx, sy));
    }
    lemma_total_scaled_le(w, Measure::Alpha, lo, color, 1);
    lemma_total_scaled_le(w, color, 1, Measure::Alpha, hi);
    lemma_rounding_stays_between(w.total(color), w.total(Measure::Alpha), lo, hi);
}

/// The averaged alpha lies between the least and the most opaque pixel under the
/// destination pixel.
pub proof fn averaged_alpha_stays_between(w: Window, lo: int, hi: int)
    requires
        w.inside(),
        0 < w.crop.width,
        0 < w.crop.height,
        forall|sx: int, sy: int|
            0 <= sx < w.crop.width && 0 <= sy < w.crop.height && w.shared(sx, sy) > 0 ==> lo
                <= #[trigger] w.crop.channel(sx, sy, 3) <= hi,
    ensures
        lo <= w.averaged(3) <= hi,
{
    lemma_total_area(w);
    let area = w.crop.width * w.crop.height;
    assert(0 < area) by (nonlinear_arith)
        requires
            area == w.crop.width * w.crop.height,
            0 < w.crop.width,
            0 < w.crop.height,
    ;
    assert forall|sx: int, sy: int|
        0 <= sx < w.crop.width && 0 <= sy < w.crop.height implies lo * w.term(
        Measure::Area,
        sx,
        sy,
    ) <= 1 * #[trigger] w.term(Measure::Alpha, sx, sy) <= hi * w.term(Measure::Area, sx, sy) by {
        lemma_term_is_not_negative(w, Measure::Area, sx, sy);
        let shared = w.shared(sx, sy);
        let alpha = w.crop.channel(sx, sy, 3);
        assert(lo * shared <= shared * alpha <= hi * shared) by (nonlinear_arith)
            requires
                0 <= shared,
                shared > 0 ==> lo <= alpha <= hi,
        ;
    }
    assert forall|sx: int, sy: int|
        0 <= sx < w.crop.width && 0 <= sy < w.crop.height implies lo * #[trigger] w.term(
        Measure::Area,
        sx,
        sy,
    ) <= 1 * w.term(Measure::Alpha, sx, sy) by {
        assert(1 * w.term(Measure::Alpha, sx, sy) >= lo * w.term(Measure::Area, sx, sy));
    }
    lemma_total_scaled_le(w, Measure::Area, lo, Measure::Alpha, 1);
    lemma_total_scaled_le(w, Measure::Alpha, 1, Measure::Area, hi);
    let alpha = w.total(Measure::Alpha);
    lemma_rounding_stays_between(alpha, area, lo, hi);
    if alpha == 0 {
        assert(rounded_quotient(0, area) == 0) by (nonlinear_arith)
            requires
                0 < area,
                rounded_quotient(0, area) == (2 * 0 + area) / (2 * area),
        ;
    }
}

/// Every channel of a target is a byte, so nothing is cut off where the target
/// is stored.
pub proof fn target_channels_are_bytes(
    source: RgbaView,
    clipped: ClippedPlacement,
    width: u32,
    height: u32,
    x_offset: u32,
    y_offset: u32,
    x: int,
    y: int,
    c: int,
)
    requires
        0 <= x < width,
        0 <= y < height,
        0 <= c < 4,
    ensures
        0 <= target_channel(source, clipped, width, height, x_offset, y_offset, x, y, c) <= 255,
        scaled_rgba(source, clipped, width, height, x_offset, y_offset)[(y * width + x) * 4 + c]
            == target_channel(source, clipped, width, height, x_offset, y_offset, x, y, c),
{
    lemma_target_index(width, height, x, y, c);
    if x >= x_offset && y >= y_offset {
        let cols = content_len(width, x_offset);
        let rows = content_len(height, y_offset);
        if downscales(clipped, cols, rows) {
            let w = window(source, clipped, cols, rows, x - x_offset, y - y_offset);
            lemma_total_bounds(w);
            if w.total(Measure::Alpha) > 0 {
                if c == 3 {
                    let area = w.crop.width * w.crop.height;
                    lemma_rounding_stays_between(w.total(Measure::Alpha), area, 0, 255);
                } else {
                    assert(0 <= w.total(Measure::Color(c)));
                    lemma_rounding_stays_between(
                        w.total(Measure::Color(c)),
                        w.total(Measure::Alpha),
                        0,
                        255,
                    );
                }
            }
        }
    }
}

/// A visible color that fills the crop fills the content, at every size.
pub proof fn one_color_is_kept(
    source: RgbaView,
    clipped: ClippedPlacement,
    cols: u32,
    rows: u32,
    color: Seq<int>,
    x: int,
    y: int,
    c: int,
)
    requires
        0 <= x < cols,
        0 <= y < rows,
        0 <= c < 4,
        0 < clipped.source_width,
        0 < clipped.source_height,
        color.len() == 4,
        color[3] > 0,
        forall|sx: int, sy: int, k: int|
            0 <= sx < clipped.source_width && 0 <= sy < clipped.source_height && 0 <= k < 4
                ==> #[trigger] crop_of(source, clipped).channel(sx, sy, k) == color[k],
    ensures
        content_channel(source, clipped, cols, rows, x, y, c) == color[c],
{
    let crop = crop_of(source, clipped);
    if downscales(clipped, cols, rows) {
        let w = window(source, clipped, cols, rows, x, y);
        averaged_alpha_stays_between(w, color[3], color[3]);
        lemma_total_bounds(w);
        assert(w.total(Measure::Alpha) > 0);
        if c < 3 {
            averaged_color_stays_between(w, c, color[c], color[c]);
        }
    } else {
        lemma_nearest_is_inside(x, crop.width, cols as int);
        lemma_nearest_is_inside(y, crop.height, rows as int);
    }
}

/// A crop that is shown at its own size is copied pixel by pixel.
pub proof fn own_size_is_copied(
    source: RgbaView,
    clipped: ClippedPlacement,
    x: int,
    y: int,
    c: int,
)
    requires
        0 <= x < clipped.source_width,
        0 <= y < clipped.source_height,
    ensures
        content_channel(
            source,
            clipped,
            clipped.source_width,
            clipped.source_height,
            x,
            y,
            c,
        ) == crop_of(source, clipped).channel(x, y, c),
{
    vstd::arithmetic::div_mod::lemma_div_by_multiple(x, clipped.source_width as int);
    vstd::arithmetic::div_mod::lemma_div_by_multiple(y, clipped.source_height as int);
}

pub proof fn lemma_same_total(a: Window, b: Window, m: Measure)
    requires
        same_raster(a, b),
        forall|sx: int, sy: int|
            0 <= sx < a.crop.width && 0 <= sy < a.crop.height ==> #[trigger] a.term(m, sx, sy)
                == b.term(m, sx, sy),
    ensures
        a.total(m) == b.total(m),
{
    assert forall|sy: int| 0 <= sy < a.crop.height implies #[trigger] a.row_sums(m)(sy)
        == b.row_sums(m)(sy) by {
        assert forall|sx: int| 0 <= sx < a.crop.width implies #[trigger] a.row_terms(m, sy)(sx)
            == b.row_terms(m, sy)(sx) by {
            assert(a.term(m, sx, sy) == b.term(m, sx, sy));
        }
        coverage::lemma_sum_same(a.row_terms(m, sy), b.row_terms(m, sy), 0, a.crop.width);
    }
    coverage::lemma_sum_same(a.row_sums(m), b.row_sums(m), 0, a.crop.height);
}

/// Both are the same pixel of the same raster, over crops of one size.
pub open spec fn same_raster(a: Window, b: Window) -> bool {
    &&& a.cols == b.cols
    &&& a.rows == b.rows
    &&& a.x == b.x
    &&& a.y == b.y
    &&& a.crop.width == b.crop.width
    &&& a.crop.height == b.crop.height
}

/// Two crops, of two sources, have one size and show the same pixels.
pub open spec fn same_crops(
    a: RgbaView,
    in_a: ClippedPlacement,
    b: RgbaView,
    in_b: ClippedPlacement,
) -> bool {
    &&& in_a.source_width == in_b.source_width
    &&& in_a.source_height == in_b.source_height
    &&& forall|sx: int, sy: int, c: int|
        0 <= sx < in_a.source_width && 0 <= sy < in_a.source_height && 0 <= c < 4
            ==> #[trigger] crop_of(a, in_a).channel(sx, sy, c) == crop_of(b, in_b).channel(
            sx,
            sy,
            c,
        )
}

proof fn lemma_content_is_the_crop(
    a: RgbaView,
    in_a: ClippedPlacement,
    b: RgbaView,
    in_b: ClippedPlacement,
    cols: u32,
    rows: u32,
    x: int,
    y: int,
    c: int,
)
    requires
        same_crops(a, in_a, b, in_b),
        0 < in_a.source_width,
        0 < in_a.source_height,
        0 <= x < cols,
        0 <= y < rows,
        0 <= c < 4,
    ensures
        content_channel(a, in_a, cols, rows, x, y, c) == content_channel(
            b,
            in_b,
            cols,
            rows,
            x,
            y,
            c,
        ),
{
    if downscales(in_a, cols, rows) {
        let v = window(a, in_a, cols, rows, x, y);
        let w = window(b, in_b, cols, rows, x, y);
        lemma_same_total(v, w, Measure::Alpha);
        if c < 3 {
            lemma_same_total(v, w, Measure::Color(c));
        }
    } else {
        lemma_nearest_is_inside(x, in_a.source_width as int, cols as int);
        lemma_nearest_is_inside(y, in_a.source_height as int, rows as int);
    }
}

/// Nothing but the pixels of the crop matters: crops that show the same pixels are
/// scaled to the same target, wherever they lie, and whatever lies around them. A
/// crop has to hold a pixel, since an empty one is shown by the pixel where it
/// starts.
pub proof fn only_the_crop_is_shown(
    a: RgbaView,
    in_a: ClippedPlacement,
    b: RgbaView,
    in_b: ClippedPlacement,
    width: u32,
    height: u32,
    x_offset: u32,
    y_offset: u32,
)
    requires
        same_crops(a, in_a, b, in_b),
        0 < in_a.source_width,
        0 < in_a.source_height,
    ensures
        scaled_rgba(a, in_a, width, height, x_offset, y_offset) == scaled_rgba(
            b,
            in_b,
            width,
            height,
            x_offset,
            y_offset,
        ),
{
    let first = scaled_rgba(a, in_a, width, height, x_offset, y_offset);
    let second = scaled_rgba(b, in_b, width, height, x_offset, y_offset);
    assert forall|k: int| 0 <= k < first.len() implies first[k] == second[k] by {
        lemma_pixel_of_index(width, height, k);
        let x = (k / 4) % (width as int);
        let y = (k / 4) / (width as int);
        if x_offset <= x && y_offset <= y {
            lemma_content_is_the_crop(
                a,
                in_a,
                b,
                in_b,
                content_len(width, x_offset),
                content_len(height, y_offset),
                x - x_offset,
                y - y_offset,
                k % 4,
            );
        }
    }
    assert(first =~= second);
}

/// A content overruns only where it is copied, and reaches a byte of the source whose
/// place is no `usize`.
pub proof fn only_far_crops_overrun(
    source: RgbaView,
    clipped: ClippedPlacement,
    cols: u32,
    rows: u32,
)
    requires
        overruns(source, clipped, cols, rows),
    ensures
        0 < cols,
        0 < rows,
        clipped.source_width <= cols,
        clipped.source_height <= rows,
        usize::MAX < ((clipped.source_y + clipped.source_height) * source.width
            + clipped.source_x + clipped.source_width) * 4,
{
    let (x, y) = choose|x: int, y: int| #[trigger]
        copying_stops_at(source, clipped, cols, rows, x, y);
    let crop = crop_of(source, clipped);
    let sx = nearest(x, crop.width, cols as int);
    let sy = nearest(y, crop.height, rows as int);
    assert(sx <= crop.width) by (nonlinear_arith)
        requires
            sx == (x * crop.width) / (cols as int),
            0 <= x < cols,
            0 <= crop.width,
    ;
    assert(sy <= crop.height) by (nonlinear_arith)
        requires
            sy == (y * crop.height) / (rows as int),
            0 <= y < rows,
            0 <= crop.height,
    ;
    assert((crop.y + sy) * crop.stride <= (crop.y + crop.height) * crop.stride)
        by (nonlinear_arith)
        requires
            sy <= crop.height,
            0 <= crop.stride,
    ;
}

} // verus!
