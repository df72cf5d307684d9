//! What a scaled picture shows, said of the bytes of source and target alone.
//!
//! A crop and the content it is scaled to are laid over the same stretch, which is
//! cut into units along both axes: `cols * source_width` units across and
//! `rows * source_height` down. Unit `u` across lies in source column `u / cols`
//! and in target column `u / source_width`, and so it is down. A pixel that is
//! scaled down is the mean of its units.

use crate::coverage;
use crate::pixels::RgbaView;
use crate::placement::ClippedPlacement;
use crate::resample;
use crate::resample::{Measure, Window};
use vstd::prelude::*;

verus! {

/// Byte `c` of the pixel in column `sx`, row `sy` of the crop.
pub open spec fn source_byte(
    source: RgbaView,
    clipped: ClippedPlacement,
    sx: int,
    sy: int,
    c: int,
) -> int {
    let column = clipped.source_x + sx;
    let row = clipped.source_y + sy;
    source.data[(row * source.width + column) * 4 + c] as int
}

/// The sum of `f(column, row)` over the units from `(u0, v0)` up to `(u1, v1)`, each
/// counted for the source column and row that it lies in.
pub open spec fn unit_sum(
    f: spec_fn(int, int) -> int,
    cols: int,
    rows: int,
    u0: int,
    u1: int,
    v0: int,
    v1: int,
) -> int {
    coverage::sum(|v: int| coverage::sum(|u: int| f(u / cols, v / rows), u0, u1), v0, v1)
}

/// `q` is `n / d` to the nearest whole number, halves up.
pub open spec fn nearest_quotient(q: int, n: int, d: int) -> bool {
    &&& (2 * q - 1) * d <= 2 * n
    &&& 2 * n < (2 * q + 1) * d
}

/// Source pixel `s`, of `source_len` in a row, meets destination pixel `dest`, of
/// `dest_len`: it ends after the start of `dest` and starts before its end.
pub open spec fn meets(dest: int, source_len: int, dest_len: int, s: int) -> bool {
    &&& dest * source_len < (s + 1) * dest_len
    &&& s * dest_len < (dest + 1) * source_len
}

/// How many units from `u0` up to `u1` lie in source pixel `s`.
spec fn units_in(u0: int, u1: int, dest_len: int, s: int) -> int {
    let begin = if u0 >= s * dest_len {
        u0
    } else {
        s * dest_len
    };
    let end = if u1 <= (s + 1) * dest_len {
        u1
    } else {
        (s + 1) * dest_len
    };
    if begin < end {
        end - begin
    } else {
        0
    }
}

/// Sums that differ at one place differ by the difference there.
proof fn lemma_sum_differs_at(
    f: spec_fn(int) -> int,
    g: spec_fn(int) -> int,
    lo: int,
    hi: int,
    at: int,
)
    requires
        lo <= at < hi,
        forall|i: int| lo <= i < hi && i != at ==> #[trigger] f(i) == g(i),
    ensures
        coverage::sum(f, lo, hi) == coverage::sum(g, lo, hi) + f(at) - g(at),
    decreases hi - lo,
{
    if at == hi - 1 {
        coverage::lemma_sum_same(f, g, lo, hi - 1);
    } else {
        lemma_sum_differs_at(f, g, lo, hi - 1, at);
        assert(f(hi - 1) == g(hi - 1));
    }
}

/// A factor can be taken out of a sum.
proof fn lemma_sum_scaled(f: spec_fn(int) -> int, g: spec_fn(int) -> int, a: int, lo: int, hi: int)
    requires
        forall|i: int| lo <= i < hi ==> #[trigger] f(i) == a * g(i),
    ensures
        coverage::sum(f, lo, hi) == a * coverage::sum(g, lo, hi),
    decreases hi - lo,
{
    if lo < hi {
        lemma_sum_scaled(f, g, a, lo, hi - 1);
        assert(f(hi - 1) == a * g(hi - 1));
        vstd::arithmetic::mul::lemma_mul_is_distributive_add(
            a,
            coverage::sum(g, lo, hi - 1),
            g(hi - 1),
        );
    } else {
        assert(a * 0 == 0);
    }
}

/// Counting units one by one is counting, for each source pixel, its units.
proof fn lemma_units(
    g: spec_fn(int) -> int,
    source_len: int,
    dest_len: int,
    u0: int,
    u1: int,
)
    requires
        0 < dest_len,
        0 <= u0 <= u1 <= source_len * dest_len,
    ensures
        coverage::sum(|u: int| g(u / dest_len), u0, u1) == coverage::sum(
            |s: int| units_in(u0, u1, dest_len, s) * g(s),
            0,
            source_len,
        ),
    decreases u1 - u0,
{
    let by_unit = |u: int| g(u / dest_len);
    let by_pixel = |s: int| units_in(u0, u1, dest_len, s) * g(s);
    if u0 == u1 {
        assert forall|s: int| 0 <= s < source_len implies #[trigger] by_pixel(s) == 0 * g(s) by {}
        lemma_sum_scaled(by_pixel, g, 0, 0, source_len);
        assert(0 * coverage::sum(g, 0, source_len) == 0);
    } else {
        let u = u1 - 1;
        let before = |s: int| units_in(u0, u, dest_len, s) * g(s);
        lemma_units(g, source_len, dest_len, u0, u);
        let at = u / dest_len;
        assert(at * dest_len <= u && u < (at + 1) * dest_len && 0 <= at && at < source_len)
            by (nonlinear_arith)
            requires
                at == u / dest_len,
                0 < dest_len,
                0 <= u,
                u < source_len * dest_len,
        ;
        assert forall|s: int| 0 <= s < source_len && s != at implies #[trigger] by_pixel(s)
            == before(s) by {
            assert(u < s * dest_len || (s + 1) * dest_len <= u) by (nonlinear_arith)
                requires
                    s != at,
                    at * dest_len <= u,
                    u < (at + 1) * dest_len,
                    0 < dest_len,
            ;
        }
        lemma_sum_differs_at(by_pixel, before, 0, source_len, at);
        let n = units_in(u0, u, dest_len, at);
        assert(units_in(u0, u1, dest_len, at) == n + 1);
        assert((n + 1) * g(at) == n * g(at) + g(at)) by (nonlinear_arith);
        assert(by_unit(u) == g(at));
    }
}

/// The units of a destination pixel in a source pixel are those that they share.
proof fn lemma_units_of_pixel(g: spec_fn(int) -> int, dest: int, source_len: int, dest_len: int)
    requires
        0 <= dest < dest_len,
        0 <= source_len,
    ensures
        coverage::sum(
            |u: int| g(u / dest_len),
            dest * source_len,
            (dest + 1) * source_len,
        ) == coverage::sum(
            |s: int| coverage::overlap(dest, source_len, dest_len, s) * g(s),
            0,
            source_len,
        ),
{
    let u0 = dest * source_len;
    let u1 = (dest + 1) * source_len;
    assert(0 <= u0 <= u1 <= source_len * dest_len) by (nonlinear_arith)
        requires
            u0 == dest * source_len,
            u1 == (dest + 1) * source_len,
            0 <= dest < dest_len,
            0 <= source_len,
    ;
    lemma_units(g, source_len, dest_len, u0, u1);
    coverage::lemma_sum_same(
        |s: int| units_in(u0, u1, dest_len, s) * g(s),
        |s: int| coverage::overlap(dest, source_len, dest_len, s) * g(s),
        0,
        source_len,
    );
}

/// What a total adds up of each pixel, per unit shared.
spec fn per_unit(w: Window, m: Measure) -> spec_fn(int, int) -> int {
    |sx: int, sy: int|
        match m {
            Measure::Area => 1,
            Measure::Alpha => w.crop.channel(sx, sy, 3),
            Measure::Color(c) => w.crop.channel(sx, sy, 3) * w.crop.channel(sx, sy, c),
        }
}

/// The totals of a window are sums over its units.
proof fn lemma_total_by_units(w: Window, m: Measure)
    requires
        w.inside(),
    ensures
        w.total(m) == unit_sum(
            per_unit(w, m),
            w.cols,
            w.rows,
            w.x * w.crop.width,
            (w.x + 1) * w.crop.width,
            w.y * w.crop.height,
            (w.y + 1) * w.crop.height,
        ),
{
    let f = per_unit(w, m);
    let u0 = w.x * w.crop.width;
    let u1 = (w.x + 1) * w.crop.width;
    let v0 = w.y * w.crop.height;
    let v1 = (w.y + 1) * w.crop.height;
    let line = |sy: int| coverage::sum(|u: int| f(u / w.cols, sy), u0, u1);
    lemma_units_of_pixel(line, w.y, w.crop.height, w.rows);
    coverage::lemma_sum_same(
        |v: int| coverage::sum(|u: int| f(u / w.cols, v / w.rows), u0, u1),
        |v: int| line(v / w.rows),
        v0,
        v1,
    );
    let weighted = |sy: int| coverage::overlap(w.y, w.crop.height, w.rows, sy) * line(sy);
    assert forall|sy: int| 0 <= sy < w.crop.height implies #[trigger] w.row_sums(m)(sy)
        == weighted(sy) by {
        let down = coverage::overlap(w.y, w.crop.height, w.rows, sy);
        let g = |sx: int| f(sx, sy);
        lemma_units_of_pixel(g, w.x, w.crop.width, w.cols);
        let across = |sx: int| coverage::overlap(w.x, w.crop.width, w.cols, sx) * g(sx);
        coverage::lemma_sum_same(
            |u: int| f(u / w.cols, sy),
            |u: int| g(u / w.cols),
            u0,
            u1,
        );
        assert(line(sy) == coverage::sum(across, 0, w.crop.width));
        assert forall|sx: int| 0 <= sx < w.crop.width implies #[trigger] w.row_terms(m, sy)(sx)
            == down * across(sx) by {
            let a = coverage::overlap(w.x, w.crop.width, w.cols, sx);
            let alpha = w.crop.channel(sx, sy, 3);
            match m {
                Measure::Area => {
                    assert(a * down == down * (a * 1)) by (nonlinear_arith);
                },
                Measure::Alpha => {
                    assert(a * down * alpha == down * (a * alpha)) by (nonlinear_arith);
                },
                Measure::Color(c) => {
                    let shade = w.crop.channel(sx, sy, c);
                    assert(a * down * alpha * shade == down * (a * (alpha * shade)))
                        by (nonlinear_arith);
                },
            }
        }
        lemma_sum_scaled(w.row_terms(m, sy), across, down, 0, w.crop.width);
    }
    coverage::lemma_sum_same(w.row_sums(m), weighted, 0, w.crop.height);
}

proof fn lemma_unit_sum_same(
    f: spec_fn(int, int) -> int,
    g: spec_fn(int, int) -> int,
    cols: int,
    rows: int,
    u0: int,
    u1: int,
    v0: int,
    v1: int,
)
    requires
        forall|sx: int, sy: int| #[trigger] f(sx, sy) == g(sx, sy),
    ensures
        unit_sum(f, cols, rows, u0, u1, v0, v1) == unit_sum(g, cols, rows, u0, u1, v0, v1),
{
    let one = |v: int| coverage::sum(|u: int| f(u / cols, v / rows), u0, u1);
    let other = |v: int| coverage::sum(|u: int| g(u / cols, v / rows), u0, u1);
    assert forall|v: int| v0 <= v < v1 implies #[trigger] one(v) == other(v) by {
        coverage::lemma_sum_same(
            |u: int| f(u / cols, v / rows),
            |u: int| g(u / cols, v / rows),
            u0,
            u1,
        );
    }
    coverage::lemma_sum_same(one, other, v0, v1);
}

proof fn lemma_rounded_quotient(n: int, d: int)
    requires
        0 < d,
    ensures
        nearest_quotient(resample::rounded_quotient(n, d), n, d),
{
    let q = resample::rounded_quotient(n, d);
    assert((2 * q - 1) * d <= 2 * n && 2 * n < (2 * q + 1) * d) by (nonlinear_arith)
        requires
            q == (2 * n + d) / (2 * d),
            0 < d,
    ;
}

/// The target holds four bytes per pixel, and its padding is transparent black: that
/// is all above `y_offset` and all before `x_offset`.
pub proof fn padding_comes_first(
    source: RgbaView,
    clipped: ClippedPlacement,
    width: u32,
    height: u32,
    x_offset: u32,
    y_offset: u32,
    x: int,
    y: int,
    c: int,
)
    requires
        0 <= x < width,
        0 <= y < height,
        x < x_offset || y < y_offset,
        0 <= c < 4,
    ensures
        ({
            let target = resample::scaled_rgba(
                source,
                clipped,
                width,
                height,
                x_offset,
                y_offset,
            );
            &&& target.len() == width * height * 4
            &&& target[(y * width + x) * 4 + c] == 0
        }),
{
    resample::target_channels_are_bytes(
        source,
        clipped,
        width,
        height,
        x_offset,
        y_offset,
        x,
        y,
        c,
    );
    assert(0 <= width * height) by (nonlinear_arith)
        requires
            0 <= width,
            0 <= height,
    ;
}

/// Where the crop has no more columns and rows than the content, each pixel is the
/// one of the source that its upper left corner lies in.
pub proof fn enlarged_pixels_are_copies(
    source: RgbaView,
    clipped: ClippedPlacement,
    width: u32,
    height: u32,
    x_offset: u32,
    y_offset: u32,
    x: int,
    y: int,
    sx: int,
    sy: int,
    c: int,
)
    requires
        x_offset <= x < width,
        y_offset <= y < height,
        clipped.source_width <= width - x_offset,
        clipped.source_height <= height - y_offset,
        sx * (width - x_offset) <= (x - x_offset) * clipped.source_width < (sx + 1) * (width
            - x_offset),
        sy * (height - y_offset) <= (y - y_offset) * clipped.source_height < (sy + 1) * (height
            - y_offset),
        0 <= c < 4,
    ensures
        resample::scaled_rgba(source, clipped, width, height, x_offset, y_offset)[(y * width + x)
            * 4 + c] == source_byte(source, clipped, sx, sy, c),
{
    resample::target_channels_are_bytes(
        source,
        clipped,
        width,
        height,
        x_offset,
        y_offset,
        x,
        y,
        c,
    );
    let cols = width - x_offset;
    let rows = height - y_offset;
    let across = (x - x_offset) * clipped.source_width;
    let down = (y - y_offset) * clipped.source_height;
    assert(across / cols == sx) by (nonlinear_arith)
        requires
            sx * cols <= across,
            across < (sx + 1) * cols,
            0 < cols,
    ;
    assert(down / rows == sy) by (nonlinear_arith)
        requires
            sy * rows <= down,
            down < (sy + 1) * rows,
            0 < rows,
    ;
}

/// Where the crop has more columns or rows than the content, each pixel is the mean
/// of its units. Alpha is the mean of alpha. A color is the mean of that color, each
/// unit counted by its alpha. Where all its units are transparent, the pixel is
/// transparent black.
pub proof fn reduced_pixels_are_means(
    source: RgbaView,
    clipped: ClippedPlacement,
    width: u32,
    height: u32,
    x_offset: u32,
    y_offset: u32,
    x: int,
    y: int,
    c: int,
)
    requires
        x_offset <= x < width,
        y_offset <= y < height,
        clipped.source_width > width - x_offset || clipped.source_height > height - y_offset,
        0 <= c < 3,
    ensures
        ({
            let target = resample::scaled_rgba(
                source,
                clipped,
                width,
                height,
                x_offset,
                y_offset,
            );
            let first = (y * width + x) * 4;
            let cols = width - x_offset;
            let rows = height - y_offset;
            let u0 = (x - x_offset) * clipped.source_width;
            let u1 = (x - x_offset + 1) * clipped.source_width;
            let v0 = (y - y_offset) * clipped.source_height;
            let v1 = (y - y_offset + 1) * clipped.source_height;
            let alpha = unit_sum(
                |sx: int, sy: int| source_byte(source, clipped, sx, sy, 3),
                cols,
                rows,
                u0,
                u1,
                v0,
                v1,
            );
            let shade = unit_sum(
                |sx: int, sy: int|
                    source_byte(source, clipped, sx, sy, 3) * source_byte(
                        source,
                        clipped,
                        sx,
                        sy,
                        c,
                    ),
                cols,
                rows,
                u0,
                u1,
                v0,
                v1,
            );
            if alpha == 0 {
                target[first + c] == 0 && target[first + 3] == 0
            } else {
                &&& alpha > 0
                &&& nearest_quotient(
                    target[first + 3] as int,
                    alpha,
                    clipped.source_width * clipped.source_height,
                )
                &&& nearest_quotient(target[first + c] as int, shade, alpha)
            }
        }),
{
    let cols = (width - x_offset) as u32;
    let rows = (height - y_offset) as u32;
    let w = resample::window(source, clipped, cols, rows, x - x_offset, y - y_offset);
    resample::target_channels_are_bytes(
        source,
        clipped,
        width,
        height,
        x_offset,
        y_offset,
        x,
        y,
        c,
    );
    resample::target_channels_are_bytes(
        source,
        clipped,
        width,
        height,
        x_offset,
        y_offset,
        x,
        y,
        3,
    );
    let u0 = w.x * w.crop.width;
    let u1 = (w.x + 1) * w.crop.width;
    let v0 = w.y * w.crop.height;
    let v1 = (w.y + 1) * w.crop.height;
    let opacity = |sx: int, sy: int| source_byte(source, clipped, sx, sy, 3);
    let color = |sx: int, sy: int|
        source_byte(source, clipped, sx, sy, 3) * source_byte(source, clipped, sx, sy, c);
    lemma_total_by_units(w, Measure::Alpha);
    lemma_total_by_units(w, Measure::Color(c));
    lemma_unit_sum_same(per_unit(w, Measure::Alpha), opacity, w.cols, w.rows, u0, u1, v0, v1);
    lemma_unit_sum_same(per_unit(w, Measure::Color(c)), color, w.cols, w.rows, u0, u1, v0, v1);
    resample::lemma_total_bounds(w);
    if w.total(Measure::Alpha) > 0 {
        lemma_rounded_quotient(w.total(Measure::Alpha), w.crop.width * w.crop.height);
        lemma_rounded_quotient(w.total(Measure::Color(c)), w.total(Measure::Alpha));
    }
}

proof fn lemma_shared_meets(w: Window, sx: int, sy: int)
    requires
        w.shared(sx, sy) > 0,
    ensures
        meets(w.x, w.crop.width, w.cols, sx),
        meets(w.y, w.crop.height, w.rows, sy),
{
    let a = coverage::overlap(w.x, w.crop.width, w.cols, sx);
    let b = coverage::overlap(w.y, w.crop.height, w.rows, sy);
    assert(0 < a && 0 < b) by (nonlinear_arith)
        requires
            0 <= a,
            0 <= b,
            a * b > 0,
    ;
}

proof fn lemma_nearest_meets(dest: int, source_len: int, dest_len: int)
    requires
        0 <= dest < dest_len,
        0 < source_len,
    ensures
        0 <= resample::nearest(dest, source_len, dest_len) < source_len,
        meets(dest, source_len, dest_len, resample::nearest(dest, source_len, dest_len)),
{
    let s = resample::nearest(dest, source_len, dest_len);
    resample::lemma_nearest_is_inside(dest, source_len, dest_len);
    assert(s * dest_len <= dest * source_len && dest * source_len < (s + 1) * dest_len && dest
        * source_len < (dest + 1) * source_len) by (nonlinear_arith)
        requires
            s == (dest * source_len) / dest_len,
            0 < dest_len,
            0 < source_len,
    ;
}

/// A pixel shows its own part of the crop, at every size: where all source pixels
/// that meet it have one visible color, it has that color.
pub proof fn pixels_show_what_they_cover(
    source: RgbaView,
    clipped: ClippedPlacement,
    width: u32,
    height: u32,
    x_offset: u32,
    y_offset: u32,
    x: int,
    y: int,
    c: int,
    color: Seq<int>,
)
    requires
        x_offset <= x < width,
        y_offset <= y < height,
        0 < clipped.source_width,
        0 < clipped.source_height,
        0 <= c < 4,
        color.len() == 4,
        color[3] > 0,
        forall|sx: int, sy: int, k: int|
            0 <= sx < clipped.source_width && 0 <= sy < clipped.source_height && 0 <= k < 4
                && meets(x - x_offset, clipped.source_width as int, width - x_offset, sx) && meets(
                y - y_offset,
                clipped.source_height as int,
                height - y_offset,
                sy,
            ) ==> #[trigger] source_byte(source, clipped, sx, sy, k) == color[k],
    ensures
        resample::scaled_rgba(source, clipped, width, height, x_offset, y_offset)[(y * width + x)
            * 4 + c] == color[c],
{
    let cols = (width - x_offset) as u32;
    let rows = (height - y_offset) as u32;
    let crop = resample::crop_of(source, clipped);
    resample::target_channels_are_bytes(
        source,
        clipped,
        width,
        height,
        x_offset,
        y_offset,
        x,
        y,
        c,
    );
    if resample::downscales(clipped, cols, rows) {
        let w = resample::window(source, clipped, cols, rows, x - x_offset, y - y_offset);
        assert forall|sx: int, sy: int, k: int|
            0 <= sx < w.crop.width && 0 <= sy < w.crop.height && 0 <= k < 4 && w.shared(sx, sy)
                > 0 implies #[trigger] w.crop.channel(sx, sy, k) == color[k] by {
            lemma_shared_meets(w, sx, sy);
            assert(source_byte(source, clipped, sx, sy, k) == color[k]);
        }
        resample::averaged_alpha_stays_between(w, color[3], color[3]);
        resample::lemma_total_bounds(w);
        assert(w.total(Measure::Alpha) > 0);
        if c < 3 {
            resample::averaged_color_stays_between(w, c, color[c], color[c]);
        }
    } else {
        let sx = resample::nearest(x - x_offset, crop.width, cols as int);
        let sy = resample::nearest(y - y_offset, crop.height, rows as int);
        lemma_nearest_meets(x - x_offset, crop.width, cols as int);
        lemma_nearest_meets(y - y_offset, crop.height, rows as int);
        assert(source_byte(source, clipped, sx, sy, c) == color[c]);
    }
}

/// A pixel depends on its own part of the crop alone, at every size: sources that
/// agree in all pixels that meet it give it the same bytes.
pub proof fn pixels_depend_on_what_they_cover(
    a: RgbaView,
    b: RgbaView,
    clipped: ClippedPlacement,
    width: u32,
    height: u32,
    x_offset: u32,
    y_offset: u32,
    x: int,
    y: int,
    c: int,
)
    requires
        x_offset <= x < width,
        y_offset <= y < height,
        0 < clipped.source_width,
        0 < clipped.source_height,
        0 <= c < 4,
        forall|sx: int, sy: int, k: int|
            0 <= sx < clipped.source_width && 0 <= sy < clipped.source_height && 0 <= k < 4
                && meets(x - x_offset, clipped.source_width as int, width - x_offset, sx) && meets(
                y - y_offset,
                clipped.source_height as int,
                height - y_offset,
                sy,
            ) ==> #[trigger] source_byte(a, clipped, sx, sy, k) == source_byte(
                b,
                clipped,
                sx,
                sy,
                k,
            ),
    ensures
        resample::scaled_rgba(a, clipped, width, height, x_offset, y_offset)[(y * width + x) * 4
            + c] == resample::scaled_rgba(
            b,
            clipped,
            width,
            height,
            x_offset,
            y_offset,
        )[(y * width + x) * 4 + c],
{
    let cols = (width - x_offset) as u32;
    let rows = (height - y_offset) as u32;
    resample::target_channels_are_bytes(a, clipped, width, height, x_offset, y_offset, x, y, c);
    resample::target_channels_are_bytes(b, clipped, width, height, x_offset, y_offset, x, y, c);
    if resample::downscales(clipped, cols, rows) {
        let v = resample::window(a, clipped, cols, rows, x - x_offset, y - y_offset);
        let w = resample::window(b, clipped, cols, rows, x - x_offset, y - y_offset);
        lemma_totals_depend_on_what_they_cover(v, w, a, b, clipped, Measure::Alpha);
        if c < 3 {
            lemma_totals_depend_on_what_they_cover(v, w, a, b, clipped, Measure::Color(c));
        }
    } else {
        let sx = resample::nearest(x - x_offset, clipped.source_width as int, cols as int);
        let sy = resample::nearest(y - y_offset, clipped.source_height as int, rows as int);
        lemma_nearest_meets(x - x_offset, clipped.source_width as int, cols as int);
        lemma_nearest_meets(y - y_offset, clipped.source_height as int, rows as int);
        assert(source_byte(a, clipped, sx, sy, c) == source_byte(b, clipped, sx, sy, c));
    }
}

proof fn lemma_totals_depend_on_what_they_cover(
    v: Window,
    w: Window,
    a: RgbaView,
    b: RgbaView,
    clipped: ClippedPlacement,
    m: Measure,
)
    requires
        v == (Window { crop: resample::crop_of(a, clipped), ..w }),
        w.crop == resample::crop_of(b, clipped),
        m matches Measure::Color(c) ==> 0 <= c < 3,
        forall|sx: int, sy: int, k: int|
            0 <= sx < clipped.source_width && 0 <= sy < clipped.source_height && 0 <= k < 4
                && meets(w.x, w.crop.width, w.cols, sx) && meets(w.y, w.crop.height, w.rows, sy)
                ==> #[trigger] source_byte(a, clipped, sx, sy, k) == source_byte(
                b,
                clipped,
                sx,
                sy,
                k,
            ),
    ensures
        v.total(m) == w.total(m),
{
    assert forall|sx: int, sy: int|
        0 <= sx < v.crop.width && 0 <= sy < v.crop.height implies #[trigger] v.term(m, sx, sy)
            == w.term(m, sx, sy) by {
        if w.shared(sx, sy) > 0 {
            lemma_shared_meets(w, sx, sy);
            assert(source_byte(a, clipped, sx, sy, 3) == source_byte(b, clipped, sx, sy, 3));
            if let Measure::Color(c) = m {
                assert(source_byte(a, clipped, sx, sy, c) == source_byte(b, clipped, sx, sy, c));
            }
        } else {
            resample::lemma_term_is_not_negative(w, m, sx, sy);
            assert(w.shared(sx, sy) == 0);
            vstd::arithmetic::mul::lemma_mul_basics(v.crop.channel(sx, sy, 3));
            vstd::arithmetic::mul::lemma_mul_basics(w.crop.channel(sx, sy, 3));
            if let Measure::Color(c) = m {
                vstd::arithmetic::mul::lemma_mul_basics(v.crop.channel(sx, sy, c));
                vstd::arithmetic::mul::lemma_mul_basics(w.crop.channel(sx, sy, c));
            }
        }
    }
    resample::lemma_same_total(v, w, m);
}

} // verus!
