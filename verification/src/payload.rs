//! One placement as positioned SIXEL bytes.

use crate::codecs;
use crate::pixels::{DecodedRgba, RgbaView};
use crate::placement::{ClippedPlacement, HostPlacement};
use crate::protocol::HostCellSize;
use crate::resample;
use vstd::prelude::*;

verus! {

/// The decimal digits of `n` in ASCII.
pub open spec fn decimal(n: nat) -> Seq<u8>
    decreases n,
{
    if n < 10 {
        seq![(48 + n) as u8]
    } else {
        decimal(n / 10).push((48 + n % 10) as u8)
    }
}

/// The control sequence that moves the cursor to column `x`, row `y`, both
/// counted from zero.
pub open spec fn cursor_move(x: nat, y: nat) -> Seq<u8> {
    seq![0x1bu8, 0x5b] + decimal(y + 1) + seq![0x3bu8] + decimal(x + 1) + seq![0x48u8]
}

fn push_decimal(out: &mut Vec<u8>, n: u32)
    ensures
        final(out)@ == old(out)@ + decimal(n as nat),
    decreases n,
{
    if n >= 10 {
        push_decimal(out, n / 10);
    }
    out.push(48 + (n % 10) as u8);
    assert(out@ =~= old(out)@ + decimal(n as nat));
}

/// Moves the cursor to the placement's first cell.
pub fn append_sixel_cursor(encoded: &mut Vec<u8>, clipped: ClippedPlacement)
    requires
        clipped.x < u32::MAX,
        clipped.y < u32::MAX,
    ensures
        final(encoded)@ == old(encoded)@ + cursor_move(clipped.x as nat, clipped.y as nat),
{
    encoded.push(0x1b);
    encoded.push(0x5b);
    push_decimal(encoded, clipped.y + 1);
    encoded.push(0x3b);
    push_decimal(encoded, clipped.x + 1);
    encoded.push(0x48);
    assert(encoded@ =~= old(encoded)@ + cursor_move(clipped.x as nat, clipped.y as nat));
}

proof fn lemma_decimal_digits(n: nat)
    ensures
        decimal(n).len() >= 1,
        forall|i: int| 0 <= i < decimal(n).len() ==> 48 <= #[trigger] decimal(n)[i] <= 57,
    decreases n,
{
    if n >= 10 {
        lemma_decimal_digits(n / 10);
    }
}

proof fn lemma_decimal_is_unique(m: nat, n: nat)
    requires
        decimal(m) == decimal(n),
    ensures
        m == n,
    decreases m,
{
    lemma_decimal_digits(m / 10);
    lemma_decimal_digits(n / 10);
    assert(decimal(m).last() == (48 + m % 10) as u8);
    assert(decimal(n).last() == (48 + n % 10) as u8);
    if m >= 10 && n >= 10 {
        assert(decimal(m).drop_last() =~= decimal(m / 10));
        assert(decimal(n).drop_last() =~= decimal(n / 10));
        lemma_decimal_is_unique(m / 10, n / 10);
    } else if m >= 10 {
        assert(decimal(m).len() == decimal(m / 10).len() + 1);
    } else if n >= 10 {
        assert(decimal(n).len() == decimal(n / 10).len() + 1);
    }
}

/// The cursor sequence tells where a placement is: other cells, other bytes.
pub proof fn cursor_follows_the_position(x1: nat, y1: nat, x2: nat, y2: nat)
    requires
        cursor_move(x1, y1) == cursor_move(x2, y2),
    ensures
        x1 == x2,
        y1 == y2,
{
    let first = cursor_move(x1, y1);
    let second = cursor_move(x2, y2);
    let rows1 = decimal(y1 + 1);
    let rows2 = decimal(y2 + 1);
    let cols1 = decimal(x1 + 1);
    let cols2 = decimal(x2 + 1);
    lemma_decimal_digits(y1 + 1);
    lemma_decimal_digits(y2 + 1);
    assert(first[2 + rows1.len() as int] == 0x3b);
    assert(second[2 + rows2.len() as int] == 0x3b);
    if rows1.len() < rows2.len() {
        assert(second[2 + rows1.len() as int] == rows2[rows1.len() as int]);
    }
    if rows2.len() < rows1.len() {
        assert(first[2 + rows2.len() as int] == rows1[rows2.len() as int]);
    }
    assert(first.subrange(2, 2 + rows1.len() as int) =~= rows1);
    assert(second.subrange(2, 2 + rows2.len() as int) =~= rows2);
    lemma_decimal_is_unique(y1 + 1, y2 + 1);
    assert(first.subrange(3 + rows1.len() as int, first.len() - 1) =~= cols1);
    assert(second.subrange(3 + rows2.len() as int, second.len() - 1) =~= cols2);
    lemma_decimal_is_unique(x1 + 1, x2 + 1);
}

/// Width in pixels of the raster behind a placement's visible cells.
pub open spec fn raster_width(cell: HostCellSize, clipped: ClippedPlacement) -> int {
    clipped.cols * cell.width_px
}

/// Height in pixels of the raster behind a placement's visible cells.
pub open spec fn raster_height(cell: HostCellSize, clipped: ClippedPlacement) -> int {
    clipped.rows * cell.height_px
}

/// The shown part of the image lies in the image.
pub open spec fn shows_inside(clipped: ClippedPlacement, source: RgbaView) -> bool {
    &&& clipped.source_x + clipped.source_width <= source.width
    &&& clipped.source_y + clipped.source_height <= source.height
}

/// The padding before the content ends with the raster.
pub open spec fn padding(offset: u32, size: int) -> u32 {
    if offset < size {
        offset
    } else {
        size as u32
    }
}

/// The raster behind a placement's visible cells.
pub open spec fn raster(
    cell: HostCellSize,
    clipped: ClippedPlacement,
    source: RgbaView,
) -> Seq<u8> {
    let width = raster_width(cell, clipped);
    let height = raster_height(cell, clipped);
    resample::scaled_rgba(
        source,
        clipped,
        width as u32,
        height as u32,
        padding(clipped.x_offset, width),
        padding(clipped.y_offset, height),
    )
}

/// Whether a placement can be painted: it shows a part of the image, on a raster
/// of a size that the encoder takes.
pub open spec fn paintable(
    cell: HostCellSize,
    clipped: ClippedPlacement,
    source: RgbaView,
) -> bool {
    &&& shows_inside(clipped, source)
    &&& codecs::encodable(raster_width(cell, clipped), raster_height(cell, clipped))
}

/// The payload of a placement, where it can be painted: its raster as a SIXEL
/// stream.
pub open spec fn sixel_payload(
    cell: HostCellSize,
    clipped: ClippedPlacement,
    source: RgbaView,
) -> Option<Seq<u8>> {
    if paintable(cell, clipped, source) {
        Some(
            codecs::sixel_stream(
                raster(cell, clipped, source),
                raster_width(cell, clipped) as usize,
                raster_height(cell, clipped) as usize,
            ),
        )
    } else {
        None
    }
}

/// A raster is made: the crop lies in the source, and the raster's length fits.
pub open spec fn makes_raster(
    cell: HostCellSize,
    clipped: ClippedPlacement,
    source: RgbaView,
) -> bool {
    let width = raster_width(cell, clipped);
    let height = raster_height(cell, clipped);
    &&& shows_inside(clipped, source)
    &&& 0 < width <= u32::MAX
    &&& 0 < height <= u32::MAX
    &&& width * height * 4 <= usize::MAX
}

/// Every source pixel that the raster is made from lies in the source's data.
pub open spec fn raster_readable(
    cell: HostCellSize,
    clipped: ClippedPlacement,
    source: RgbaView,
) -> bool {
    let width = raster_width(cell, clipped);
    let height = raster_height(cell, clipped);
    makes_raster(cell, clipped, source) ==> resample::crop_readable(
        source,
        clipped,
        resample::content_len(width as u32, padding(clipped.x_offset, width)),
        resample::content_len(height as u32, padding(clipped.y_offset, height)),
    )
}

/// A source pixel that the raster is made from cannot be addressed. This happens
/// only where the source's data does not hold the pixels that its size announces.
pub open spec fn raster_overruns(
    cell: HostCellSize,
    clipped: ClippedPlacement,
    source: RgbaView,
) -> bool {
    let width = raster_width(cell, clipped);
    let height = raster_height(cell, clipped);
    makes_raster(cell, clipped, source) && resample::overruns(
        source,
        clipped,
        resample::content_len(width as u32, padding(clipped.x_offset, width)),
        resample::content_len(height as u32, padding(clipped.y_offset, height)),
    )
}

/// The raster of a complete picture can be read, and its pixels addressed.
pub proof fn complete_pictures_are_readable(
    cell: HostCellSize,
    clipped: ClippedPlacement,
    source: RgbaView,
)
    requires
        source.wf(),
        0 < clipped.source_width,
        0 < clipped.source_height,
    ensures
        raster_readable(cell, clipped, source),
        !raster_overruns(cell, clipped, source),
{
    if shows_inside(clipped, source) {
        let width = raster_width(cell, clipped);
        let height = raster_height(cell, clipped);
        resample::inner_crops_are_readable(
            source,
            clipped,
            resample::content_len(width as u32, padding(clipped.x_offset, width)),
            resample::content_len(height as u32, padding(clipped.y_offset, height)),
        );
    }
}

/// The view of bytes that may be missing.
pub open spec fn bytes_view(bytes: Option<Vec<u8>>) -> Option<Seq<u8>> {
    match bytes {
        Some(held) => Some(held@),
        None => None,
    }
}

/// Encodes the visible part of a placement, scaled to the cells it covers.
pub fn encode_sixel_payload(
    placement: &HostPlacement,
    clipped: ClippedPlacement,
    source: &DecodedRgba,
) -> (payload: Option<Vec<u8>>)
    requires
        raster_readable(placement.cell_size, clipped, source@) || raster_overruns(
            placement.cell_size,
            clipped,
            source@,
        ),
    ensures
        bytes_view(payload) == (if raster_overruns(placement.cell_size, clipped, source@) {
            None
        } else {
            sixel_payload(placement.cell_size, clipped, source@)
        }),
        payload matches Some(bytes) ==> codecs::is_control_string(bytes@),
        payload is Some ==> {
            &&& clipped.source_x + clipped.source_width <= source.width
            &&& clipped.source_y + clipped.source_height <= source.height
            &&& codecs::encodable(
                clipped.cols * placement.cell_size.width_px,
                clipped.rows * placement.cell_size.height_px,
            )
        },
        ({
            &&& source.data@.len() == source.width * source.height * 4
            &&& 0 < clipped.source_width
            &&& 0 < clipped.source_height
            &&& clipped.source_x + clipped.source_width <= source.width
            &&& clipped.source_y + clipped.source_height <= source.height
            &&& codecs::encodable(
                clipped.cols * placement.cell_size.width_px,
                clipped.rows * placement.cell_size.height_px,
            )
        }) ==> payload is Some,
        payload matches Some(bytes) ==> {
            let width = clipped.cols * placement.cell_size.width_px;
            let height = clipped.rows * placement.cell_size.height_px;
            bytes@ == codecs::sixel_stream(
                resample::scaled_rgba(
                    source@,
                    clipped,
                    width as u32,
                    height as u32,
                    if clipped.x_offset < width { clipped.x_offset } else { width as u32 },
                    if clipped.y_offset < height { clipped.y_offset } else { height as u32 },
                ),
                width as usize,
                height as usize,
            )
        },
{
    let source_right: u32 = clipped.source_x.checked_add(clipped.source_width)?;
    let source_bottom: u32 = clipped.source_y.checked_add(clipped.source_height)?;
    if source_right > source.width || source_bottom > source.height {
        return None;
    }
    let raw_width: u32 = clipped.cols.checked_mul(placement.cell_size.width_px)?;
    let raw_height: u32 = clipped.rows.checked_mul(placement.cell_size.height_px)?;
    if raw_width == 0 || raw_height == 0 {
        return None;
    }
    // The encoder pads the final partial sixel band with transparent pixels.
    // Rounding down to a multiple of six would leave an unpainted horizontal
    // gap in every terminal row.
    let target_width: u32 = raw_width;
    let target_height: u32 = raw_height;
    let x_offset: u32 = if clipped.x_offset < target_width {
        clipped.x_offset
    } else {
        target_width
    };
    let y_offset: u32 = if clipped.y_offset < target_height {
        clipped.y_offset
    } else {
        target_height
    };
    proof {
        lemma_encodable_rasters_are_small(raw_width as int, raw_height as int);
        if source@.wf() && 0 < clipped.source_width && 0 < clipped.source_height {
            complete_pictures_are_readable(placement.cell_size, clipped, source@);
        }
    }
    let rgba = resample::crop_scale_rgba(
        source,
        clipped,
        target_width,
        target_height,
        x_offset,
        y_offset,
    )?;
    codecs::sixel_encode(rgba.as_slice(), target_width as usize, target_height as usize)
}

proof fn lemma_encodable_rasters_are_small(width: int, height: int)
    ensures
        codecs::encodable(width, height) ==> width * height * 4 <= usize::MAX,
{
    if codecs::encodable(width, height) {
        let band = codecs::band_height(height);
        assert(width * height <= width * band) by (nonlinear_arith)
            requires
                0 < width,
                height <= band,
        ;
    }
}

/// What can be painted is a raster that the encoder takes: it has four bytes for
/// every pixel of the cells it covers.
pub proof fn paintable_rasters_are_taken(
    cell: HostCellSize,
    clipped: ClippedPlacement,
    source: RgbaView,
)
    requires
        paintable(cell, clipped, source),
    ensures
        codecs::encoder_takes(
            raster(cell, clipped, source),
            raster_width(cell, clipped),
            raster_height(cell, clipped),
        ),
{
    lemma_encodable_rasters_are_small(raster_width(cell, clipped), raster_height(cell, clipped));
    assert(0 <= raster_width(cell, clipped) * raster_height(cell, clipped)) by (nonlinear_arith)
        requires
            0 <= raster_width(cell, clipped),
            0 <= raster_height(cell, clipped),
    ;
}

/// A payload does not depend on where on the screen it is painted.
pub proof fn payload_ignores_the_position(
    cell: HostCellSize,
    clipped: ClippedPlacement,
    source: RgbaView,
    x: u32,
    y: u32,
)
    ensures
        sixel_payload(cell, ClippedPlacement { x, y, ..clipped }, source) == sixel_payload(
            cell,
            clipped,
            source,
        ),
{
    let moved = ClippedPlacement { x, y, ..clipped };
    assert(resample::crop_of(source, moved) == resample::crop_of(source, clipped));
    assert(raster(cell, moved, source) =~= raster(cell, clipped, source));
}

/// A payload fills the cells that it covers: it is the stream of a raster as wide as
/// the visible columns and as high as the visible rows, each of one cell. There is
/// one exactly where the shown part lies in the image and the encoder takes a raster
/// of that size. The padding ends with the raster.
pub proof fn payloads_fill_their_cells(
    cell: HostCellSize,
    clipped: ClippedPlacement,
    source: RgbaView,
)
    ensures
        ({
            let width = clipped.cols * cell.width_px;
            let height = clipped.rows * cell.height_px;
            sixel_payload(cell, clipped, source) == (if clipped.source_x + clipped.source_width
                <= source.width && clipped.source_y + clipped.source_height <= source.height
                && codecs::encodable(width, height) {
                Some(
                    codecs::sixel_stream(
                        resample::scaled_rgba(
                            source,
                            clipped,
                            width as u32,
                            height as u32,
                            if clipped.x_offset < width { clipped.x_offset } else { width as u32 },
                            if clipped.y_offset < height { clipped.y_offset } else { height as u32 },
                        ),
                        width as usize,
                        height as usize,
                    ),
                )
            } else {
                None
            })
        }),
{
}

/// The number that decimal digits in ASCII read as.
pub open spec fn number_read(digits: Seq<u8>) -> int
    decreases digits.len(),
{
    if digits.len() == 0 {
        0
    } else {
        number_read(digits.drop_last()) * 10 + (digits.last() - 48)
    }
}

/// `digits` are decimal digits in ASCII, without a leading zero, that read as `n`.
pub open spec fn reads_as(digits: Seq<u8>, n: nat) -> bool {
    &&& digits.len() >= 1
    &&& forall|i: int| 0 <= i < digits.len() ==> 48 <= #[trigger] digits[i] <= 57
    &&& digits.len() > 1 ==> digits[0] != 48
    &&& number_read(digits) == n
}

proof fn lemma_decimal_reads(n: nat)
    ensures
        reads_as(decimal(n), n),
    decreases n,
{
    let digits = decimal(n);
    if n < 10 {
        assert(digits.drop_last() =~= Seq::<u8>::empty());
        assert(number_read(Seq::<u8>::empty()) == 0);
    } else {
        lemma_decimal_reads(n / 10);
        lemma_decimal_digits(n / 10);
        assert(digits.drop_last() =~= decimal(n / 10));
        assert(digits[0] == decimal(n / 10)[0]);
        if decimal(n / 10).len() == 1 {
            assert(decimal(n / 10).drop_last() =~= Seq::<u8>::empty());
            assert(number_read(Seq::<u8>::empty()) == 0);
            assert(number_read(decimal(n / 10)) == decimal(n / 10)[0] - 48);
        }
    }
}

/// `sequence` is `ESC [ row ; column H`.
pub open spec fn moves_cursor(
    sequence: Seq<u8>,
    row: Seq<u8>,
    column: Seq<u8>,
) -> bool {
    sequence == seq![0x1bu8, 0x5b] + row + seq![0x3bu8] + column + seq![0x48u8]
}

/// The cursor sequence names the row first and then the column, both in decimal and
/// counted from one.
pub proof fn cursor_sequences_name_row_and_column(x: nat, y: nat)
    ensures
        exists|row: Seq<u8>, column: Seq<u8>| #[trigger]
            moves_cursor(cursor_move(x, y), row, column) && reads_as(row, y + 1) && reads_as(
                column,
                x + 1,
            ),
{
    lemma_decimal_reads(y + 1);
    lemma_decimal_reads(x + 1);
    assert(moves_cursor(cursor_move(x, y), decimal(y + 1), decimal(x + 1)));
}

} // verus!
