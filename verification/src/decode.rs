//! Decoding of a placement's pixel data.

use crate::codecs;
use crate::pixels::{DecodedRgba, RgbaView};
use crate::placement::{HostPlacement, KittyImageFormat, PlacementView};
use vstd::prelude::*;

verus! {

/// RGB pixels with full opacity added to each.
pub open spec fn opaque_rgba(rgb: Seq<u8>, pixel_count: nat) -> Seq<u8> {
    Seq::new(
        pixel_count * 4,
        |k: int|
            if k % 4 == 3 {
                255
            } else {
                rgb[k / 4 * 3 + k % 4]
            },
    )
}

/// A decoded picture, where it has the announced size.
pub open spec fn sized_picture(
    picture: Option<(u32, u32, Seq<u8>)>,
    width: u32,
    height: u32,
) -> Option<RgbaView> {
    match picture {
        Some((w, h, data)) => if w == width && h == height {
            Some(RgbaView { width, height, data })
        } else {
            None
        },
        None => None,
    }
}

impl PlacementView {
    /// How many pixels the image announces.
    pub open spec fn pixel_count(self) -> int {
        self.image_width * self.image_height
    }

    /// The data at hand is that of the announced size, in a raw format.
    pub open spec fn has_all_raw_pixels(self) -> bool {
        match self.format {
            KittyImageFormat::Rgba => self.data.len() == self.pixel_count() * 4,
            KittyImageFormat::Rgb => self.data.len() == self.pixel_count() * 3,
            KittyImageFormat::Png => false,
        }
    }

    /// The picture that the data at hand decodes to. No data is no PNG picture.
    pub open spec fn decoded(self) -> Option<RgbaView> {
        let width = self.image_width;
        let height = self.image_height;
        match self.format {
            KittyImageFormat::Rgba => if self.has_all_raw_pixels() {
                Some(RgbaView { width, height, data: self.data })
            } else {
                None
            },
            KittyImageFormat::Rgb => if self.has_all_raw_pixels() && self.pixel_count() * 4
                <= usize::MAX {
                Some(
                    RgbaView {
                        width,
                        height,
                        data: opaque_rgba(self.data, self.pixel_count() as nat),
                    },
                )
            } else {
                None
            },
            KittyImageFormat::Png => if self.pixel_count() <= usize::MAX && self.data.len() > 0 {
                sized_picture(codecs::png_pixels(self.data), width, height)
            } else {
                None
            },
        }
    }

    /// Whether decoding takes the data away. Raw data of the wrong length stays;
    /// a PNG stream is spent also where it cannot be decoded.
    pub open spec fn decoding_takes_data(self) -> bool {
        match self.format {
            KittyImageFormat::Png => self.pixel_count() <= usize::MAX,
            _ => self.has_all_raw_pixels(),
        }
    }

    /// The placement once its data was decoded.
    pub open spec fn after_decoding(self) -> PlacementView {
        if self.decoding_takes_data() {
            self.with_data(Seq::empty())
        } else {
            self
        }
    }
}

/// The view of a picture that may be missing.
pub open spec fn picture_view(picture: Option<DecodedRgba>) -> Option<RgbaView> {
    match picture {
        Some(pixels) => Some(pixels@),
        None => None,
    }
}

fn take_data(placement: &mut HostPlacement) -> (data: Vec<u8>)
    ensures
        data@ == old(placement)@.data,
        final(placement)@ == old(placement)@.with_data(Seq::empty()),
{
    let mut data: Vec<u8> = Vec::new();
    core::mem::swap(&mut data, &mut placement.placement.data);
    data
}

fn add_opacity(rgb: &Vec<u8>, pixel_count: usize, capacity: usize) -> (rgba: Vec<u8>)
    requires
        rgb@.len() == pixel_count * 3,
    ensures
        rgba@ == opaque_rgba(rgb@, pixel_count as nat),
{
    let ghost whole = opaque_rgba(rgb@, pixel_count as nat);
    let mut rgba: Vec<u8> = Vec::with_capacity(capacity);
    let mut i: usize = 0;
    assert(rgba@ =~= whole.take(0));
    while i < pixel_count
        invariant
            i <= pixel_count,
            rgb@.len() == pixel_count * 3,
            whole == opaque_rgba(rgb@, pixel_count as nat),
            rgba@ == whole.take(i * 4),
        decreases pixel_count - i,
    {
        assert(rgb@.len() == rgb.len());
        rgba.push(rgb[i * 3]);
        rgba.push(rgb[i * 3 + 1]);
        rgba.push(rgb[i * 3 + 2]);
        rgba.push(255);
        assert(rgba@ =~= whole.take((i + 1) * 4));
        i += 1;
    }
    assert(whole.take(whole.len() as int) =~= whole);
    rgba
}

/// Keeps a decoded picture only where it has the announced size.
pub fn sized_png(decoded: Option<DecodedRgba>, width: u32, height: u32) -> (picture: Option<
    DecodedRgba,
>)
    ensures
        picture_view(picture) == sized_picture(
            match decoded {
                Some(pixels) => Some((pixels.width, pixels.height, pixels.data@)),
                None => None,
            },
            width,
            height,
        ),
{
    let pixels = decoded?;
    if pixels.width != width || pixels.height != height {
        return None;
    }
    Some(pixels)
}

/// Takes the placement's pixel buffer so the decoded image can be cached.
pub fn decode_placement_rgba(placement: &mut HostPlacement) -> (picture: Option<DecodedRgba>)
    ensures
        picture_view(picture) == old(placement)@.decoded(),
        picture is Some <==> old(placement)@.decoded() is Some,
        picture matches Some(pixels) ==> old(placement)@.decoded() == Some(pixels@),
        final(placement)@ == old(placement)@.after_decoding(),
        picture matches Some(pixels) ==> pixels@.wf() && pixels.width
            == old(placement).placement.image_width && pixels.height
            == old(placement).placement.image_height,
{
    let width: u32 = placement.placement.image_width;
    let height: u32 = placement.placement.image_height;
    proof {
        assert(placement.placement.data@.len() == placement.placement.data.len());
    }
    let pixel_count: usize = (width as usize).checked_mul(height as usize)?;
    match placement.placement.format {
        KittyImageFormat::Rgba => {
            let expected: usize = pixel_count.checked_mul(4)?;
            if placement.placement.data.len() != expected {
                return None;
            }
            Some(DecodedRgba { width, height, data: take_data(placement) })
        },
        KittyImageFormat::Rgb => {
            let expected: usize = pixel_count.checked_mul(3)?;
            if placement.placement.data.len() != expected {
                return None;
            }
            let rgb = take_data(placement);
            let capacity: usize = pixel_count.checked_mul(4)?;
            Some(DecodedRgba { width, height, data: add_opacity(&rgb, pixel_count, capacity) })
        },
        KittyImageFormat::Png => {
            let png = take_data(placement);
            sized_png(codecs::decode_png_rgba(png.as_slice()), width, height)
        },
    }
}

/// RGBA data is the picture itself, where it has the announced length.
pub proof fn rgba_data_is_the_picture(p: PlacementView)
    requires
        p.format == KittyImageFormat::Rgba,
    ensures
        p.decoded() == (if p.data.len() == p.image_width * p.image_height * 4 {
            Some(RgbaView { width: p.image_width, height: p.image_height, data: p.data })
        } else {
            None
        }),
{
}

/// RGB data of the announced length keeps its colors, and becomes opaque.
pub proof fn rgb_data_becomes_opaque(p: PlacementView, i: int, c: int)
    requires
        p.format == KittyImageFormat::Rgb,
        0 <= i < p.image_width * p.image_height,
        0 <= c < 3,
    ensures
        p.decoded() is Some <==> {
            &&& p.data.len() == p.image_width * p.image_height * 3
            &&& p.image_width * p.image_height * 4 <= usize::MAX
        },
        p.decoded() matches Some(picture) ==> {
            &&& picture.width == p.image_width
            &&& picture.height == p.image_height
            &&& picture.data.len() == p.image_width * p.image_height * 4
            &&& picture.data[i * 4 + c] == p.data[i * 3 + c]
            &&& picture.data[i * 4 + 3] == 255
        },
{
    assert((i * 4 + c) / 4 == i && (i * 4 + c) % 4 == c);
    assert((i * 4 + 3) / 4 == i && (i * 4 + 3) % 4 == 3);
}

/// A PNG stream is the picture that it decodes to, where that has the announced size.
pub proof fn png_data_is_decoded(p: PlacementView)
    requires
        p.format == KittyImageFormat::Png,
    ensures
        match p.decoded() {
            Some(picture) => {
                &&& picture.width == p.image_width
                &&& picture.height == p.image_height
                &&& codecs::png_pixels(p.data) == Some(
                    (p.image_width, p.image_height, picture.data),
                )
            },
            None => {
                ||| p.data.len() == 0
                ||| p.image_width * p.image_height > usize::MAX
                ||| codecs::png_pixels(p.data) matches Some((width, height, data)) ==> width
                    != p.image_width || height != p.image_height
            },
        },
{
}

/// Decoding changes nothing of a placement but its data, which is kept or taken as a
/// whole: it is taken where there is a picture, and a PNG stream also where there is
/// none; raw data of another length than announced is kept.
pub proof fn decoding_takes_data_or_nothing(p: PlacementView)
    ensures
        p.after_decoding() == p || p.after_decoding() == (PlacementView {
            data: Seq::empty(),
            ..p
        }),
        p.decoded() is Some ==> p.after_decoding().data.len() == 0,
        p.format == KittyImageFormat::Png && p.image_width * p.image_height <= usize::MAX
            ==> p.after_decoding().data.len() == 0,
        p.format == KittyImageFormat::Rgba && p.data.len() != p.image_width * p.image_height * 4
            ==> p.after_decoding() == p,
        p.format == KittyImageFormat::Rgb && p.data.len() != p.image_width * p.image_height * 3
            ==> p.after_decoding() == p,
{
}

} // verus!
