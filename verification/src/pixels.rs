//! Decoded pixels.

use vstd::prelude::*;

verus! {

/// Decoded RGBA pixels of one asset, four bytes per pixel, row by row.
#[derive(Debug)]
pub struct DecodedRgba {
    pub width: u32,
    pub height: u32,
    pub data: Vec<u8>,
}

/// What a [`DecodedRgba`] holds.
#[verifier::ext_equal]
pub struct RgbaView {
    pub width: u32,
    pub height: u32,
    pub data: Seq<u8>,
}

impl View for DecodedRgba {
    type V = RgbaView;

    open spec fn view(&self) -> RgbaView {
        RgbaView { width: self.width, height: self.height, data: self.data@ }
    }
}

impl RgbaView {
    /// The data holds exactly the pixels that the size announces.
    pub open spec fn wf(self) -> bool {
        self.data.len() == self.width * self.height * 4
    }
}

/// The view of a picture tells its fields, and a complete one has four bytes per pixel.
pub proof fn picture_views_tell_the_fields(picture: DecodedRgba)
    ensures
        picture@.width == picture.width,
        picture@.height == picture.height,
        picture@.data == picture.data@,
        picture@.wf() <==> picture.data@.len() == picture.width * picture.height * 4,
{
}

} // verus!
