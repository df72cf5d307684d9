//! Painting of whole frames from a cache of pictures and payloads.

use crate::clip;
use crate::codecs;
use crate::decode;
use crate::order;
use crate::payload;
use crate::pixels::{DecodedRgba, RgbaView};
use crate::placement::{ClippedPlacement, HostPlacement, PlacementView};
use crate::signature;
use crate::signature::{ImageSignature, SignatureMap, SixelPayloadSignature};
use vstd::prelude::*;

verus! {

/// Per-client SIXEL state: decoded source pixels plus encoded payloads.
#[derive(Debug)]
pub struct SixelGraphicsCache {
    pub images: SignatureMap<ImageSignature, DecodedRgba>,
    pub payloads: SignatureMap<SixelPayloadSignature, Vec<u8>>,
}

/// What a [`SixelGraphicsCache`] holds.
#[verifier::ext_equal]
pub struct CacheView {
    pub images: Map<ImageSignature, RgbaView>,
    pub payloads: Map<SixelPayloadSignature, Seq<u8>>,
}

impl View for SixelGraphicsCache {
    type V = CacheView;

    open spec fn view(&self) -> CacheView {
        CacheView { images: self.images@, payloads: self.payloads@ }
    }
}

impl CacheView {
    /// A cache without entries.
    pub open spec fn empty() -> CacheView {
        CacheView { images: Map::empty(), payloads: Map::empty() }
    }

    /// Every picture is complete and has the size that its signature tells, and
    /// every payload is one device control string.
    pub open spec fn wf(self) -> bool {
        &&& pictures_wf(self.images)
        &&& payloads_wf(self.payloads)
    }
}

/// Every picture is complete and has the size that its signature tells.
pub open spec fn pictures_wf(images: Map<ImageSignature, RgbaView>) -> bool {
    forall|image: ImageSignature| #[trigger]
        images.contains_key(image) ==> {
            &&& images[image].wf()
            &&& images[image].width == image.width
            &&& images[image].height == image.height
        }
}

/// Every payload is one device control string.
pub open spec fn payloads_wf(payloads: Map<SixelPayloadSignature, Seq<u8>>) -> bool {
    forall|key: SixelPayloadSignature| #[trigger]
        payloads.contains_key(key) ==> codecs::is_control_string(payloads[key])
}

impl SixelGraphicsCache {
    /// No entry occurs twice, every picture is complete, and every payload is one
    /// device control string.
    pub open spec fn wf(self) -> bool {
        &&& self.images.wf()
        &&& self.payloads.wf()
        &&& self@.wf()
    }

    /// Forgets all pictures and payloads.
    pub fn clear(&mut self)
        ensures
            final(self).wf(),
            final(self)@ == CacheView::empty(),
            final(self).images@ == Map::<ImageSignature, RgbaView>::empty(),
            final(self).payloads@ == Map::<SixelPayloadSignature, Seq<u8>>::empty(),
    {
        self.images = SignatureMap::new();
        self.payloads = SignatureMap::new();
    }
}

impl Default for SixelGraphicsCache {
    fn default() -> (cache: Self)
        ensures
            cache.wf(),
            cache@ == CacheView::empty(),
            cache.images@ == Map::<ImageSignature, RgbaView>::empty(),
            cache.payloads@ == Map::<SixelPayloadSignature, Seq<u8>>::empty(),
    {
        SixelGraphicsCache { images: SignatureMap::new(), payloads: SignatureMap::new() }
    }
}

/// A placement, and the pictures, once the placement's data was looked at.
pub struct Stashed {
    pub images: Map<ImageSignature, RgbaView>,
    pub placement: PlacementView,
}

/// Decodes the data at hand, unless the picture is already known.
pub open spec fn stash(images: Map<ImageSignature, RgbaView>, p: PlacementView) -> Stashed {
    if p.data.len() == 0 || images.contains_key(p.image_signature()) {
        Stashed { images, placement: p }
    } else {
        Stashed {
            images: match p.decoded() {
                Some(picture) => images.insert(p.image_signature(), picture),
                None => images,
            },
            placement: p.after_decoding(),
        }
    }
}

/// The placements of a frame, and the pictures, while the frame's data is looked at.
#[verifier::ext_equal]
pub struct StashedFrame {
    pub images: Map<ImageSignature, RgbaView>,
    pub placements: Seq<PlacementView>,
}

/// The frame once the data of its first `n` placements was looked at.
pub open spec fn stash_frame(
    images: Map<ImageSignature, RgbaView>,
    placements: Seq<PlacementView>,
    n: nat,
) -> StashedFrame
    decreases n,
{
    if n == 0 {
        StashedFrame { images, placements }
    } else {
        let frame = stash_frame(images, placements, (n - 1) as nat);
        let stashed = stash(frame.images, frame.placements[n - 1]);
        StashedFrame {
            images: stashed.images,
            placements: frame.placements.update(n - 1, stashed.placement),
        }
    }
}

/// What painting one placement leaves behind.
pub struct PaintStep {
    pub cache: CacheView,
    pub placement: PlacementView,
    /// The payload's signature with the bytes that paint it, where it was painted.
    pub painted: Option<(SixelPayloadSignature, Seq<u8>)>,
}

/// The bytes that paint `payload` where `clipped` is.
pub open spec fn positioned(clipped: ClippedPlacement, payload: Seq<u8>) -> Seq<u8> {
    payload::cursor_move(clipped.x as nat, clipped.y as nat) + payload
}

/// Paints one placement: from the cached payload, else from the cached picture,
/// else from the data at hand.
pub open spec fn paint(cache: CacheView, p: PlacementView, safe_bottom: Option<u16>) -> PaintStep {
    let clipped = p.clipped(safe_bottom);
    let image = p.image_signature();
    let key = p.payload_signature(safe_bottom);
    if !p.visible(safe_bottom) {
        PaintStep { cache, placement: p, painted: None }
    } else if cache.payloads.contains_key(key) {
        PaintStep {
            cache,
            placement: p,
            painted: Some((key, positioned(clipped, cache.payloads[key]))),
        }
    } else if cache.images.contains_key(image) {
        paint_picture(cache, p, safe_bottom, cache.images[image])
    } else {
        match p.decoded() {
            Some(picture) => paint_picture(
                CacheView { images: cache.images.insert(image, picture), ..cache },
                p.after_decoding(),
                safe_bottom,
                picture,
            ),
            None => PaintStep { cache, placement: p.after_decoding(), painted: None },
        }
    }
}

/// Paints one placement whose payload is not cached from its picture.
pub open spec fn paint_picture(
    cache: CacheView,
    p: PlacementView,
    safe_bottom: Option<u16>,
    picture: RgbaView,
) -> PaintStep {
    let clipped = p.clipped(safe_bottom);
    let key = p.payload_signature(safe_bottom);
    match payload::sixel_payload(p.cell_size, clipped, picture) {
        Some(bytes) => PaintStep {
            cache: CacheView { payloads: cache.payloads.insert(key, bytes), ..cache },
            placement: p,
            painted: Some((key, positioned(clipped, bytes))),
        },
        None => PaintStep { cache, placement: p, painted: None },
    }
}

/// A frame while its placements are painted.
#[verifier::ext_equal]
pub struct PaintedFrame {
    pub cache: CacheView,
    pub placements: Seq<PlacementView>,
    pub bytes: Seq<u8>,
    /// The signatures of all payloads that were painted.
    pub live: Seq<SixelPayloadSignature>,
}

/// The frame once the first `n` placements of `order` were painted.
pub open spec fn paint_frame(
    start: PaintedFrame,
    order: Seq<int>,
    safe_bottom: Option<u16>,
    n: nat,
) -> PaintedFrame
    decreases n,
{
    if n == 0 {
        start
    } else {
        let frame = paint_frame(start, order, safe_bottom, (n - 1) as nat);
        let at = order[n - 1];
        let step = paint(frame.cache, frame.placements[at], safe_bottom);
        PaintedFrame {
            cache: step.cache,
            placements: frame.placements.update(at, step.placement),
            bytes: match step.painted {
                Some((key, bytes)) => frame.bytes + bytes,
                None => frame.bytes,
            },
            live: match step.painted {
                Some((key, bytes)) => frame.live.push(key),
                None => frame.live,
            },
        }
    }
}

/// The images that payloads were painted from.
pub open spec fn images_of(live: Seq<SixelPayloadSignature>) -> Seq<ImageSignature> {
    live.map_values(|key: SixelPayloadSignature| key.image)
}

/// A cache without the entries that no live payload needs.
pub open spec fn pruned(cache: CacheView, live: Seq<SixelPayloadSignature>) -> CacheView {
    CacheView {
        images: cache.images.restrict(images_of(live).to_set()),
        payloads: cache.payloads.restrict(live.to_set()),
    }
}

/// A frame whose data was looked at, before anything is painted.
pub open spec fn frame_start(cache: CacheView, placements: Seq<PlacementView>) -> PaintedFrame {
    let stashed = stash_frame(cache.images, placements, placements.len());
    PaintedFrame {
        cache: CacheView { images: stashed.images, ..cache },
        placements: stashed.placements,
        bytes: Seq::empty(),
        live: Seq::empty(),
    }
}

/// A frame painted as a whole: first all data is looked at, then the placements
/// are painted in order, then the cache is pruned.
pub open spec fn painted_frame(
    cache: CacheView,
    placements: Seq<PlacementView>,
    safe_bottom: Option<u16>,
) -> PaintedFrame {
    let frame = paint_frame(
        frame_start(cache, placements),
        order::paint_order(placements),
        safe_bottom,
        placements.len(),
    );
    PaintedFrame { cache: pruned(frame.cache, frame.live), ..frame }
}

/// Decodes the data that a placement brought, unless its picture is known.
fn stash_picture(
    placement: &mut HostPlacement,
    images: &mut SignatureMap<ImageSignature, DecodedRgba>,
)
    requires
        old(images).wf(),
        pictures_wf(old(images)@),
    ensures
        final(images).wf(),
        pictures_wf(final(images)@),
        final(images)@ == stash(old(images)@, old(placement)@).images,
        final(placement)@ == stash(old(images)@, old(placement)@).placement,
{
    if placement.placement.data.is_empty() {
        return;
    }
    let image = signature::image_signature(
        placement,
        clip::kitty_format_code(placement.placement.format),
    );
    if images.get(&image).is_none() {
        if let Some(picture) = decode::decode_placement_rgba(placement) {
            images.insert(image, picture);
        }
    }
}

/// Appends a payload, preceded by a cursor movement to its first cell.
pub fn append_positioned_payload(
    encoded: &mut Vec<u8>,
    clipped: ClippedPlacement,
    payload: &Vec<u8>,
)
    requires
        clipped.x < u32::MAX,
        clipped.y < u32::MAX,
    ensures
        final(encoded)@ == old(encoded)@ + positioned(clipped, payload@),
        final(encoded)@ == old(encoded)@ + payload::cursor_move(
            clipped.x as nat,
            clipped.y as nat,
        ) + payload@,
{
    payload::append_sixel_cursor(encoded, clipped);
    encoded.extend_from_slice(payload.as_slice());
    assert(encoded@ =~= old(encoded)@ + positioned(clipped, payload@));
}

/// Paints one placement and returns its payload's signature, or nothing where it
/// cannot be seen or painted.
pub fn append_cached_sixel_placement(
    encoded: &mut Vec<u8>,
    placement: &mut HostPlacement,
    safe_bottom: Option<u16>,
    cache: &mut SixelGraphicsCache,
) -> (key: Option<SixelPayloadSignature>)
    requires
        old(cache).wf(),
    ensures
        final(cache).wf(),
        final(cache)@ == paint(old(cache)@, old(placement)@, safe_bottom).cache,
        final(placement)@ == paint(old(cache)@, old(placement)@, safe_bottom).placement,
        match paint(old(cache)@, old(placement)@, safe_bottom).painted {
            Some((painted_key, bytes)) => key == Some(painted_key) && final(encoded)@ == old(
                encoded,
            )@ + bytes,
            None => key is None && final(encoded)@ == old(encoded)@,
        },
{
    let ghost p = placement@;
    let (clipped, format_code) = clip::clipped_sixel_placement(placement, safe_bottom)?;
    proof {
        clip::clipping_stays_on_screen(p, safe_bottom);
        clip::clipping_stays_in_the_image(p, safe_bottom);
    }
    let image = signature::image_signature(placement, format_code);
    let key = signature::payload_signature(image, clipped);
    // Synthetic placeholder ids include screen coordinates. Encoded pixels only
    // depend on the source and crop, so moving them must not invalidate the cache.
    if cache.payloads.get(&key).is_none() {
        if cache.images.get(&image).is_none() {
            let picture = decode::decode_placement_rgba(placement)?;
            cache.images.insert(image, picture);
        }
        let source = cache.images.get(&image)?;
        proof {
            payload::complete_pictures_are_readable(placement.cell_size, clipped, source@);
        }
        let payload = payload::encode_sixel_payload(placement, clipped, source)?;
        cache.payloads.insert(key, payload);
    }
    let payload = cache.payloads.get(&key)?;
    append_positioned_payload(encoded, clipped, payload);
    Some(key)
}

/// The images of all signatures in `live`.
fn live_images(live: &Vec<SixelPayloadSignature>) -> (images: Vec<ImageSignature>)
    ensures
        images@ == images_of(live@),
{
    let mut images: Vec<ImageSignature> = Vec::new();
    let mut i: usize = 0;
    while i < live.len()
        invariant
            i <= live@.len(),
            images@ == images_of(live@.take(i as int)),
        decreases live@.len() - i,
    {
        images.push(live[i].image);
        i += 1;
        assert(images@ =~= images_of(live@.take(i as int)));
    }
    assert(live@.take(live@.len() as int) =~= live@);
    images
}

/// Encodes every visible placement as positioned SIXEL payloads.
///
/// `placements` is consumed for its pixel data so a decoded image can outlive
/// the frame it arrived in. `safe_bottom` counts the host rows, from the top, that
/// an image may paint; leaving the host terminal's bottom row unused keeps it from
/// scrolling.
pub fn encode_sixel_placements(
    placements: &mut [HostPlacement],
    safe_bottom: Option<u16>,
    cache: &mut SixelGraphicsCache,
) -> (bytes: Vec<u8>)
    requires
        old(cache).wf(),
    ensures
        bytes@ == painted_frame(
            old(cache)@,
            order::placements_view(old(placements)@),
            safe_bottom,
        ).bytes,
        order::placements_view(final(placements)@) == painted_frame(
            old(cache)@,
            order::placements_view(old(placements)@),
            safe_bottom,
        ).placements,
        final(cache).wf(),
        final(cache)@ == painted_frame(
            old(cache)@,
            order::placements_view(old(placements)@),
            safe_bottom,
        ).cache,
{
    let ghost views = order::placements_view(placements@);
    let ghost images = cache.images@;
    let ghost payloads = cache.payloads@;
    // Paint taller placements first so a shorter image is never covered by the
    // trailing band of a taller one.
    let order = order::paint_order_of(placements);
    let ghost painting = order::paint_order(views);
    // A placeholder row carries a crop of the same full image. Take and decode
    // that image once, before a data-free row is painted ahead of its owner.
    let mut i: usize = 0;
    assert(stash_frame(images, views, 0) =~= (StashedFrame { images, placements: views }));
    while i < placements.len()
        invariant
            cache.wf(),
            i <= placements@.len(),
            placements@.len() == views.len(),
            cache.payloads@ == payloads,
            stash_frame(images, views, i as nat) == (StashedFrame {
                images: cache.images@,
                placements: order::placements_view(placements@),
            }),
        decreases placements@.len() - i,
    {
        let ghost before = placements@;
        stash_picture(&mut placements[i], &mut cache.images);
        proof {
            assert(order::placements_view(before)[i as int] == before[i as int]@);
            assert(order::placements_view(placements@) =~= order::placements_view(before).update(
                i as int,
                placements@[i as int]@,
            ));
        }
        i += 1;
    }
    let mut bytes: Vec<u8> = Vec::new();
    let mut live: Vec<SixelPayloadSignature> = Vec::new();
    let ghost start = PaintedFrame {
        cache: cache@,
        placements: order::placements_view(placements@),
        bytes: Seq::empty(),
        live: Seq::empty(),
    };
    proof {
        order::lemma_paint_order(views);
    }
    let mut n: usize = 0;
    while n < order.len()
        invariant
            cache.wf(),
            n <= order@.len(),
            placements@.len() == views.len(),
            painting == order@.map_values(|i: usize| i as int),
            forall|k: int| 0 <= k < painting.len() ==> 0 <= #[trigger] painting[k] < views.len(),
            paint_frame(start, painting, safe_bottom, n as nat) == (PaintedFrame {
                cache: cache@,
                placements: order::placements_view(placements@),
                bytes: bytes@,
                live: live@,
            }),
        decreases order@.len() - n,
    {
        let at: usize = order[n];
        assert(at == painting[n as int]);
        let ghost before = placements@;
        let key = append_cached_sixel_placement(
            &mut bytes,
            &mut placements[at],
            safe_bottom,
            cache,
        );
        if let Some(key) = key {
            live.push(key);
        }
        proof {
            assert(order::placements_view(before)[at as int] == before[at as int]@);
            assert(order::placements_view(placements@) =~= order::placements_view(before).update(
                at as int,
                placements@[at as int]@,
            ));
        }
        n += 1;
    }
    cache.payloads.retain(&live);
    let images_kept = live_images(&live);
    cache.images.retain(&images_kept);
    bytes
}

/// The view of a cache tells what its two maps hold.
pub proof fn cache_views_tell_the_maps(cache: SixelGraphicsCache)
    ensures
        cache@.images == cache.images@,
        cache@.payloads == cache.payloads@,
{
}

} // verus!
