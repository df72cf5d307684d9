//! What holds of whole frames.

use crate::cache;
use crate::cache::{CacheView, PaintedFrame};
use crate::clip;
use crate::codecs;
use crate::order;
use crate::payload;
use crate::pixels::RgbaView;
use crate::placement::{ClippedPlacement, KittyImageFormat, PlacementView, Rect};
use crate::protocol::HostCellSize;
use crate::signature;
use crate::signature::{ImageSignature, SixelPayloadSignature};
use vstd::prelude::*;

verus! {

/// Both placements are the same but for the data at hand.
pub open spec fn same_but_data(a: PlacementView, b: PlacementView) -> bool {
    a.with_data(b.data) == b
}

/// `after` holds everything that `before` holds, unchanged.
pub open spec fn grown<K, V>(before: Map<K, V>, after: Map<K, V>) -> bool {
    forall|k: K| #[trigger]
        before.contains_key(k) ==> after.contains_key(k) && after[k] == before[k]
}

/// Every picture has the size that its signature tells.
pub open spec fn pictures_sized(images: Map<ImageSignature, RgbaView>) -> bool {
    forall|image: ImageSignature| #[trigger]
        images.contains_key(image) ==> {
            &&& images[image].width == image.width
            &&& images[image].height == image.height
        }
}

/// Every payload is what its picture encodes to for cells of the given size, so
/// that painting from the cache and painting afresh are the same.
pub open spec fn coherent(cache: CacheView, cell: HostCellSize) -> bool {
    forall|key: SixelPayloadSignature| #[trigger]
        cache.payloads.contains_key(key) ==> {
            &&& cache.images.contains_key(key.image)
            &&& payload::sixel_payload(cell, key.at_origin(), cache.images[key.image]) == Some(
                cache.payloads[key],
            )
        }
}

/// The picture of every cached payload is cached, too.
pub open spec fn keeps_pictures(cache: CacheView) -> bool {
    forall|key: SixelPayloadSignature| #[trigger]
        cache.payloads.contains_key(key) ==> cache.images.contains_key(key.image)
}

/// `after` is `before`, with its data or without.
pub open spec fn kept_or_taken(before: PlacementView, after: PlacementView) -> bool {
    after == before || after == before.with_data(Seq::empty())
}

proof fn lemma_same_geometry(a: PlacementView, b: PlacementView, safe_bottom: Option<u16>)
    requires
        same_but_data(a, b),
    ensures
        a.visible(safe_bottom) == b.visible(safe_bottom),
        a.clipped(safe_bottom) == b.clipped(safe_bottom),
        a.image_signature() == b.image_signature(),
        a.payload_signature(safe_bottom) == b.payload_signature(safe_bottom),
        a.cell_size == b.cell_size,
        a.area == b.area,
{
    assert(b == a.with_data(b.data));
    assert(a.horizontal() == b.horizontal());
    assert(a.vertical() == b.vertical());
}

proof fn lemma_payload_at_origin(
    cell: HostCellSize,
    image: ImageSignature,
    clipped: ClippedPlacement,
    picture: RgbaView,
)
    ensures
        payload::sixel_payload(
            cell,
            signature::payload_signature_of(image, clipped).at_origin(),
            picture,
        ) == payload::sixel_payload(cell, clipped, picture),
{
    payload::payload_ignores_the_position(cell, clipped, picture, 0, 0);
}

proof fn lemma_stash(images: Map<ImageSignature, RgbaView>, p: PlacementView)
    ensures
        grown(images, cache::stash(images, p).images),
        same_but_data(p, cache::stash(images, p).placement),
        pictures_sized(images) ==> pictures_sized(cache::stash(images, p).images),
        p.data.len() > 0 && p.decoded() is Some ==> cache::stash(images, p).images.contains_key(
            p.image_signature(),
        ),
{
}

proof fn lemma_stash_frame(
    images: Map<ImageSignature, RgbaView>,
    placements: Seq<PlacementView>,
    n: nat,
)
    requires
        n <= placements.len(),
    ensures
        ({
            let frame = cache::stash_frame(images, placements, n);
            &&& grown(images, frame.images)
            &&& frame.placements.len() == placements.len()
            &&& forall|i: int|
                0 <= i < placements.len() ==> same_but_data(
                    placements[i],
                    #[trigger] frame.placements[i],
                )
            &&& forall|i: int|
                n <= i < placements.len() ==> #[trigger] frame.placements[i] == placements[i]
            &&& pictures_sized(images) ==> pictures_sized(frame.images)
            &&& forall|i: int|
                0 <= i < n && (#[trigger] placements[i]).data.len() > 0 && placements[i].decoded()
                    is Some ==> frame.images.contains_key(placements[i].image_signature())
        }),
    decreases n,
{
    if n > 0 {
        lemma_stash_frame(images, placements, (n - 1) as nat);
        let before = cache::stash_frame(images, placements, (n - 1) as nat);
        lemma_stash(before.images, before.placements[n - 1]);
    }
}

proof fn lemma_paint(cache: CacheView, p: PlacementView, safe_bottom: Option<u16>)
    ensures
        ({
            let step = cache::paint(cache, p, safe_bottom);
            let key = p.payload_signature(safe_bottom);
            &&& grown(cache.images, step.cache.images)
            &&& grown(cache.payloads, step.cache.payloads)
            &&& same_but_data(p, step.placement)
            &&& pictures_sized(cache.images) ==> pictures_sized(step.cache.images)
            &&& keeps_pictures(cache) ==> keeps_pictures(step.cache)
            &&& forall|other: SixelPayloadSignature| #[trigger]
                step.cache.payloads.contains_key(other) ==> other == key
                    || cache.payloads.contains_key(other)
            &&& step.painted matches Some((painted_key, bytes)) ==> {
                &&& painted_key == key
                &&& p.visible(safe_bottom)
                &&& step.cache.payloads.contains_key(key)
                &&& bytes == cache::positioned(
                    p.clipped(safe_bottom),
                    step.cache.payloads[key],
                )
            }
            &&& step.painted is None ==> step.cache.payloads == cache.payloads
            &&& cache.payloads.contains_key(key) && p.visible(safe_bottom) ==> {
                &&& step.painted is Some
                &&& step.cache == cache
                &&& step.placement == p
            }
        }),
{
    let p2 = p.after_decoding();
    lemma_same_geometry(p, p2, safe_bottom);
}

/// What one placement paints from a coherent cache is what its picture encodes to
/// afresh, and the cache stays coherent.
pub proof fn cached_painting_is_fresh_painting(
    cache: CacheView,
    p: PlacementView,
    safe_bottom: Option<u16>,
)
    requires
        coherent(cache, p.cell_size),
    ensures
        ({
            let step = cache::paint(cache, p, safe_bottom);
            let clipped = p.clipped(safe_bottom);
            let image = p.image_signature();
            &&& coherent(step.cache, p.cell_size)
            &&& step.painted matches Some((key, bytes)) ==> {
                &&& step.cache.images.contains_key(image)
                &&& payload::sixel_payload(
                    p.cell_size,
                    clipped,
                    step.cache.images[image],
                ) matches Some(payload) && bytes == cache::positioned(clipped, payload)
            }
        }),
{
    let step = cache::paint(cache, p, safe_bottom);
    let clipped = p.clipped(safe_bottom);
    let image = p.image_signature();
    lemma_paint(cache, p, safe_bottom);
    lemma_same_geometry(p, p.after_decoding(), safe_bottom);
    if step.cache.images.contains_key(image) {
        lemma_payload_at_origin(p.cell_size, image, clipped, step.cache.images[image]);
    }
    assert forall|key: SixelPayloadSignature| #[trigger]
        step.cache.payloads.contains_key(key) implies {
        &&& step.cache.images.contains_key(key.image)
        &&& payload::sixel_payload(
            p.cell_size,
            key.at_origin(),
            step.cache.images[key.image],
        ) == Some(step.cache.payloads[key])
    } by {
        if cache.payloads.contains_key(key) {
            assert(cache.images.contains_key(key.image));
        }
    }
}

/// An empty cache is coherent, whatever the size of the cells, and no picture is
/// missing in it.
pub proof fn an_empty_cache_is_coherent(cell: HostCellSize)
    ensures
        coherent(CacheView::empty(), cell),
        keeps_pictures(CacheView::empty()),
{
}

/// `key` is the signature of a visible placement.
pub open spec fn shown_by(
    placements: Seq<PlacementView>,
    safe_bottom: Option<u16>,
    key: SixelPayloadSignature,
) -> bool {
    exists|i: int|
        0 <= i < placements.len() && (#[trigger] placements[i]).visible(safe_bottom)
            && placements[i].payload_signature(safe_bottom) == key
}

/// Every entry of `order` names one of `count` placements.
spec fn names_placements(order: Seq<int>, count: nat) -> bool {
    forall|k: int| 0 <= k < order.len() ==> 0 <= #[trigger] order[k] < count
}

proof fn lemma_paint_frame(
    start: PaintedFrame,
    order: Seq<int>,
    safe_bottom: Option<u16>,
    n: nat,
)
    requires
        n <= order.len(),
        names_placements(order, start.placements.len()),
        start.live.len() == 0,
    ensures
        ({
            let frame = cache::paint_frame(start, order, safe_bottom, n);
            &&& grown(start.cache.images, frame.cache.images)
            &&& grown(start.cache.payloads, frame.cache.payloads)
            &&& frame.placements.len() == start.placements.len()
            &&& forall|i: int|
                0 <= i < start.placements.len() ==> same_but_data(
                    start.placements[i],
                    #[trigger] frame.placements[i],
                )
            &&& pictures_sized(start.cache.images) ==> pictures_sized(frame.cache.images)
            &&& keeps_pictures(start.cache) ==> keeps_pictures(frame.cache)
            &&& forall|k: int|
                0 <= k < frame.live.len() ==> frame.cache.payloads.contains_key(
                    #[trigger] frame.live[k],
                )
            &&& forall|k: int|
                0 <= k < frame.live.len() ==> shown_by(
                    start.placements,
                    safe_bottom,
                    #[trigger] frame.live[k],
                )
        }),
    decreases n,
{
    if n > 0 {
        lemma_paint_frame(start, order, safe_bottom, (n - 1) as nat);
        let before = cache::paint_frame(start, order, safe_bottom, (n - 1) as nat);
        let frame = cache::paint_frame(start, order, safe_bottom, n);
        let at = order[n - 1];
        lemma_paint(before.cache, before.placements[at], safe_bottom);
        lemma_same_geometry(start.placements[at], before.placements[at], safe_bottom);
        assert(frame.cache == cache::paint(before.cache, before.placements[at], safe_bottom).cache);
        assert forall|k: int| 0 <= k < frame.live.len() implies frame.cache.payloads.contains_key(
            #[trigger] frame.live[k],
        ) && shown_by(start.placements, safe_bottom, frame.live[k]) by {
            if k < before.live.len() {
                assert(frame.live[k] == before.live[k]);
                assert(before.cache.payloads.contains_key(before.live[k]));
            } else {
                assert(start.placements[at].payload_signature(safe_bottom) == frame.live[k]);
                assert(start.placements[at].visible(safe_bottom));
            }
        }
        assert forall|i: int| 0 <= i < start.placements.len() implies same_but_data(
            start.placements[i],
            #[trigger] frame.placements[i],
        ) by {
            assert(same_but_data(start.placements[i], before.placements[i]));
        }
    }
}

/// What was painted stays painted.
proof fn lemma_live_grows(
    start: PaintedFrame,
    order: Seq<int>,
    safe_bottom: Option<u16>,
    m: nat,
    n: nat,
)
    requires
        m <= n <= order.len(),
    ensures
        cache::paint_frame(start, order, safe_bottom, m).live.is_prefix_of(
            cache::paint_frame(start, order, safe_bottom, n).live,
        ),
        grown(
            cache::paint_frame(start, order, safe_bottom, m).cache.payloads,
            cache::paint_frame(start, order, safe_bottom, n).cache.payloads,
        ),
    decreases n,
{
    if m < n {
        lemma_live_grows(start, order, safe_bottom, m, (n - 1) as nat);
        let before = cache::paint_frame(start, order, safe_bottom, (n - 1) as nat);
        lemma_paint(before.cache, before.placements[order[n - 1]], safe_bottom);
    }
}

/// The picture of a placement is cached, or some placement of the frame brings
/// data that decodes to it.
pub open spec fn picture_at_hand(
    cache: CacheView,
    placements: Seq<PlacementView>,
    image: ImageSignature,
) -> bool {
    ||| cache.images.contains_key(image)
    ||| exists|j: int|
        0 <= j < placements.len() && (#[trigger] placements[j]).image_signature() == image
            && placements[j].data.len() > 0 && placements[j].decoded() is Some
}

/// The raster of the placement's visible part has a size that the encoder takes.
pub open spec fn fits_the_encoder(p: PlacementView, safe_bottom: Option<u16>) -> bool {
    let clipped = p.clipped(safe_bottom);
    codecs::encodable(
        payload::raster_width(p.cell_size, clipped),
        payload::raster_height(p.cell_size, clipped),
    )
}

/// A placement that owes a payload: it can be seen, and either its payload is cached,
/// or its picture is at hand and its raster has a size that the encoder takes.
pub open spec fn owes_a_payload(
    cache: CacheView,
    placements: Seq<PlacementView>,
    safe_bottom: Option<u16>,
    i: int,
) -> bool {
    let p = placements[i];
    &&& p.visible(safe_bottom)
    &&& {
        ||| cache.payloads.contains_key(p.payload_signature(safe_bottom))
        ||| picture_at_hand(cache, placements, p.image_signature()) && fits_the_encoder(
            p,
            safe_bottom,
        )
    }
}

proof fn lemma_owed_payload_is_painted(
    cache: CacheView,
    placements: Seq<PlacementView>,
    safe_bottom: Option<u16>,
    m: int,
)
    requires
        pictures_sized(cache.images),
        0 <= m < placements.len(),
        owes_a_payload(cache, placements, safe_bottom, order::paint_order(placements)[m]),
    ensures
        ({
            let start = cache::frame_start(cache, placements);
            let painting = order::paint_order(placements);
            let before = cache::paint_frame(start, painting, safe_bottom, m as nat);
            let step = cache::paint(before.cache, before.placements[painting[m]], safe_bottom);
            &&& 0 <= painting[m] < placements.len()
            &&& step.painted matches Some((key, bytes)) && key
                == placements[painting[m]].payload_signature(safe_bottom)
        }),
{
    let start = cache::frame_start(cache, placements);
    let painting = order::paint_order(placements);
    lemma_stash_frame(cache.images, placements, placements.len());
    order::lemma_paint_order(placements);
    let at = painting[m];
    let p = placements[at];
    let image = p.image_signature();
    lemma_paint_frame(start, painting, safe_bottom, m as nat);
    let before = cache::paint_frame(start, painting, safe_bottom, m as nat);
    let q = before.placements[at];
    assert(same_but_data(start.placements[at], q));
    assert(same_but_data(p, start.placements[at]));
    assert(same_but_data(p, q));
    lemma_same_geometry(p, q, safe_bottom);
    lemma_paint(before.cache, q, safe_bottom);
    if !cache.payloads.contains_key(p.payload_signature(safe_bottom)) {
        assert(start.cache.images.contains_key(image));
        assert(before.cache.images.contains_key(image));
    }
    clip::clipping_stays_in_the_image(p, safe_bottom);
}

/// Every visible placement whose payload is cached is painted, and so is one whose
/// picture is at hand, if its raster has a size that the encoder takes. Another
/// placement of the frame may have brought the picture, and may be painted later.
pub proof fn every_visible_placement_is_painted(
    cache: CacheView,
    placements: Seq<PlacementView>,
    safe_bottom: Option<u16>,
    i: int,
)
    requires
        pictures_sized(cache.images),
        0 <= i < placements.len(),
        owes_a_payload(cache, placements, safe_bottom, i),
    ensures
        cache::painted_frame(cache, placements, safe_bottom).live.contains(
            placements[i].payload_signature(safe_bottom),
        ),
{
    let key = placements[i].payload_signature(safe_bottom);
    let start = cache::frame_start(cache, placements);
    let painting = order::paint_order(placements);
    order::lemma_paint_order(placements);
    order::lemma_paints_each(placements, i);
    let m = choose|m: int| 0 <= m < painting.len() && painting[m] == i;
    lemma_owed_payload_is_painted(cache, placements, safe_bottom, m);
    let after = cache::paint_frame(start, painting, safe_bottom, (m + 1) as nat);
    assert(after.live.last() == key);
    lemma_live_grows(start, painting, safe_bottom, (m + 1) as nat, placements.len());
    let last = cache::paint_frame(start, painting, safe_bottom, placements.len());
    assert(last.live[after.live.len() - 1] == key);
}

/// Only what the frame painted is kept: the cached payloads are those of visible
/// placements of this frame, and so are the cached pictures.
pub proof fn only_live_entries_are_kept(
    cache: CacheView,
    placements: Seq<PlacementView>,
    safe_bottom: Option<u16>,
)
    ensures
        ({
            let frame = cache::painted_frame(cache, placements, safe_bottom);
            &&& frame.cache.payloads.dom() == frame.live.to_set()
            &&& frame.cache.images.dom().subset_of(cache::images_of(frame.live).to_set())
            &&& forall|key: SixelPayloadSignature| #[trigger]
                frame.cache.payloads.contains_key(key) ==> shown_by(placements, safe_bottom, key)
        }),
{
    let start = cache::frame_start(cache, placements);
    let painting = order::paint_order(placements);
    let frame = cache::painted_frame(cache, placements, safe_bottom);
    lemma_stash_frame(cache.images, placements, placements.len());
    order::lemma_paint_order(placements);
    lemma_paint_frame(start, painting, safe_bottom, placements.len());
    let last = cache::paint_frame(start, painting, safe_bottom, placements.len());
    assert forall|key: SixelPayloadSignature| #[trigger]
        frame.live.to_set().contains(key) implies last.cache.payloads.contains_key(key) by {
        let k = frame.live.index_of(key);
        assert(last.live[k] == key);
    }
    assert(frame.cache.payloads.dom() =~= frame.live.to_set());
    assert forall|key: SixelPayloadSignature| #[trigger]
        frame.cache.payloads.contains_key(key) implies shown_by(placements, safe_bottom, key) by {
        let k = frame.live.index_of(key);
        assert(shown_by(start.placements, safe_bottom, last.live[k]));
        let i = choose|i: int|
            0 <= i < start.placements.len() && (#[trigger] start.placements[i]).visible(safe_bottom)
                && start.placements[i].payload_signature(safe_bottom) == last.live[k];
        assert(same_but_data(placements[i], start.placements[i]));
        lemma_same_geometry(placements[i], start.placements[i], safe_bottom);
    }
}

proof fn lemma_coherent_with_more_pictures(
    cache: CacheView,
    images: Map<ImageSignature, RgbaView>,
    cell: HostCellSize,
)
    requires
        coherent(cache, cell),
        grown(cache.images, images),
    ensures
        coherent(CacheView { images, ..cache }, cell),
{
    assert forall|key: SixelPayloadSignature| #[trigger] cache.payloads.contains_key(key) implies {
        &&& images.contains_key(key.image)
        &&& payload::sixel_payload(cell, key.at_origin(), images[key.image]) == Some(
            cache.payloads[key],
        )
    } by {
        assert(cache.images.dom().contains(key.image));
    }
}

proof fn lemma_paint_frame_is_coherent(
    start: PaintedFrame,
    order: Seq<int>,
    safe_bottom: Option<u16>,
    n: nat,
    cell: HostCellSize,
)
    requires
        n <= order.len(),
        names_placements(order, start.placements.len()),
        start.live.len() == 0,
        coherent(start.cache, cell),
        forall|i: int|
            0 <= i < start.placements.len() ==> (#[trigger] start.placements[i]).cell_size == cell,
    ensures
        coherent(cache::paint_frame(start, order, safe_bottom, n).cache, cell),
    decreases n,
{
    if n > 0 {
        lemma_paint_frame_is_coherent(start, order, safe_bottom, (n - 1) as nat, cell);
        lemma_paint_frame(start, order, safe_bottom, (n - 1) as nat);
        let before = cache::paint_frame(start, order, safe_bottom, (n - 1) as nat);
        let at = order[n - 1];
        assert(same_but_data(start.placements[at], before.placements[at]));
        cached_painting_is_fresh_painting(before.cache, before.placements[at], safe_bottom);
    }
}

/// Painting a frame keeps the cache coherent, as long as the cells have one size.
pub proof fn frames_keep_the_cache_coherent(
    cache: CacheView,
    placements: Seq<PlacementView>,
    safe_bottom: Option<u16>,
    cell: HostCellSize,
)
    requires
        coherent(cache, cell),
        forall|i: int|
            0 <= i < placements.len() ==> (#[trigger] placements[i]).cell_size == cell,
    ensures
        coherent(cache::painted_frame(cache, placements, safe_bottom).cache, cell),
{
    let start = cache::frame_start(cache, placements);
    let painting = order::paint_order(placements);
    let frame = cache::painted_frame(cache, placements, safe_bottom);
    lemma_stash_frame(cache.images, placements, placements.len());
    order::lemma_paint_order(placements);
    assert forall|i: int| 0 <= i < start.placements.len() implies (
    #[trigger] start.placements[i]).cell_size == cell by {
        assert(same_but_data(placements[i], start.placements[i]));
        assert(placements[i].cell_size == cell);
    }
    lemma_coherent_with_more_pictures(cache, start.cache.images, cell);
    lemma_paint_frame_is_coherent(start, painting, safe_bottom, placements.len(), cell);
    lemma_paint_frame(start, painting, safe_bottom, placements.len());
    let last = cache::paint_frame(start, painting, safe_bottom, placements.len());
    let kept = cache::images_of(frame.live);
    assert forall|key: SixelPayloadSignature| #[trigger]
        frame.cache.payloads.contains_key(key) implies {
        &&& frame.cache.images.contains_key(key.image)
        &&& payload::sixel_payload(
            cell,
            key.at_origin(),
            frame.cache.images[key.image],
        ) == Some(frame.cache.payloads[key])
    } by {
        let k = frame.live.index_of(key);
        assert(kept[k] == key.image);
        assert(last.cache.payloads.contains_key(key));
    }
}

/// A frame keeps the picture of every payload that it painted, and no other, as long
/// as no cached payload misses its picture. So it is again after the frame.
pub proof fn pictures_of_painted_payloads_are_kept(
    cache: CacheView,
    placements: Seq<PlacementView>,
    safe_bottom: Option<u16>,
)
    requires
        keeps_pictures(cache),
    ensures
        ({
            let frame = cache::painted_frame(cache, placements, safe_bottom);
            &&& keeps_pictures(frame.cache)
            &&& frame.cache.images.dom() == cache::images_of(frame.live).to_set()
        }),
{
    let start = cache::frame_start(cache, placements);
    let painting = order::paint_order(placements);
    let frame = cache::painted_frame(cache, placements, safe_bottom);
    lemma_stash_frame(cache.images, placements, placements.len());
    order::lemma_paint_order(placements);
    lemma_paint_frame(start, painting, safe_bottom, placements.len());
    let last = cache::paint_frame(start, painting, safe_bottom, placements.len());
    let kept = cache::images_of(frame.live);
    assert forall|key: SixelPayloadSignature| #[trigger]
        frame.cache.payloads.contains_key(key) implies frame.cache.images.contains_key(
        key.image,
    ) by {
        let k = frame.live.index_of(key);
        assert(kept[k] == key.image);
        assert(last.cache.payloads.contains_key(key));
    }
    assert forall|image: ImageSignature| #[trigger] kept.to_set().contains(
        image,
    ) implies last.cache.images.contains_key(image) by {
        let k = kept.index_of(image);
        assert(last.cache.payloads.contains_key(last.live[k]));
    }
    assert(frame.cache.images.dom() =~= kept.to_set());
}

/// What a frame does not show is dropped: neither a payload nor the picture of an
/// image that no visible placement shows stays in the cache.
pub proof fn stale_content_is_dropped(
    cache: CacheView,
    placements: Seq<PlacementView>,
    safe_bottom: Option<u16>,
    image: ImageSignature,
)
    requires
        forall|i: int|
            0 <= i < placements.len() && (#[trigger] placements[i]).visible(safe_bottom)
                ==> placements[i].image_signature() != image,
    ensures
        ({
            let frame = cache::painted_frame(cache, placements, safe_bottom);
            &&& !frame.cache.images.contains_key(image)
            &&& forall|key: SixelPayloadSignature| #[trigger]
                frame.cache.payloads.contains_key(key) ==> key.image != image
        }),
{
    let frame = cache::painted_frame(cache, placements, safe_bottom);
    only_live_entries_are_kept(cache, placements, safe_bottom);
    assert forall|key: SixelPayloadSignature| #[trigger]
        frame.cache.payloads.contains_key(key) implies key.image != image by {
        let i = choose|i: int|
            0 <= i < placements.len() && (#[trigger] placements[i]).visible(safe_bottom)
                && placements[i].payload_signature(safe_bottom) == key;
        assert(placements[i].image_signature() == key.image);
    }
    if frame.cache.images.contains_key(image) {
        let k = cache::images_of(frame.live).index_of(image);
        assert(frame.live.to_set().contains(frame.live[k]));
        assert(frame.cache.payloads.contains_key(frame.live[k]));
    }
}

/// The bytes of a frame whose payloads are all cached: for each visible placement,
/// in order, its payload at its position.
pub open spec fn repainted(
    payloads: Map<SixelPayloadSignature, Seq<u8>>,
    placements: Seq<PlacementView>,
    order: Seq<int>,
    safe_bottom: Option<u16>,
    n: nat,
) -> Seq<u8>
    decreases n,
{
    if n == 0 {
        Seq::empty()
    } else {
        let before = repainted(payloads, placements, order, safe_bottom, (n - 1) as nat);
        let p = placements[order[n - 1]];
        if p.visible(safe_bottom) {
            before + cache::positioned(
                p.clipped(safe_bottom),
                payloads[p.payload_signature(safe_bottom)],
            )
        } else {
            before
        }
    }
}

/// The payload of every visible placement is cached.
pub open spec fn all_cached(
    payloads: Map<SixelPayloadSignature, Seq<u8>>,
    placements: Seq<PlacementView>,
    safe_bottom: Option<u16>,
) -> bool {
    forall|i: int|
        0 <= i < placements.len() && (#[trigger] placements[i]).visible(safe_bottom)
            ==> payloads.contains_key(placements[i].payload_signature(safe_bottom))
}

proof fn lemma_repaint_frame(
    start: PaintedFrame,
    placements: Seq<PlacementView>,
    order: Seq<int>,
    safe_bottom: Option<u16>,
    n: nat,
)
    requires
        n <= order.len(),
        names_placements(order, placements.len()),
        start.placements.len() == placements.len(),
        forall|i: int|
            0 <= i < placements.len() ==> same_but_data(
                placements[i],
                #[trigger] start.placements[i],
            ),
        start.bytes.len() == 0,
        all_cached(start.cache.payloads, placements, safe_bottom),
    ensures
        ({
            let frame = cache::paint_frame(start, order, safe_bottom, n);
            &&& frame.cache == start.cache
            &&& frame.placements == start.placements
            &&& frame.bytes == repainted(
                start.cache.payloads,
                placements,
                order,
                safe_bottom,
                n,
            )
        }),
    decreases n,
{
    if n == 0 {
        assert(start.bytes =~= Seq::<u8>::empty());
    } else {
        lemma_repaint_frame(start, placements, order, safe_bottom, (n - 1) as nat);
        let before = cache::paint_frame(start, order, safe_bottom, (n - 1) as nat);
        let at = order[n - 1];
        let p = placements[at];
        let q = before.placements[at];
        assert(same_but_data(p, q));
        lemma_same_geometry(p, q, safe_bottom);
        lemma_paint(before.cache, q, safe_bottom);
        let frame = cache::paint_frame(start, order, safe_bottom, n);
        assert(frame.placements =~= start.placements);
    }
}

/// A frame whose payloads are all cached is painted from the cache: nothing is
/// encoded again, and the payloads go to where the placements are now.
pub proof fn cached_frames_are_repainted(
    cache: CacheView,
    placements: Seq<PlacementView>,
    safe_bottom: Option<u16>,
)
    requires
        all_cached(cache.payloads, placements, safe_bottom),
    ensures
        ({
            let frame = cache::painted_frame(cache, placements, safe_bottom);
            &&& frame.bytes == repainted(
                cache.payloads,
                placements,
                order::paint_order(placements),
                safe_bottom,
                placements.len(),
            )
            &&& grown(frame.cache.payloads, cache.payloads)
        }),
{
    let start = cache::frame_start(cache, placements);
    let painting = order::paint_order(placements);
    lemma_stash_frame(cache.images, placements, placements.len());
    order::lemma_paint_order(placements);
    lemma_repaint_frame(start, placements, painting, safe_bottom, placements.len());
}

/// The `m`-th placement of the order was painted, if it can be seen.
pub open spec fn paints_visible_at(
    start: PaintedFrame,
    order: Seq<int>,
    safe_bottom: Option<u16>,
    m: int,
) -> bool {
    let before = cache::paint_frame(start, order, safe_bottom, m as nat);
    before.placements[order[m]].visible(safe_bottom) ==> cache::paint(
        before.cache,
        before.placements[order[m]],
        safe_bottom,
    ).painted is Some
}

/// Every visible placement of the order was painted.
pub open spec fn paints_all_visible(
    start: PaintedFrame,
    order: Seq<int>,
    safe_bottom: Option<u16>,
) -> bool {
    forall|m: int|
        0 <= m < order.len() ==> #[trigger] paints_visible_at(start, order, safe_bottom, m)
}

/// Painting starts from these placements, and none was painted yet.
spec fn starts_from(start: PaintedFrame, placements: Seq<PlacementView>) -> bool {
    &&& start.placements.len() == placements.len()
    &&& forall|i: int|
        0 <= i < placements.len() ==> same_but_data(placements[i], #[trigger] start.placements[i])
    &&& start.bytes.len() == 0
    &&& start.live.len() == 0
}

/// What painting the `m`-th placement of the order does, where all that is visible
/// is painted.
proof fn lemma_visible_step(
    start: PaintedFrame,
    placements: Seq<PlacementView>,
    order: Seq<int>,
    safe_bottom: Option<u16>,
    m: int,
)
    requires
        0 <= m < order.len(),
        names_placements(order, placements.len()),
        starts_from(start, placements),
        paints_all_visible(start, order, safe_bottom),
    ensures
        ({
            let before = cache::paint_frame(start, order, safe_bottom, m as nat);
            let after = cache::paint_frame(start, order, safe_bottom, (m + 1) as nat);
            let p = placements[order[m]];
            let key = p.payload_signature(safe_bottom);
            if p.visible(safe_bottom) {
                &&& after.live == before.live.push(key)
                &&& after.cache.payloads.contains_key(key)
                &&& after.bytes == before.bytes + cache::positioned(
                    p.clipped(safe_bottom),
                    after.cache.payloads[key],
                )
            } else {
                &&& after.live == before.live
                &&& after.bytes == before.bytes
            }
        }),
{
    let before = cache::paint_frame(start, order, safe_bottom, m as nat);
    let at = order[m];
    lemma_paint_frame(start, order, safe_bottom, m as nat);
    let q = before.placements[at];
    assert(same_but_data(start.placements[at], q));
    assert(same_but_data(placements[at], start.placements[at]));
    assert(same_but_data(placements[at], q));
    lemma_same_geometry(placements[at], q, safe_bottom);
    lemma_paint(before.cache, q, safe_bottom);
    assert(paints_visible_at(start, order, safe_bottom, m));
}

/// What was painted can be painted again from the payloads.
proof fn lemma_painted_bytes(
    start: PaintedFrame,
    placements: Seq<PlacementView>,
    order: Seq<int>,
    safe_bottom: Option<u16>,
    n: nat,
)
    requires
        n <= order.len(),
        names_placements(order, placements.len()),
        starts_from(start, placements),
        paints_all_visible(start, order, safe_bottom),
    ensures
        cache::paint_frame(start, order, safe_bottom, n).bytes == repainted(
            cache::paint_frame(start, order, safe_bottom, order.len()).cache.payloads,
            placements,
            order,
            safe_bottom,
            n,
        ),
    decreases n,
{
    if n == 0 {
        assert(start.bytes =~= Seq::<u8>::empty());
    } else {
        lemma_painted_bytes(start, placements, order, safe_bottom, (n - 1) as nat);
        lemma_visible_step(start, placements, order, safe_bottom, n - 1);
        lemma_live_grows(start, order, safe_bottom, n, order.len());
    }
}

/// A visible placement is live, and its payload cached, once all were painted.
proof fn lemma_visible_is_live(
    start: PaintedFrame,
    placements: Seq<PlacementView>,
    order: Seq<int>,
    safe_bottom: Option<u16>,
    m: int,
)
    requires
        0 <= m < order.len(),
        names_placements(order, placements.len()),
        starts_from(start, placements),
        paints_all_visible(start, order, safe_bottom),
        placements[order[m]].visible(safe_bottom),
    ensures
        ({
            let last = cache::paint_frame(start, order, safe_bottom, order.len());
            let key = placements[order[m]].payload_signature(safe_bottom);
            &&& last.live.contains(key)
            &&& last.cache.payloads.contains_key(key)
        }),
{
    lemma_visible_step(start, placements, order, safe_bottom, m);
    lemma_live_grows(start, order, safe_bottom, (m + 1) as nat, order.len());
    let after = cache::paint_frame(start, order, safe_bottom, (m + 1) as nat);
    let last = cache::paint_frame(start, order, safe_bottom, order.len());
    assert(last.live[after.live.len() - 1] == after.live.last());
}

/// Repainting depends on the payloads of visible placements only.
proof fn lemma_repainted_from_fewer(
    payloads: Map<SixelPayloadSignature, Seq<u8>>,
    fewer: Map<SixelPayloadSignature, Seq<u8>>,
    placements: Seq<PlacementView>,
    order: Seq<int>,
    safe_bottom: Option<u16>,
    n: nat,
)
    requires
        n <= order.len(),
        names_placements(order, placements.len()),
        all_cached(fewer, placements, safe_bottom),
        grown(fewer, payloads),
    ensures
        repainted(payloads, placements, order, safe_bottom, n) == repainted(
            fewer,
            placements,
            order,
            safe_bottom,
            n,
        ),
    decreases n,
{
    if n > 0 {
        lemma_repainted_from_fewer(
            payloads,
            fewer,
            placements,
            order,
            safe_bottom,
            (n - 1) as nat,
        );
        let p = placements[order[n - 1]];
        if p.visible(safe_bottom) {
            assert(fewer.contains_key(p.payload_signature(safe_bottom)));
        }
    }
}

/// Whether a frame paints every placement that can be seen.
pub open spec fn frame_is_complete(
    cache: CacheView,
    placements: Seq<PlacementView>,
    safe_bottom: Option<u16>,
) -> bool {
    paints_all_visible(
        cache::frame_start(cache, placements),
        order::paint_order(placements),
        safe_bottom,
    )
}

/// A frame is complete where every visible placement owes a payload.
pub proof fn owed_payloads_complete_a_frame(
    cache: CacheView,
    placements: Seq<PlacementView>,
    safe_bottom: Option<u16>,
)
    requires
        pictures_sized(cache.images),
        forall|i: int|
            0 <= i < placements.len() && (#[trigger] placements[i]).visible(safe_bottom)
                ==> owes_a_payload(cache, placements, safe_bottom, i),
    ensures
        frame_is_complete(cache, placements, safe_bottom),
{
    let start = cache::frame_start(cache, placements);
    let painting = order::paint_order(placements);
    lemma_stash_frame(cache.images, placements, placements.len());
    order::lemma_paint_order(placements);
    assert forall|m: int| 0 <= m < painting.len() implies #[trigger] paints_visible_at(
        start,
        painting,
        safe_bottom,
        m,
    ) by {
        let before = cache::paint_frame(start, painting, safe_bottom, m as nat);
        let at = painting[m];
        lemma_paint_frame(start, painting, safe_bottom, m as nat);
        assert(same_but_data(start.placements[at], before.placements[at]));
        assert(same_but_data(placements[at], start.placements[at]));
        lemma_same_geometry(placements[at], before.placements[at], safe_bottom);
        if placements[at].visible(safe_bottom) {
            lemma_owed_payload_is_painted(cache, placements, safe_bottom, m);
        }
    }
}

/// The bytes of a complete frame are its payloads, as the cache keeps them, at the
/// positions of its visible placements, in the order of painting.
pub proof fn complete_frames_can_be_repainted(
    cache: CacheView,
    placements: Seq<PlacementView>,
    safe_bottom: Option<u16>,
)
    requires
        frame_is_complete(cache, placements, safe_bottom),
    ensures
        ({
            let frame = cache::painted_frame(cache, placements, safe_bottom);
            &&& all_cached(frame.cache.payloads, placements, safe_bottom)
            &&& frame.bytes == repainted(
                frame.cache.payloads,
                placements,
                order::paint_order(placements),
                safe_bottom,
                placements.len(),
            )
        }),
{
    let start = cache::frame_start(cache, placements);
    let painting = order::paint_order(placements);
    let frame = cache::painted_frame(cache, placements, safe_bottom);
    let last = cache::paint_frame(start, painting, safe_bottom, placements.len());
    lemma_stash_frame(cache.images, placements, placements.len());
    order::lemma_paint_order(placements);
    assert(starts_from(start, placements));
    assert forall|i: int|
        0 <= i < placements.len() && (#[trigger] placements[i]).visible(
            safe_bottom,
        ) implies frame.cache.payloads.contains_key(
        placements[i].payload_signature(safe_bottom),
    ) by {
        order::lemma_paints_each(placements, i);
        let m = choose|m: int| 0 <= m < painting.len() && painting[m] == i;
        lemma_visible_is_live(start, placements, painting, safe_bottom, m);
    }
    lemma_painted_bytes(start, placements, painting, safe_bottom, placements.len());
    lemma_repainted_from_fewer(
        last.cache.payloads,
        frame.cache.payloads,
        placements,
        painting,
        safe_bottom,
        placements.len(),
    );
}

proof fn lemma_repainted_without_data(
    payloads: Map<SixelPayloadSignature, Seq<u8>>,
    first: Seq<PlacementView>,
    second: Seq<PlacementView>,
    order: Seq<int>,
    safe_bottom: Option<u16>,
    n: nat,
)
    requires
        n <= order.len(),
        names_placements(order, first.len()),
        first.len() == second.len(),
        forall|i: int| 0 <= i < first.len() ==> same_but_data(first[i], #[trigger] second[i]),
    ensures
        repainted(payloads, first, order, safe_bottom, n) == repainted(
            payloads,
            second,
            order,
            safe_bottom,
            n,
        ),
    decreases n,
{
    if n > 0 {
        lemma_repainted_without_data(payloads, first, second, order, safe_bottom, (n - 1) as nat);
        let at = order[n - 1];
        assert(same_but_data(first[at], second[at]));
        lemma_same_geometry(first[at], second[at], safe_bottom);
    }
}

/// A frame that names the placements of a complete frame again, with whatever data,
/// paints the same bytes and keeps the same payloads.
pub proof fn complete_frames_repeat_with_any_data(
    cache: CacheView,
    first: Seq<PlacementView>,
    second: Seq<PlacementView>,
    safe_bottom: Option<u16>,
)
    requires
        frame_is_complete(cache, first, safe_bottom),
        first.len() == second.len(),
        forall|i: int| 0 <= i < first.len() ==> same_but_data(first[i], #[trigger] second[i]),
    ensures
        ({
            let painted = cache::painted_frame(cache, first, safe_bottom);
            let again = cache::painted_frame(painted.cache, second, safe_bottom);
            &&& again.bytes == painted.bytes
            &&& again.cache.payloads == painted.cache.payloads
        }),
{
    let painted = cache::painted_frame(cache, first, safe_bottom);
    complete_frames_can_be_repainted(cache, first, safe_bottom);
    assert forall|i: int|
        0 <= i < second.len() && (#[trigger] second[i]).visible(
            safe_bottom,
        ) implies painted.cache.payloads.contains_key(
        second[i].payload_signature(safe_bottom),
    ) by {
        assert(same_but_data(first[i], second[i]));
        lemma_same_geometry(first[i], second[i], safe_bottom);
        assert(first[i].visible(safe_bottom));
    }
    cached_frames_are_repainted(painted.cache, second, safe_bottom);
    assert forall|i: int| 0 <= i < first.len() implies (#[trigger] first[i]).area
        == second[i].area by {
        assert(same_but_data(first[i], second[i]));
    }
    order::lemma_order_depends_on_areas(first, second);
    order::lemma_paint_order(first);
    lemma_repainted_without_data(
        painted.cache.payloads,
        first,
        second,
        order::paint_order(first),
        safe_bottom,
        first.len(),
    );
    let again = cache::painted_frame(painted.cache, second, safe_bottom);
    lemma_cached_frames_are_complete(painted.cache, second, safe_bottom);
    complete_frames_can_be_repainted(painted.cache, second, safe_bottom);
    only_live_entries_are_kept(cache, first, safe_bottom);
    assert forall|key: SixelPayloadSignature| #[trigger]
        painted.cache.payloads.contains_key(key) implies again.cache.payloads.contains_key(
        key,
    ) by {
        let i = choose|i: int|
            0 <= i < first.len() && (#[trigger] first[i]).visible(safe_bottom)
                && first[i].payload_signature(safe_bottom) == key;
        assert(same_but_data(first[i], second[i]));
        lemma_same_geometry(first[i], second[i], safe_bottom);
    }
    assert(again.cache.payloads =~= painted.cache.payloads);
}

proof fn lemma_cached_frames_are_complete(
    cache: CacheView,
    placements: Seq<PlacementView>,
    safe_bottom: Option<u16>,
)
    requires
        all_cached(cache.payloads, placements, safe_bottom),
    ensures
        frame_is_complete(cache, placements, safe_bottom),
{
    let start = cache::frame_start(cache, placements);
    let painting = order::paint_order(placements);
    lemma_stash_frame(cache.images, placements, placements.len());
    order::lemma_paint_order(placements);
    assert forall|m: int| 0 <= m < painting.len() implies #[trigger] paints_visible_at(
        start,
        painting,
        safe_bottom,
        m,
    ) by {
        lemma_repaint_frame(start, placements, painting, safe_bottom, m as nat);
        let at = painting[m];
        assert(same_but_data(placements[at], start.placements[at]));
        lemma_same_geometry(placements[at], start.placements[at], safe_bottom);
        if placements[at].visible(safe_bottom) {
            lemma_paint(start.cache, start.placements[at], safe_bottom);
        }
    }
}

/// The `l`-th placement in the order of painting has this signature, and a raster of
/// a size that the encoder takes.
pub open spec fn encodes_at(
    placements: Seq<PlacementView>,
    safe_bottom: Option<u16>,
    key: SixelPayloadSignature,
    l: int,
) -> bool {
    let p = placements[order::paint_order(placements)[l]];
    &&& 0 <= l < placements.len()
    &&& p.visible(safe_bottom)
    &&& p.payload_signature(safe_bottom) == key
    &&& fits_the_encoder(p, safe_bottom)
}

/// In the order of painting, placement `n` is the first that can be encoded of those
/// that show what `m`, before it, shows: nothing is painted for `m`, although its
/// picture is at hand and the payload is cached in the end.
pub open spec fn fails_before(
    cache: CacheView,
    placements: Seq<PlacementView>,
    safe_bottom: Option<u16>,
    m: int,
    n: int,
) -> bool {
    let p = placements[order::paint_order(placements)[m]];
    let key = p.payload_signature(safe_bottom);
    &&& 0 <= m < n
    &&& p.visible(safe_bottom)
    &&& encodes_at(placements, safe_bottom, key, n)
    &&& forall|l: int| l < n ==> !(#[trigger] encodes_at(placements, safe_bottom, key, l))
    &&& !cache.payloads.contains_key(key)
    &&& picture_at_hand(cache, placements, key.image)
}

/// Placements that show the same are painted, or not, all alike.
pub open spec fn paints_alike(
    cache: CacheView,
    placements: Seq<PlacementView>,
    safe_bottom: Option<u16>,
) -> bool {
    forall|m: int, n: int| !(#[trigger] fails_before(cache, placements, safe_bottom, m, n))
}

/// Where the cells have one size, placements that show the same are painted alike.
pub proof fn cells_of_one_size_paint_alike(
    cache: CacheView,
    placements: Seq<PlacementView>,
    safe_bottom: Option<u16>,
    cell: HostCellSize,
)
    requires
        forall|i: int|
            0 <= i < placements.len() ==> (#[trigger] placements[i]).cell_size == cell,
    ensures
        paints_alike(cache, placements, safe_bottom),
{
    order::lemma_paint_order(placements);
    assert forall|m: int, n: int| !(#[trigger] fails_before(
        cache,
        placements,
        safe_bottom,
        m,
        n,
    )) by {
        if fails_before(cache, placements, safe_bottom, m, n) {
            let p = placements[order::paint_order(placements)[m]];
            let q = placements[order::paint_order(placements)[n]];
            assert(p.cell_size == q.cell_size);
            assert(encodes_at(placements, safe_bottom, p.payload_signature(safe_bottom), m));
        }
    }
}

/// A visible placement without data has no picture of its own.
proof fn lemma_no_data_no_picture(p: PlacementView, safe_bottom: Option<u16>)
    requires
        p.visible(safe_bottom),
        p.data.len() == 0,
    ensures
        p.decoded() is None,
{
    assert(0 < p.pixel_count()) by (nonlinear_arith)
        requires
            p.pixel_count() == p.image_width * p.image_height,
            0 < p.image_width,
            0 < p.image_height,
    ;
}

/// A visible placement either has a known picture or none that could be decoded.
spec fn is_settled(
    images: Map<ImageSignature, RgbaView>,
    p: PlacementView,
    safe_bottom: Option<u16>,
) -> bool {
    p.visible(safe_bottom) && !images.contains_key(p.image_signature()) ==> p.decoded() is None
}

proof fn lemma_stays_settled(
    images: Map<ImageSignature, RgbaView>,
    p: PlacementView,
    safe_bottom: Option<u16>,
)
    requires
        is_settled(images, p, safe_bottom),
    ensures
        is_settled(images, p.after_decoding(), safe_bottom),
{
    let q = p.after_decoding();
    lemma_same_geometry(p, q, safe_bottom);
    if q.visible(safe_bottom) && p.decoding_takes_data() {
        lemma_no_data_no_picture(q, safe_bottom);
    }
}

/// Once the data was looked at, no further picture can be decoded; and a picture
/// is known only from before, or from the data.
proof fn lemma_stash_frame_settles(
    cache: CacheView,
    placements: Seq<PlacementView>,
    safe_bottom: Option<u16>,
    n: nat,
)
    requires
        n <= placements.len(),
    ensures
        ({
            let frame = cache::stash_frame(cache.images, placements, n);
            &&& forall|i: int|
                0 <= i < n ==> is_settled(frame.images, #[trigger] frame.placements[i], safe_bottom)
            &&& forall|image: ImageSignature| #[trigger]
                frame.images.contains_key(image) ==> picture_at_hand(cache, placements, image)
        }),
    decreases n,
{
    if n > 0 {
        lemma_stash_frame_settles(cache, placements, safe_bottom, (n - 1) as nat);
        lemma_stash_frame(cache.images, placements, (n - 1) as nat);
        let before = cache::stash_frame(cache.images, placements, (n - 1) as nat);
        let frame = cache::stash_frame(cache.images, placements, n);
        let p = placements[n - 1];
        assert(before.placements[n - 1] == p);
        lemma_stash(before.images, p);
        if p.visible(safe_bottom) && p.data.len() == 0 {
            lemma_no_data_no_picture(p, safe_bottom);
        }
        if p.decoded() is None {
            lemma_stays_settled(frame.images, p, safe_bottom);
        }
        lemma_same_geometry(p, frame.placements[n - 1], safe_bottom);
        assert forall|i: int| 0 <= i < n implies is_settled(
            frame.images,
            #[trigger] frame.placements[i],
            safe_bottom,
        ) by {
            if i < n - 1 {
                assert(frame.placements[i] == before.placements[i]);
                assert(is_settled(before.images, before.placements[i], safe_bottom));
            }
        }
        assert forall|image: ImageSignature| #[trigger]
            frame.images.contains_key(image) implies picture_at_hand(
            cache,
            placements,
            image,
        ) by {
            if !before.images.contains_key(image) {
                assert(placements[n - 1].image_signature() == image);
            }
        }
    }
}

/// Painting decodes nothing where everything is settled.
proof fn lemma_settled_frame(
    start: PaintedFrame,
    order: Seq<int>,
    safe_bottom: Option<u16>,
    n: nat,
)
    requires
        n <= order.len(),
        names_placements(order, start.placements.len()),
        forall|i: int|
            0 <= i < start.placements.len() ==> is_settled(
                start.cache.images,
                #[trigger] start.placements[i],
                safe_bottom,
            ),
    ensures
        ({
            let frame = cache::paint_frame(start, order, safe_bottom, n);
            &&& frame.cache.images == start.cache.images
            &&& frame.placements.len() == start.placements.len()
            &&& forall|i: int|
                0 <= i < start.placements.len() ==> is_settled(
                    start.cache.images,
                    #[trigger] frame.placements[i],
                    safe_bottom,
                )
        }),
    decreases n,
{
    if n > 0 {
        lemma_settled_frame(start, order, safe_bottom, (n - 1) as nat);
        let before = cache::paint_frame(start, order, safe_bottom, (n - 1) as nat);
        let frame = cache::paint_frame(start, order, safe_bottom, n);
        let at = order[n - 1];
        assert(is_settled(start.cache.images, before.placements[at], safe_bottom));
        lemma_stays_settled(start.cache.images, before.placements[at], safe_bottom);
        assert forall|i: int| 0 <= i < start.placements.len() implies is_settled(
            start.cache.images,
            #[trigger] frame.placements[i],
            safe_bottom,
        ) by {
            if i != at {
                assert(frame.placements[i] == before.placements[i]);
            }
        }
    }
}

/// Whether the `m`-th placement of the order is painted when its turn comes.
spec fn painted_in_turn(
    cache: CacheView,
    placements: Seq<PlacementView>,
    safe_bottom: Option<u16>,
    m: int,
) -> bool {
    let painting = order::paint_order(placements);
    let start = cache::frame_start(cache, placements);
    let before = cache::paint_frame(start, painting, safe_bottom, m as nat);
    let p = placements[painting[m]];
    &&& p.visible(safe_bottom)
    &&& {
        ||| before.cache.payloads.contains_key(p.payload_signature(safe_bottom))
        ||| start.cache.images.contains_key(p.image_signature()) && fits_the_encoder(
            p,
            safe_bottom,
        )
    }
}

/// What the turn of the `m`-th placement of the order does.
proof fn lemma_turn(
    cache: CacheView,
    placements: Seq<PlacementView>,
    safe_bottom: Option<u16>,
    m: int,
)
    requires
        pictures_sized(cache.images),
        0 <= m < placements.len(),
    ensures
        ({
            let painting = order::paint_order(placements);
            let start = cache::frame_start(cache, placements);
            let before = cache::paint_frame(start, painting, safe_bottom, m as nat);
            let after = cache::paint_frame(start, painting, safe_bottom, (m + 1) as nat);
            let p = placements[painting[m]];
            let key = p.payload_signature(safe_bottom);
            &&& after.cache.images == start.cache.images
            &&& grown(before.cache.payloads, after.cache.payloads)
            &&& before.cache.payloads.contains_key(key) ==> after.cache.payloads
                == before.cache.payloads
            &&& if painted_in_turn(cache, placements, safe_bottom, m) {
                &&& after.live == before.live.push(key)
                &&& after.cache.payloads.contains_key(key)
                &&& after.bytes == before.bytes + cache::positioned(
                    p.clipped(safe_bottom),
                    after.cache.payloads[key],
                )
                &&& forall|other: SixelPayloadSignature| #[trigger]
                    after.cache.payloads.contains_key(other) ==> other == key
                        || before.cache.payloads.contains_key(other)
            } else {
                &&& after.live == before.live
                &&& after.bytes == before.bytes
                &&& after.cache.payloads == before.cache.payloads
            }
        }),
{
    let painting = order::paint_order(placements);
    let start = cache::frame_start(cache, placements);
    let before = cache::paint_frame(start, painting, safe_bottom, m as nat);
    order::lemma_paint_order(placements);
    lemma_stash_frame(cache.images, placements, placements.len());
    lemma_stash_frame_settles(cache, placements, safe_bottom, placements.len());
    lemma_settled_frame(start, painting, safe_bottom, m as nat);
    lemma_settled_frame(start, painting, safe_bottom, (m + 1) as nat);
    lemma_paint_frame(start, painting, safe_bottom, m as nat);
    let at = painting[m];
    let p = placements[at];
    let q = before.placements[at];
    assert(same_but_data(start.placements[at], q));
    assert(same_but_data(p, start.placements[at]));
    assert(same_but_data(p, q));
    lemma_same_geometry(p, q, safe_bottom);
    assert(is_settled(start.cache.images, q, safe_bottom));
    lemma_paint(before.cache, q, safe_bottom);
    if p.visible(safe_bottom) {
        clip::clipping_stays_in_the_image(p, safe_bottom);
    }
}

/// The bytes of the first `n` placements of the order, each visible one encoded
/// afresh from its picture, where the picture is known and can be encoded.
pub open spec fn freshly_painted(
    images: Map<ImageSignature, RgbaView>,
    placements: Seq<PlacementView>,
    order: Seq<int>,
    safe_bottom: Option<u16>,
    n: nat,
) -> Seq<u8>
    decreases n,
{
    if n == 0 {
        Seq::empty()
    } else {
        let before = freshly_painted(images, placements, order, safe_bottom, (n - 1) as nat);
        let p = placements[order[n - 1]];
        let clipped = p.clipped(safe_bottom);
        let image = p.image_signature();
        if p.visible(safe_bottom) && images.contains_key(image) {
            match payload::sixel_payload(p.cell_size, clipped, images[image]) {
                Some(payload) => before + payload::cursor_move(
                    clipped.x as nat,
                    clipped.y as nat,
                ) + payload,
                None => before,
            }
        } else {
            before
        }
    }
}

proof fn lemma_painted_bytes_are_fresh(
    cache: CacheView,
    placements: Seq<PlacementView>,
    safe_bottom: Option<u16>,
    cell: HostCellSize,
    n: nat,
)
    requires
        n <= placements.len(),
        pictures_sized(cache.images),
        coherent(cache, cell),
        forall|i: int|
            0 <= i < placements.len() ==> (#[trigger] placements[i]).cell_size == cell,
    ensures
        ({
            let painting = order::paint_order(placements);
            let start = cache::frame_start(cache, placements);
            cache::paint_frame(start, painting, safe_bottom, n).bytes == freshly_painted(
                start.cache.images,
                placements,
                painting,
                safe_bottom,
                n,
            )
        }),
    decreases n,
{
    let painting = order::paint_order(placements);
    let start = cache::frame_start(cache, placements);
    if n > 0 {
        lemma_painted_bytes_are_fresh(cache, placements, safe_bottom, cell, (n - 1) as nat);
        order::lemma_paint_order(placements);
        lemma_stash_frame(cache.images, placements, placements.len());
        lemma_coherent_with_more_pictures(cache, start.cache.images, cell);
        assert forall|i: int| 0 <= i < start.placements.len() implies (
        #[trigger] start.placements[i]).cell_size == cell by {
            assert(same_but_data(placements[i], start.placements[i]));
            assert(placements[i].cell_size == cell);
        }
        let before = cache::paint_frame(start, painting, safe_bottom, (n - 1) as nat);
        let after = cache::paint_frame(start, painting, safe_bottom, n);
        lemma_paint_frame_is_coherent(start, painting, safe_bottom, (n - 1) as nat, cell);
        lemma_paint_frame_is_coherent(start, painting, safe_bottom, n, cell);
        lemma_turn(cache, placements, safe_bottom, n - 1);
        lemma_images_while_painting(cache, placements, safe_bottom, (n - 1) as nat);
        let p = placements[painting[n - 1]];
        let clipped = p.clipped(safe_bottom);
        let image = p.image_signature();
        let key = p.payload_signature(safe_bottom);
        assert(p.cell_size == cell);
        if p.visible(safe_bottom) {
            clip::clipping_stays_in_the_image(p, safe_bottom);
            if start.cache.images.contains_key(image) {
                lemma_payload_at_origin(cell, image, clipped, start.cache.images[image]);
            }
            if before.cache.payloads.contains_key(key) {
                assert(before.cache.images.contains_key(key.image));
            }
            if after.cache.payloads.contains_key(key) {
                assert(after.cache.images.contains_key(key.image));
                let cursor = payload::cursor_move(clipped.x as nat, clipped.y as nat);
                let payload = after.cache.payloads[key];
                assert(before.bytes + cache::positioned(clipped, payload) =~= before.bytes + cursor
                    + payload);
            }
        }
    }
}

/// Painting decodes no further picture.
proof fn lemma_images_while_painting(
    cache: CacheView,
    placements: Seq<PlacementView>,
    safe_bottom: Option<u16>,
    n: nat,
)
    requires
        n <= placements.len(),
    ensures
        ({
            let start = cache::frame_start(cache, placements);
            cache::paint_frame(
                start,
                order::paint_order(placements),
                safe_bottom,
                n,
            ).cache.images == start.cache.images
        }),
{
    order::lemma_paint_order(placements);
    lemma_stash_frame(cache.images, placements, placements.len());
    lemma_stash_frame_settles(cache, placements, safe_bottom, placements.len());
    lemma_settled_frame(
        cache::frame_start(cache, placements),
        order::paint_order(placements),
        safe_bottom,
        n,
    );
}

/// A frame paints what its pictures are now, and no payload of former content: its
/// bytes are those that encoding every picture afresh would give. So it is from a
/// coherent cache, where the cells have one size.
pub proof fn frames_show_their_pictures(
    cache: CacheView,
    placements: Seq<PlacementView>,
    safe_bottom: Option<u16>,
    cell: HostCellSize,
)
    requires
        pictures_sized(cache.images),
        coherent(cache, cell),
        forall|i: int|
            0 <= i < placements.len() ==> (#[trigger] placements[i]).cell_size == cell,
    ensures
        cache::painted_frame(cache, placements, safe_bottom).bytes == freshly_painted(
            cache::frame_start(cache, placements).cache.images,
            placements,
            order::paint_order(placements),
            safe_bottom,
            placements.len(),
        ),
{
    lemma_painted_bytes_are_fresh(cache, placements, safe_bottom, cell, placements.len());
}

/// What goes unpainted in its turn has no payload in the end.
proof fn lemma_unpainted_stays_unpainted(
    cache: CacheView,
    placements: Seq<PlacementView>,
    safe_bottom: Option<u16>,
    m: int,
    n: nat,
)
    requires
        pictures_sized(cache.images),
        paints_alike(cache, placements, safe_bottom),
        0 <= m < n <= placements.len(),
        placements[order::paint_order(placements)[m]].visible(safe_bottom),
        !painted_in_turn(cache, placements, safe_bottom, m),
    ensures
        ({
            let painting = order::paint_order(placements);
            let start = cache::frame_start(cache, placements);
            let key = placements[painting[m]].payload_signature(safe_bottom);
            !cache::paint_frame(
                start,
                painting,
                safe_bottom,
                n,
            ).cache.payloads.contains_key(key)
        }),
    decreases n,
{
    let painting = order::paint_order(placements);
    let start = cache::frame_start(cache, placements);
    let key = placements[painting[m]].payload_signature(safe_bottom);
    lemma_turn(cache, placements, safe_bottom, n - 1);
    if m < n - 1 {
        lemma_unpainted_stays_unpainted(cache, placements, safe_bottom, m, (n - 1) as nat);
        let q = placements[painting[n - 1]];
        if q.payload_signature(safe_bottom) == key && painted_in_turn(
            cache,
            placements,
            safe_bottom,
            n - 1,
        ) {
            assert(key.image == q.image_signature());
            assert(key.image == placements[painting[m]].image_signature());
            lemma_stash_frame_settles(cache, placements, safe_bottom, placements.len());
            order::lemma_paint_order(placements);
            lemma_live_grows(start, painting, safe_bottom, 0, m as nat);
            assert(!cache.payloads.contains_key(key));
            assert(start.cache.images.contains_key(key.image));
            assert forall|l: int| l < n - 1 implies !(#[trigger] encodes_at(
                placements,
                safe_bottom,
                key,
                l,
            )) by {
                if encodes_at(placements, safe_bottom, key, l) {
                    lemma_turn(cache, placements, safe_bottom, l);
                    lemma_live_grows(start, painting, safe_bottom, (l + 1) as nat, (n - 1) as nat);
                }
            }
            assert(fails_before(cache, placements, safe_bottom, m, n - 1));
        }
    }
}

/// Data that was kept or taken brings no picture that was not known before.
proof fn lemma_no_new_pictures(
    cache: CacheView,
    first: Seq<PlacementView>,
    second: Seq<PlacementView>,
    safe_bottom: Option<u16>,
    image: ImageSignature,
)
    requires
        first.len() == second.len(),
        forall|i: int| 0 <= i < first.len() ==> kept_or_taken(first[i], #[trigger] second[i]),
        ({
            let painted = cache::painted_frame(cache, first, safe_bottom);
            cache::frame_start(painted.cache, second).cache.images.contains_key(image)
        }),
    ensures
        cache::frame_start(cache, first).cache.images.contains_key(image),
{
    let painted = cache::painted_frame(cache, first, safe_bottom);
    let start = cache::frame_start(cache, first);
    let painting = order::paint_order(first);
    order::lemma_paint_order(first);
    lemma_stash_frame(cache.images, first, first.len());
    lemma_stash_frame_settles(cache, first, safe_bottom, first.len());
    lemma_settled_frame(start, painting, safe_bottom, first.len());
    lemma_stash_frame_settles(painted.cache, second, safe_bottom, second.len());
    assert(picture_at_hand(painted.cache, second, image));
    if !painted.cache.images.contains_key(image) {
        let j = choose|j: int|
            0 <= j < second.len() && (#[trigger] second[j]).image_signature() == image
                && second[j].data.len() > 0 && second[j].decoded() is Some;
        assert(kept_or_taken(first[j], second[j]));
        assert(second[j] == first[j]);
    }
}

/// Both frames take every turn alike.
proof fn lemma_same_turns(
    cache: CacheView,
    first: Seq<PlacementView>,
    second: Seq<PlacementView>,
    safe_bottom: Option<u16>,
    n: nat,
)
    requires
        pictures_sized(cache.images),
        paints_alike(cache, first, safe_bottom),
        first.len() == second.len(),
        forall|i: int| 0 <= i < first.len() ==> kept_or_taken(first[i], #[trigger] second[i]),
        order::paint_order(first) == order::paint_order(second),
        n <= first.len(),
    ensures
        ({
            let painted = cache::painted_frame(cache, first, safe_bottom);
            let painting = order::paint_order(first);
            let once = cache::paint_frame(
                cache::frame_start(cache, first),
                painting,
                safe_bottom,
                n,
            );
            let again = cache::paint_frame(
                cache::frame_start(painted.cache, second),
                painting,
                safe_bottom,
                n,
            );
            &&& again.bytes == once.bytes
            &&& again.live == once.live
            &&& again.cache.payloads == painted.cache.payloads
        }),
    decreases n,
{
    let painted = cache::painted_frame(cache, first, safe_bottom);
    let painting = order::paint_order(first);
    let start = cache::frame_start(cache, first);
    let restart = cache::frame_start(painted.cache, second);
    if n > 0 {
        lemma_same_turns(cache, first, second, safe_bottom, (n - 1) as nat);
        order::lemma_paint_order(first);
        lemma_pictures_stay_sized(cache, first, safe_bottom);
        let m = n - 1;
        let at = painting[m];
        let p = first[at];
        let q = second[at];
        let key = p.payload_signature(safe_bottom);
        let last = cache::paint_frame(start, painting, safe_bottom, first.len());
        let once = cache::paint_frame(start, painting, safe_bottom, n);
        assert(kept_or_taken(p, q));
        lemma_same_geometry(p, q, safe_bottom);
        lemma_turn(cache, first, safe_bottom, m);
        lemma_turn(painted.cache, second, safe_bottom, m);
        if painted_in_turn(cache, first, safe_bottom, m) {
            lemma_live_grows(start, painting, safe_bottom, n, first.len());
            assert(once.live.last() == key);
            assert(last.live[once.live.len() - 1] == key);
            assert(last.live.contains(key));
            assert(once.cache.payloads.contains_key(key));
            assert(last.cache.payloads.contains_key(key));
            assert(painted.cache.payloads.contains_key(key));
        } else if p.visible(safe_bottom) {
            lemma_unpainted_stays_unpainted(cache, first, safe_bottom, m, first.len());
            if restart.cache.images.contains_key(key.image) {
                lemma_no_new_pictures(cache, first, second, safe_bottom, key.image);
            }
            assert(!painted_in_turn(painted.cache, second, safe_bottom, m));
        }
    }
}

proof fn lemma_pictures_stay_sized(
    cache: CacheView,
    placements: Seq<PlacementView>,
    safe_bottom: Option<u16>,
)
    requires
        pictures_sized(cache.images),
    ensures
        pictures_sized(cache::painted_frame(cache, placements, safe_bottom).cache.images),
{
    let start = cache::frame_start(cache, placements);
    let painting = order::paint_order(placements);
    order::lemma_paint_order(placements);
    lemma_stash_frame(cache.images, placements, placements.len());
    lemma_paint_frame(start, painting, safe_bottom, placements.len());
}

/// A decoded image outlives the frame it arrived in: a frame that names the same
/// placements again, with their data or without, paints the same bytes, and leaves
/// the cache as it is. That some placements cannot be painted does not matter, as
/// long as those that show the same are painted alike.
pub proof fn frames_repeat_without_data(
    cache: CacheView,
    first: Seq<PlacementView>,
    second: Seq<PlacementView>,
    safe_bottom: Option<u16>,
)
    requires
        pictures_sized(cache.images),
        paints_alike(cache, first, safe_bottom),
        first.len() == second.len(),
        forall|i: int| 0 <= i < first.len() ==> kept_or_taken(first[i], #[trigger] second[i]),
    ensures
        ({
            let painted = cache::painted_frame(cache, first, safe_bottom);
            let again = cache::painted_frame(painted.cache, second, safe_bottom);
            &&& again.bytes == painted.bytes
            &&& again.cache == painted.cache
        }),
{
    let painted = cache::painted_frame(cache, first, safe_bottom);
    let again = cache::painted_frame(painted.cache, second, safe_bottom);
    let painting = order::paint_order(first);
    let start = cache::frame_start(cache, first);
    let restart = cache::frame_start(painted.cache, second);
    assert forall|i: int| 0 <= i < first.len() implies (#[trigger] first[i]).area
        == second[i].area by {
        assert(kept_or_taken(first[i], second[i]));
    }
    order::lemma_order_depends_on_areas(first, second);
    order::lemma_paint_order(first);
    lemma_same_turns(cache, first, second, safe_bottom, first.len());
    lemma_stash_frame(cache.images, first, first.len());
    lemma_stash_frame_settles(cache, first, safe_bottom, first.len());
    lemma_settled_frame(start, painting, safe_bottom, first.len());
    lemma_stash_frame(painted.cache.images, second, second.len());
    lemma_stash_frame_settles(painted.cache, second, safe_bottom, second.len());
    lemma_settled_frame(restart, painting, safe_bottom, second.len());
    assert(again.cache.payloads =~= painted.cache.payloads);
    assert forall|image: ImageSignature| #[trigger]
        again.cache.images.contains_key(image) implies painted.cache.images.contains_key(
        image,
    ) by {
        lemma_no_new_pictures(cache, first, second, safe_bottom, image);
    }
    assert(again.cache.images =~= painted.cache.images);
}

/// Painting a frame twice paints the same bytes, and the second time leaves the
/// cache as it is, although the first time may have taken the data: so it is
/// where the cells have one size.
pub proof fn frames_painted_twice_are_the_same(
    cache: CacheView,
    placements: Seq<PlacementView>,
    safe_bottom: Option<u16>,
    cell: HostCellSize,
)
    requires
        pictures_sized(cache.images),
        forall|i: int|
            0 <= i < placements.len() ==> (#[trigger] placements[i]).cell_size == cell,
    ensures
        ({
            let painted = cache::painted_frame(cache, placements, safe_bottom);
            let again = cache::painted_frame(painted.cache, painted.placements, safe_bottom);
            &&& again.bytes == painted.bytes
            &&& again.cache == painted.cache
        }),
{
    let painted = cache::painted_frame(cache, placements, safe_bottom);
    cells_of_one_size_paint_alike(cache, placements, safe_bottom, cell);
    order::lemma_paint_order(placements);
    lemma_stash_frame(cache.images, placements, placements.len());
    lemma_paint_frame(
        cache::frame_start(cache, placements),
        order::paint_order(placements),
        safe_bottom,
        placements.len(),
    );
    assert forall|i: int| 0 <= i < placements.len() implies kept_or_taken(
        placements[i],
        #[trigger] painted.placements[i],
    ) by {
        frames_take_nothing_but_data(cache, placements, safe_bottom, i);
    }
    frames_repeat_without_data(cache, placements, painted.placements, safe_bottom);
}

/// Moving a pane, as long as the same rows of the placement can be painted, moves
/// what is painted and changes nothing else: the cached payload serves again.
pub proof fn moving_keeps_the_payload(
    p: PlacementView,
    x: u16,
    y: u16,
    safe_bottom: Option<u16>,
)
    requires
        p.visible(safe_bottom),
        p.vertical().end(clip::paintable_rows(Rect { x, y, ..p.area }, safe_bottom))
            == p.vertical().end(clip::paintable_rows(p.area, safe_bottom)),
    ensures
        ({
            let moved = PlacementView { area: Rect { x, y, ..p.area }, ..p };
            let clipped = p.clipped(safe_bottom);
            &&& moved.visible(safe_bottom)
            &&& moved.payload_signature(safe_bottom) == p.payload_signature(safe_bottom)
            &&& moved.clipped(safe_bottom) == (ClippedPlacement {
                x: (clipped.x - p.area.x + x) as u32,
                y: (clipped.y - p.area.y + y) as u32,
                ..clipped
            })
        }),
{
    let moved = PlacementView { area: Rect { x, y, ..p.area }, ..p };
    assert(moved.horizontal() == p.horizontal());
    assert(moved.vertical() == p.vertical());
    clip::clipping_stays_on_screen(p, safe_bottom);
}

/// Both placements are the same but for the ids of image and placement.
pub open spec fn same_but_ids(a: PlacementView, b: PlacementView) -> bool {
    b == (PlacementView { image_id: b.image_id, placement_id: b.placement_id, ..a })
}

/// Both frames have the same placements, but for their ids.
pub open spec fn all_same_but_ids(a: Seq<PlacementView>, b: Seq<PlacementView>) -> bool {
    &&& a.len() == b.len()
    &&& forall|i: int| 0 <= i < a.len() ==> same_but_ids(a[i], #[trigger] b[i])
}

proof fn lemma_ids_in_one_step(
    cache: CacheView,
    p: PlacementView,
    q: PlacementView,
    safe_bottom: Option<u16>,
)
    requires
        same_but_ids(p, q),
    ensures
        ({
            let step = cache::paint(cache, p, safe_bottom);
            let other = cache::paint(cache, q, safe_bottom);
            &&& other.painted == step.painted
            &&& other.cache == step.cache
            &&& same_but_ids(step.placement, other.placement)
        }),
        ({
            let stashed = cache::stash(cache.images, p);
            let other = cache::stash(cache.images, q);
            &&& other.images == stashed.images
            &&& same_but_ids(stashed.placement, other.placement)
        }),
{
    assert(q.horizontal() == p.horizontal());
    assert(q.vertical() == p.vertical());
    assert(q.after_decoding().horizontal() == p.after_decoding().horizontal());
    assert(q.after_decoding().vertical() == p.after_decoding().vertical());
}

proof fn lemma_ids_while_stashing(
    cache: CacheView,
    a: Seq<PlacementView>,
    b: Seq<PlacementView>,
    safe_bottom: Option<u16>,
    n: nat,
)
    requires
        n <= a.len(),
        all_same_but_ids(a, b),
    ensures
        ({
            let one = cache::stash_frame(cache.images, a, n);
            let other = cache::stash_frame(cache.images, b, n);
            &&& one.placements.len() == a.len()
            &&& other.images == one.images
            &&& all_same_but_ids(one.placements, other.placements)
        }),
    decreases n,
{
    if n > 0 {
        lemma_ids_while_stashing(cache, a, b, safe_bottom, (n - 1) as nat);
        let one = cache::stash_frame(cache.images, a, (n - 1) as nat);
        let other = cache::stash_frame(cache.images, b, (n - 1) as nat);
        lemma_ids_in_one_step(
            CacheView { images: one.images, ..cache },
            one.placements[n - 1],
            other.placements[n - 1],
            safe_bottom,
        );
    }
}

proof fn lemma_ids_while_painting(
    a: PaintedFrame,
    b: PaintedFrame,
    order: Seq<int>,
    safe_bottom: Option<u16>,
    n: nat,
)
    requires
        n <= order.len(),
        names_placements(order, a.placements.len()),
        all_same_but_ids(a.placements, b.placements),
        a.cache == b.cache,
        a.bytes == b.bytes,
        a.live == b.live,
    ensures
        ({
            let one = cache::paint_frame(a, order, safe_bottom, n);
            let other = cache::paint_frame(b, order, safe_bottom, n);
            &&& one.placements.len() == a.placements.len()
            &&& all_same_but_ids(one.placements, other.placements)
            &&& other.cache == one.cache
            &&& other.bytes == one.bytes
            &&& other.live == one.live
        }),
    decreases n,
{
    if n > 0 {
        lemma_ids_while_painting(a, b, order, safe_bottom, (n - 1) as nat);
        let one = cache::paint_frame(a, order, safe_bottom, (n - 1) as nat);
        let other = cache::paint_frame(b, order, safe_bottom, (n - 1) as nat);
        let at = order[n - 1];
        lemma_ids_in_one_step(one.cache, one.placements[at], other.placements[at], safe_bottom);
    }
}

/// What a frame paints and keeps does not depend on the ids of images and
/// placements, which may tell of screen coordinates.
pub proof fn ids_do_not_matter(
    cache: CacheView,
    placements: Seq<PlacementView>,
    renamed: Seq<PlacementView>,
    safe_bottom: Option<u16>,
)
    requires
        all_same_but_ids(placements, renamed),
    ensures
        ({
            let frame = cache::painted_frame(cache, placements, safe_bottom);
            let other = cache::painted_frame(cache, renamed, safe_bottom);
            &&& other.bytes == frame.bytes
            &&& other.cache == frame.cache
            &&& all_same_but_ids(frame.placements, other.placements)
        }),
{
    assert forall|i: int| 0 <= i < placements.len() implies (#[trigger] placements[i]).area
        == renamed[i].area by {
        assert(same_but_ids(placements[i], renamed[i]));
    }
    order::lemma_order_depends_on_areas(placements, renamed);
    order::lemma_paint_order(placements);
    lemma_ids_while_stashing(cache, placements, renamed, safe_bottom, placements.len());
    lemma_ids_while_painting(
        cache::frame_start(cache, placements),
        cache::frame_start(cache, renamed),
        order::paint_order(placements),
        safe_bottom,
        placements.len(),
    );
}

/// Changed content has another signature, so that no payload of the former
/// content is painted for it.
pub proof fn changed_content_is_told_apart(
    p: PlacementView,
    q: PlacementView,
    safe_bottom: Option<u16>,
)
    requires
        p.data_fingerprint != q.data_fingerprint || p.data_len != q.data_len || p.image_width
            != q.image_width || p.image_height != q.image_height || p.format != q.format,
    ensures
        p.image_signature() != q.image_signature(),
        p.payload_signature(safe_bottom) != q.payload_signature(safe_bottom),
{
    assert(clip::format_code(p.format) == clip::format_code(q.format) ==> p.format == q.format);
}

/// A picture that is cached, or that an earlier placement of the frame brings, is
/// not decoded again: the frame leaves the placement its data.
pub proof fn pictures_are_decoded_once(
    cache: CacheView,
    placements: Seq<PlacementView>,
    safe_bottom: Option<u16>,
    i: int,
)
    requires
        0 <= i < placements.len(),
        picture_at_hand(cache, placements.take(i), placements[i].image_signature()),
    ensures
        cache::painted_frame(cache, placements, safe_bottom).placements[i] == placements[i],
{
    let start = cache::frame_start(cache, placements);
    let image = placements[i].image_signature();
    lemma_stash_frame(cache.images, placements, i as nat);
    let before = cache::stash_frame(cache.images, placements, i as nat);
    if !cache.images.contains_key(image) {
        let j = choose|j: int|
            0 <= j < i && (#[trigger] placements.take(i)[j]).image_signature() == image
                && placements.take(i)[j].data.len() > 0 && placements.take(i)[j].decoded() is Some;
        assert(placements[j] == placements.take(i)[j]);
    }
    assert(before.images.contains_key(image));
    lemma_later_data_is_kept(cache.images, placements, i, placements.len());
    lemma_known_pictures_stay(cache.images, placements, i as nat, placements.len(), image);
    lemma_stash_frame(cache.images, placements, placements.len());
    order::lemma_paint_order(placements);
    lemma_known_pictures_leave_data(
        start,
        order::paint_order(placements),
        safe_bottom,
        placements.len(),
        i,
    );
}

proof fn lemma_known_pictures_stay(
    images: Map<ImageSignature, RgbaView>,
    placements: Seq<PlacementView>,
    m: nat,
    n: nat,
    image: ImageSignature,
)
    requires
        m <= n,
        cache::stash_frame(images, placements, m).images.contains_key(image),
    ensures
        cache::stash_frame(images, placements, n).images.contains_key(image),
    decreases n,
{
    if m < n {
        lemma_known_pictures_stay(images, placements, m, (n - 1) as nat, image);
        let before = cache::stash_frame(images, placements, (n - 1) as nat);
        lemma_stash(before.images, before.placements[n - 1]);
    }
}

/// Painting takes no data of a placement whose picture is known.
proof fn lemma_known_pictures_leave_data(
    start: PaintedFrame,
    order: Seq<int>,
    safe_bottom: Option<u16>,
    n: nat,
    i: int,
)
    requires
        n <= order.len(),
        names_placements(order, start.placements.len()),
        0 <= i < start.placements.len(),
        start.cache.images.contains_key(start.placements[i].image_signature()),
    ensures
        ({
            let frame = cache::paint_frame(start, order, safe_bottom, n);
            &&& frame.placements.len() == start.placements.len()
            &&& frame.placements[i] == start.placements[i]
            &&& grown(start.cache.images, frame.cache.images)
        }),
    decreases n,
{
    if n > 0 {
        lemma_known_pictures_leave_data(start, order, safe_bottom, (n - 1) as nat, i);
        let before = cache::paint_frame(start, order, safe_bottom, (n - 1) as nat);
        lemma_paint(before.cache, before.placements[order[n - 1]], safe_bottom);
    }
}

proof fn lemma_later_data_is_kept(
    images: Map<ImageSignature, RgbaView>,
    placements: Seq<PlacementView>,
    i: int,
    n: nat,
)
    requires
        0 <= i < n <= placements.len(),
        cache::stash_frame(images, placements, i as nat).images.contains_key(
            placements[i].image_signature(),
        ),
    ensures
        cache::stash_frame(images, placements, n).placements[i] == placements[i],
    decreases n,
{
    lemma_stash_frame(images, placements, (n - 1) as nat);
    if i < n - 1 {
        lemma_later_data_is_kept(images, placements, i, (n - 1) as nat);
    }
}

proof fn lemma_data_is_kept_or_taken(
    start: PaintedFrame,
    order: Seq<int>,
    safe_bottom: Option<u16>,
    n: nat,
    i: int,
)
    requires
        n <= order.len(),
        names_placements(order, start.placements.len()),
        0 <= i < start.placements.len(),
    ensures
        ({
            let frame = cache::paint_frame(start, order, safe_bottom, n);
            &&& frame.placements.len() == start.placements.len()
            &&& kept_or_taken(start.placements[i], frame.placements[i])
        }),
    decreases n,
{
    if n > 0 {
        lemma_data_is_kept_or_taken(start, order, safe_bottom, (n - 1) as nat, i);
    }
}

/// A frame takes the data of some placements away, and changes nothing else of them.
pub proof fn frames_take_nothing_but_data(
    cache: CacheView,
    placements: Seq<PlacementView>,
    safe_bottom: Option<u16>,
    i: int,
)
    requires
        0 <= i < placements.len(),
    ensures
        ({
            let frame = cache::painted_frame(cache, placements, safe_bottom);
            &&& frame.placements.len() == placements.len()
            &&& kept_or_taken(placements[i], frame.placements[i])
        }),
{
    let start = cache::frame_start(cache, placements);
    let painting = order::paint_order(placements);
    lemma_stash_frame(cache.images, placements, placements.len());
    lemma_stashed_data_is_kept_or_taken(cache.images, placements, placements.len(), i);
    order::lemma_paint_order(placements);
    lemma_data_is_kept_or_taken(start, painting, safe_bottom, placements.len(), i);
}

proof fn lemma_stashed_data_is_kept_or_taken(
    images: Map<ImageSignature, RgbaView>,
    placements: Seq<PlacementView>,
    n: nat,
    i: int,
)
    requires
        n <= placements.len(),
        0 <= i < placements.len(),
    ensures
        ({
            let frame = cache::stash_frame(images, placements, n);
            kept_or_taken(placements[i], frame.placements[i])
        }),
    decreases n,
{
    if n > 0 {
        lemma_stashed_data_is_kept_or_taken(images, placements, (n - 1) as nat, i);
        lemma_stash_frame(images, placements, (n - 1) as nat);
    }
}

/// What painting one placement does.
///
/// It is painted where it can be seen and its payload is cached, or its picture is
/// cached or can be decoded and the raster of its cells has a size that the encoder
/// takes. The bytes are a cursor movement to its first cell and the payload. A payload
/// or picture that is not cached is added to the cache, and nothing else changes there.
/// Data is looked at only where neither is cached.
pub proof fn a_placement_is_painted_where_it_can_be(
    cache: CacheView,
    p: PlacementView,
    safe_bottom: Option<u16>,
)
    requires
        pictures_sized(cache.images),
    ensures
        ({
            let step = cache::paint(cache, p, safe_bottom);
            let clipped = p.clipped(safe_bottom);
            let key = p.payload_signature(safe_bottom);
            let image = p.image_signature();
            let is_cached = cache.payloads.contains_key(key);
            let picture = if cache.images.contains_key(image) {
                Some(cache.images[image])
            } else {
                p.decoded()
            };
            let decodes = p.visible(safe_bottom) && !is_cached && !cache.images.contains_key(
                image,
            );
            &&& step.painted is Some <==> p.visible(safe_bottom) && (is_cached || (picture is Some
                && codecs::encodable(
                clipped.cols * p.cell_size.width_px,
                clipped.rows * p.cell_size.height_px,
            )))
            &&& step.painted matches Some((painted_key, bytes)) ==> {
                &&& painted_key == key
                &&& step.cache.payloads.contains_key(key)
                &&& bytes == payload::cursor_move(clipped.x as nat, clipped.y as nat)
                    + step.cache.payloads[key]
                &&& is_cached ==> step.cache.payloads == cache.payloads
                &&& !is_cached ==> step.cache.payloads == cache.payloads.insert(
                    key,
                    step.cache.payloads[key],
                ) && Some(step.cache.payloads[key]) == payload::sixel_payload(
                    p.cell_size,
                    clipped,
                    picture.unwrap(),
                )
            }
            &&& step.painted is None ==> step.cache.payloads == cache.payloads
            &&& decodes && picture is Some ==> step.cache.images == cache.images.insert(
                image,
                picture.unwrap(),
            )
            &&& !(decodes && picture is Some) ==> step.cache.images == cache.images
            &&& step.placement == (if decodes {
                p.after_decoding()
            } else {
                p
            })
        }),
{
    lemma_same_geometry(p, p.after_decoding(), safe_bottom);
    if p.visible(safe_bottom) {
        clip::clipping_stays_in_the_image(p, safe_bottom);
    }
}

/// A frame starts from the cached pictures as they are, and from those that its data
/// decodes to; of several placements of one image, the first whose data can be decoded
/// gives the picture. Nothing is painted yet, and no payload is lost.
pub proof fn frames_start_from_cached_and_new_pictures(
    cache: CacheView,
    placements: Seq<PlacementView>,
    image: ImageSignature,
)
    ensures
        ({
            let start = cache::frame_start(cache, placements);
            &&& start.bytes.len() == 0
            &&& start.live.len() == 0
            &&& start.cache.payloads == cache.payloads
            &&& start.cache.images.contains_key(image) <==> picture_at_hand(
                cache,
                placements,
                image,
            )
            &&& cache.images.contains_key(image) ==> start.cache.images[image]
                == cache.images[image]
            &&& forall|j: int|
                !cache.images.contains_key(image) && #[trigger] brings_first(placements, image, j)
                    ==> Some(start.cache.images[image]) == placements[j].decoded()
        }),
{
    lemma_stash_frame(cache.images, placements, placements.len());
    lemma_stash_frame_settles(cache, placements, None, placements.len());
    assert forall|j: int|
        !cache.images.contains_key(image) && #[trigger] brings_first(placements, image, j) implies {
        Some(cache::frame_start(cache, placements).cache.images[image]) == placements[j].decoded()
    } by {
        lemma_first_data_gives_the_picture(cache.images, placements, image, j, placements.len());
    }
}

/// Placement `j` is the first that brings data which decodes to a picture of `image`.
pub open spec fn brings_first(
    placements: Seq<PlacementView>,
    image: ImageSignature,
    j: int,
) -> bool {
    &&& 0 <= j < placements.len()
    &&& brings(placements[j], image)
    &&& forall|i: int| 0 <= i < j ==> !brings(#[trigger] placements[i], image)
}

/// The placement brings data that decodes to a picture of `image`.
pub open spec fn brings(p: PlacementView, image: ImageSignature) -> bool {
    p.image_signature() == image && p.data.len() > 0 && p.decoded() is Some
}

proof fn lemma_first_data_gives_the_picture(
    images: Map<ImageSignature, RgbaView>,
    placements: Seq<PlacementView>,
    image: ImageSignature,
    j: int,
    n: nat,
)
    requires
        n <= placements.len(),
        !images.contains_key(image),
        brings_first(placements, image, j),
    ensures
        ({
            let frame = cache::stash_frame(images, placements, n);
            &&& frame.images.contains_key(image) <==> j < n
            &&& j < n ==> Some(frame.images[image]) == placements[j].decoded()
        }),
    decreases n,
{
    if n > 0 {
        lemma_first_data_gives_the_picture(images, placements, image, j, (n - 1) as nat);
        lemma_stash_frame(images, placements, (n - 1) as nat);
        if n - 1 < j {
            assert(!brings(placements[n - 1], image));
        }
    }
}

/// Painting changes no picture: those that a frame keeps are those that it started from.
pub proof fn kept_pictures_are_unchanged(
    cache: CacheView,
    placements: Seq<PlacementView>,
    safe_bottom: Option<u16>,
    image: ImageSignature,
)
    requires
        cache::painted_frame(cache, placements, safe_bottom).cache.images.contains_key(image),
    ensures
        ({
            let start = cache::frame_start(cache, placements);
            let frame = cache::painted_frame(cache, placements, safe_bottom);
            &&& start.cache.images.contains_key(image)
            &&& frame.cache.images[image] == start.cache.images[image]
        }),
{
    lemma_images_while_painting(cache, placements, safe_bottom, placements.len());
}

proof fn lemma_known_by_earlier(
    images: Map<ImageSignature, RgbaView>,
    placements: Seq<PlacementView>,
    n: nat,
    image: ImageSignature,
)
    requires
        n <= placements.len(),
        cache::stash_frame(images, placements, n).images.contains_key(image),
    ensures
        images.contains_key(image) || exists|j: int|
            0 <= j < n && brings(#[trigger] placements[j], image),
    decreases n,
{
    if n > 0 {
        lemma_stash_frame(images, placements, (n - 1) as nat);
        let before = cache::stash_frame(images, placements, (n - 1) as nat);
        assert(before.placements[n - 1] == placements[n - 1]);
        if before.images.contains_key(image) {
            lemma_known_by_earlier(images, placements, (n - 1) as nat, image);
        } else {
            assert(brings(placements[n - 1], image));
        }
    }
}

/// Data whose picture is neither cached nor brought before is taken, where it can be
/// decoded; a PNG stream is taken also where it cannot.
pub proof fn new_pictures_take_their_data(
    cache: CacheView,
    placements: Seq<PlacementView>,
    safe_bottom: Option<u16>,
    i: int,
)
    requires
        0 <= i < placements.len(),
        placements[i].data.len() > 0,
        placements[i].decoded() is Some || (placements[i].format == KittyImageFormat::Png
            && placements[i].image_width * placements[i].image_height <= usize::MAX),
        !picture_at_hand(cache, placements.take(i), placements[i].image_signature()),
    ensures
        cache::painted_frame(cache, placements, safe_bottom).placements[i]
            == placements[i].with_data(Seq::empty()),
{
    let image = placements[i].image_signature();
    let start = cache::frame_start(cache, placements);
    assert forall|k: int| 0 <= k < i implies !brings(#[trigger] placements[k], image) by {
        assert(placements.take(i)[k] == placements[k]);
    }
    let before = cache::stash_frame(cache.images, placements, i as nat);
    if before.images.contains_key(image) {
        lemma_known_by_earlier(cache.images, placements, i as nat, image);
    }
    lemma_stash_frame(cache.images, placements, i as nat);
    let after = cache::stash_frame(cache.images, placements, (i + 1) as nat);
    assert(before.placements[i] == placements[i]);
    assert(after.placements[i] == placements[i].with_data(Seq::empty()));
    lemma_emptied_while_stashing(cache.images, placements, (i + 1) as nat, placements.len(), i);
    lemma_stash_frame(cache.images, placements, placements.len());
    order::lemma_paint_order(placements);
    lemma_data_is_kept_or_taken(
        start,
        order::paint_order(placements),
        safe_bottom,
        placements.len(),
        i,
    );
}

proof fn lemma_emptied_while_stashing(
    images: Map<ImageSignature, RgbaView>,
    placements: Seq<PlacementView>,
    m: nat,
    n: nat,
    i: int,
)
    requires
        0 <= i < m <= n <= placements.len(),
    ensures
        cache::stash_frame(images, placements, n).placements[i] == cache::stash_frame(
            images,
            placements,
            m,
        ).placements[i],
    decreases n,
{
    if m < n {
        lemma_emptied_while_stashing(images, placements, m, (n - 1) as nat, i);
        lemma_stash_frame(images, placements, (n - 1) as nat);
    }
}

/// Raw data of another length than announced is left to its placement.
pub proof fn incomplete_raw_data_is_left(
    cache: CacheView,
    placements: Seq<PlacementView>,
    safe_bottom: Option<u16>,
    i: int,
)
    requires
        0 <= i < placements.len(),
        ({
            let p = placements[i];
            let pixels = p.image_width * p.image_height;
            ||| p.format == KittyImageFormat::Rgba && p.data.len() != pixels * 4
            ||| p.format == KittyImageFormat::Rgb && p.data.len() != pixels * 3
        }),
    ensures
        cache::painted_frame(cache, placements, safe_bottom).placements[i] == placements[i],
{
    let start = cache::frame_start(cache, placements);
    lemma_stash_frame(cache.images, placements, i as nat);
    lemma_emptied_while_stashing(cache.images, placements, (i + 1) as nat, placements.len(), i);
    lemma_stash_frame(cache.images, placements, placements.len());
    order::lemma_paint_order(placements);
    lemma_incomplete_data_while_painting(
        start,
        order::paint_order(placements),
        safe_bottom,
        placements.len(),
        i,
    );
}

proof fn lemma_incomplete_data_while_painting(
    start: PaintedFrame,
    order: Seq<int>,
    safe_bottom: Option<u16>,
    n: nat,
    i: int,
)
    requires
        n <= order.len(),
        names_placements(order, start.placements.len()),
        0 <= i < start.placements.len(),
        start.placements[i].decoded() is None,
        start.placements[i].after_decoding() == start.placements[i],
    ensures
        ({
            let frame = cache::paint_frame(start, order, safe_bottom, n);
            &&& frame.placements.len() == start.placements.len()
            &&& frame.placements[i] == start.placements[i]
        }),
    decreases n,
{
    if n > 0 {
        lemma_incomplete_data_while_painting(start, order, safe_bottom, (n - 1) as nat, i);
    }
}

/// A frame is painted turn by turn, whatever the sizes of the cells: the `m`-th turn
/// paints the placement that the order names, from the cache as the turns before left
/// it, and its bytes follow theirs. In the end exactly what was painted is kept.
pub proof fn frames_are_painted_in_turns(
    cache: CacheView,
    placements: Seq<PlacementView>,
    safe_bottom: Option<u16>,
    m: int,
    key: SixelPayloadSignature,
)
    requires
        0 <= m < placements.len(),
    ensures
        ({
            let start = cache::frame_start(cache, placements);
            let painting = order::paint_order(placements);
            let before = cache::paint_frame(start, painting, safe_bottom, m as nat);
            let after = cache::paint_frame(start, painting, safe_bottom, (m + 1) as nat);
            let last = cache::paint_frame(start, painting, safe_bottom, placements.len());
            let frame = cache::painted_frame(cache, placements, safe_bottom);
            let step = cache::paint(before.cache, before.placements[painting[m]], safe_bottom);
            &&& cache::paint_frame(start, painting, safe_bottom, 0) == start
            &&& after.cache == step.cache
            &&& after.placements == before.placements.update(painting[m], step.placement)
            &&& match step.painted {
                Some((painted_key, bytes)) => {
                    &&& after.bytes == before.bytes + bytes
                    &&& after.live == before.live.push(painted_key)
                },
                None => after.bytes == before.bytes && after.live == before.live,
            }
            &&& frame.bytes == last.bytes
            &&& frame.placements == last.placements
            &&& frame.cache.payloads.contains_key(key) <==> last.live.contains(key)
            &&& last.live.contains(key) ==> frame.cache.payloads[key] == last.cache.payloads[key]
            &&& last.live.contains(key) ==> (frame.cache.images.contains_key(key.image)
                <==> last.cache.images.contains_key(key.image))
        }),
{
    let start = cache::frame_start(cache, placements);
    let painting = order::paint_order(placements);
    lemma_stash_frame(cache.images, placements, placements.len());
    order::lemma_paint_order(placements);
    lemma_paint_frame(start, painting, safe_bottom, placements.len());
    let last = cache::paint_frame(start, painting, safe_bottom, placements.len());
    if last.live.contains(key) {
        let k = last.live.index_of(key);
        assert(last.cache.payloads.contains_key(last.live[k]));
        assert(cache::images_of(last.live)[k] == key.image);
    }
}

} // verus!
