//! What images and encoded payloads are told apart by.

use crate::clip;
use crate::placement::{ClippedPlacement, HostPlacement, PlacementView};
use vstd::prelude::*;

verus! {

/// Tells the pixels of one image from those of others.
#[derive(Debug, Clone, Copy, Hash, PartialEq, Eq, Structural)]
pub struct ImageSignature {
    pub format_code: u32,
    pub width: u32,
    pub height: u32,
    pub data_len: usize,
    pub data_fingerprint: u64,
}

/// What one encoded SIXEL payload depends on, for cells of one size: the source
/// pixels, the crop, and the placement's geometry in cells. Screen position is
/// deliberately excluded. The size of the cells is not part of it either, since
/// the virtual grid of a SIXEL host is fixed.
#[derive(Debug, Clone, Copy, Hash, PartialEq, Eq, Structural)]
pub struct SixelPayloadSignature {
    pub image: ImageSignature,
    pub cols: u32,
    pub rows: u32,
    pub source_x: u32,
    pub source_y: u32,
    pub source_width: u32,
    pub source_height: u32,
    pub x_offset: u32,
    pub y_offset: u32,
}

impl PlacementView {
    /// The signature of the placement's image. It does not depend on the data at
    /// hand, nor on the ids of image and placement.
    pub open spec fn image_signature(self) -> ImageSignature {
        ImageSignature {
            format_code: clip::format_code(self.format),
            width: self.image_width,
            height: self.image_height,
            data_len: self.data_len,
            data_fingerprint: self.data_fingerprint,
        }
    }

    /// The signature of the payload that paints the visible part.
    pub open spec fn payload_signature(self, safe_bottom: Option<u16>) -> SixelPayloadSignature {
        payload_signature_of(self.image_signature(), self.clipped(safe_bottom))
    }
}

/// The signature of the payload that paints `clipped`.
pub open spec fn payload_signature_of(
    image: ImageSignature,
    clipped: ClippedPlacement,
) -> SixelPayloadSignature {
    SixelPayloadSignature {
        image,
        cols: clipped.cols,
        rows: clipped.rows,
        source_x: clipped.source_x,
        source_y: clipped.source_y,
        source_width: clipped.source_width,
        source_height: clipped.source_height,
        x_offset: clipped.x_offset,
        y_offset: clipped.y_offset,
    }
}

impl SixelPayloadSignature {
    /// The clipped placement at the screen's corner that has this signature.
    pub open spec fn at_origin(self) -> ClippedPlacement {
        ClippedPlacement {
            x: 0,
            y: 0,
            cols: self.cols,
            rows: self.rows,
            source_x: self.source_x,
            source_y: self.source_y,
            source_width: self.source_width,
            source_height: self.source_height,
            x_offset: self.x_offset,
            y_offset: self.y_offset,
        }
    }
}

/// The signature of a placement's image, whose format has the given code.
pub fn image_signature(placement: &HostPlacement, format_code: u32) -> (signature: ImageSignature)
    ensures
        signature == (ImageSignature {
            format_code,
            width: placement.placement.image_width,
            height: placement.placement.image_height,
            data_len: placement.placement.data_len,
            data_fingerprint: placement.placement.data_fingerprint,
        }),
{
    ImageSignature {
        format_code,
        width: placement.placement.image_width,
        height: placement.placement.image_height,
        data_len: placement.placement.data_len,
        data_fingerprint: placement.placement.data_fingerprint,
    }
}

/// The signature of the payload that paints `clipped`.
pub(crate) fn payload_signature(image: ImageSignature, clipped: ClippedPlacement) -> (signature:
    SixelPayloadSignature)
    ensures
        signature == payload_signature_of(image, clipped),
{
    SixelPayloadSignature {
        image,
        cols: clipped.cols,
        rows: clipped.rows,
        source_x: clipped.source_x,
        source_y: clipped.source_y,
        source_width: clipped.source_width,
        source_height: clipped.source_height,
        x_offset: clipped.x_offset,
        y_offset: clipped.y_offset,
    }
}

/// A value that entries of a [`SignatureMap`] are found by.
pub trait Signature: Copy {
    /// Whether both signatures are the same.
    fn same(&self, other: &Self) -> (same: bool)
        ensures
            same == (*self == *other),
    ;
}

impl Signature for ImageSignature {
    fn same(&self, other: &Self) -> (same: bool) {
        *self == *other
    }
}

impl Signature for SixelPayloadSignature {
    fn same(&self, other: &Self) -> (same: bool) {
        *self == *other
    }
}

/// Entries found by their signature. No signature occurs twice.
#[derive(Debug)]
pub struct SignatureMap<K, V> {
    entries: Vec<(K, V)>,
}

impl<K: Signature, V: View> View for SignatureMap<K, V> {
    type V = Map<K, V::V>;

    closed spec fn view(&self) -> Map<K, V::V> {
        Map::new(
            |key: K| self.keys().contains(key),
            |key: K| self.entries@[self.keys().index_of(key)].1@,
        )
    }
}

impl<K: Signature, V: View> SignatureMap<K, V> {
    spec fn keys(self) -> Seq<K> {
        self.entries@.map_values(|entry: (K, V)| entry.0)
    }

    /// No signature occurs twice.
    pub closed spec fn wf(self) -> bool {
        self.keys().no_duplicates()
    }

    proof fn lemma_entry(self, i: int)
        requires
            self.wf(),
            0 <= i < self.entries@.len(),
        ensures
            self@.contains_key(self.entries@[i].0),
            self@[self.entries@[i].0] == self.entries@[i].1@,
    {
        assert(self.keys()[i] == self.entries@[i].0);
        assert(self.keys().contains(self.entries@[i].0));
    }

    /// A map without entries.
    pub fn new() -> (map: Self)
        ensures
            map.wf(),
            map@ == Map::<K, V::V>::empty(),
    {
        let map = SignatureMap { entries: Vec::new() };
        assert(map@ =~= Map::<K, V::V>::empty());
        map
    }

    /// Number of entries.
    pub fn len(&self) -> (len: usize)
        requires
            self.wf(),
        ensures
            len == self@.dom().len(),
    {
        proof {
            self.keys().unique_seq_to_set();
            assert(self.keys().to_set() =~= self@.dom());
        }
        self.entries.len()
    }

    /// The entry of `key`.
    pub fn get(&self, key: &K) -> (value: Option<&V>)
        requires
            self.wf(),
        ensures
            value is Some <==> self@.contains_key(*key),
            value matches Some(held) ==> held@ == self@[*key],
    {
        let mut i: usize = 0;
        while i < self.entries.len()
            invariant
                self.wf(),
                i <= self.entries@.len(),
                forall|j: int| 0 <= j < i ==> #[trigger] self.entries@[j].0 != *key,
            decreases self.entries@.len() - i,
        {
            if self.entries[i].0.same(key) {
                proof {
                    self.lemma_entry(i as int);
                }
                return Some(&self.entries[i].1);
            }
            i += 1;
        }
        assert(!self@.contains_key(*key)) by {
            if self.keys().contains(*key) {
                let j = self.keys().index_of(*key);
                assert(self.entries@[j].0 == *key);
            }
        }
        None
    }

    /// Adds the entry of a key that has none.
    pub fn insert(&mut self, key: K, value: V)
        requires
            old(self).wf(),
            !old(self)@.contains_key(key),
        ensures
            final(self).wf(),
            final(self)@ == old(self)@.insert(key, value@),
    {
        let ghost before = *self;
        self.entries.push((key, value));
        proof {
            assert(self.keys() =~= before.keys().push(key));
            assert(!before.keys().contains(key));
            assert(self.keys().no_duplicates());
            assert forall|k: K| #[trigger] self@.contains_key(k) <==> before@.insert(
                key,
                value@,
            ).contains_key(k) by {
                if before.keys().contains(k) {
                    let i = before.keys().index_of(k);
                    assert(self.keys()[i] == k);
                }
                if self.keys().contains(k) && k != key {
                    let i = self.keys().index_of(k);
                    assert(before.keys()[i] == k);
                }
                assert(self.keys()[before.entries@.len() as int] == key);
            }
            assert forall|k: K| #[trigger] self@.contains_key(k) implies self@[k] == before@.insert(
                key,
                value@,
            )[k] by {
                let i = self.keys().index_of(k);
                assert(self.keys()[i] == k);
                self.lemma_entry(i);
                if k != key {
                    before.lemma_entry(i);
                }
            }
            assert(self@ =~= before@.insert(key, value@));
        }
    }

    /// Drops the entries whose key is not in `kept`.
    pub fn retain(&mut self, kept: &Vec<K>)
        requires
            old(self).wf(),
        ensures
            final(self).wf(),
            final(self)@ == old(self)@.restrict(kept@.to_set()),
    {
        let ghost before = *self;
        let mut rest: Vec<(K, V)> = Vec::new();
        core::mem::swap(&mut rest, &mut self.entries);
        assert(self.keys() =~= Seq::empty());
        assert(self@ =~= Map::<K, V::V>::empty());
        assert(rest@ =~= before.entries@.take(rest@.len() as int));
        while rest.len() > 0
            invariant
                before.wf(),
                self.wf(),
                rest@.len() <= before.entries@.len(),
                rest@ == before.entries@.take(rest@.len() as int),
                forall|k: K| #[trigger]
                    self@.contains_key(k) <==> kept@.contains(k) && exists|i: int|
                        rest@.len() <= i < before.entries@.len() && #[trigger] before.entries@[i].0
                            == k,
                forall|k: K| #[trigger] self@.contains_key(k) ==> self@[k] == before@[k],
            decreases rest@.len(),
        {
            let entry = rest.pop().unwrap();
            let ghost n = rest@.len() as int;
            assert(entry == before.entries@[n]);
            proof {
                before.lemma_entry(n);
                if self@.contains_key(entry.0) {
                    let i = choose|i: int|
                        n + 1 <= i < before.entries@.len() && #[trigger] before.entries@[i].0
                            == entry.0;
                    assert(before.keys()[i] == before.keys()[n]);
                }
            }
            if holds(kept, &entry.0) {
                self.insert(entry.0, entry.1);
            }
            assert(rest@ =~= before.entries@.take(n));
        }
        proof {
            let kept_map = before@.restrict(kept@.to_set());
            assert forall|k: K| #[trigger] self@.contains_key(k) <==> kept_map.contains_key(k) by {
                if before.keys().contains(k) {
                    let i = before.keys().index_of(k);
                    assert(before.entries@[i].0 == k);
                }
                if self@.contains_key(k) {
                    let i = choose|i: int|
                        0 <= i < before.entries@.len() && #[trigger] before.entries@[i].0 == k;
                    before.lemma_entry(i);
                }
            }
            assert(self@ =~= kept_map);
        }
    }
}

/// Whether `key` is one of `keys`.
fn holds<K: Signature>(keys: &Vec<K>, key: &K) -> (held: bool)
    ensures
        held == keys@.contains(*key),
{
    let mut i: usize = 0;
    while i < keys.len()
        invariant
            i <= keys@.len(),
            forall|j: int| 0 <= j < i ==> keys@[j] != *key,
        decreases keys@.len() - i,
    {
        if keys[i].same(key) {
            return true;
        }
        i += 1;
    }
    false
}

/// Two images have one signature where format, size, and length and fingerprint of the
/// data are the same. Two payloads have one signature where the images have, and the
/// visible cells, the shown part of the image and the padding are the same.
pub proof fn signatures_tell_what_is_shown(
    p: PlacementView,
    p_bottom: Option<u16>,
    q: PlacementView,
    q_bottom: Option<u16>,
)
    ensures
        p.image_signature() == q.image_signature() <==> {
            &&& p.format == q.format
            &&& p.image_width == q.image_width
            &&& p.image_height == q.image_height
            &&& p.data_len == q.data_len
            &&& p.data_fingerprint == q.data_fingerprint
        },
        p.payload_signature(p_bottom) == q.payload_signature(q_bottom) <==> {
            let a = p.clipped(p_bottom);
            let b = q.clipped(q_bottom);
            &&& p.image_signature() == q.image_signature()
            &&& a.cols == b.cols
            &&& a.rows == b.rows
            &&& a.source_x == b.source_x
            &&& a.source_y == b.source_y
            &&& a.source_width == b.source_width
            &&& a.source_height == b.source_height
            &&& a.x_offset == b.x_offset
            &&& a.y_offset == b.y_offset
        },
{
    assert(clip::format_code(p.format) == clip::format_code(q.format) ==> p.format == q.format);
}

} // verus!
