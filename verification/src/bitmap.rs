//! Compressed sets of document ids, as the values of bitmap records hold
//! them. Decoding is left to the `roaring` crate.

use roaring::RoaringBitmap;
use vstd::prelude::*;

verus! {

/// The document ids held by a serialized bitmap, in the order in which the
/// decoded bitmap yields them, or `None` where the bytes are not accepted as
/// a bitmap.
pub uninterp spec fn bitmap_ids(value: Seq<u8>) -> Option<Seq<u32>>;

/// Decodes a serialized bitmap with `roaring::RoaringBitmap::deserialize_from`
/// and collects the ids that the bitmap's iterator yields.
///
/// Taken on trust: the outcome is a function of the bytes alone. It is `None`
/// exactly where the crate refuses the bytes, and otherwise the ids in
/// iteration order. Nothing is claimed about which bytes are accepted nor
/// about the order of the ids. All the ids are held in memory at once.
#[verifier::external_body]
pub(crate) fn decode_bitmap(value: &[u8]) -> (r: Option<Vec<u32>>)
    ensures
        match r {
            Some(ids) => bitmap_ids(value@) == Some(ids@),
            None => bitmap_ids(value@) is None,
        },
{
    match RoaringBitmap::deserialize_from(value) {
        Ok(bitmap) => Some(bitmap.into_iter().collect()),
        Err(_) => None,
    }
}

} // verus!
