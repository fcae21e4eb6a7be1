//! Sets of tree positions, kept in compressed bitmaps.
use croaring::Bitmap;
use vstd::prelude::*;

verus! {

/// The bitmap of the `croaring` crate, opaque but for [`bitmap_values`].
#[verifier::external_type_specification]
#[verifier::external_body]
pub struct ExBitmap(croaring::Bitmap);

/// The values that a bitmap holds.
pub uninterp spec fn bitmap_values(bitmap: Bitmap) -> Set<u32>;

/// Calls `Bitmap::create`: a new bitmap holds no value.
#[verifier::external_body]
pub(crate) fn bitmap_create() -> (bitmap: Bitmap)
    ensures
        bitmap_values(bitmap) == Set::<u32>::empty(),
{
    Bitmap::create()
}

/// Calls `Bitmap::from_iter`: the bitmap holds exactly the values that the
/// iterator yields, here those of a vector.
#[verifier::external_body]
pub(crate) fn bitmap_from_iter(values: Vec<u32>) -> (bitmap: Bitmap)
    ensures
        bitmap_values(bitmap) == values@.to_set(),
{
    Bitmap::from_iter(values)
}

/// Calls `Bitmap::or_inplace`: the bitmap becomes the union of both.
#[verifier::external_body]
pub(crate) fn bitmap_or_inplace(bitmap: &mut Bitmap, other: &Bitmap)
    ensures
        bitmap_values(*final(bitmap)) == bitmap_values(*old(bitmap)).union(bitmap_values(*other)),
{
    bitmap.or_inplace(other)
}

/// The low 32 bits of a position, the form in which a bitmap keeps it.
pub open spec fn low_bits(pos: u64) -> u32 {
    pos as u32
}

/// The positions after `from`, up to and with `to`, in the form in which a
/// bitmap keeps them.
pub open spec fn positions_between(from: u64, to: u64) -> Set<u32> {
    Set::new(|x: u32| exists|pos: u64| from < pos <= to && x == #[trigger] low_bits(pos))
}

/// A bitmap of the positions after `from`, up to and with `to`.
pub(crate) fn bitmap_between(from: u64, to: u64) -> (bitmap: Bitmap)
    ensures
        bitmap_values(bitmap) == positions_between(from, to),
{
    let mut values: Vec<u32> = Vec::new();
    let mut pos: u64 = from;
    while pos < to
        invariant
            from <= pos,
            pos <= to || pos == from,
            values@.len() == pos - from,
            forall|i: int| 0 <= i < values@.len() ==> values@[i] == low_bits((from + 1 + i) as u64),
        decreases to - pos,
    {
        pos = pos + 1;
        values.push(#[verifier::truncate] (pos as u32));
    }
    proof {
        let kept = values@.to_set();
        let meant = positions_between(from, to);
        assert forall|x: u32| kept.contains(x) == meant.contains(x) by {
            if kept.contains(x) {
                let i = choose|i: int| 0 <= i < values@.len() && values@[i] == x;
                let at = (from + 1 + i) as u64;
                assert(from < at <= to && x == low_bits(at));
            }
            if meant.contains(x) {
                let at = choose|at: u64| from < at <= to && x == #[trigger] low_bits(at);
                assert(values@[at - from - 1] == x);
            }
        }
        assert(kept =~= meant);
    }
    bitmap_from_iter(values)
}

} // verus!
