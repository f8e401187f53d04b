//! Packing of equally sized tiles into a grid of slots separated by
//! one-pixel gutters, as used by the tile atlas and the detail atlas.
use vstd::prelude::*;
use vstd::arithmetic::div_mod::lemma_fundamental_div_mod_converse;
use crate::raster::RgbaBuffer;

verus! {

/// Width of the gutter around every slot.
pub const PAD: u32 = 1;

/// Colour of everything in an atlas that no tile covers.
pub open spec fn background() -> Seq<u8> {
    seq![28u8, 28u8, 32u8, 255u8]
}

/// First pixel (along one axis) of slot number `slot` for tiles of `size` pixels.
pub open spec fn slot_start(slot: int, size: int) -> int {
    1 + slot * (size + 1)
}

/// The slot that pixel coordinate `p` (along one axis) falls into.
pub open spec fn slot_of(p: int, size: int) -> int {
    (p - 1) / (size + 1)
}

/// Position of pixel coordinate `p` inside its slot; `size` marks the gutter.
pub open spec fn slot_pos(p: int, size: int) -> int {
    (p - 1) % (size + 1)
}

/// `p` lies inside a slot rather than on a gutter.
pub open spec fn inside_slot(p: int, size: int) -> bool {
    p >= 1 && slot_pos(p, size) < size
}

/// Pixel `t` of slot `slot` decodes back to that slot and position.
pub proof fn lemma_slot_decode(slot: int, size: int, t: int)
    requires
        slot >= 0,
        0 <= t < size,
    ensures
        slot_of(slot_start(slot, size) + t, size) == slot,
        slot_pos(slot_start(slot, size) + t, size) == t,
        inside_slot(slot_start(slot, size) + t, size),
{
    lemma_fundamental_div_mod_converse(slot * (size + 1) + t, size + 1, slot, t);
}

/// A coordinate inside a slot is that slot's start plus its position.
pub proof fn lemma_slot_encode(p: int, size: int)
    requires
        size >= 1,
        inside_slot(p, size),
    ensures
        slot_of(p, size) >= 0,
        p == slot_start(slot_of(p, size), size) + slot_pos(p, size),
        0 <= slot_pos(p, size) < size,
{
    let q = p - 1;
    assert(q == (size + 1) * (q / (size + 1)) + q % (size + 1)) by {
        vstd::arithmetic::div_mod::lemma_fundamental_div_mod(q, size + 1);
    }
    assert(q / (size + 1) >= 0) by {
        vstd::arithmetic::div_mod::lemma_div_pos_is_pos(q, size + 1);
    }
    assert((size + 1) * (q / (size + 1)) == (q / (size + 1)) * (size + 1)) by (nonlinear_arith);
}

/// A coordinate lies in the `size`-pixel run of slot `slot` exactly when it
/// decodes to that slot.
pub proof fn lemma_slot_range(p: int, slot: int, size: int)
    requires
        size >= 1,
        slot >= 0,
    ensures
        (slot_start(slot, size) <= p < slot_start(slot, size) + size)
            <==> (inside_slot(p, size) && slot_of(p, size) == slot),
{
    if slot_start(slot, size) <= p < slot_start(slot, size) + size {
        lemma_slot_decode(slot, size, p - slot_start(slot, size));
    }
    if inside_slot(p, size) && slot_of(p, size) == slot {
        lemma_slot_encode(p, size);
    }
}

/// The extent along one axis of `count` slots of `size` pixels with gutters.
pub open spec fn packed_extent(count: int, size: int) -> int {
    count * (size + 1) + 1
}

/// A slot that is one of the first `count` ends inside the packed extent.
pub proof fn lemma_slot_within(slot: int, count: int, size: int)
    requires
        0 <= slot < count,
        size >= 0,
    ensures
        0 <= slot * (size + 1),
        slot_start(slot, size) + size <= packed_extent(count, size),
        slot * (size + 1) + size <= count * (size + 1),
{
    assert(0 <= slot * (size + 1)) by (nonlinear_arith) requires slot >= 0, size >= 0;
    assert(slot * (size + 1) + size + 1 <= count * (size + 1)) by (nonlinear_arith)
        requires slot < count, size >= 0;
}

} // verus!
