use vstd::bytes::{
    lemma_auto_spec_u32_to_from_le_bytes, spec_u32_from_le_bytes, spec_u32_to_le_bytes,
};
use vstd::prelude::*;

verus! {

/// The record count that the first four bytes of a region announce.
pub open spec fn header_count(region: Seq<u8>) -> nat {
    spec_u32_from_le_bytes(region.subrange(0, 4)) as nat
}

/// Byte offset at which the slot `index` of `width`-byte records starts.
pub open spec fn slot_start(width: nat, index: int) -> int {
    4 + index * width
}

/// The bytes of slot `index`.
pub open spec fn slot(region: Seq<u8>, width: nat, index: int) -> Seq<u8> {
    region.subrange(slot_start(width, index), slot_start(width, index + 1))
}

/// How many `width`-byte slots a region of `region_len` bytes has room for
/// behind its header.
pub open spec fn slot_count(region_len: nat, width: nat) -> nat {
    if region_len >= 4 && width > 0 {
        ((region_len - 4) / (width as int)) as nat
    } else {
        0
    }
}

/// The live records of a region, in slot order.
pub open spec fn records(region: Seq<u8>, width: nat) -> Seq<Seq<u8>> {
    Seq::new(header_count(region), |i: int| slot(region, width, i))
}

/// The header fits and announces no more records than the region has slots.
pub open spec fn layout_ok(region: Seq<u8>, width: nat) -> bool {
    &&& 0 < width <= u32::MAX
    &&& region.len() >= 4
    &&& header_count(region) <= slot_count(region.len(), width)
}

/// `region` with slot `index` replaced by `record`.
pub open spec fn with_slot(region: Seq<u8>, width: nat, index: int, record: Seq<u8>) -> Seq<u8> {
    region.subrange(0, slot_start(width, index)) + record + region.subrange(
        slot_start(width, index + 1),
        region.len() as int,
    )
}

/// `region` with its header replaced by the encoding of `count`.
pub open spec fn with_count(region: Seq<u8>, count: u32) -> Seq<u8> {
    spec_u32_to_le_bytes(count) + region.subrange(4, region.len() as int)
}

/// `region` with the slots `from .. to` moved one slot towards the end; slot
/// `from` keeps its bytes.
pub open spec fn with_gap(region: Seq<u8>, width: nat, from: int, to: int) -> Seq<u8> {
    region.subrange(0, slot_start(width, from + 1)) + region.subrange(
        slot_start(width, from),
        slot_start(width, to),
    ) + region.subrange(slot_start(width, to + 1), region.len() as int)
}

/// The live records of a well laid out region are all `width` bytes long.
pub proof fn lemma_records_uniform(region: Seq<u8>, width: nat)
    requires
        layout_ok(region, width),
    ensures
        records(region, width).len() == header_count(region),
        forall|i: int|
            0 <= i < header_count(region) ==> (#[trigger] records(region, width)[i]).len()
                == width,
{
    assert forall|i: int| 0 <= i < header_count(region) implies (#[trigger] records(
        region,
        width,
    )[i]).len() == width by {
        lemma_slot_inside(region.len(), width, i);
    }
}

pub proof fn lemma_slot_step(width: nat, index: int)
    ensures
        slot_start(width, index + 1) == slot_start(width, index) + width,
{
    assert((index + 1) * width == index * width + width) by (nonlinear_arith);
}

pub proof fn lemma_slot_order(width: nat, i: int, j: int)
    requires
        i <= j,
    ensures
        slot_start(width, i) <= slot_start(width, j),
{
    assert(i * width <= j * width) by (nonlinear_arith)
        requires
            i <= j,
            width >= 0,
    ;
}

/// Every slot below the slot count lies inside the region.
pub proof fn lemma_slot_inside(region_len: nat, width: nat, index: int)
    requires
        0 <= index < slot_count(region_len, width),
    ensures
        4 <= slot_start(width, index),
        slot_start(width, index) + width == slot_start(width, index + 1),
        slot_start(width, index + 1) <= region_len,
{
    let w = width as int;
    let n = region_len - 4;
    lemma_slot_step(width, index);
    lemma_slot_order(width, 0, index);
    assert((index + 1) * w <= n) by (nonlinear_arith)
        requires
            w > 0,
            n >= 0,
            index + 1 <= n / w,
    ;
}

/// Writing the header changes the count and nothing behind the header.
pub proof fn lemma_with_count(region: Seq<u8>, count: u32)
    requires
        region.len() >= 4,
    ensures
        with_count(region, count).len() == region.len(),
        header_count(with_count(region, count)) == count,
        forall|p: int| 4 <= p < region.len() ==> with_count(region, count)[p] == region[p],
{
    lemma_auto_spec_u32_to_from_le_bytes();
    let head = spec_u32_to_le_bytes(count);
    assert(with_count(region, count).subrange(0, 4) =~= head);
}

/// Writing the header leaves every slot inside the region as it was.
pub proof fn lemma_with_count_slot(region: Seq<u8>, count: u32, width: nat, index: int)
    requires
        region.len() >= 4,
        0 <= index,
        slot_start(width, index + 1) <= region.len(),
    ensures
        slot(with_count(region, count), width, index) == slot(region, width, index),
{
    lemma_with_count(region, count);
    lemma_slot_step(width, index);
    lemma_slot_order(width, 0, index);
    assert(slot(with_count(region, count), width, index) =~= slot(region, width, index));
}

/// Replacing a slot keeps the length and the header and changes that slot only.
pub proof fn lemma_with_slot(region: Seq<u8>, width: nat, index: int, record: Seq<u8>)
    requires
        0 <= index < slot_count(region.len(), width),
        record.len() == width,
    ensures
        with_slot(region, width, index, record).len() == region.len(),
        header_count(with_slot(region, width, index, record)) == header_count(region),
        slot(with_slot(region, width, index, record), width, index) == record,
        forall|p: int|
            0 <= p < slot_start(width, index) || slot_start(width, index + 1) <= p < region.len()
                ==> with_slot(region, width, index, record)[p] == region[p],
{
    lemma_slot_inside(region.len(), width, index);
    let after = with_slot(region, width, index, record);
    assert(after.subrange(0, 4) =~= region.subrange(0, 4));
    assert(slot(after, width, index) =~= record);
}

/// Replacing a slot leaves every other slot inside the region as it was.
pub proof fn lemma_with_slot_other(
    region: Seq<u8>,
    width: nat,
    index: int,
    record: Seq<u8>,
    other: int,
)
    requires
        0 <= index < slot_count(region.len(), width),
        0 <= other < slot_count(region.len(), width),
        other != index,
        record.len() == width,
    ensures
        slot(with_slot(region, width, index, record), width, other) == slot(region, width, other),
{
    lemma_with_slot(region, width, index, record);
    lemma_slot_inside(region.len(), width, index);
    lemma_slot_inside(region.len(), width, other);
    if other < index {
        lemma_slot_order(width, other + 1, index);
    } else {
        lemma_slot_order(width, index + 1, other);
    }
    assert(slot(with_slot(region, width, index, record), width, other) =~= slot(
        region,
        width,
        other,
    ));
}

/// Opening a gap keeps the length, the header and the slots up to the gap,
/// and moves the slots behind it up by one.
pub proof fn lemma_with_gap(region: Seq<u8>, width: nat, from: int, to: int)
    requires
        0 <= from <= to < slot_count(region.len(), width),
    ensures
        with_gap(region, width, from, to).len() == region.len(),
        header_count(with_gap(region, width, from, to)) == header_count(region),
        forall|i: int|
            0 <= i <= from ==> #[trigger] slot(with_gap(region, width, from, to), width, i)
                == slot(region, width, i),
        forall|i: int|
            from < i <= to ==> #[trigger] slot(with_gap(region, width, from, to), width, i)
                == slot(region, width, i - 1),
{
    let after = with_gap(region, width, from, to);
    lemma_slot_inside(region.len(), width, from);
    lemma_slot_inside(region.len(), width, to);
    lemma_slot_order(width, from, to);
    assert(after.len() == region.len());
    assert(after.subrange(0, 4) =~= region.subrange(0, 4));
    assert forall|i: int| 0 <= i <= from implies #[trigger] slot(after, width, i) == slot(
        region,
        width,
        i,
    ) by {
        lemma_slot_step(width, i);
        lemma_slot_order(width, 0, i);
        lemma_slot_order(width, i, from);
        assert(slot(after, width, i) =~= slot(region, width, i));
    }
    assert forall|i: int| from < i <= to implies #[trigger] slot(after, width, i) == slot(
        region,
        width,
        i - 1,
    ) by {
        lemma_slot_step(width, i);
        lemma_slot_step(width, i - 1);
        lemma_slot_order(width, from + 1, i);
        lemma_slot_order(width, i, to);
        assert(slot(after, width, i) =~= slot(region, width, i - 1));
    }
}

/// Moving one more slot up widens a gap by that slot.
pub proof fn lemma_gap_grows(region: Seq<u8>, width: nat, from: int, to: int)
    requires
        0 <= from < to < slot_count(region.len(), width),
    ensures
        with_gap(region, width, from, to) == with_slot(
            with_gap(region, width, from + 1, to),
            width,
            from + 1,
            slot(with_gap(region, width, from + 1, to), width, from),
        ),
{
    lemma_slot_inside(region.len(), width, from);
    lemma_slot_inside(region.len(), width, from + 1);
    lemma_slot_inside(region.len(), width, to);
    lemma_slot_order(width, from + 1, to);
    let narrow = with_gap(region, width, from + 1, to);
    assert(narrow.len() == region.len());
    assert(with_gap(region, width, from, to) =~= with_slot(
        narrow,
        width,
        from + 1,
        slot(narrow, width, from),
    ));
}

/// A gap of no slots changes nothing.
pub proof fn lemma_gap_empty(region: Seq<u8>, width: nat, at: int)
    requires
        0 <= at < slot_count(region.len(), width),
    ensures
        with_gap(region, width, at, at) == region,
{
    lemma_slot_inside(region.len(), width, at);
    assert(with_gap(region, width, at, at) =~= region);
}

/// Replacing the slot of a live record replaces that record and no other.
pub proof fn lemma_records_after_store(region: Seq<u8>, width: nat, index: int, record: Seq<u8>)
    requires
        layout_ok(region, width),
        0 <= index < header_count(region),
        record.len() == width,
    ensures
        with_slot(region, width, index, record).len() == region.len(),
        layout_ok(with_slot(region, width, index, record), width),
        records(with_slot(region, width, index, record), width) == records(region, width).update(
            index,
            record,
        ),
{
    let after = with_slot(region, width, index, record);
    lemma_with_slot(region, width, index, record);
    assert forall|i: int| 0 <= i < header_count(region) implies slot(after, width, i) == records(
        region,
        width,
    ).update(index, record)[i] by {
        if i != index {
            lemma_with_slot_other(region, width, index, record, i);
        }
    }
    assert(records(after, width) =~= records(region, width).update(index, record));
}

/// Opening a gap at `index`, filling it with `record` and counting one more
/// puts `record` in front of the live record `index`.
pub proof fn lemma_records_after_insert(region: Seq<u8>, width: nat, index: int, record: Seq<u8>)
    requires
        layout_ok(region, width),
        0 <= index <= header_count(region) < slot_count(region.len(), width),
        header_count(region) < u32::MAX,
        record.len() == width,
    ensures
        ({
            let count = header_count(region);
            let after = with_count(
                with_slot(with_gap(region, width, index, count as int), width, index, record),
                (count + 1) as u32,
            );
            &&& after.len() == region.len()
            &&& layout_ok(after, width)
            &&& records(after, width) == records(region, width).insert(index, record)
        }),
{
    let count = header_count(region);
    let opened = with_gap(region, width, index, count as int);
    let filled = with_slot(opened, width, index, record);
    let after = with_count(filled, (count + 1) as u32);
    lemma_with_gap(region, width, index, count as int);
    lemma_with_slot(opened, width, index, record);
    lemma_with_count(filled, (count + 1) as u32);
    let before = records(region, width);
    before.insert_ensures(index, record);
    assert forall|i: int| 0 <= i < count + 1 implies slot(after, width, i) == before.insert(
        index,
        record,
    )[i] by {
        lemma_slot_inside(region.len(), width, i);
        lemma_with_count_slot(filled, (count + 1) as u32, width, i);
        if i != index {
            lemma_with_slot_other(opened, width, index, record, i);
        }
        if i > index {
            assert(before.insert(index, record)[(i - 1) + 1] == before[i - 1]);
        }
    }
    assert(records(after, width) =~= before.insert(index, record));
}

} // verus!
