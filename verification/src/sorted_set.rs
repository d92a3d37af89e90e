use crate::endian::{read_u32_le, write_u32_le};
use crate::layout::{
    header_count, layout_ok, lemma_gap_empty, lemma_gap_grows, lemma_records_after_insert,
    lemma_records_after_store, lemma_records_uniform, lemma_slot_inside, lemma_with_count,
    lemma_with_gap, lemma_with_slot, records, slot, slot_count, slot_start, with_count, with_gap,
    with_slot,
};
use crate::order::{
    above, accepts_all, ascending, below, boundary, holds, inserted, lawful, lemma_asymmetric,
    lemma_before_tied, lemma_boundary_unique, lemma_inserted_ascending, lemma_respects_monotone,
    lemma_splits, lemma_tied_at_boundary, lemma_tied_before, lemma_transitive, meets, monotone,
    respects, strict_weak,
};
use crate::shm::Memory;
use crate::text::{bracketed, listed};
use core::cmp::Ordering;
use core::fmt::Display;
use core::marker::PhantomData;
use vstd::prelude::*;
use vstd::string::{to_string_from_display_ensures, StringExecFns};

verus! {

/// Set length size.
pub const LEN_SIZE: usize = 4;

/// List element trait: a value with a fixed-size binary encoding.
///
/// The three spec functions are the model that the contracts speak of.  A
/// verified implementation defines them and so binds its methods; their
/// defaults say nothing, so that an implementation that is not verified can
/// leave them out.
pub trait Binary: Sized {
    /// Encoded length of every value of the type.
    open spec fn byte_len() -> nat {
        arbitrary()
    }

    /// The encoding of a value.
    open spec fn encode(&self) -> Seq<u8> {
        arbitrary()
    }

    /// The value that a sequence of `byte_len()` bytes stands for.
    open spec fn decode(bytes: Seq<u8>) -> Self {
        arbitrary()
    }

    fn const_size() -> (size: u32)
        requires
            Self::byte_len() <= u32::MAX,
        ensures
            size == Self::byte_len(),
    ;

    fn to_bytes(&self, buffer: &mut [u8])
        requires
            Self::byte_len() <= u32::MAX,
            old(buffer)@.len() == Self::byte_len(),
        ensures
            final(buffer)@ == self.encode(),
    ;

    fn from_bytes(buffer: &[u8]) -> (value: Self)
        requires
            Self::byte_len() <= u32::MAX,
            buffer@.len() == Self::byte_len(),
        ensures
            value == Self::decode(buffer@),
    ;
}

/// Binary comparator: an order on encoded records, read off the bytes.
///
/// `precedes` is the model of the order; see `Binary` for its default.
pub trait BinaryCmp: Binary {
    /// `left` sorts strictly before `right`.
    open spec fn precedes(left: Seq<u8>, right: Seq<u8>) -> bool {
        arbitrary()
    }

    fn cmp(left: &[u8], right: &[u8]) -> (order: Ordering)
        requires
            Self::byte_len() <= u32::MAX,
            left@.len() == Self::byte_len(),
            right@.len() == Self::byte_len(),
        ensures
            (order == Ordering::Less) == Self::precedes(left@, right@),
            (order == Ordering::Greater) == Self::precedes(right@, left@),
    ;
}

/// Where a probe stands against a record.
pub enum Side {
    /// The probe sorts strictly before the record.
    Below,
    /// The probe compares equal to the record.
    Level,
    /// The probe sorts strictly after the record.
    Above,
}

/// Binary comparator of a probe against one encoded record.
///
/// The two spec functions are the model of the probe; see `Binary` for
/// their defaults.
pub trait Cmp {
    /// The records that the probe can be held against.
    open spec fn accepts(&self, record: Seq<u8>) -> bool {
        arbitrary()
    }

    /// On which side of `record` the probe stands.
    open spec fn side(&self, record: Seq<u8>) -> Side {
        arbitrary()
    }

    fn cmp(&self, order: &[u8]) -> (found: Ordering)
        requires
            self.accepts(order@),
        ensures
            (found == Ordering::Less) == (self.side(order@) is Below),
            (found == Ordering::Greater) == (self.side(order@) is Above),
    ;
}

/// Sorted set shared memory implementation.
pub struct SortedSet<'a, T: Binary + BinaryCmp> {
    mem: Memory<'a>,
    _item: PhantomData<T>,
}

/// Why a record was not taken in.
#[derive(Clone, Copy, Debug, PartialEq, Eq)]
pub enum SetError {
    /// The set holds as many records as it can, and none of them compares
    /// equal to the new one.
    Full,
}

/// The probe that holds an encoded record of `T` against stored ones.
struct Comparator<'a, T: Binary + BinaryCmp> {
    buffer: &'a [u8],
    t: PhantomData<T>,
}

impl<'a, T> Cmp for Comparator<'a, T> where T: Binary + BinaryCmp {
    closed spec fn accepts(&self, record: Seq<u8>) -> bool {
        &&& T::byte_len() <= u32::MAX
        &&& self.buffer@.len() == T::byte_len()
        &&& record.len() == T::byte_len()
    }

    closed spec fn side(&self, record: Seq<u8>) -> Side {
        if T::precedes(self.buffer@, record) {
            Side::Below
        } else if T::precedes(record, self.buffer@) {
            Side::Above
        } else {
            Side::Level
        }
    }

    fn cmp(&self, order: &[u8]) -> (found: Ordering) {
        T::cmp(self.buffer, order)
    }
}

/// Where a search ended: at a record that the probe compares equal to, or
/// with an empty range at the probe's insertion boundary.
enum Find {
    Index(usize),
    LastRange((usize, usize)),
}

/// What a search for `order` among `records` ends with: a record that the
/// probe compares equal to, or an empty range which, where the probe is
/// monotone over the records, is the boundary between the records that the
/// probe is above and those that it is below.
spec fn located<C: Cmp>(records: Seq<Seq<u8>>, order: &C, found: Find) -> bool {
    match found {
        Find::Index(index) => index < records.len() && meets(order, records[index as int]),
        Find::LastRange(range) => {
            &&& range.0 == range.1
            &&& range.0 <= records.len()
            &&& monotone(order, records) ==> {
                &&& forall|i: int| 0 <= i < range.0 ==> above(order, #[trigger] records[i])
                &&& forall|i: int|
                    range.0 <= i < records.len() ==> below(order, #[trigger] records[i])
                &&& 0 < range.0 ==> above(order, records[range.0 - 1])
                &&& range.0 < records.len() ==> below(order, records[range.0 as int])
            }
        },
    }
}

/// The region after `record` was put among its records: written over the
/// record that compares equal to it, or else into a gap opened at its
/// boundary, with the count raised by one.
pub open spec fn region_with<T: BinaryCmp>(region: Seq<u8>, record: Seq<u8>) -> Seq<u8> {
    let live = records(region, T::byte_len());
    let at = boundary::<T>(live, record);
    if holds::<T>(live, record) {
        with_slot(region, T::byte_len(), at, record)
    } else {
        with_count(
            with_slot(
                with_gap(region, T::byte_len(), at, header_count(region) as int),
                T::byte_len(),
                at,
                record,
            ),
            (header_count(region) + 1) as u32,
        )
    }
}

/// Width of a record of type `T` in bytes.
pub(crate) fn record_size<T: Binary>() -> (size: usize)
    requires
        T::byte_len() <= u32::MAX,
    ensures
        size == T::byte_len(),
{
    T::const_size() as usize
}

impl<'a, T> SortedSet<'a, T> where T: Binary + BinaryCmp {
    /// The bytes of the underlying region.
    pub closed spec fn region(&self) -> Seq<u8> {
        self.mem@
    }

    /// The number of records that the header announces.
    pub open spec fn spec_len(&self) -> usize {
        header_count(self.region()) as usize
    }

    /// The number of records that the set can hold: what the region has room
    /// for, as far as the header can count it.
    pub open spec fn spec_capacity(&self) -> usize {
        if slot_count(self.region().len(), T::byte_len()) <= u32::MAX {
            slot_count(self.region().len(), T::byte_len()) as usize
        } else {
            0xFFFF_FFFF
        }
    }

    /// The encoded records, in stored order.
    pub open spec fn view(&self) -> Seq<Seq<u8>> {
        records(self.region(), T::byte_len())
    }

    /// The region holds a header and no more records than it has room for.
    pub open spec fn fits(&self) -> bool {
        layout_ok(self.region(), T::byte_len())
    }

    /// The region is well laid out and its records ascend strictly.
    pub open spec fn wf(&self) -> bool {
        self.fits() && ascending::<T>(self@)
    }

    /// Create a new sorted set with the given memory reference.
    pub fn new(memory: Memory<'a>) -> (set: SortedSet<'a, T>)
        ensures
            set.region() == memory@,
    {
        SortedSet { mem: memory, _item: PhantomData }
    }

    /// Returns set length.
    #[verifier::when_used_as_spec(spec_len)]
    pub fn len(&self) -> (len: usize)
        requires
            self.region().len() >= LEN_SIZE,
        ensures
            len == self.spec_len(),
    {
        read_u32_le(self.mem.mem_ref()) as usize
    }

    /// Returns `true` if the set contains no elements.
    pub fn is_empty(&self) -> (empty: bool)
        requires
            self.region().len() >= LEN_SIZE,
        ensures
            empty == (self.len() == 0),
    {
        self.len() == 0
    }

    /// Create element offset by its index.
    fn offset(&self, index: usize) -> (offset: usize)
        requires
            T::byte_len() <= u32::MAX,
            index < self.capacity(),
        ensures
            offset == slot_start(T::byte_len(), index as int),
            offset + T::byte_len() == slot_start(T::byte_len(), index + 1),
            offset + T::byte_len() <= self.region().len() <= usize::MAX,
    {
        let size = record_size::<T>();
        proof {
            self.mem.lemma_len_bounded();
            lemma_slot_inside(self.region().len(), T::byte_len(), index as int);
            assert(size * index == index * T::byte_len()) by (nonlinear_arith)
                requires
                    size == T::byte_len(),
            ;
        }
        size * index + LEN_SIZE
    }

    /// Get bytes by index.
    fn get_by_index(&self, index: usize) -> (bytes: &[u8])
        requires
            T::byte_len() <= u32::MAX,
            index < self.capacity(),
        ensures
            bytes@ == slot(self.region(), T::byte_len(), index as int),
            bytes@.len() == T::byte_len(),
    {
        let offset = self.offset(index);
        let size = record_size::<T>();
        let mem = self.mem.mem_ref();
        &mem[offset..offset + size]
    }

    /// Set list length.
    fn set_len(&mut self, len: usize)
        requires
            old(self).region().len() >= LEN_SIZE,
            len <= u32::MAX,
        ensures
            final(self).region() == with_count(old(self).region(), len as u32),
    {
        write_u32_le(self.mem.mem_ref_mut(), len as u32);
    }

    /// Shifts all elements starting from the index to the right.
    fn shift_right(&mut self, index: usize)
        requires
            old(self).fits(),
            index <= old(self).len() < old(self).capacity(),
        ensures
            final(self).region() == with_gap(
                old(self).region(),
                T::byte_len(),
                index as int,
                old(self).len() as int,
            ),
    {
        let size = record_size::<T>();
        let len = self.len();
        let ghost before = self.region();
        let mut i = len;
        proof {
            lemma_gap_empty(before, T::byte_len(), len as int);
        }
        while i > index
            invariant
                index <= i <= len,
                size == T::byte_len(),
                0 < T::byte_len() <= u32::MAX,
                len < slot_count(before.len(), T::byte_len()),
                len <= u32::MAX,
                self.region() == with_gap(before, T::byte_len(), i as int, len as int),
            decreases i,
        {
            i -= 1;
            proof {
                lemma_with_gap(before, T::byte_len(), i + 1, len as int);
                lemma_gap_grows(before, T::byte_len(), i as int, len as int);
            }
            let ghost narrow = self.region();
            let current_offset = self.offset(i);
            let next_offset = current_offset + size;
            proof {
                lemma_slot_inside(before.len(), T::byte_len(), i + 1);
            }
            let mem = self.mem.mem_ref_mut();
            let (left, right) = mem.split_at_mut(next_offset);
            let (slot, _) = right.split_at_mut(size);
            slot.copy_from_slice(&left[current_offset..next_offset]);
            assert(self.region() =~= with_slot(
                narrow,
                T::byte_len(),
                i + 1,
                crate::layout::slot(narrow, T::byte_len(), i as int),
            ));
        }
    }

    /// Stores bytes by index.
    fn store_at_index(&mut self, index: usize, buffer: &[u8])
        requires
            old(self).region().len() >= LEN_SIZE,
            T::byte_len() <= u32::MAX,
            index < old(self).capacity(),
            buffer@.len() == T::byte_len(),
        ensures
            final(self).region() == with_slot(
                old(self).region(),
                T::byte_len(),
                index as int,
                buffer@,
            ),
    {
        let offset = self.offset(index);
        let size = record_size::<T>();
        let ghost before = self.region();
        let mem = self.mem.mem_ref_mut();
        let (_, tail) = mem.split_at_mut(offset);
        let (slot, _) = tail.split_at_mut(size);
        slot.copy_from_slice(buffer);
        assert(self.region() =~= with_slot(before, T::byte_len(), index as int, buffer@));
    }

    /// Removes all elements from the set.
    pub fn clear(&mut self)
        requires
            old(self).region().len() >= LEN_SIZE,
        ensures
            final(self).region() == with_count(old(self).region(), 0),
            final(self).region().len() == old(self).region().len(),
            final(self).len() == 0,
            final(self)@ == Seq::<Seq<u8>>::empty(),
            0 < T::byte_len() <= u32::MAX ==> final(self).wf(),
    {
        proof {
            lemma_with_count(self.region(), 0);
        }
        self.set_len(0);
        assert(self@ =~= Seq::<Seq<u8>>::empty());
    }

    /// The number of records that the set can hold.
    #[verifier::when_used_as_spec(spec_capacity)]
    pub fn capacity(&self) -> (limit: usize)
        requires
            T::byte_len() <= u32::MAX,
        ensures
            limit == self.spec_capacity(),
    {
        let size = record_size::<T>();
        let total = self.mem.mem_ref().len();
        if total < LEN_SIZE || size == 0 {
            0
        } else {
            let slots = (total - LEN_SIZE) / size;
            if slots > 0xFFFF_FFFF {
                0xFFFF_FFFF
            } else {
                slots
            }
        }
    }

    /// Whether the region holds a header and no more records than it has
    /// room for.
    pub fn check_layout(&self) -> (ok: bool)
        requires
            T::byte_len() <= u32::MAX,
        ensures
            ok == self.fits(),
    {
        let total = self.mem.mem_ref().len();
        if total < LEN_SIZE || record_size::<T>() == 0 {
            return false;
        }
        self.len() <= self.capacity()
    }

    /// Records that ascend up to `index` and from there to the next ascend
    /// up to the next.
    proof fn lemma_ascending_grows(&self, index: usize)
        requires
            self.fits(),
            strict_weak::<T>(),
            1 <= index < self.len(),
            forall|i: int, j: int|
                0 <= i < j < index ==> T::precedes(#[trigger] self@[i], #[trigger] self@[j]),
            T::precedes(
                slot(self.region(), T::byte_len(), index - 1),
                slot(self.region(), T::byte_len(), index as int),
            ),
        ensures
            forall|i: int, j: int|
                0 <= i < j < index + 1 ==> T::precedes(#[trigger] self@[i], #[trigger] self@[j]),
    {
        lemma_records_uniform(self.region(), T::byte_len());
        assert forall|i: int, j: int| 0 <= i < j < index + 1 implies T::precedes(
            #[trigger] self@[i],
            #[trigger] self@[j],
        ) by {
            if j == index && i < index - 1 {
                assert(T::precedes(self@[i], self@[index - 1]));
                lemma_transitive::<T>(self@[i], self@[index - 1], self@[j]);
            }
        }
    }

    /// Records of which one does not sort before the next do not ascend.
    proof fn lemma_not_ascending(&self, index: usize)
        requires
            self.fits(),
            1 <= index < self.len(),
            !T::precedes(
                slot(self.region(), T::byte_len(), index - 1),
                slot(self.region(), T::byte_len(), index as int),
            ),
        ensures
            !ascending::<T>(self@),
    {
        assert(self@[index - 1] == slot(self.region(), T::byte_len(), index - 1));
        assert(self@[index as int] == slot(self.region(), T::byte_len(), index as int));
    }

    /// Whether the region is well formed: well laid out, with records that
    /// ascend strictly.  A region that another process filled is checked with
    /// this before it is read.
    pub fn is_valid(&self) -> (ok: bool)
        requires
            T::byte_len() <= u32::MAX,
            strict_weak::<T>(),
        ensures
            ok == self.wf(),
    {
        if !self.check_layout() {
            return false;
        }
        let len = self.len();
        let mut index: usize = 1;
        while index < len
            invariant
                self.fits(),
                strict_weak::<T>(),
                len == self.len(),
                len == self@.len(),
                1 <= index,
                forall|i: int, j: int|
                    0 <= i < j < index && j < len ==> T::precedes(
                        #[trigger] self@[i],
                        #[trigger] self@[j],
                    ),
            decreases len - index,
        {
            proof {
                self.lemma_record_is_slot(index);
            }
            let previous = self.get_by_index(index - 1);
            let current = self.get_by_index(index);
            match T::cmp(previous, current) {
                Ordering::Less => {
                    proof {
                        self.lemma_ascending_grows(index);
                    }
                },
                _ => {
                    proof {
                        self.lemma_not_ascending(index);
                    }
                    return false;
                },
            }
            index += 1;
        }
        true
    }

    /// The live record `index` is the slot `index` of the region.
    proof fn lemma_record_is_slot(&self, index: usize)
        requires
            self.fits(),
            index < self.len(),
        ensures
            index < self.capacity(),
            self@[index as int] == slot(self.region(), T::byte_len(), index as int),
            self@[index as int].len() == T::byte_len(),
    {
        lemma_records_uniform(self.region(), T::byte_len());
    }

    /// A probe that is not above the record `middle` is below all later ones.
    proof fn lemma_rest_below<C: Cmp>(&self, order: &C, middle: usize)
        requires
            self.fits(),
            middle < self.len(),
            !above(order, slot(self.region(), T::byte_len(), middle as int)),
        ensures
            monotone(order, self@) ==> forall|i: int|
                middle < i < self@.len() ==> below(order, #[trigger] self@[i]),
    {
        if monotone(order, self@) {
            assert forall|i: int| middle < i < self@.len() implies below(order, 
                #[trigger] self@[i],
            ) by {
                assert(!above(order, self@[middle as int]));
            }
        }
    }

    /// A probe that is not below the record `middle` is above all earlier ones.
    proof fn lemma_rest_above<C: Cmp>(&self, order: &C, middle: usize)
        requires
            self.fits(),
            middle < self.len(),
            !below(order, slot(self.region(), T::byte_len(), middle as int)),
        ensures
            monotone(order, self@) ==> forall|i: int|
                0 <= i < middle ==> above(order, #[trigger] self@[i]),
    {
        if monotone(order, self@) {
            assert forall|i: int| 0 <= i < middle implies above(order, #[trigger] self@[i]) by {
                assert(!below(order, self@[middle as int]));
            }
        }
    }

    /// Find the element index or or the closest interval.
    fn find_index<C: Cmp>(&self, order: &C) -> (found: Find)
        requires
            self.fits(),
            accepts_all(order, self@),
        ensures
            located(self@, order, found),
    {
        let len = self.len();
        let mut lo: usize = 0;
        let mut hi: usize = len;
        proof {
            lemma_records_uniform(self.region(), T::byte_len());
        }
        while lo < hi
            invariant
                self.fits(),
                accepts_all(order, self@),
                lo <= hi <= len,
                len == self@.len(),
                len == self.len(),
                monotone(order, self@) ==> forall|i: int|
                    0 <= i < lo ==> above(order, #[trigger] self@[i]),
                monotone(order, self@) ==> forall|i: int|
                    hi <= i < self@.len() ==> below(order, #[trigger] self@[i]),
            decreases hi - lo,
        {
            let middle = lo + (hi - lo) / 2;
            proof {
                self.lemma_record_is_slot(middle);
            }
            let record = self.get_by_index(middle);
            match order.cmp(record) {
                Ordering::Equal => {
                    return Find::Index(middle);
                },
                Ordering::Less => {
                    proof {
                        self.lemma_rest_below(order, middle);
                    }
                    hi = middle;
                },
                Ordering::Greater => {
                    proof {
                        self.lemma_rest_above(order, middle);
                    }
                    lo = middle + 1;
                },
            }
        }
        Find::LastRange((lo, hi))
    }

    /// The probe made of an encoded record of `T` agrees with the order of `T`.
    proof fn lemma_comparator_respects(probe: &Comparator<'_, T>)
        requires
            strict_weak::<T>(),
            probe.buffer@.len() == T::byte_len(),
        ensures
            respects::<T, Comparator<'_, T>>(probe),
    {
        assert forall|low: Seq<u8>, high: Seq<u8>|
            low.len() == T::byte_len() && high.len() == T::byte_len() && #[trigger] T::precedes(
                low,
                high,
            ) implies (!above(probe, low) ==> below(probe, high)) && (!below(probe, high)
            ==> above(probe, low)) by {
            lemma_splits::<T>(low, high, probe.buffer@);
            lemma_asymmetric::<T>(low, probe.buffer@);
            if T::precedes(probe.buffer@, low) {
                lemma_transitive::<T>(probe.buffer@, low, high);
            }
        }
    }

    /// Add new elements to the set.
    ///
    /// A record that compares equal to a stored one takes its place.  A new
    /// record moves in at its boundary, unless the set is full: then nothing
    /// is written and `SetError::Full` comes back.
    pub fn add(&mut self, item: T) -> (outcome: Result<(), SetError>)
        requires
            old(self).wf(),
            lawful::<T>(),
        ensures
            final(self).wf(),
            final(self).region().len() == old(self).region().len(),
            outcome is Err <==> old(self).len() >= old(self).capacity() && !holds::<T>(
                old(self)@,
                item.encode(),
            ),
            outcome is Ok ==> final(self)@ == inserted::<T>(old(self)@, item.encode()),
            outcome is Ok ==> final(self).region() == region_with::<T>(
                old(self).region(),
                item.encode(),
            ),
            outcome is Ok ==> if holds::<T>(old(self)@, item.encode()) {
                final(self).len() == old(self).len()
            } else {
                final(self).len() == old(self).len() + 1
            },
            outcome is Err ==> final(self).region() == old(self).region(),
    {
        let size = record_size::<T>();
        let mut buffer = vec![0u8; size];
        item.to_bytes(buffer.as_mut_slice());
        let ghost before = self@;
        let ghost record = item.encode();
        proof {
            assert(item.encode().len() == T::byte_len());
            lemma_records_uniform(self.region(), T::byte_len());
        }
        let probe: Comparator<T> = Comparator { buffer: buffer.as_slice(), t: PhantomData };
        proof {
            Self::lemma_comparator_respects(&probe);
            lemma_respects_monotone::<T, Comparator<'_, T>>(&probe, before);
        }
        match self.find_index(&probe) {
            Find::Index(index) => {
                proof {
                    self.lemma_record_is_slot(index);
                    assert forall|i: int| 0 <= i < index implies T::precedes(
                        #[trigger] before[i],
                        record,
                    ) by {
                        lemma_before_tied::<T>(before[i], before[index as int], record);
                    }
                    assert forall|i: int| index <= i < before.len() implies !T::precedes(
                        #[trigger] before[i],
                        record,
                    ) by {
                        if i > index && T::precedes(before[i], record) {
                            lemma_tied_before::<T>(record, before[index as int], before[i]);
                            lemma_asymmetric::<T>(record, before[i]);
                        }
                    }
                    lemma_boundary_unique::<T>(before, record, index as int);
                    lemma_records_after_store(
                        self.region(),
                        T::byte_len(),
                        index as int,
                        record,
                    );
                    lemma_inserted_ascending::<T>(before, record);
                }
                self.store_at_index(index, buffer.as_slice());
                Ok(())
            },
            Find::LastRange((start, _)) => {
                proof {
                    assert forall|i: int| start <= i < before.len() implies !T::precedes(
                        #[trigger] before[i],
                        record,
                    ) by {
                        lemma_asymmetric::<T>(record, before[i]);
                    }
                    lemma_boundary_unique::<T>(before, record, start as int);
                    lemma_tied_at_boundary::<T>(before, record, start as int);
                }
                let len = self.len();
                if len >= self.capacity() {
                    return Err(SetError::Full);
                }
                proof {
                    lemma_records_after_insert(
                        self.region(),
                        T::byte_len(),
                        start as int,
                        record,
                    );
                    lemma_with_gap(self.region(), T::byte_len(), start as int, len as int);
                    lemma_inserted_ascending::<T>(before, record);
                }
                self.shift_right(start);
                self.store_at_index(start, buffer.as_slice());
                proof {
                    lemma_with_slot(
                        with_gap(old(self).region(), T::byte_len(), start as int, len as int),
                        T::byte_len(),
                        start as int,
                        record,
                    );
                }
                self.set_len(len + 1);
                Ok(())
            },
        }
    }

    /// Finds the element by given comparator.
    ///
    /// A hit is a record that the probe compares equal to.  Where the probe
    /// is monotone over the stored records, a miss means that there is none;
    /// a probe that agrees with the order of ascending records is monotone
    /// over them.
    pub fn find<C: Cmp>(&self, order: C) -> (item: Option<T>)
        requires
            self.fits(),
            accepts_all(&order, self@),
        ensures
            match item {
                Some(value) => exists|i: int|
                    0 <= i < self@.len() && meets(&order, #[trigger] self@[i]) && value
                        == T::decode(self@[i]),
                None => monotone(&order, self@) ==> forall|i: int|
                    0 <= i < self@.len() ==> !meets(&order, #[trigger] self@[i]),
            },
            monotone(&order, self@) ==> (item is Some <==> exists|i: int|
                0 <= i < self@.len() && meets(&order, #[trigger] self@[i])),
    {
        match self.find_index(&order) {
            Find::Index(index) => {
                proof {
                    self.lemma_record_is_slot(index);
                }
                Some(T::from_bytes(self.get_by_index(index)))
            },
            Find::LastRange(_) => {
                proof {
                    if monotone(&order, self@) {
                        assert forall|i: int| 0 <= i < self@.len() implies !meets(
                            &order,
                            #[trigger] self@[i],
                        ) by {
                            assert(above(&order, self@[i]) || below(&order, self@[i]));
                        }
                    }
                }
                None
            },
        }
    }

    /// Create vector with set elements.
    pub fn to_vec(&self) -> (items: Vec<T>)
        requires
            self.fits(),
        ensures
            items@.len() == self@.len(),
            forall|i: int| 0 <= i < items@.len() ==> items@[i] == T::decode(self@[i]),
    {
        let mut items: Vec<T> = Vec::new();
        let mut iter = self.iter();
        loop
            invariant_except_break
                iter.position() == items@.len(),
            invariant
                iter.set() == self,
                items@.len() <= self@.len(),
                self.fits(),
                forall|i: int| 0 <= i < items@.len() ==> items@[i] == T::decode(self@[i]),
            ensures
                items@.len() == self@.len(),
                forall|i: int| 0 <= i < items@.len() ==> items@[i] == T::decode(self@[i]),
            decreases self@.len() - items@.len(),
        {
            match iter.next() {
                Some(item) => {
                    items.push(item);
                },
                None => {
                    break ;
                },
            }
        }
        items
    }

    /// Returns iterator.
    pub fn iter(&self) -> (iter: SetIterator<'a, '_, T>)
        requires
            self.fits(),
        ensures
            iter.set() == self,
            iter.position() == 0,
    {
        SetIterator { set: self, index: 0 }
    }

    /// Get the element by the given index.
    pub fn get(&self, index: usize) -> (item: Option<T>)
        requires
            self.fits(),
        ensures
            item == if index < self.len() {
                Some(T::decode(self@[index as int]))
            } else {
                None
            },
    {
        let len = self.len();
        if index >= len {
            None
        } else {
            Some(T::from_bytes(self.get_by_index(index)))
        }
    }
}

/// The texts are what the records, decoded, display as, one for one.
pub open spec fn displayed<T: Binary + Display>(records: Seq<Seq<u8>>, shown: Seq<String>) -> bool {
    &&& shown.len() == records.len()
    &&& forall|i: int|
        0 <= i < shown.len() ==> to_string_from_display_ensures::<T>(
            &T::decode(records[i]),
            #[trigger] shown[i],
        )
}

impl<'a, T> SortedSet<'a, T> where T: Binary + BinaryCmp + Display {
    /// The set as text: in square brackets, each record as it displays,
    /// followed by a comma.
    pub fn to_text(&self) -> (text: String)
        requires
            self.fits(),
        ensures
            exists|shown: Seq<String>|
                displayed::<T>(self@, shown) && text@ == bracketed(
                    shown.map_values(|part: String| part@),
                ),
    {
        let mut text = String::from_str("[");
        let ghost mut shown: Seq<String> = Seq::empty();
        let mut iter = self.iter();
        proof {
            reveal_strlit("[");
            assert(text@ =~= seq!['['] + listed(shown.map_values(|part: String| part@)));
        }
        loop
            invariant_except_break
                iter.position() == shown.len(),
            invariant
                iter.set() == self,
                shown.len() <= self@.len(),
                self.fits(),
                forall|i: int|
                    0 <= i < shown.len() ==> to_string_from_display_ensures::<T>(
                        &T::decode(self@[i]),
                        #[trigger] shown[i],
                    ),
                text@ == seq!['['] + listed(shown.map_values(|part: String| part@)),
            ensures
                displayed::<T>(self@, shown),
                text@ == seq!['['] + listed(shown.map_values(|part: String| part@)),
            decreases self@.len() - shown.len(),
        {
            match iter.next() {
                Some(item) => {
                    let part = item.to_string();
                    text.append(part.as_str());
                    text.append(",");
                    proof {
                        reveal_strlit(",");
                        let before = shown.map_values(|part: String| part@);
                        shown = shown.push(part);
                        let after = shown.map_values(|part: String| part@);
                        assert(after.drop_last() =~= before);
                        assert(after.last() == part@);
                        assert(text@ =~= seq!['['] + listed(after));
                    }
                },
                None => {
                    break ;
                },
            }
        }
        text.append("]");
        proof {
            reveal_strlit("]");
        }
        text
    }
}

/// A pass over the records of a set, from the first on.
pub struct SetIterator<'a, 'b, T> where T: Binary + BinaryCmp {
    set: &'b SortedSet<'a, T>,
    index: usize,
}

impl<'a, 'b, T> SetIterator<'a, 'b, T> where T: Binary + BinaryCmp {
    /// The set that is walked.
    pub closed spec fn set(&self) -> &SortedSet<'a, T> {
        self.set
    }

    /// The index of the record that comes next.
    pub closed spec fn position(&self) -> nat {
        self.index as nat
    }

    #[verifier::type_invariant]
    spec fn walks_a_laid_out_set(self) -> bool {
        self.set.fits()
    }

    /// The record at the position, decoded, or `None` where the position is
    /// behind the last record; and in either event a step forward, as far as
    /// positions go.
    pub fn next(&mut self) -> (item: Option<T>)
        ensures
            final(self).set() == old(self).set(),
            item == if old(self).position() < old(self).set().len() {
                Some(T::decode(old(self).set()@[old(self).position() as int]))
            } else {
                None
            },
            final(self).position() == if old(self).position() < usize::MAX {
                old(self).position() + 1
            } else {
                old(self).position()
            },
    {
        proof {
            use_type_invariant(&*self);
        }
        let value = self.set.get(self.index);
        if self.index < usize::MAX {
            self.index += 1;
        }
        value
    }
}

} // verus!
