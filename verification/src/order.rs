use crate::sorted_set::{Binary, BinaryCmp, Cmp};
use vstd::prelude::*;

verus! {

/// Encodings of `T` have the fixed length and decode to the value they
/// encode.
pub open spec fn round_trips<T: Binary>() -> bool {
    forall|value: T|
        #![trigger value.encode()]
        value.encode().len() == T::byte_len() && T::decode(value.encode()) == value
}

/// Of two records at most one sorts before the other.
pub open spec fn one_way<T: BinaryCmp>(left: Seq<u8>, right: Seq<u8>) -> bool {
    !(T::precedes(left, right) && T::precedes(right, left))
}

/// Where `left` sorts before `right`, a third record sorts after `left` or
/// before `right`: none is level with both.
pub open spec fn splits<T: BinaryCmp>(left: Seq<u8>, right: Seq<u8>, other: Seq<u8>) -> bool {
    T::precedes(left, right) ==> T::precedes(left, other) || T::precedes(other, right)
}

/// `precedes` of `T` is a strict weak order on the records of its width:
/// records that do not sort before each other compare equal, and what
/// compares equal sorts alike against every third record.
pub open spec fn strict_weak<T: BinaryCmp>() -> bool {
    &&& forall|left: Seq<u8>, right: Seq<u8>|
        left.len() == T::byte_len() && right.len() == T::byte_len() ==> #[trigger] one_way::<T>(
            left,
            right,
        )
    &&& forall|left: Seq<u8>, right: Seq<u8>, other: Seq<u8>|
        left.len() == T::byte_len() && right.len() == T::byte_len() && other.len()
            == T::byte_len() ==> #[trigger] splits::<T>(left, right, other)
}

/// `T` keeps to the record contract: its encoding round-trips and its
/// comparison is a strict weak order.
pub open spec fn lawful<T: BinaryCmp>() -> bool {
    round_trips::<T>() && strict_weak::<T>()
}

/// Every record is `width` bytes long.
pub open spec fn uniform(records: Seq<Seq<u8>>, width: nat) -> bool {
    forall|i: int| 0 <= i < records.len() ==> (#[trigger] records[i]).len() == width
}

/// Each record sorts strictly before every later one.
pub open spec fn ascending<T: BinaryCmp>(records: Seq<Seq<u8>>) -> bool {
    forall|i: int, j: int|
        0 <= i < j < records.len() ==> T::precedes(#[trigger] records[i], #[trigger] records[j])
}

/// Neither record sorts before the other: they compare equal.
pub open spec fn tied<T: BinaryCmp>(left: Seq<u8>, right: Seq<u8>) -> bool {
    !T::precedes(left, right) && !T::precedes(right, left)
}

/// Exactly the records in front of index `k` sort before `probe`.
pub open spec fn is_boundary<T: BinaryCmp>(records: Seq<Seq<u8>>, probe: Seq<u8>, k: int) -> bool {
    &&& 0 <= k <= records.len()
    &&& forall|i: int| 0 <= i < k ==> T::precedes(#[trigger] records[i], probe)
    &&& forall|i: int| k <= i < records.len() ==> !T::precedes(#[trigger] records[i], probe)
}

/// The insertion boundary of `probe`: the index in front of which exactly the
/// records that sort before `probe` stand.
pub open spec fn boundary<T: BinaryCmp>(records: Seq<Seq<u8>>, probe: Seq<u8>) -> int {
    choose|k: int| is_boundary::<T>(records, probe, k)
}

/// Some record compares equal to `probe`.
pub open spec fn holds<T: BinaryCmp>(records: Seq<Seq<u8>>, probe: Seq<u8>) -> bool {
    exists|i: int| 0 <= i < records.len() && tied::<T>(#[trigger] records[i], probe)
}

/// What the records are after `record` was put among them: it replaces the
/// record that compares equal to it, or else moves in at its boundary.
pub open spec fn inserted<T: BinaryCmp>(records: Seq<Seq<u8>>, record: Seq<u8>) -> Seq<Seq<u8>> {
    let k = boundary::<T>(records, record);
    if holds::<T>(records, record) {
        records.update(k, record)
    } else {
        records.insert(k, record)
    }
}

/// The probe can be held against every one of the records.
pub open spec fn accepts_all<C: Cmp>(order: &C, records: Seq<Seq<u8>>) -> bool {
    forall|i: int| 0 <= i < records.len() ==> order.accepts(#[trigger] records[i])
}

/// The probe sorts strictly before `record`.
pub open spec fn below<C: Cmp>(order: &C, record: Seq<u8>) -> bool {
    order.side(record) is Below
}

/// The probe sorts strictly after `record`.
pub open spec fn above<C: Cmp>(order: &C, record: Seq<u8>) -> bool {
    order.side(record) is Above
}

/// The probe compares equal to `record`.
pub open spec fn meets<C: Cmp>(order: &C, record: Seq<u8>) -> bool {
    order.side(record) is Level
}

/// The probe agrees with the order of `T`: whatever sorts after a record that
/// the probe is not above lies above the probe, and whatever sorts before a
/// record that the probe is not below lies below it.
pub open spec fn respects<T: BinaryCmp, C: Cmp>(order: &C) -> bool {
    forall|low: Seq<u8>, high: Seq<u8>|
        low.len() == T::byte_len() && high.len() == T::byte_len() && order.accepts(low)
            && order.accepts(high) && #[trigger] T::precedes(low, high) ==> {
            &&& !above(order, low) ==> below(order, high)
            &&& !below(order, high) ==> above(order, low)
        }
}

/// The probe is monotone over the records: behind a record that it is not
/// above it is below every record, and in front of a record that it is not
/// below it is above every record.
pub open spec fn monotone<C: Cmp>(order: &C, records: Seq<Seq<u8>>) -> bool {
    forall|i: int, j: int|
        0 <= i < j < records.len() ==> {
            &&& !above(order, #[trigger] records[i]) ==> below(order, #[trigger] records[j])
            &&& !below(order, records[j]) ==> above(order, records[i])
        }
}

/// A probe that agrees with the order of `T` is monotone over ascending
/// records of `T`.
pub proof fn lemma_respects_monotone<T: BinaryCmp, C: Cmp>(order: &C, records: Seq<Seq<u8>>)
    requires
        respects::<T, C>(order),
        ascending::<T>(records),
        uniform(records, T::byte_len()),
        accepts_all(order, records),
    ensures
        monotone(order, records),
{
    assert forall|i: int, j: int| 0 <= i < j < records.len() implies (!above(order, 
        #[trigger] records[i],
    ) ==> below(order, #[trigger] records[j])) && (!below(order, records[j]) ==> above(order, 
        records[i],
    )) by {
        assert(T::precedes(records[i], records[j]));
    }
}

/// No two records sort before each other.
pub proof fn lemma_asymmetric<T: BinaryCmp>(left: Seq<u8>, right: Seq<u8>)
    requires
        strict_weak::<T>(),
        left.len() == T::byte_len(),
        right.len() == T::byte_len(),
    ensures
        !(T::precedes(left, right) && T::precedes(right, left)),
{
    assert(one_way::<T>(left, right));
}

/// A third record sorts after the lower or before the upper of two ordered
/// records.
pub proof fn lemma_splits<T: BinaryCmp>(left: Seq<u8>, right: Seq<u8>, other: Seq<u8>)
    requires
        strict_weak::<T>(),
        left.len() == T::byte_len(),
        right.len() == T::byte_len(),
        other.len() == T::byte_len(),
        T::precedes(left, right),
    ensures
        T::precedes(left, other) || T::precedes(other, right),
{
    assert(splits::<T>(left, right, other));
}

/// A probe that is monotone over the records compares equal to at most one
/// of them.
pub proof fn lemma_meets_once<C: Cmp>(records: Seq<Seq<u8>>, order: &C, i: int, j: int)
    requires
        monotone(order, records),
        0 <= i < records.len(),
        0 <= j < records.len(),
        meets(order, records[i]),
        meets(order, records[j]),
    ensures
        i == j,
{
}

/// The order of `T` is transitive.
pub proof fn lemma_transitive<T: BinaryCmp>(a: Seq<u8>, b: Seq<u8>, c: Seq<u8>)
    requires
        strict_weak::<T>(),
        a.len() == T::byte_len(),
        b.len() == T::byte_len(),
        c.len() == T::byte_len(),
        T::precedes(a, b),
        T::precedes(b, c),
    ensures
        T::precedes(a, c),
{
    lemma_splits::<T>(a, b, c);
    lemma_asymmetric::<T>(b, c);
}

/// What sorts before a record sorts before every record tied with it.
pub proof fn lemma_before_tied<T: BinaryCmp>(a: Seq<u8>, b: Seq<u8>, c: Seq<u8>)
    requires
        strict_weak::<T>(),
        a.len() == T::byte_len(),
        b.len() == T::byte_len(),
        c.len() == T::byte_len(),
        T::precedes(a, b),
        tied::<T>(b, c),
    ensures
        T::precedes(a, c),
{
    lemma_splits::<T>(a, b, c);
}

/// What sorts after a record sorts after every record tied with it.
pub proof fn lemma_tied_before<T: BinaryCmp>(a: Seq<u8>, b: Seq<u8>, c: Seq<u8>)
    requires
        strict_weak::<T>(),
        a.len() == T::byte_len(),
        b.len() == T::byte_len(),
        c.len() == T::byte_len(),
        tied::<T>(a, b),
        T::precedes(b, c),
    ensures
        T::precedes(a, c),
{
    lemma_splits::<T>(b, c, a);
}

/// Being tied is transitive.
pub proof fn lemma_tied_tied<T: BinaryCmp>(a: Seq<u8>, b: Seq<u8>, c: Seq<u8>)
    requires
        strict_weak::<T>(),
        a.len() == T::byte_len(),
        b.len() == T::byte_len(),
        c.len() == T::byte_len(),
        tied::<T>(a, b),
        tied::<T>(b, c),
    ensures
        tied::<T>(a, c),
{
    if T::precedes(a, c) {
        lemma_splits::<T>(a, c, b);
    }
    if T::precedes(c, a) {
        lemma_splits::<T>(c, a, b);
    }
}

/// A sequence has at most one boundary for a probe.
pub proof fn lemma_boundary_unique<T: BinaryCmp>(records: Seq<Seq<u8>>, probe: Seq<u8>, k: int)
    requires
        is_boundary::<T>(records, probe, k),
    ensures
        boundary::<T>(records, probe) == k,
{
    let chosen = boundary::<T>(records, probe);
    assert(is_boundary::<T>(records, probe, chosen));
    if chosen < k {
        assert(T::precedes(records[chosen], probe));
    }
    if k < chosen {
        assert(T::precedes(records[k], probe));
    }
}

/// An ascending sequence has a boundary for every probe.
pub proof fn lemma_boundary_exists<T: BinaryCmp>(records: Seq<Seq<u8>>, probe: Seq<u8>) -> (k: int)
    requires
        strict_weak::<T>(),
        ascending::<T>(records),
        uniform(records, T::byte_len()),
        probe.len() == T::byte_len(),
    ensures
        is_boundary::<T>(records, probe, k),
        boundary::<T>(records, probe) == k,
    decreases records.len(),
{
    let n = records.len() as int;
    let k = if n == 0 {
        0
    } else if T::precedes(records[n - 1], probe) {
        assert forall|i: int| 0 <= i < n implies T::precedes(#[trigger] records[i], probe) by {
            if i < n - 1 {
                lemma_transitive::<T>(records[i], records[n - 1], probe);
            }
        }
        n
    } else {
        let front = records.subrange(0, n - 1);
        assert forall|i: int, j: int| 0 <= i < j < front.len() implies T::precedes(
            #[trigger] front[i],
            #[trigger] front[j],
        ) by {
            assert(front[i] == records[i] && front[j] == records[j]);
        }
        let k = lemma_boundary_exists::<T>(front, probe);
        assert forall|i: int| 0 <= i < k implies T::precedes(#[trigger] records[i], probe) by {
            assert(front[i] == records[i]);
        }
        assert forall|i: int| k <= i < n implies !T::precedes(#[trigger] records[i], probe) by {
            if i < n - 1 {
                assert(front[i] == records[i]);
            }
        }
        k
    };
    lemma_boundary_unique::<T>(records, probe, k);
    k
}

/// In an ascending sequence the record tied with a probe, if there is one,
/// stands at the probe's boundary, and no other record is tied with it.
pub proof fn lemma_tied_at_boundary<T: BinaryCmp>(records: Seq<Seq<u8>>, probe: Seq<u8>, k: int)
    requires
        strict_weak::<T>(),
        ascending::<T>(records),
        uniform(records, T::byte_len()),
        probe.len() == T::byte_len(),
        is_boundary::<T>(records, probe, k),
    ensures
        holds::<T>(records, probe) <==> k < records.len() && tied::<T>(records[k], probe),
        forall|i: int|
            0 <= i < records.len() && tied::<T>(#[trigger] records[i], probe) ==> i == k,
{
    assert forall|i: int| 0 <= i < records.len() && tied::<T>(#[trigger] records[i], probe) implies i
        == k by {
        if i < k {
            assert(T::precedes(records[i], probe));
        }
        if k < i {
            lemma_before_tied::<T>(records[k], records[i], probe);
            assert(!T::precedes(records[k], probe));
        }
    }
}

/// Records that are tied have the same boundary and are held by the same
/// sequences.
pub proof fn lemma_tied_same_place<T: BinaryCmp>(
    records: Seq<Seq<u8>>,
    first: Seq<u8>,
    second: Seq<u8>,
    k: int,
)
    requires
        strict_weak::<T>(),
        uniform(records, T::byte_len()),
        first.len() == T::byte_len(),
        second.len() == T::byte_len(),
        tied::<T>(first, second),
        is_boundary::<T>(records, first, k),
    ensures
        is_boundary::<T>(records, second, k),
        holds::<T>(records, first) ==> holds::<T>(records, second),
{
    assert forall|i: int| 0 <= i < k implies T::precedes(#[trigger] records[i], second) by {
        lemma_before_tied::<T>(records[i], first, second);
    }
    assert forall|i: int| k <= i < records.len() implies !T::precedes(
        #[trigger] records[i],
        second,
    ) by {
        if T::precedes(records[i], second) {
            lemma_before_tied::<T>(records[i], second, first);
        }
    }
    if holds::<T>(records, first) {
        let i = choose|i: int| 0 <= i < records.len() && tied::<T>(#[trigger] records[i], first);
        lemma_tied_tied::<T>(records[i], first, second);
    }
}

/// Sortedness is kept: putting a record among ascending records leaves them
/// ascending, with the record at its boundary, and one longer only if no
/// record compared equal to it.
pub proof fn lemma_inserted_ascending<T: BinaryCmp>(records: Seq<Seq<u8>>, record: Seq<u8>)
    requires
        strict_weak::<T>(),
        ascending::<T>(records),
        uniform(records, T::byte_len()),
        record.len() == T::byte_len(),
    ensures
        ascending::<T>(inserted::<T>(records, record)),
        uniform(inserted::<T>(records, record), T::byte_len()),
        inserted::<T>(records, record).len() == if holds::<T>(records, record) {
            records.len()
        } else {
            records.len() + 1
        },
        0 <= boundary::<T>(records, record) < inserted::<T>(records, record).len(),
        inserted::<T>(records, record)[boundary::<T>(records, record)] == record,
{
    let k = lemma_boundary_exists::<T>(records, record);
    lemma_tied_at_boundary::<T>(records, record, k);
    let after = inserted::<T>(records, record);
    if holds::<T>(records, record) {
        assert forall|i: int, j: int| 0 <= i < j < after.len() implies T::precedes(
            #[trigger] after[i],
            #[trigger] after[j],
        ) by {
            assert(T::precedes(records[i], records[j]));
            if j == k {
                lemma_before_tied::<T>(records[i], records[k], record);
            }
            if i == k {
                lemma_splits::<T>(records[k], records[j], record);
            }
        }
    } else {
        records.insert_ensures(k, record);
        assert forall|i: int| k <= i < records.len() implies T::precedes(
            record,
            #[trigger] records[i],
        ) by {
            assert(!tied::<T>(records[i], record));
        }
        assert forall|i: int, j: int| 0 <= i < j < after.len() implies T::precedes(
            #[trigger] after[i],
            #[trigger] after[j],
        ) by {
            if j < k {
                assert(T::precedes(records[i], records[j]));
            } else if j == k {
                assert(T::precedes(records[i], record));
            } else if i < k {
                assert(after[j] == records[j - 1]);
                assert(T::precedes(records[i], records[j - 1]));
            } else if i == k {
                assert(after[j] == records[j - 1]);
            } else {
                assert(after[i] == records[i - 1]);
                assert(after[j] == records[j - 1]);
                assert(T::precedes(records[i - 1], records[j - 1]));
            }
        }
        assert forall|i: int| 0 <= i < after.len() implies (#[trigger] after[i]).len()
            == T::byte_len() by {
            if i > k {
                assert(after[i] == records[i - 1]);
            }
        }
    }
}

/// Uniqueness under the comparator: putting a record and then one that
/// compares equal to it leaves exactly what putting the second alone leaves;
/// the second put adds no record.
pub proof fn lemma_inserted_twice<T: BinaryCmp>(
    records: Seq<Seq<u8>>,
    first: Seq<u8>,
    second: Seq<u8>,
)
    requires
        strict_weak::<T>(),
        ascending::<T>(records),
        uniform(records, T::byte_len()),
        first.len() == T::byte_len(),
        second.len() == T::byte_len(),
        tied::<T>(first, second),
    ensures
        inserted::<T>(inserted::<T>(records, first), second) == inserted::<T>(records, second),
        inserted::<T>(inserted::<T>(records, first), second).len() == inserted::<T>(
            records,
            first,
        ).len(),
{
    let k = lemma_boundary_exists::<T>(records, first);
    lemma_tied_at_boundary::<T>(records, first, k);
    lemma_tied_same_place::<T>(records, first, second, k);
    lemma_boundary_unique::<T>(records, second, k);
    lemma_tied_at_boundary::<T>(records, second, k);
    if holds::<T>(records, second) {
        lemma_tied_tied::<T>(records[k], second, first);
    }
    let once = inserted::<T>(records, first);
    lemma_inserted_ascending::<T>(records, first);
    if !holds::<T>(records, first) {
        records.insert_ensures(k, first);
    }
    assert(once[k] == first);
    assert forall|i: int| 0 <= i < k implies T::precedes(#[trigger] once[i], second) by {
        assert(once[i] == records[i]);
    }
    assert forall|i: int| k <= i < once.len() implies !T::precedes(#[trigger] once[i], second) by {
        if i > k {
            if holds::<T>(records, first) {
                assert(once[i] == records[i]);
            } else {
                assert(once[i] == records[i - 1]);
            }
        }
    }
    lemma_boundary_unique::<T>(once, second, k);
    assert(tied::<T>(once[k], second));
    assert(holds::<T>(once, second));
    assert(inserted::<T>(once, second) =~= inserted::<T>(records, second));
}

} // verus!
