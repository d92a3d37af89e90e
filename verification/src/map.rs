use crate::layout::lemma_records_uniform;
use crate::order::{
    above, ascending, below, holds, inserted, lawful, lemma_asymmetric, lemma_boundary_exists,
    lemma_inserted_ascending, lemma_respects_monotone, lemma_splits, lemma_tied_at_boundary,
    lemma_tied_tied, lemma_transitive, meets, one_way, respects, round_trips, splits, strict_weak, tied, uniform,
};
use crate::shm::Memory;
use crate::sorted_set::{
    record_size, region_with, Binary, BinaryCmp, Cmp, SetError, SetIterator, Side, SortedSet,
};
use crate::text::{bracketed, listed, paired};
use core::cmp::Ordering;
use core::fmt::Display;
use core::marker::PhantomData;
use vstd::prelude::*;
use vstd::string::{to_string_from_display_ensures, StringExecFns};

verus! {

/// The leading bytes of an encoded entry: its encoded key.
pub open spec fn key_part<K: Binary>(entry: Seq<u8>) -> Seq<u8> {
    entry.subrange(0, K::byte_len() as int)
}

/// The bytes of an encoded entry behind its key: its encoded value.
pub open spec fn value_part<K: Binary, V: Binary>(entry: Seq<u8>) -> Seq<u8> {
    entry.subrange(K::byte_len() as int, (K::byte_len() + V::byte_len()) as int)
}

/// The key of the encoded entry compares equal to the encoded key `key`.
pub open spec fn same_key<K: BinaryCmp>(entry: Seq<u8>, key: Seq<u8>) -> bool {
    tied::<K>(key_part::<K>(entry), key)
}

/// Some entry has a key that compares equal to `key`.
pub open spec fn has_key<K: BinaryCmp>(entries: Seq<Seq<u8>>, key: Seq<u8>) -> bool {
    exists|i: int| 0 <= i < entries.len() && same_key::<K>(#[trigger] entries[i], key)
}

/// The encoded value that the entries hold for `key`, if they hold one.
pub open spec fn lookup<K: BinaryCmp, V: Binary>(entries: Seq<Seq<u8>>, key: Seq<u8>) -> Option<
    Seq<u8>,
> {
    if has_key::<K>(entries, key) {
        let i = choose|i: int| 0 <= i < entries.len() && same_key::<K>(#[trigger] entries[i], key);
        Some(value_part::<K, V>(entries[i]))
    } else {
        None
    }
}

/// A key with its value, stored as the key's bytes followed by the value's.
pub struct Entry<K, V> {
    pub key: K,
    pub value: V,
}

impl<K, V> Binary for Entry<K, V> where K: Binary, V: Binary {
    open spec fn byte_len() -> nat {
        K::byte_len() + V::byte_len()
    }

    open spec fn encode(&self) -> Seq<u8> {
        self.key.encode() + self.value.encode()
    }

    open spec fn decode(bytes: Seq<u8>) -> Self {
        Entry {
            key: K::decode(key_part::<K>(bytes)),
            value: V::decode(value_part::<K, V>(bytes)),
        }
    }

    fn const_size() -> (size: u32) {
        K::const_size() + V::const_size()
    }

    fn to_bytes(&self, buffer: &mut [u8]) {
        let (key_bytes, value_bytes) = buffer.split_at_mut(record_size::<K>());
        self.key.to_bytes(key_bytes);
        self.value.to_bytes(value_bytes);
    }

    fn from_bytes(buffer: &[u8]) -> (value: Self) {
        let key_size = record_size::<K>();
        let value_size = record_size::<V>();
        Entry {
            key: K::from_bytes(&buffer[0..key_size]),
            value: V::from_bytes(&buffer[key_size..key_size + value_size]),
        }
    }
}

impl<K, V> BinaryCmp for Entry<K, V> where K: Binary + BinaryCmp, V: Binary {
    open spec fn precedes(left: Seq<u8>, right: Seq<u8>) -> bool {
        K::precedes(key_part::<K>(left), key_part::<K>(right))
    }

    fn cmp(left: &[u8], right: &[u8]) -> (order: Ordering) {
        let key_size = record_size::<K>();
        K::cmp(&left[0..key_size], &right[0..key_size])
    }
}

/// The round trip of entries: where keys and values round-trip, so do their
/// entries.
pub proof fn lemma_entry_round_trips<K: Binary, V: Binary>()
    requires
        round_trips::<K>(),
        round_trips::<V>(),
    ensures
        round_trips::<Entry<K, V>>(),
{
    assert forall|entry: Entry<K, V>| #![trigger entry.encode()]
        entry.encode().len() == Entry::<K, V>::byte_len() && Entry::<K, V>::decode(entry.encode())
            == entry by {
        assert(entry.key.encode().len() == K::byte_len());
        assert(entry.value.encode().len() == V::byte_len());
        assert(key_part::<K>(entry.encode()) =~= entry.key.encode());
        assert(value_part::<K, V>(entry.encode()) =~= entry.value.encode());
    }
}

/// Where the keys are in a strict weak order, so are the entries.
pub proof fn lemma_entry_strict_weak<K: Binary + BinaryCmp, V: Binary>()
    requires
        strict_weak::<K>(),
    ensures
        strict_weak::<Entry<K, V>>(),
{
    assert forall|left: Seq<u8>, right: Seq<u8>|
        left.len() == Entry::<K, V>::byte_len() && right.len() == Entry::<K, V>::byte_len()
        implies #[trigger] one_way::<Entry<K, V>>(left, right) by {
        lemma_asymmetric::<K>(key_part::<K>(left), key_part::<K>(right));
    }
    assert forall|left: Seq<u8>, right: Seq<u8>, other: Seq<u8>|
        left.len() == Entry::<K, V>::byte_len() && right.len() == Entry::<K, V>::byte_len()
            && other.len() == Entry::<K, V>::byte_len() implies #[trigger] splits::<Entry<K, V>>(
        left,
        right,
        other,
    ) by {
        if Entry::<K, V>::precedes(left, right) {
            lemma_splits::<K>(key_part::<K>(left), key_part::<K>(right), key_part::<K>(other));
        }
    }
}

/// Entries keep to the record contract where their keys and values do.
pub proof fn lemma_entry_lawful<K: Binary + BinaryCmp, V: Binary>()
    requires
        lawful::<K>(),
        round_trips::<V>(),
    ensures
        lawful::<Entry<K, V>>(),
{
    lemma_entry_round_trips::<K, V>();
    lemma_entry_strict_weak::<K, V>();
}

/// The probe that holds an encoded key against the keys of stored entries.
pub struct KeyCmp<K> where K: Binary + BinaryCmp {
    key: Vec<u8>,
    _type: PhantomData<K>,
}

impl<K> KeyCmp<K> where K: Binary + BinaryCmp {
    /// The encoded key that the probe carries.
    pub closed spec fn key_bytes(&self) -> Seq<u8> {
        self.key@
    }

    /// Create a probe for the entry with the given key.
    pub fn new(key: K) -> (probe: KeyCmp<K>)
        requires
            K::byte_len() <= u32::MAX,
        ensures
            probe.key_bytes() == key.encode(),
    {
        let mut buffer = vec![0u8; record_size::<K>()];
        key.to_bytes(buffer.as_mut_slice());
        KeyCmp { key: buffer, _type: PhantomData }
    }
}

impl<K> Cmp for KeyCmp<K> where K: Binary + BinaryCmp {
    open spec fn accepts(&self, record: Seq<u8>) -> bool {
        &&& K::byte_len() <= u32::MAX
        &&& self.key_bytes().len() == K::byte_len()
        &&& record.len() >= K::byte_len()
    }

    open spec fn side(&self, record: Seq<u8>) -> Side {
        if K::precedes(self.key_bytes(), key_part::<K>(record)) {
            Side::Below
        } else if K::precedes(key_part::<K>(record), self.key_bytes()) {
            Side::Above
        } else {
            Side::Level
        }
    }

    fn cmp(&self, order: &[u8]) -> (found: Ordering) {
        let key_size = record_size::<K>();
        K::cmp(self.key.as_slice(), &order[0..key_size])
    }
}

/// A key probe agrees with the order of the entries, which is the order of
/// their keys.
pub proof fn lemma_key_probe_respects<K: Binary + BinaryCmp, V: Binary>(probe: &KeyCmp<K>)
    requires
        strict_weak::<K>(),
        probe.key_bytes().len() == K::byte_len(),
    ensures
        respects::<Entry<K, V>, KeyCmp<K>>(probe),
{
    assert forall|low: Seq<u8>, high: Seq<u8>|
        low.len() == Entry::<K, V>::byte_len() && high.len() == Entry::<K, V>::byte_len()
            && #[trigger] Entry::<K, V>::precedes(low, high) implies (!above(probe, low)
        ==> below(probe, high)) && (!below(probe, high) ==> above(probe, low)) by {
        lemma_splits::<K>(key_part::<K>(low), key_part::<K>(high), probe.key_bytes());
        lemma_asymmetric::<K>(key_part::<K>(low), probe.key_bytes());
        if K::precedes(probe.key_bytes(), key_part::<K>(low)) {
            lemma_transitive::<K>(probe.key_bytes(), key_part::<K>(low), key_part::<K>(high));
        }
    }
}

/// Ascending entries hold at most one entry for a key.
pub proof fn lemma_key_once<K: Binary + BinaryCmp, V: Binary>(
    entries: Seq<Seq<u8>>,
    key: Seq<u8>,
    i: int,
    j: int,
)
    requires
        strict_weak::<K>(),
        ascending::<Entry<K, V>>(entries),
        uniform(entries, Entry::<K, V>::byte_len()),
        key.len() == K::byte_len(),
        0 <= i < entries.len(),
        0 <= j < entries.len(),
        same_key::<K>(entries[i], key),
        same_key::<K>(entries[j], key),
    ensures
        i == j,
{
    lemma_tied_tied::<K>(key_part::<K>(entries[i]), key, key_part::<K>(entries[j]));
    if i < j {
        assert(Entry::<K, V>::precedes(entries[i], entries[j]));
    }
    if j < i {
        assert(Entry::<K, V>::precedes(entries[j], entries[i]));
    }
}

/// Entries hold a record that compares equal to the entry of `key` exactly
/// when they hold the key.
pub proof fn lemma_holds_is_has_key<K: Binary + BinaryCmp, V: Binary>(
    entries: Seq<Seq<u8>>,
    key: Seq<u8>,
    value: Seq<u8>,
)
    requires
        key.len() == K::byte_len(),
    ensures
        key_part::<K>(key + value) == key,
        value.len() == V::byte_len() ==> value_part::<K, V>(key + value) == value,
        holds::<Entry<K, V>>(entries, key + value) <==> has_key::<K>(entries, key),
{
    let entry = key + value;
    assert(key_part::<K>(entry) =~= key);
    if value.len() == V::byte_len() {
        assert(value_part::<K, V>(entry) =~= value);
    }
    if holds::<Entry<K, V>>(entries, entry) {
        let i = choose|i: int|
            0 <= i < entries.len() && tied::<Entry<K, V>>(#[trigger] entries[i], entry);
        assert(same_key::<K>(entries[i], key));
    }
    if has_key::<K>(entries, key) {
        let i = choose|i: int| 0 <= i < entries.len() && same_key::<K>(#[trigger] entries[i], key);
        assert(tied::<Entry<K, V>>(entries[i], entry));
    }
}

/// The latest value wins: after a put, every key that compares equal to the
/// put key has the put value, and every other key has what it had.
pub proof fn lemma_lookup_after_put<K: Binary + BinaryCmp, V: Binary>(
    entries: Seq<Seq<u8>>,
    key: Seq<u8>,
    value: Seq<u8>,
    other: Seq<u8>,
)
    requires
        strict_weak::<K>(),
        ascending::<Entry<K, V>>(entries),
        uniform(entries, Entry::<K, V>::byte_len()),
        key.len() == K::byte_len(),
        value.len() == V::byte_len(),
        other.len() == K::byte_len(),
    ensures
        lookup::<K, V>(inserted::<Entry<K, V>>(entries, key + value), other) == if tied::<K>(
            other,
            key,
        ) {
            Some(value)
        } else {
            lookup::<K, V>(entries, other)
        },
{
    let entry = key + value;
    lemma_entry_strict_weak::<K, V>();
    lemma_holds_is_has_key::<K, V>(entries, key, value);
    let k = lemma_boundary_exists::<Entry<K, V>>(entries, entry);
    lemma_tied_at_boundary::<Entry<K, V>>(entries, entry, k);
    lemma_inserted_ascending::<Entry<K, V>>(entries, entry);
    let after = inserted::<Entry<K, V>>(entries, entry);
    let held = holds::<Entry<K, V>>(entries, entry);
    if !held {
        entries.insert_ensures(k, entry);
    }
    assert(after[k] == entry);
    if tied::<K>(other, key) {
        assert(same_key::<K>(after[k], other));
        let c = choose|i: int| 0 <= i < after.len() && same_key::<K>(#[trigger] after[i], other);
        lemma_key_once::<K, V>(after, other, c, k);
    } else if has_key::<K>(entries, other) {
        let j = choose|i: int| 0 <= i < entries.len() && same_key::<K>(#[trigger] entries[i], other);
        if held && j == k {
            lemma_tied_tied::<K>(other, key_part::<K>(entries[k]), key);
        }
        let moved = if held || j < k {
            j
        } else {
            j + 1
        };
        assert(after[moved] == entries[j]);
        assert(same_key::<K>(after[moved], other));
        let c = choose|i: int| 0 <= i < after.len() && same_key::<K>(#[trigger] after[i], other);
        lemma_key_once::<K, V>(after, other, c, moved);
    } else if has_key::<K>(after, other) {
        let c = choose|i: int| 0 <= i < after.len() && same_key::<K>(#[trigger] after[i], other);
        let origin = if held || c < k {
            c
        } else {
            c - 1
        };
        assert(entries[origin] == after[c]);
        assert(same_key::<K>(entries[origin], other));
    }
}

/// Fixed size elements shared memory map.
pub struct ShmMap<'a, K, V> where K: Binary + BinaryCmp, V: Binary {
    set: SortedSet<'a, Entry<K, V>>,
}

impl<'a, K, V> ShmMap<'a, K, V> where K: Binary + BinaryCmp, V: Binary {
    /// The sorted set of entries that the map is kept in.
    pub closed spec fn as_set(&self) -> SortedSet<'a, Entry<K, V>> {
        self.set
    }

    /// The bytes of the underlying region.
    pub open spec fn region(&self) -> Seq<u8> {
        self.as_set().region()
    }

    /// The encoded entries, in key order.
    pub open spec fn view(&self) -> Seq<Seq<u8>> {
        self.as_set()@
    }

    /// The region is well laid out and its entries ascend strictly by key.
    pub open spec fn wf(&self) -> bool {
        self.as_set().wf()
    }

    /// Create a new shared memory map with given memory reference.
    pub fn new(memory: Memory<'a>) -> (map: ShmMap<'a, K, V>)
        ensures
            map.region() == memory@,
    {
        let set = SortedSet::new(memory);
        ShmMap { set }
    }

    /// Whether the region holds a header and no more entries than it has
    /// room for.
    pub fn check_layout(&self) -> (ok: bool)
        requires
            K::byte_len() + V::byte_len() <= u32::MAX,
        ensures
            ok == self.as_set().fits(),
    {
        self.set.check_layout()
    }

    /// Whether the region is well formed: well laid out, with entries that
    /// ascend strictly by key.
    pub fn is_valid(&self) -> (ok: bool)
        requires
            K::byte_len() + V::byte_len() <= u32::MAX,
            strict_weak::<K>(),
        ensures
            ok == self.wf(),
    {
        proof {
            lemma_entry_strict_weak::<K, V>();
        }
        self.set.is_valid()
    }

    /// Put a value to the map.
    ///
    /// The value replaces the one of a key that compares equal.  A new key
    /// moves in at its place in key order, unless the map is full: then
    /// nothing is written and `SetError::Full` comes back.
    pub fn put(&mut self, key: K, value: V) -> (outcome: Result<(), SetError>)
        requires
            old(self).wf(),
            lawful::<K>(),
            round_trips::<V>(),
        ensures
            final(self).wf(),
            final(self).region().len() == old(self).region().len(),
            outcome is Err <==> old(self).as_set().len() >= old(self).as_set().capacity()
                && !has_key::<K>(old(self)@, key.encode()),
            outcome is Ok ==> final(self)@ == inserted::<Entry<K, V>>(
                old(self)@,
                key.encode() + value.encode(),
            ),
            outcome is Ok ==> final(self).region() == region_with::<Entry<K, V>>(
                old(self).region(),
                key.encode() + value.encode(),
            ),
            outcome is Ok ==> final(self)@.len() == if has_key::<K>(old(self)@, key.encode()) {
                old(self)@.len()
            } else {
                old(self)@.len() + 1
            },
            outcome is Err ==> final(self).region() == old(self).region(),
    {
        proof {
            assert(key.encode().len() == K::byte_len());
            lemma_entry_lawful::<K, V>();
            lemma_holds_is_has_key::<K, V>(self@, key.encode(), value.encode());
        }
        self.set.add(Entry { key, value })
    }

    /// Retrieve the value associated with the key.
    pub fn get(&self, key: K) -> (value: Option<V>)
        requires
            self.wf(),
            lawful::<K>(),
        ensures
            value == match lookup::<K, V>(self@, key.encode()) {
                Some(bytes) => Some(V::decode(bytes)),
                None => None,
            },
    {
        proof {
            assert(key.encode().len() == K::byte_len());
            lemma_records_uniform(self.region(), Entry::<K, V>::byte_len());
        }
        let probe = KeyCmp::new(key);
        proof {
            lemma_key_probe_respects::<K, V>(&probe);
            lemma_respects_monotone::<Entry<K, V>, KeyCmp<K>>(&probe, self@);
        }
        match self.set.find(probe) {
            Some(entry) => {
                proof {
                    let i = choose|i: int|
                        0 <= i < self@.len() && meets(&probe, #[trigger] self@[i]) && entry
                            == Entry::<K, V>::decode(self@[i]);
                    assert(same_key::<K>(self@[i], key.encode()));
                    let c = choose|c: int|
                        0 <= c < self@.len() && same_key::<K>(#[trigger] self@[c], key.encode());
                    lemma_key_once::<K, V>(self@, key.encode(), c, i);
                }
                Some(entry.value)
            },
            None => {
                proof {
                    if has_key::<K>(self@, key.encode()) {
                        let c = choose|c: int|
                            0 <= c < self@.len() && same_key::<K>(
                                #[trigger] self@[c],
                                key.encode(),
                            );
                        assert(meets(&probe, self@[c]));
                    }
                }
                None
            },
        }
    }

    /// Removes all keys.
    pub fn clear(&mut self)
        requires
            old(self).region().len() >= 4,
        ensures
            final(self).region() == crate::layout::with_count(old(self).region(), 0),
            final(self).region().len() == old(self).region().len(),
            final(self)@ == Seq::<Seq<u8>>::empty(),
            0 < K::byte_len() + V::byte_len() <= u32::MAX ==> final(self).wf(),
    {
        self.set.clear();
    }

    /// Create map iterator.
    pub fn iter(&self) -> (iter: MapIterator<'a, '_, K, V>)
        requires
            self.as_set().fits(),
        ensures
            *iter.inner().set() == self.as_set(),
            iter.position() == 0,
    {
        MapIterator { iter: self.set.iter() }
    }
}

/// The texts are what the keys and the values of the entries, decoded,
/// display as, one for one.
pub open spec fn displayed_pairs<K: Binary + Display, V: Binary + Display>(
    entries: Seq<Seq<u8>>,
    keys: Seq<String>,
    values: Seq<String>,
) -> bool {
    &&& keys.len() == entries.len()
    &&& values.len() == entries.len()
    &&& forall|i: int|
        0 <= i < keys.len() ==> to_string_from_display_ensures::<K>(
            &K::decode(key_part::<K>(entries[i])),
            #[trigger] keys[i],
        )
    &&& forall|i: int|
        0 <= i < values.len() ==> to_string_from_display_ensures::<V>(
            &V::decode(value_part::<K, V>(entries[i])),
            #[trigger] values[i],
        )
}

/// The pairs that the texts of keys and values make, in their order.
pub open spec fn pairs(keys: Seq<String>, values: Seq<String>) -> Seq<Seq<char>> {
    Seq::new(keys.len(), |i: int| paired(keys[i]@, values[i]@))
}

impl<'a, K, V> ShmMap<'a, K, V> where K: Binary + BinaryCmp + Display, V: Binary + Display {
    /// The map as text: in square brackets, each entry as `(key->value)`,
    /// key and value as they display, followed by a comma.
    pub fn to_text(&self) -> (text: String)
        requires
            self.as_set().fits(),
        ensures
            exists|keys: Seq<String>, values: Seq<String>|
                displayed_pairs::<K, V>(self@, keys, values) && text@ == bracketed(
                    pairs(keys, values),
                ),
    {
        let mut text = String::from_str("[");
        let ghost mut keys: Seq<String> = Seq::empty();
        let ghost mut values: Seq<String> = Seq::empty();
        let mut iter = self.iter();
        proof {
            reveal_strlit("[");
            assert(text@ =~= seq!['['] + listed(pairs(keys, values)));
        }
        loop
            invariant_except_break
                iter.position() == keys.len(),
            invariant
                *iter.inner().set() == self.as_set(),
                keys.len() == values.len(),
                keys.len() <= self@.len(),
                forall|i: int|
                    0 <= i < keys.len() ==> to_string_from_display_ensures::<K>(
                        &K::decode(key_part::<K>(self@[i])),
                        #[trigger] keys[i],
                    ),
                forall|i: int|
                    0 <= i < values.len() ==> to_string_from_display_ensures::<V>(
                        &V::decode(value_part::<K, V>(self@[i])),
                        #[trigger] values[i],
                    ),
                text@ == seq!['['] + listed(pairs(keys, values)),
            ensures
                displayed_pairs::<K, V>(self@, keys, values),
                text@ == seq!['['] + listed(pairs(keys, values)),
            decreases self@.len() - keys.len(),
        {
            match iter.next() {
                Some(item) => {
                    let key = item.0.to_string();
                    let value = item.1.to_string();
                    text.append("(");
                    text.append(key.as_str());
                    text.append("->");
                    text.append(value.as_str());
                    text.append("),");
                    proof {
                        reveal_strlit("(");
                        reveal_strlit("->");
                        reveal_strlit("),");
                        let before = pairs(keys, values);
                        keys = keys.push(key);
                        values = values.push(value);
                        let after = pairs(keys, values);
                        assert(after.drop_last() =~= before);
                        assert(after.last() == paired(key@, value@));
                        assert(text@ =~= seq!['['] + listed(after));
                    }
                },
                None => {
                    break ;
                },
            }
        }
        text.append("]");
        proof {
            reveal_strlit("]");
        }
        text
    }
}

/// Map iterator.
pub struct MapIterator<'a, 'b, K, V> where K: Binary + BinaryCmp, V: Binary {
    iter: SetIterator<'a, 'b, Entry<K, V>>,
}

impl<'a, 'b, K, V> MapIterator<'a, 'b, K, V> where K: Binary + BinaryCmp, V: Binary {
    /// The pass over the entries that this pass over pairs is made of.
    pub closed spec fn inner(&self) -> SetIterator<'a, 'b, Entry<K, V>> {
        self.iter
    }

    /// The encoded entries that are walked.
    pub open spec fn entries(&self) -> Seq<Seq<u8>> {
        self.inner().set()@
    }

    /// The index of the entry that comes next.
    pub open spec fn position(&self) -> nat {
        self.inner().position()
    }

    /// The key and the value of the entry at the position, decoded, or `None`
    /// where the position is behind the last entry; and in either event a
    /// step forward, as far as positions go.
    pub fn next(&mut self) -> (pair: Option<(K, V)>)
        ensures
            final(self).inner().set() == old(self).inner().set(),
            pair == if old(self).position() < old(self).entries().len() {
                Some(
                    (
                        K::decode(key_part::<K>(old(self).entries()[old(self).position() as int])),
                        V::decode(
                            value_part::<K, V>(old(self).entries()[old(self).position() as int]),
                        ),
                    ),
                )
            } else {
                None
            },
            final(self).position() == if old(self).position() < usize::MAX {
                old(self).position() + 1
            } else {
                old(self).position()
            },
    {
        match self.iter.next() {
            Some(entry) => Some((entry.key, entry.value)),
            None => None,
        }
    }
}

} // verus!
