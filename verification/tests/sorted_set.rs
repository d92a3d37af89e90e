use byteorder::{ByteOrder, LittleEndian};
use shm_map::shm::Memory;
use shm_map::sorted_set::{Binary, BinaryCmp, Cmp, SetError, SortedSet};
use std::cmp::Ordering;
use std::fmt;

#[derive(Ord, PartialOrd, Eq, PartialEq, Debug)]
struct Pair {
    key: u64,
    value: u64,
}

impl Pair {
    pub fn new(key: u64, value: u64) -> Pair {
        Pair { key, value }
    }
}

impl Binary for Pair {
    fn const_size() -> u32 {
        16
    }

    fn to_bytes(&self, buffer: &mut [u8]) {
        LittleEndian::write_u64(&mut buffer[0..8], self.key);
        LittleEndian::write_u64(&mut buffer[8..16], self.value);
    }

    fn from_bytes(buffer: &[u8]) -> Self {
        Pair {
            key: LittleEndian::read_u64(&buffer[0..8]),
            value: LittleEndian::read_u64(&buffer[8..16]),
        }
    }
}

impl BinaryCmp for Pair {
    fn cmp(left: &[u8], right: &[u8]) -> Ordering {
        let left = LittleEndian::read_u64(&left[0..8]);
        let right = LittleEndian::read_u64(&right[0..8]);
        left.cmp(&right)
    }
}

impl fmt::Display for Pair {
    fn fmt(&self, f: &mut fmt::Formatter<'_>) -> fmt::Result {
        f.write_str(&format!("({}:{})", self.key, self.value))
    }
}

/// A region with the given count in its header and the given pairs behind it.
fn region_of(count: u32, pairs: &[(u64, u64)]) -> Vec<u8> {
    let mut region = vec![0u8; 4 + 16 * pairs.len()];
    LittleEndian::write_u32(&mut region[0..4], count);
    for (index, pair) in pairs.iter().enumerate() {
        Pair::new(pair.0, pair.1).to_bytes(&mut region[4 + 16 * index..20 + 16 * index]);
    }
    region
}

/// A probe for the pair with a given key.
struct ByKey(u64);

impl Cmp for ByKey {
    fn cmp(&self, order: &[u8]) -> Ordering {
        self.0.cmp(&LittleEndian::read_u64(&order[0..8]))
    }
}

/// A probe for the pair with a given key among pairs in descending order.
struct Downward(u64);

impl Cmp for Downward {
    fn cmp(&self, order: &[u8]) -> Ordering {
        LittleEndian::read_u64(&order[0..8]).cmp(&self.0)
    }
}

#[test]
fn test_list() {
    let mut region = vec![0u8; 1024];
    let mut set = SortedSet::new(Memory::new(&mut region));
    set.clear();
    set.add(Pair::new(1, 2)).unwrap();
    set.add(Pair::new(3, 1)).unwrap();
    set.add(Pair::new(0, 10)).unwrap();
    set.add(Pair::new(100, 100)).unwrap();
    set.add(Pair::new(10, 0)).unwrap();
    set.add(Pair::new(11, 0)).unwrap();
    set.add(Pair::new(11, 44)).unwrap();
    set.add(Pair::new(2, 2)).unwrap();

    assert_eq!(
        vec![
            Pair::new(0, 10),
            Pair::new(1, 2),
            Pair::new(2, 2),
            Pair::new(3, 1),
            Pair::new(10, 0),
            Pair::new(11, 44),
            Pair::new(100, 100),
        ],
        set.to_vec()
    );
}

#[test]
fn empty_set_has_no_records() {
    let mut region = vec![0xAAu8; 100];
    let mut set: SortedSet<Pair> = SortedSet::new(Memory::new(&mut region));
    set.clear();
    assert_eq!(set.len(), 0);
    assert!(set.is_empty());
    assert_eq!(set.get(0), None);
    assert_eq!(set.to_vec(), vec![]);
    assert_eq!(set.find(ByKey(0)), None);
    assert_eq!(set.iter().next(), None);
}

#[test]
fn ordered_insertion_keeps_keys_ascending() {
    let mut region = vec![0u8; 1024];
    let mut set = SortedSet::new(Memory::new(&mut region));
    set.clear();
    let mut stamp = 0;
    for key in [1u64, 3, 0, 100, 10, 11, 11, 2] {
        stamp += 1;
        assert_eq!(set.add(Pair::new(key, stamp)), Ok(()));
    }
    assert_eq!(set.len(), 7);
    assert!(!set.is_empty());
    let keys: Vec<u64> = set.to_vec().iter().map(|pair| pair.key).collect();
    assert_eq!(keys, vec![0, 1, 2, 3, 10, 11, 100]);
    assert_eq!(set.get(5), Some(Pair::new(11, 7)));
    for index in 1..set.len() {
        let before = set.get(index - 1).unwrap();
        let after = set.get(index).unwrap();
        assert!(before.key < after.key);
    }
}

#[test]
fn equal_record_is_replaced_in_place() {
    let mut region = vec![0u8; 4 + 16 * 4];
    let mut set = SortedSet::new(Memory::new(&mut region));
    set.clear();
    set.add(Pair::new(5, 1)).unwrap();
    set.add(Pair::new(7, 1)).unwrap();
    set.add(Pair::new(5, 2)).unwrap();
    assert_eq!(set.len(), 2);
    assert_eq!(set.to_vec(), vec![Pair::new(5, 2), Pair::new(7, 1)]);
}

#[test]
fn get_reads_by_index_and_stops_at_len() {
    let mut region = vec![0u8; 4 + 16 * 4];
    let mut set = SortedSet::new(Memory::new(&mut region));
    set.clear();
    set.add(Pair::new(9, 90)).unwrap();
    set.add(Pair::new(4, 40)).unwrap();
    assert_eq!(set.get(0), Some(Pair::new(4, 40)));
    assert_eq!(set.get(1), Some(Pair::new(9, 90)));
    assert_eq!(set.get(2), None);
    assert_eq!(set.get(usize::MAX), None);
}

#[test]
fn find_hits_exactly_the_stored_keys() {
    let mut region = vec![0u8; 1024];
    let mut set = SortedSet::new(Memory::new(&mut region));
    set.clear();
    for key in [20u64, 10, 40, 30, 50] {
        set.add(Pair::new(key, key * 3)).unwrap();
    }
    for key in [10u64, 20, 30, 40, 50] {
        assert_eq!(set.find(ByKey(key)), Some(Pair::new(key, key * 3)));
    }
    for key in [0u64, 15, 25, 35, 45, 55, u64::MAX] {
        assert_eq!(set.find(ByKey(key)), None);
    }
}

#[test]
fn full_set_rejects_a_new_record_and_stays_as_it_was() {
    let mut region = vec![0u8; 4 + 16 * 3];
    let mut set = SortedSet::new(Memory::new(&mut region));
    set.clear();
    assert_eq!(set.capacity(), 3);
    assert_eq!(set.add(Pair::new(2, 20)), Ok(()));
    assert_eq!(set.add(Pair::new(1, 10)), Ok(()));
    assert_eq!(set.add(Pair::new(3, 30)), Ok(()));
    assert_eq!(set.len(), 3);
    assert_eq!(set.add(Pair::new(4, 40)), Err(SetError::Full));
    assert_eq!(set.add(Pair::new(0, 0)), Err(SetError::Full));
    assert_eq!(set.len(), 3);
    assert_eq!(
        set.to_vec(),
        vec![Pair::new(1, 10), Pair::new(2, 20), Pair::new(3, 30)]
    );
    assert_eq!(set.add(Pair::new(2, 22)), Ok(()));
    assert_eq!(
        set.to_vec(),
        vec![Pair::new(1, 10), Pair::new(2, 22), Pair::new(3, 30)]
    );
}

#[test]
fn spare_bytes_short_of_a_record_are_no_slot() {
    let mut region = vec![0u8; 4 + 16 * 2 + 15];
    let mut set = SortedSet::new(Memory::new(&mut region));
    set.clear();
    assert_eq!(set.capacity(), 2);
    assert_eq!(set.add(Pair::new(1, 1)), Ok(()));
    assert_eq!(set.add(Pair::new(2, 2)), Ok(()));
    assert_eq!(set.add(Pair::new(3, 3)), Err(SetError::Full));
}

#[test]
fn region_with_a_header_only_takes_nothing() {
    let mut region = vec![0u8; 4];
    let mut set = SortedSet::new(Memory::new(&mut region));
    set.clear();
    assert_eq!(set.capacity(), 0);
    assert_eq!(set.add(Pair::new(1, 1)), Err(SetError::Full));
    assert_eq!(set.len(), 0);
}

#[test]
fn region_layout_is_count_then_records() {
    let mut region = vec![0xFFu8; 4 + 16 * 3];
    {
        let mut set = SortedSet::new(Memory::new(&mut region));
        set.clear();
        set.add(Pair::new(0x0102, 7)).unwrap();
        set.add(Pair::new(1, 0x0A0B0C0D)).unwrap();
    }
    let mut expected = vec![2u8, 0, 0, 0];
    expected.extend_from_slice(&[1, 0, 0, 0, 0, 0, 0, 0, 0x0D, 0x0C, 0x0B, 0x0A, 0, 0, 0, 0]);
    expected.extend_from_slice(&[2, 1, 0, 0, 0, 0, 0, 0, 7, 0, 0, 0, 0, 0, 0, 0]);
    expected.extend_from_slice(&[0xFF; 16]);
    assert_eq!(region, expected);
}

#[test]
fn clear_resets_the_count_and_leaves_the_bytes() {
    let mut region = vec![0u8; 4 + 16 * 2];
    {
        let mut set = SortedSet::new(Memory::new(&mut region));
        set.clear();
        set.add(Pair::new(6, 9)).unwrap();
        set.clear();
        assert_eq!(set.len(), 0);
        assert_eq!(set.get(0), None);
    }
    assert_eq!(&region[0..4], &[0, 0, 0, 0]);
    assert_eq!(&region[4..20], &[6, 0, 0, 0, 0, 0, 0, 0, 9, 0, 0, 0, 0, 0, 0, 0]);
}

#[test]
fn set_is_a_view_that_another_handle_reads_again() {
    let mut region = vec![0u8; 4 + 16 * 4];
    {
        let mut writer = SortedSet::new(Memory::new(&mut region));
        writer.clear();
        writer.add(Pair::new(8, 1)).unwrap();
        writer.add(Pair::new(3, 2)).unwrap();
    }
    let reader: SortedSet<Pair> = SortedSet::new(Memory::new(&mut region));
    assert_eq!(reader.to_vec(), vec![Pair::new(3, 2), Pair::new(8, 1)]);
}

#[test]
fn iterator_walks_in_order_and_starts_over() {
    let mut region = vec![0u8; 1024];
    let mut set = SortedSet::new(Memory::new(&mut region));
    set.clear();
    set.add(Pair::new(2, 0)).unwrap();
    set.add(Pair::new(1, 0)).unwrap();
    let mut iter = set.iter();
    assert_eq!(iter.next(), Some(Pair::new(1, 0)));
    assert_eq!(iter.next(), Some(Pair::new(2, 0)));
    assert_eq!(iter.next(), None);
    assert_eq!(iter.next(), None);
    let mut again = set.iter();
    assert_eq!(again.next(), Some(Pair::new(1, 0)));
}

#[test]
fn memory_hands_out_its_bytes() {
    let mut region = vec![1u8, 2, 3];
    let mut memory = Memory::new(&mut region);
    assert_eq!(memory.size, 3);
    assert_eq!(memory.mem_ref(), &[1, 2, 3]);
    memory.mem_ref_mut()[1] = 9;
    assert_eq!(memory.mem_ref(), &[1, 9, 3]);
}

#[test]
fn set_prints_its_records_in_order() {
    let mut region = vec![0u8; 1024];
    let mut set = SortedSet::new(Memory::new(&mut region));
    set.clear();
    assert_eq!(set.to_text(), "[]");
    set.add(Pair::new(1, 2)).unwrap();
    assert_eq!(set.to_text(), "[(1:2),]");
    set.add(Pair::new(0, 10)).unwrap();
    assert_eq!(set.to_text(), "[(0:10),(1:2),]");
}

#[test]
fn layout_check_needs_a_header_and_room_for_the_count() {
    let mut short = vec![0u8; 3];
    let set: SortedSet<Pair> = SortedSet::new(Memory::new(&mut short));
    assert!(!set.check_layout());
    assert!(!set.is_valid());
    assert_eq!(set.capacity(), 0);

    let mut overfull = region_of(3, &[(1, 1), (2, 2)]);
    let set: SortedSet<Pair> = SortedSet::new(Memory::new(&mut overfull));
    assert!(!set.check_layout());
    assert!(!set.is_valid());

    let mut garbage = vec![0xAAu8; 64];
    let set: SortedSet<Pair> = SortedSet::new(Memory::new(&mut garbage));
    assert!(!set.check_layout());

    let mut exact = region_of(2, &[(1, 1), (2, 2)]);
    let set: SortedSet<Pair> = SortedSet::new(Memory::new(&mut exact));
    assert!(set.check_layout());
    assert_eq!(set.capacity(), 2);
}

#[test]
fn validity_check_needs_strictly_ascending_records() {
    let mut sorted = region_of(3, &[(1, 9), (2, 8), (7, 0)]);
    let set: SortedSet<Pair> = SortedSet::new(Memory::new(&mut sorted));
    assert!(set.is_valid());
    assert_eq!(set.find(ByKey(7)), Some(Pair::new(7, 0)));

    let mut swapped = region_of(3, &[(1, 9), (7, 0), (2, 8)]);
    let set: SortedSet<Pair> = SortedSet::new(Memory::new(&mut swapped));
    assert!(set.check_layout());
    assert!(!set.is_valid());

    let mut repeated = region_of(2, &[(4, 1), (4, 2)]);
    let set: SortedSet<Pair> = SortedSet::new(Memory::new(&mut repeated));
    assert!(!set.is_valid());

    let mut single = region_of(1, &[(4, 1)]);
    let set: SortedSet<Pair> = SortedSet::new(Memory::new(&mut single));
    assert!(set.is_valid());

    let mut stale = region_of(1, &[(4, 1), (3, 0)]);
    let set: SortedSet<Pair> = SortedSet::new(Memory::new(&mut stale));
    assert!(set.is_valid());
    assert_eq!(set.to_vec(), vec![Pair::new(4, 1)]);
}

#[test]
fn iterator_past_the_end_keeps_answering_none() {
    let mut region = region_of(1, &[(4, 1), (9, 9)]);
    let set: SortedSet<Pair> = SortedSet::new(Memory::new(&mut region));
    let mut iter = set.iter();
    assert_eq!(iter.next(), Some(Pair::new(4, 1)));
    for _ in 0..5 {
        assert_eq!(iter.next(), None);
    }
}

#[test]
fn find_needs_the_probe_to_be_monotone_over_the_records_only() {
    let mut region = region_of(4, &[(8, 0), (6, 1), (4, 2), (2, 3)]);
    let set: SortedSet<Pair> = SortedSet::new(Memory::new(&mut region));
    assert!(set.check_layout());
    assert!(!set.is_valid());
    assert_eq!(set.find(Downward(6)), Some(Pair::new(6, 1)));
    assert_eq!(set.find(Downward(2)), Some(Pair::new(2, 3)));
    assert_eq!(set.find(Downward(5)), None);
    assert_eq!(set.find(Downward(9)), None);
}
