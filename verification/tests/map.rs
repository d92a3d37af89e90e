use shm_map::map::{Entry, KeyCmp, ShmMap};
use shm_map::oracle::{Price, Ticker};
use shm_map::shm::Memory;
use shm_map::sorted_set::{Binary, BinaryCmp, Cmp, SetError, SortedSet};
use std::cmp::Ordering;
use std::fmt;

/// A number stored in two bytes, big end first, so that bytes and numbers
/// sort alike.
#[derive(Debug, PartialEq)]
struct Short(u16);

impl Binary for Short {
    fn const_size() -> u32 {
        2
    }

    fn to_bytes(&self, buffer: &mut [u8]) {
        buffer[0] = (self.0 >> 8) as u8;
        buffer[1] = (self.0 & 0xFF) as u8;
    }

    fn from_bytes(buffer: &[u8]) -> Self {
        Short(((buffer[0] as u16) << 8) | buffer[1] as u16)
    }
}

impl BinaryCmp for Short {
    fn cmp(left: &[u8], right: &[u8]) -> Ordering {
        left.cmp(right)
    }
}

impl fmt::Display for Short {
    fn fmt(&self, f: &mut fmt::Formatter<'_>) -> fmt::Result {
        f.write_str(&format!("{}", self.0))
    }
}

fn ticker(id: u64) -> Ticker {
    Ticker::from_id(id)
}

#[test]
fn map_put_then_get() {
    let mut region = vec![0u8; 4 + 16 * 8];
    let mut map: ShmMap<Ticker, Price> = ShmMap::new(Memory::new(&mut region));
    map.clear();
    assert_eq!(map.put(ticker(30), Price(3)), Ok(()));
    assert_eq!(map.put(ticker(10), Price(1)), Ok(()));
    assert_eq!(map.put(ticker(20), Price(2)), Ok(()));
    assert_eq!(map.get(ticker(10)), Some(Price(1)));
    assert_eq!(map.get(ticker(20)), Some(Price(2)));
    assert_eq!(map.get(ticker(30)), Some(Price(3)));
    assert_eq!(map.get(ticker(15)), None);
    assert_eq!(map.get(ticker(0)), None);
    assert_eq!(map.get(ticker(u64::MAX)), None);
}

#[test]
fn map_update_keeps_one_entry_with_the_latest_value() {
    let mut region = vec![0u8; 4 + 16 * 2];
    let mut map: ShmMap<Ticker, Price> = ShmMap::new(Memory::new(&mut region));
    map.clear();
    map.put(ticker(77), Price(1)).unwrap();
    map.put(ticker(77), Price(2)).unwrap();
    assert_eq!(map.get(ticker(77)), Some(Price(2)));
    let mut iter = map.iter();
    assert_eq!(iter.next(), Some((ticker(77), Price(2))));
    assert_eq!(iter.next(), None);
}

#[test]
fn map_iterates_pairs_in_key_order() {
    let mut region = vec![0u8; 4 + 16 * 8];
    let mut map: ShmMap<Ticker, Price> = ShmMap::new(Memory::new(&mut region));
    map.clear();
    for id in [5u64, 1, 4, 2, 3] {
        map.put(ticker(id), Price(id * 100)).unwrap();
    }
    let mut iter = map.iter();
    for id in 1u64..=5 {
        assert_eq!(iter.next(), Some((ticker(id), Price(id * 100))));
    }
    assert_eq!(iter.next(), None);
    let mut again = map.iter();
    assert_eq!(again.next(), Some((ticker(1), Price(100))));
}

#[test]
fn map_orders_keys_as_numbers_not_as_bytes() {
    let mut region = vec![0u8; 4 + 16 * 4];
    let mut map: ShmMap<Ticker, Price> = ShmMap::new(Memory::new(&mut region));
    map.clear();
    map.put(ticker(0x0100), Price(2)).unwrap();
    map.put(ticker(0x00FF), Price(1)).unwrap();
    let mut iter = map.iter();
    assert_eq!(iter.next(), Some((ticker(0x00FF), Price(1))));
    assert_eq!(iter.next(), Some((ticker(0x0100), Price(2))));
}

#[test]
fn full_map_rejects_a_new_key_and_still_updates() {
    let mut region = vec![0u8; 4 + 16 * 2];
    let mut map: ShmMap<Ticker, Price> = ShmMap::new(Memory::new(&mut region));
    map.clear();
    assert_eq!(map.put(ticker(1), Price(1)), Ok(()));
    assert_eq!(map.put(ticker(2), Price(2)), Ok(()));
    assert_eq!(map.put(ticker(3), Price(3)), Err(SetError::Full));
    assert_eq!(map.get(ticker(3)), None);
    assert_eq!(map.put(ticker(1), Price(11)), Ok(()));
    assert_eq!(map.get(ticker(1)), Some(Price(11)));
    assert_eq!(map.get(ticker(2)), Some(Price(2)));
}

#[test]
fn map_clear_forgets_every_key() {
    let mut region = vec![0u8; 4 + 16 * 2];
    let mut map: ShmMap<Ticker, Price> = ShmMap::new(Memory::new(&mut region));
    map.clear();
    map.put(ticker(1), Price(1)).unwrap();
    map.clear();
    assert_eq!(map.get(ticker(1)), None);
    assert_eq!(map.iter().next(), None);
}

#[test]
fn entry_is_key_bytes_then_value_bytes() {
    let entry = Entry {
        key: ticker(0x0102030405060708),
        value: Price(0x1112131415161718),
    };
    assert_eq!(<Entry<Ticker, Price> as Binary>::const_size(), 16);
    let mut buffer = vec![0u8; 16];
    entry.to_bytes(&mut buffer);
    assert_eq!(
        buffer,
        vec![8, 7, 6, 5, 4, 3, 2, 1, 0x18, 0x17, 0x16, 0x15, 0x14, 0x13, 0x12, 0x11]
    );
    let back = <Entry<Ticker, Price> as Binary>::from_bytes(&buffer);
    assert_eq!(back.key, ticker(0x0102030405060708));
    assert_eq!(back.value, Price(0x1112131415161718));
}

#[test]
fn entry_order_looks_at_the_key_only() {
    let mut low = vec![0u8; 16];
    let mut high = vec![0u8; 16];
    Entry { key: ticker(1), value: Price(900) }.to_bytes(&mut low);
    Entry { key: ticker(2), value: Price(5) }.to_bytes(&mut high);
    assert_eq!(<Entry<Ticker, Price> as BinaryCmp>::cmp(&low, &high), Ordering::Less);
    assert_eq!(<Entry<Ticker, Price> as BinaryCmp>::cmp(&high, &low), Ordering::Greater);
    let mut same = vec![0u8; 16];
    Entry { key: ticker(1), value: Price(0) }.to_bytes(&mut same);
    assert_eq!(<Entry<Ticker, Price> as BinaryCmp>::cmp(&low, &same), Ordering::Equal);
}

#[test]
fn key_probe_compares_against_the_key_prefix() {
    let probe = KeyCmp::new(ticker(50));
    let mut record = vec![0u8; 16];
    Entry { key: ticker(60), value: Price(1) }.to_bytes(&mut record);
    assert_eq!(probe.cmp(&record), Ordering::Less);
    Entry { key: ticker(40), value: Price(1) }.to_bytes(&mut record);
    assert_eq!(probe.cmp(&record), Ordering::Greater);
    Entry { key: ticker(50), value: Price(u64::MAX) }.to_bytes(&mut record);
    assert_eq!(probe.cmp(&record), Ordering::Equal);
}

#[test]
fn key_probe_finds_the_whole_entry_in_a_set() {
    let mut region = vec![0u8; 4 + 16 * 4];
    let mut set: SortedSet<Entry<Ticker, Price>> = SortedSet::new(Memory::new(&mut region));
    set.clear();
    set.add(Entry { key: ticker(9), value: Price(90) }).unwrap();
    set.add(Entry { key: ticker(7), value: Price(70) }).unwrap();
    let hit = set.find(KeyCmp::new(ticker(9))).unwrap();
    assert_eq!(hit.key, ticker(9));
    assert_eq!(hit.value, Price(90));
    assert!(set.find(KeyCmp::new(ticker(8))).is_none());
}

#[test]
fn map_takes_key_and_value_types_of_different_sizes() {
    let mut region = vec![0u8; 4 + 10 * 3];
    let mut map: ShmMap<Short, Price> = ShmMap::new(Memory::new(&mut region));
    map.clear();
    assert_eq!(map.put(Short(300), Price(3)), Ok(()));
    assert_eq!(map.put(Short(2), Price(2)), Ok(()));
    assert_eq!(map.put(Short(70), Price(7)), Ok(()));
    assert_eq!(map.put(Short(1), Price(1)), Err(SetError::Full));
    assert_eq!(map.get(Short(70)), Some(Price(7)));
    assert_eq!(map.get(Short(71)), None);
    let mut iter = map.iter();
    assert_eq!(iter.next(), Some((Short(2), Price(2))));
    assert_eq!(iter.next(), Some((Short(70), Price(7))));
    assert_eq!(iter.next(), Some((Short(300), Price(3))));
    assert_eq!(iter.next(), None);
}

#[test]
fn map_prints_its_entries_in_key_order() {
    let mut region = vec![0u8; 4 + 4 * 3];
    let mut map: ShmMap<Short, Short> = ShmMap::new(Memory::new(&mut region));
    map.clear();
    assert_eq!(map.to_text(), "[]");
    map.put(Short(20), Short(2)).unwrap();
    map.put(Short(10), Short(1)).unwrap();
    assert_eq!(map.to_text(), "[(10->1),(20->2),]");
}

#[test]
fn map_validity_is_that_of_its_entries() {
    let mut region = vec![0xAAu8; 4 + 16 * 2];
    let mut map: ShmMap<Ticker, Price> = ShmMap::new(Memory::new(&mut region));
    assert!(!map.check_layout());
    assert!(!map.is_valid());
    map.clear();
    assert!(map.check_layout());
    assert!(map.is_valid());
    map.put(ticker(2), Price(0)).unwrap();
    map.put(ticker(1), Price(0)).unwrap();
    assert!(map.is_valid());
}
