//! A fixed-capacity sorted key/value store laid out in one flat byte region.
//!
//! The region starts with a little-endian `u32` record count, followed by that
//! many fixed-size encoded records in strictly ascending order; what is left
//! of the region is room for more.  A set or a map is a view over such a
//! region and keeps nothing beside it, so every process that maps the same
//! region sees the same records.
//!
//! All operations assume exclusive access to the region for the duration of
//! a call.  Nothing here locks: processes that share a region arrange among
//! themselves that none writes while another reads or writes.
//!
//! * `shm`: the byte region.
//! * `layout`: where the count and the records lie in a region.
//! * `order`: ascending records, insertion boundaries, and the laws of
//!   insertion and search.
//! * `sorted_set`: the record contract and the sorted set.
//! * `map`: the keyed map over a sorted set of entries.
//! * `oracle`: a cache of prices by ticker, as an instance of the map.
//! * `text`: ASCII lowercasing and the text form of a list.
//! * `endian`, `hash`, `slices`: calls into `byteorder`, `twox-hash` and std,
//!   whose contracts are taken on trust.

mod endian;
pub mod hash;
pub mod layout;
pub mod map;
pub mod oracle;
pub mod order;
pub mod shm;
pub mod slices;
pub mod sorted_set;
pub mod text;
