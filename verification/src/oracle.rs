use crate::endian::{read_u64_le, write_u64_le};
use crate::hash::{xxhash64, xxhash64_of};
use crate::layout::{slot_count, with_count};
use crate::map::{lemma_entry_lawful, lemma_lookup_after_put, lookup, Entry, ShmMap};
use crate::order::{inserted, lawful, one_way, round_trips, splits, tied};
use crate::shm::Memory;
use crate::sorted_set::{Binary, BinaryCmp, SetError, LEN_SIZE};
use crate::text::lower_ascii;
use core::cmp::Ordering;
use vstd::bytes::{
    lemma_auto_spec_u64_to_from_le_bytes, spec_u64_from_le_bytes, spec_u64_to_le_bytes,
};
use vstd::prelude::*;
use vstd::string::StringSliceAdditionalSpecFns;

verus! {

/// Calculate string hash.
fn str_xxhash(val: &str) -> (digest: u64)
    ensures
        digest == xxhash64(val.spec_bytes()),
{
    xxhash64_of(val.as_bytes())
}

/// Currency pair ticker.
#[derive(Clone, Copy, Debug, Eq, Ord, PartialOrd, PartialEq)]
pub struct Ticker(u64);

impl Ticker {
    /// The identifier that stands for the ticker.
    pub closed spec fn id(&self) -> u64 {
        self.0
    }

    /// The ticker that the identifier stands for.
    pub closed spec fn of(id: u64) -> Ticker {
        Ticker(id)
    }

    /// A ticker is its identifier and nothing else.
    pub proof fn lemma_id(self)
        ensures
            Ticker::of(self.id()) == self,
            forall|id: u64| #[trigger] Ticker::of(id).id() == id,
    {
    }

    /// The identifier of a ticker name: the digest of its lowercase form.
    pub open spec fn id_of(name: Seq<char>) -> u64 {
        xxhash64(vstd::utf8::encode_utf8(lower_ascii(name)))
    }

    /// Create a ticker with string.
    pub fn new(ticker: &str) -> (made: Ticker)
        ensures
            made.id() == Ticker::id_of(ticker@),
    {
        let lowered = ticker.to_ascii_lowercase();
        Ticker::from_id(str_xxhash(lowered.as_str()))
    }

    /// Create a ticker with its identifier.
    pub fn from_id(id: u64) -> (made: Ticker)
        ensures
            made.id() == id,
            made == Ticker::of(id),
    {
        Ticker(id)
    }
}

/// Currency pair price.
#[derive(Clone, Copy, Debug, Eq, PartialEq)]
pub struct Price(pub u64);

impl Binary for Ticker {
    open spec fn byte_len() -> nat {
        8
    }

    open spec fn encode(&self) -> Seq<u8> {
        spec_u64_to_le_bytes(self.id())
    }

    open spec fn decode(bytes: Seq<u8>) -> Self {
        Ticker::of(spec_u64_from_le_bytes(bytes))
    }

    fn const_size() -> (size: u32) {
        8
    }

    fn to_bytes(&self, buffer: &mut [u8]) {
        proof {
            lemma_auto_spec_u64_to_from_le_bytes();
        }
        write_u64_le(buffer, self.0);
        assert(buffer@ =~= spec_u64_to_le_bytes(self.0));
    }

    fn from_bytes(buffer: &[u8]) -> (value: Self) {
        assert(buffer@.subrange(0, 8) =~= buffer@);
        Ticker(read_u64_le(buffer))
    }
}

impl BinaryCmp for Ticker {
    open spec fn precedes(left: Seq<u8>, right: Seq<u8>) -> bool {
        spec_u64_from_le_bytes(left) < spec_u64_from_le_bytes(right)
    }

    fn cmp(left: &[u8], right: &[u8]) -> (order: Ordering) {
        let left = Ticker::from_bytes(left);
        let right = Ticker::from_bytes(right);
        if left.0 < right.0 {
            Ordering::Less
        } else if left.0 > right.0 {
            Ordering::Greater
        } else {
            Ordering::Equal
        }
    }
}

impl Binary for Price {
    open spec fn byte_len() -> nat {
        8
    }

    open spec fn encode(&self) -> Seq<u8> {
        spec_u64_to_le_bytes(self.0)
    }

    open spec fn decode(bytes: Seq<u8>) -> Self {
        Price(spec_u64_from_le_bytes(bytes))
    }

    fn const_size() -> (size: u32) {
        8
    }

    fn to_bytes(&self, buffer: &mut [u8]) {
        proof {
            lemma_auto_spec_u64_to_from_le_bytes();
        }
        write_u64_le(buffer, self.0);
        assert(buffer@ =~= spec_u64_to_le_bytes(self.0));
    }

    fn from_bytes(buffer: &[u8]) -> (value: Self) {
        assert(buffer@.subrange(0, 8) =~= buffer@);
        Price(read_u64_le(buffer))
    }
}

/// Tickers keep to the record contract: eight bytes that decode to the
/// ticker, ordered as the identifiers are.
pub proof fn lemma_ticker_lawful()
    ensures
        lawful::<Ticker>(),
{
    lemma_auto_spec_u64_to_from_le_bytes();
    assert forall|ticker: Ticker| #![trigger ticker.encode()]
        ticker.encode().len() == Ticker::byte_len() && Ticker::decode(ticker.encode())
            == ticker by {
        ticker.lemma_id();
    }
    assert forall|left: Seq<u8>, right: Seq<u8>| #[trigger] one_way::<Ticker>(left, right) by {
    }
    assert forall|left: Seq<u8>, right: Seq<u8>, other: Seq<u8>| #[trigger] splits::<Ticker>(
        left,
        right,
        other,
    ) by {
    }
}

/// Prices round-trip through their eight bytes.
pub proof fn lemma_price_round_trips()
    ensures
        round_trips::<Price>(),
{
    lemma_auto_spec_u64_to_from_le_bytes();
}

/// Tickers compare equal exactly when their identifiers are equal.
pub proof fn lemma_ticker_tied(left: u64, right: u64)
    ensures
        tied::<Ticker>(spec_u64_to_le_bytes(left), spec_u64_to_le_bytes(right)) <==> left == right,
        spec_u64_to_le_bytes(left).len() == 8,
{
    lemma_auto_spec_u64_to_from_le_bytes();
}

/// Price oracle cache.
pub struct PriceOracleCache<'a> {
    cache: ShmMap<'a, Ticker, Price>,
}

impl<'a> PriceOracleCache<'a> {
    /// The map of tickers to prices that the cache is kept in.
    pub closed spec fn as_map(&self) -> ShmMap<'a, Ticker, Price> {
        self.cache
    }

    /// The bytes of the underlying region.
    pub open spec fn region(&self) -> Seq<u8> {
        self.as_map().region()
    }

    /// The region is well laid out and its pairs ascend strictly by ticker.
    pub open spec fn wf(&self) -> bool {
        self.as_map().wf()
    }

    /// The number of pairs in the cache.
    pub open spec fn count(&self) -> nat {
        self.as_map()@.len()
    }

    /// The number of pairs that the cache can hold.
    pub open spec fn capacity(&self) -> nat {
        self.as_map().as_set().capacity() as nat
    }

    /// The price that the cache holds for the ticker with this identifier.
    pub open spec fn price_of(&self, id: u64) -> Option<u64> {
        match lookup::<Ticker, Price>(self.as_map()@, spec_u64_to_le_bytes(id)) {
            Some(bytes) => Some(spec_u64_from_le_bytes(bytes)),
            None => None,
        }
    }

    /// The cache as a map from ticker identifiers to prices.
    pub open spec fn view(&self) -> Map<u64, u64> {
        Map::new(|id: u64| self.price_of(id) is Some, |id: u64| self.price_of(id).unwrap())
    }

    /// Returns memory layout size for the given oracle pairs count.
    pub fn calculate_memory_size(pair_count: usize) -> (size: usize)
        requires
            16 * pair_count + LEN_SIZE <= usize::MAX,
        ensures
            size == 16 * pair_count + LEN_SIZE,
            slot_count(size as nat, 16) == pair_count,
    {
        (Ticker::const_size() + Price::const_size()) as usize * pair_count + LEN_SIZE
    }

    /// Create a new shared memory map with given memory reference.
    pub fn new(memory: Memory<'a>) -> (oracle: PriceOracleCache<'a>)
        ensures
            oracle.region() == memory@,
    {
        PriceOracleCache { cache: ShmMap::new(memory) }
    }

    /// Whether the region is well formed: well laid out, with pairs that
    /// ascend strictly by ticker.
    pub fn is_valid(&self) -> (ok: bool)
        ensures
            ok == self.wf(),
    {
        proof {
            lemma_ticker_lawful();
        }
        self.cache.is_valid()
    }

    /// Put or update oracle ticker->price pair.
    ///
    /// A full cache takes no new ticker: nothing is written and
    /// `SetError::Full` comes back.
    pub fn put(&mut self, ticker: Ticker, price: Price) -> (outcome: Result<(), SetError>)
        requires
            old(self).wf(),
        ensures
            final(self).wf(),
            final(self).region().len() == old(self).region().len(),
            outcome is Err <==> old(self).count() >= old(self).capacity()
                && !old(self)@.contains_key(ticker.id()),
            outcome is Ok ==> final(self)@ == old(self)@.insert(ticker.id(), price.0),
            outcome is Ok ==> final(self).count() == if old(self)@.contains_key(ticker.id()) {
                old(self).count()
            } else {
                old(self).count() + 1
            },
            outcome is Err ==> final(self).region() == old(self).region() && final(self)@ == old(
                self,
            )@,
    {
        proof {
            let entries = self.as_map()@;
            lemma_ticker_lawful();
            lemma_price_round_trips();
            lemma_entry_lawful::<Ticker, Price>();
            crate::layout::lemma_records_uniform(self.region(), 16);
            lemma_auto_spec_u64_to_from_le_bytes();
            assert forall|id: u64|
                #[trigger] lookup::<Ticker, Price>(
                    inserted::<Entry<Ticker, Price>>(entries, ticker.encode() + price.encode()),
                    spec_u64_to_le_bytes(id),
                ) == if id == ticker.id() {
                    Some(price.encode())
                } else {
                    lookup::<Ticker, Price>(entries, spec_u64_to_le_bytes(id))
                } by {
                lemma_ticker_tied(id, ticker.id());
                lemma_lookup_after_put::<Ticker, Price>(
                    entries,
                    ticker.encode(),
                    price.encode(),
                    spec_u64_to_le_bytes(id),
                );
            }
        }
        let outcome = self.cache.put(ticker, price);
        proof {
            if outcome is Ok {
                assert forall|id: u64|
                    #[trigger] self.price_of(id) == if id == ticker.id() {
                        Some(price.0)
                    } else {
                        old(self).price_of(id)
                    } by {}
                assert(self@ =~= old(self)@.insert(ticker.id(), price.0));
            } else {
                assert(self@ =~= old(self)@);
            }
        }
        outcome
    }

    /// Return price by ticker.
    pub fn get(&self, ticker: Ticker) -> (price: Option<Price>)
        requires
            self.wf(),
        ensures
            price == if self@.contains_key(ticker.id()) {
                Some(Price(self@[ticker.id()]))
            } else {
                None
            },
    {
        proof {
            lemma_ticker_lawful();
        }
        self.cache.get(ticker)
    }

    /// Clear oracle cache.
    pub fn clear(&mut self)
        requires
            old(self).region().len() >= LEN_SIZE,
        ensures
            final(self).region() == with_count(old(self).region(), 0),
            final(self).region().len() == old(self).region().len(),
            final(self).wf(),
            final(self).count() == 0,
            final(self)@ == Map::<u64, u64>::empty(),
    {
        self.cache.clear();
        assert(self@ =~= Map::<u64, u64>::empty());
    }
}

} // verus!
