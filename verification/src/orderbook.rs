//! The order book engine: an ordered mapping from scaled price keys to
//! passive levels, with verified ingest and query operations.
//!
//! The book is stored as a vector of levels sorted by strictly
//! increasing price. Its logical value is the map from price keys to
//! levels (`as_map`); every mutating operation states how it changes
//! that map, and every query what it computes from it.

use vstd::prelude::*;

use vstd::pervasive::VecAdditionalExecFns;

use vstd::string::StrSliceExecFns;
use vstd::string::StringExecFns;

use crate::types::{
    BandSum, DepthError, DepthMetrics, DepthUpdate, HealthDetails, OrderBookConfig,
    OrderBookHealth, PassiveLevel, RBNode,
};
use crate::zones::spec_normalize_tick;
use crate::{FinancialError, FinancialResult};

verus! {

/// The levels are sorted by strictly increasing price, and no level has
/// both sides strictly positive.
pub open spec fn levels_wf(ls: Seq<PassiveLevel>) -> bool {
    &&& (forall|p: int, q: int| 0 <= p < q < ls.len() ==> ls[p].price < ls[q].price)
    &&& (forall|i: int| 0 <= i < ls.len() ==> !((#[trigger] ls[i]).bid > 0 && ls[i].ask > 0))
}

/// Every level has at least one strictly positive side. Depth ingest
/// maintains this; `set` with a zero quantity is the one operation that
/// can leave a dead level behind.
pub open spec fn levels_live(ls: Seq<PassiveLevel>) -> bool {
    forall|i: int| 0 <= i < ls.len() ==> (#[trigger] ls[i]).bid > 0 || ls[i].ask > 0
}

/// The map from price keys to levels that the sorted vector encodes.
pub open spec fn as_map(ls: Seq<PassiveLevel>) -> Map<u128, PassiveLevel>
    decreases ls.len(),
{
    if ls.len() == 0 {
        Map::empty()
    } else {
        as_map(ls.drop_last()).insert(ls.last().price, ls.last())
    }
}

/// Membership in the map is occurrence in the vector.
pub proof fn lemma_as_map_contains(ls: Seq<PassiveLevel>, key: u128)
    ensures
        as_map(ls).contains_key(key) <==> exists|i: int| 0 <= i < ls.len() && ls[i].price == key,
    decreases ls.len(),
{
    if ls.len() > 0 {
        lemma_as_map_contains(ls.drop_last(), key);
        if as_map(ls).contains_key(key) && ls.last().price != key {
            let i = choose|i: int|
                0 <= i < ls.drop_last().len() && ls.drop_last()[i].price == key;
            assert(ls[i].price == key);
        }
        if exists|i: int| 0 <= i < ls.len() && ls[i].price == key {
            let i = choose|i: int| 0 <= i < ls.len() && ls[i].price == key;
            if i < ls.len() - 1 {
                assert(ls.drop_last()[i].price == key);
            }
        }
    }
}

/// With distinct prices, each vector entry is the map entry of its key.
pub proof fn lemma_as_map_index(ls: Seq<PassiveLevel>, i: int)
    requires
        forall|p: int, q: int| 0 <= p < q < ls.len() ==> ls[p].price < ls[q].price,
        0 <= i < ls.len(),
    ensures
        as_map(ls).contains_key(ls[i].price),
        as_map(ls)[ls[i].price] == ls[i],
    decreases ls.len(),
{
    if i < ls.len() - 1 {
        lemma_as_map_index(ls.drop_last(), i);
        assert(ls.drop_last()[i] == ls[i]);
        assert(ls[i].price < ls.last().price);
    }
}

/// Updating the entry at position `i` updates the map at its key.
proof fn lemma_as_map_update(ls: Seq<PassiveLevel>, i: int, lvl: PassiveLevel)
    requires
        forall|p: int, q: int| 0 <= p < q < ls.len() ==> ls[p].price < ls[q].price,
        0 <= i < ls.len(),
        lvl.price == ls[i].price,
    ensures
        as_map(ls.update(i, lvl)) =~= as_map(ls).insert(lvl.price, lvl),
    decreases ls.len(),
{
    let upd = ls.update(i, lvl);
    if i == ls.len() - 1 {
        assert(upd.drop_last() =~= ls.drop_last());
        assert(upd.last() == lvl);
    } else {
        lemma_as_map_update(ls.drop_last(), i, lvl);
        assert(upd.drop_last() =~= ls.drop_last().update(i, lvl));
        assert(upd.last() == ls.last());
        assert(lvl.price != ls.last().price) by {
            assert(ls[i].price < ls.last().price);
        }
        assert(as_map(ls.drop_last()).insert(lvl.price, lvl).insert(ls.last().price, ls.last())
            =~= as_map(ls.drop_last()).insert(ls.last().price, ls.last()).insert(
            lvl.price,
            lvl,
        ));
    }
}

/// Inserting a level with a fresh key at position `i` inserts it into
/// the map.
proof fn lemma_as_map_insert(ls: Seq<PassiveLevel>, i: int, lvl: PassiveLevel)
    requires
        forall|p: int, q: int| 0 <= p < q < ls.len() ==> ls[p].price < ls[q].price,
        0 <= i <= ls.len(),
        forall|j: int| 0 <= j < ls.len() ==> ls[j].price != lvl.price,
    ensures
        as_map(ls.insert(i, lvl)) =~= as_map(ls).insert(lvl.price, lvl),
    decreases ls.len(),
{
    let upd = ls.insert(i, lvl);
    if i == ls.len() {
        assert(upd.drop_last() =~= ls);
        assert(upd.last() == lvl);
    } else {
        lemma_as_map_insert(ls.drop_last(), i, lvl);
        assert(upd.drop_last() =~= ls.drop_last().insert(i, lvl));
        assert(upd.last() == ls.last());
        assert(lvl.price != ls.last().price);
        assert(as_map(ls.drop_last()).insert(lvl.price, lvl).insert(ls.last().price, ls.last())
            =~= as_map(ls.drop_last()).insert(ls.last().price, ls.last()).insert(
            lvl.price,
            lvl,
        ));
    }
}

/// Removing the entry at position `i` removes its key from the map.
proof fn lemma_as_map_remove(ls: Seq<PassiveLevel>, i: int)
    requires
        forall|p: int, q: int| 0 <= p < q < ls.len() ==> ls[p].price < ls[q].price,
        0 <= i < ls.len(),
    ensures
        as_map(ls.remove(i)) =~= as_map(ls).remove(ls[i].price),
    decreases ls.len(),
{
    let upd = ls.remove(i);
    if i == ls.len() - 1 {
        assert(upd =~= ls.drop_last());
        lemma_as_map_contains(ls.drop_last(), ls[i].price);
        assert forall|j: int| 0 <= j < ls.drop_last().len() implies ls.drop_last()[j].price
            != ls[i].price by {
            assert(ls[j].price < ls[i].price);
        }
        assert(!as_map(ls.drop_last()).contains_key(ls[i].price));
        assert(as_map(ls.drop_last()).insert(ls[i].price, ls[i]).remove(ls[i].price) =~= as_map(
            ls.drop_last(),
        ).remove(ls[i].price));
        assert(as_map(ls.drop_last()).remove(ls[i].price) =~= as_map(ls.drop_last()));
    } else {
        lemma_as_map_remove(ls.drop_last(), i);
        assert(upd.drop_last() =~= ls.drop_last().remove(i));
        assert(upd.last() == ls.last());
        assert(ls[i].price != ls.last().price) by {
            assert(ls[i].price < ls.last().price);
        }
        assert(as_map(ls.drop_last()).remove(ls[i].price).insert(ls.last().price, ls.last())
            =~= as_map(ls.drop_last()).insert(ls.last().price, ls.last()).remove(ls[i].price));
    }
}

/// A limit order book for one symbol: the sorted levels, the
/// configuration, and the circuit-breaker state.
pub struct OrderBook {
    /// The stored levels, sorted by ascending price.
    pub levels: Vec<PassiveLevel>,
    /// The book's configuration.
    pub config: OrderBookConfig,
    /// Time of the most recent accepted update, in milliseconds.
    pub last_update: u64,
    /// Rejected updates in the current window; the counting policy is
    /// the caller's.
    pub error_count: usize,
    /// Whether ingest is currently suppressed.
    pub circuit_open: bool,
    /// When the open circuit closes again.
    pub circuit_open_until: Option<u64>,
}

impl View for OrderBook {
    type V = Seq<PassiveLevel>;

    /// The sequence of stored levels, in ascending price order.
    open spec fn view(&self) -> Seq<PassiveLevel> {
        self.levels@
    }
}

impl OrderBook {
    /// The logical content: the map from price keys to levels.
    pub open spec fn map(&self) -> Map<u128, PassiveLevel> {
        as_map(self.levels@)
    }

    /// The book's configuration.
    pub open spec fn spec_config(&self) -> OrderBookConfig {
        self.config
    }

    /// Time of the last accepted update.
    pub open spec fn spec_last_update(&self) -> u64 {
        self.last_update
    }

    /// The circuit-breaker state.
    pub open spec fn spec_circuit_open(&self) -> bool {
        self.circuit_open
    }

    /// The circuit-breaker deadline.
    pub open spec fn spec_circuit_open_until(&self) -> Option<u64> {
        self.circuit_open_until
    }

    /// Count of rejected updates in the current window.
    pub open spec fn spec_error_count(&self) -> usize {
        self.error_count
    }

    /// Well-formedness: sorted distinct prices, per-level exclusivity,
    /// and a positive tick.
    pub open spec fn wf(&self) -> bool {
        &&& levels_wf(self.levels@)
        &&& self.config.tick_size > 0
    }

    /// Construct an empty book with the given price precision and tick
    /// size (a scaled price, which must be positive); everything else
    /// takes the default configuration. The last-update clock starts at
    /// `now_ms`.
    pub fn new_at(price_precision: u32, tick_size: u128, now_ms: u64) -> (r: Self)
        requires
            tick_size > 0,
        ensures
            r.wf(),
            r@ =~= Seq::<PassiveLevel>::empty(),
            r.map() =~= Map::<u128, PassiveLevel>::empty(),
            r.spec_config().price_precision == price_precision,
            r.spec_config().tick_size == tick_size,
            r.spec_config().max_levels == 1000,
            r.spec_config().max_error_rate == 10,
            r.spec_config().stale_threshold_ms == 300_000,
            r.spec_last_update() == now_ms,
            !r.spec_circuit_open(),
            r.spec_circuit_open_until() is None,
            r.spec_error_count() == 0,
    {
        let mut config = OrderBookConfig::default();
        config.price_precision = price_precision;
        config.tick_size = tick_size;
        OrderBook {
            levels: Vec::new(),
            config,
            last_update: now_ms,
            error_count: 0,
            circuit_open: false,
            circuit_open_until: None,
        }
    }

    /// Construct an empty book, reading the clock for the last-update
    /// time.
    pub fn new(price_precision: u32, tick_size: u128) -> (r: Self)
        requires
            tick_size > 0,
        ensures
            r.wf(),
            r@ =~= Seq::<PassiveLevel>::empty(),
            r.map() =~= Map::<u128, PassiveLevel>::empty(),
            r.spec_config().price_precision == price_precision,
            r.spec_config().tick_size == tick_size,
            r.spec_config().max_levels == 1000,
            r.spec_config().max_error_rate == 10,
            r.spec_config().stale_threshold_ms == 300_000,
            !r.spec_circuit_open(),
            r.spec_circuit_open_until() is None,
            r.spec_error_count() == 0,
    {
        let now = now_millis();
        Self::new_at(price_precision, tick_size, now)
    }

    /// Normalize a price to the book's tick grid; `None` when the
    /// rounded value would not fit a `u128`.
    pub fn try_normalize(&self, price: u128) -> (r: Option<u128>)
        requires
            self.wf(),
        ensures
            r is Some <==> spec_normalize_tick(price, self.spec_config().tick_size as nat)
                <= u128::MAX,
            r is Some ==> r->0 == spec_normalize_tick(
                price,
                self.spec_config().tick_size as nat,
            ),
    {
        let tick = self.config.tick_size;
        let remainder = price % tick;
        proof {
            assert(remainder <= price) by (nonlinear_arith)
                requires
                    tick > 0,
                    remainder == price % tick,
            ;
        }
        if remainder == 0 {
            return Some(price);
        }
        let base = price - remainder;
        let half = tick / 2;
        let round_up = if remainder > half {
            true
        } else if remainder == half {
            (base / tick) % 2 == 1
        } else {
            false
        };
        if round_up {
            if base <= u128::MAX - tick {
                Some(base + tick)
            } else {
                None
            }
        } else {
            Some(base)
        }
    }

    /// The position of the first level with price at or above `key`.
    fn locate(&self, key: u128) -> (r: usize)
        requires
            self.wf(),
        ensures
            r <= self@.len(),
            forall|j: int| 0 <= j < r ==> (#[trigger] self@[j]).price < key,
            r < self@.len() ==> self@[r as int].price >= key,
    {
        let mut i: usize = 0;
        while i < self.levels.len() && self.levels[i].price < key
            invariant
                i <= self@.len(),
                forall|j: int| 0 <= j < i ==> (#[trigger] self@[j]).price < key,
            decreases self@.len() - i,
        {
            i = i + 1;
        }
        i
    }


    /// The level an update writes: quantities and timestamp are
    /// overwritten; diagnostics carry over from the previous level,
    /// with `added_bid`/`added_ask` refreshed for nonzero quantities.
    pub open spec fn spec_updated_level(
        prev: Option<PassiveLevel>,
        nk: u128,
        bid_qty: u128,
        ask_qty: u128,
        t: u64,
    ) -> PassiveLevel {
        let base = match prev {
            Some(l) => l,
            None => PassiveLevel {
                price: nk,
                bid: 0,
                ask: 0,
                timestamp: t,
                consumed_ask: None,
                consumed_bid: None,
                added_ask: None,
                added_bid: None,
            },
        };
        PassiveLevel {
            price: nk,
            bid: bid_qty,
            ask: ask_qty,
            timestamp: t,
            consumed_ask: base.consumed_ask,
            consumed_bid: base.consumed_bid,
            added_ask: if ask_qty != 0 {
                Some(ask_qty)
            } else {
                base.added_ask
            },
            added_bid: if bid_qty != 0 {
                Some(bid_qty)
            } else {
                base.added_bid
            },
        }
    }

    /// The previous level at a key, if any.
    pub open spec fn spec_prev(m: Map<u128, PassiveLevel>, nk: u128) -> Option<PassiveLevel> {
        if m.contains_key(nk) {
            Some(m[nk])
        } else {
            None
        }
    }

    /// Write one price level: the price is normalized to the tick grid;
    /// both quantities zero removes the level, anything else overwrites
    /// it. A price whose normalization exceeds the `u128` range is
    /// rejected with `Overflow` and leaves the book unchanged.
    #[verifier::rlimit(50)]
    pub fn update_level(
        &mut self,
        price: u128,
        bid_qty: u128,
        ask_qty: u128,
        timestamp: u64,
    ) -> (r: FinancialResult<()>)
        requires
            old(self).wf(),
            bid_qty == 0 || ask_qty == 0,
        ensures
            final(self).wf(),
            final(self).spec_config() == old(self).spec_config(),
            final(self).spec_last_update() == old(self).spec_last_update(),
            final(self).spec_circuit_open() == old(self).spec_circuit_open(),
            final(self).spec_circuit_open_until() == old(self).spec_circuit_open_until(),
            final(self).spec_error_count() == old(self).spec_error_count(),
            levels_live(old(self)@) ==> levels_live(final(self)@),
            ({
                let norm = spec_normalize_tick(price, old(self).spec_config().tick_size as nat);
                if norm > u128::MAX {
                    &&& r == FinancialResult::<()>::Err(FinancialError::Overflow)
                    &&& final(self)@ == old(self)@
                } else {
                    let nk = norm as u128;
                    &&& r == FinancialResult::<()>::Ok(())
                    &&& if bid_qty == 0 && ask_qty == 0 {
                        final(self).map() =~= old(self).map().remove(nk)
                    } else {
                        final(self).map() =~= old(self).map().insert(
                            nk,
                            Self::spec_updated_level(
                                Self::spec_prev(old(self).map(), nk),
                                nk,
                                bid_qty,
                                ask_qty,
                                timestamp,
                            ),
                        )
                    }
                }
            }),
    {
        let nk = match self.try_normalize(price) {
            Some(v) => v,
            None => {
                return Err(FinancialError::Overflow);
            },
        };

        let ghost ls = self.levels@;
        let pos = self.locate(nk);
        let found = pos < self.levels.len() && self.levels[pos].price == nk;

        proof {
            if found {
                lemma_as_map_index(ls, pos as int);
            } else {
                lemma_as_map_contains(ls, nk);
                assert forall|j: int| 0 <= j < ls.len() implies (#[trigger] ls[j]).price != nk by {
                    if j >= pos {
                        assert(ls[pos as int].price <= ls[j].price);
                    }
                }
            }
        }

        if bid_qty == 0 && ask_qty == 0 {
            if found {
                self.levels.remove(pos);
                proof {
                    lemma_as_map_remove(ls, pos as int);
                    assert(levels_wf(self.levels@));
                }
            } else {
                proof {
                    assert(!old(self).map().contains_key(nk));
                    assert(final(self).map() =~= old(self).map().remove(nk));
                }
            }
        } else {
            if found {
                let prev = self.levels[pos];
                let lvl = PassiveLevel {
                    price: nk,
                    bid: bid_qty,
                    ask: ask_qty,
                    timestamp,
                    consumed_ask: prev.consumed_ask,
                    consumed_bid: prev.consumed_bid,
                    added_ask: if ask_qty != 0 {
                        Some(ask_qty)
                    } else {
                        prev.added_ask
                    },
                    added_bid: if bid_qty != 0 {
                        Some(bid_qty)
                    } else {
                        prev.added_bid
                    },
                };
                self.levels.set(pos, lvl);
                proof {
                    lemma_as_map_update(ls, pos as int, lvl);
                    assert(levels_wf(self.levels@));
                }
            } else {
                let lvl = PassiveLevel {
                    price: nk,
                    bid: bid_qty,
                    ask: ask_qty,
                    timestamp,
                    consumed_ask: None,
                    consumed_bid: None,
                    added_ask: if ask_qty != 0 {
                        Some(ask_qty)
                    } else {
                        None
                    },
                    added_bid: if bid_qty != 0 {
                        Some(bid_qty)
                    } else {
                        None
                    },
                };
                self.levels.insert(pos, lvl);
                proof {
                    lemma_as_map_insert(ls, pos as int, lvl);
                    let nls = self.levels@;
                    assert forall|p: int, q: int| 0 <= p < q < nls.len() implies nls[p].price
                        < nls[q].price by {
                        if q < pos {
                        } else if p < pos && q == pos {
                            assert(nls[p] == ls[p]);
                        } else if p < pos {
                            assert(nls[q] == ls[q - 1]);
                        } else if p == pos {
                            assert(nls[q] == ls[q - 1]);
                            assert(ls[pos as int].price <= ls[q - 1].price);
                        } else {
                            assert(nls[p] == ls[p - 1] && nls[q] == ls[q - 1]);
                        }
                    }
                    assert(levels_wf(nls));
                }
            }
        }
        Ok(())
    }

    /// Remove the level at the normalized price key; absent keys are a
    /// no-op. The price's normalization must fit the `u128` range.
    pub fn delete(&mut self, price: u128)
        requires
            old(self).wf(),
            spec_normalize_tick(price, old(self).spec_config().tick_size as nat) <= u128::MAX,
        ensures
            final(self).wf(),
            final(self).spec_config() == old(self).spec_config(),
            final(self).spec_last_update() == old(self).spec_last_update(),
            final(self).spec_circuit_open() == old(self).spec_circuit_open(),
            final(self).spec_circuit_open_until() == old(self).spec_circuit_open_until(),
            final(self).spec_error_count() == old(self).spec_error_count(),
            levels_live(old(self)@) ==> levels_live(final(self)@),
            final(self).map() =~= old(self).map().remove(
                spec_normalize_tick(price, old(self).spec_config().tick_size as nat) as u128,
            ),
    {
        let nk = match self.try_normalize(price) {
            Some(v) => v,
            None => {
                proof {
                    assert(false);
                }
                return ;
            },
        };
        let ghost ls = self.levels@;
        let pos = self.locate(nk);
        if pos < self.levels.len() && self.levels[pos].price == nk {
            self.levels.remove(pos);
            proof {
                lemma_as_map_remove(ls, pos as int);
                assert(levels_wf(self.levels@));
            }
        } else {
            proof {
                lemma_as_map_contains(ls, nk);
                assert forall|j: int| 0 <= j < ls.len() implies (#[trigger] ls[j]).price != nk by {
                    if j >= pos {
                        assert(ls[pos as int].price <= ls[j].price);
                    }
                }
                assert(final(self).map() =~= old(self).map().remove(nk));
            }
        }
    }

    /// The level at the normalized price key, if any.
    pub fn get_level(&self, price: u128) -> (r: Option<&PassiveLevel>)
        requires
            self.wf(),
            spec_normalize_tick(price, self.spec_config().tick_size as nat) <= u128::MAX,
        ensures
            ({
                let nk = spec_normalize_tick(price, self.spec_config().tick_size as nat) as u128;
                &&& (r is Some <==> self.map().contains_key(nk))
                &&& (r is Some ==> *r->0 == self.map()[nk])
            }),
    {
        let nk = match self.try_normalize(price) {
            Some(v) => v,
            None => {
                proof {
                    assert(false);
                }
                return None;
            },
        };
        let ghost ls = self.levels@;
        let pos = self.locate(nk);
        proof {
            lemma_as_map_contains(ls, nk);
            if pos < ls.len() && ls[pos as int].price == nk {
                lemma_as_map_index(ls, pos as int);
            } else {
                assert forall|j: int| 0 <= j < ls.len() implies (#[trigger] ls[j]).price != nk by {
                    if j >= pos {
                        assert(ls[pos as int].price <= ls[j].price);
                    }
                }
            }
        }
        if pos < self.levels.len() && self.levels[pos].price == nk {
            Some(&self.levels[pos])
        } else {
            None
        }
    }

    /// A copy of the level at the normalized price key, if any.
    pub fn get(&self, price: u128) -> (r: Option<PassiveLevel>)
        requires
            self.wf(),
            spec_normalize_tick(price, self.spec_config().tick_size as nat) <= u128::MAX,
        ensures
            ({
                let nk = spec_normalize_tick(price, self.spec_config().tick_size as nat) as u128;
                &&& (r is Some <==> self.map().contains_key(nk))
                &&& (r is Some ==> r->0 == self.map()[nk])
            }),
    {
        match self.get_level(price) {
            Some(l) => Some(*l),
            None => None,
        }
    }

    /// The level at the normalized price key together with that key.
    pub fn search(&self, price: u128) -> (r: Option<RBNode>)
        requires
            self.wf(),
            spec_normalize_tick(price, self.spec_config().tick_size as nat) <= u128::MAX,
        ensures
            ({
                let nk = spec_normalize_tick(price, self.spec_config().tick_size as nat) as u128;
                &&& (r is Some <==> self.map().contains_key(nk))
                &&& (r is Some ==> r->0.price == nk && r->0.level == self.map()[nk])
            }),
    {
        let nk = match self.try_normalize(price) {
            Some(v) => v,
            None => {
                proof {
                    assert(false);
                }
                return None;
            },
        };
        match self.get_level(price) {
            Some(l) => Some(RBNode { price: nk, level: *l }),
            None => None,
        }
    }

    /// Every stored level with its price key, in ascending price order.
    pub fn get_all_nodes(&self) -> (r: Vec<RBNode>)
        ensures
            r@.len() == self@.len(),
            forall|i: int|
                0 <= i < r@.len() ==> (#[trigger] r@[i]).price == self@[i].price && r@[i].level
                    == self@[i],
    {
        let mut out: Vec<RBNode> = Vec::new();
        let mut i: usize = 0;
        while i < self.levels.len()
            invariant
                i <= self@.len(),
                out@.len() == i,
                forall|j: int|
                    0 <= j < i ==> (#[trigger] out@[j]).price == self@[j].price && out@[j].level
                        == self@[j],
            decreases self@.len() - i,
        {
            let lvl = self.levels[i];
            out.push(RBNode { price: lvl.price, level: lvl });
            i = i + 1;
        }
        out
    }


    /// The price of the highest level with a positive bid, or zero when
    /// the book has no bids.
    pub fn get_best_bid(&self) -> (r: u128)
        ensures
            r == spec_best_bid(self@),
    {
        let ghost ls = self@;
        let mut i: usize = self.levels.len();
        proof {
            assert(ls.subrange(0, ls.len() as int) =~= ls);
        }
        while i > 0
            invariant
                i <= ls.len(),
                ls == self@,
                spec_best_bid(ls) == spec_best_bid(ls.subrange(0, i as int)),
            decreases i,
        {
            proof {
                assert(ls.subrange(0, i as int).last() == ls[i - 1]);
                assert(ls.subrange(0, i as int).drop_last() =~= ls.subrange(0, i - 1));
            }
            if self.levels[i - 1].bid > 0 {
                return self.levels[i - 1].price;
            }
            i = i - 1;
        }
        proof {
            assert(ls.subrange(0, 0) =~= Seq::<PassiveLevel>::empty());
        }
        0
    }

    /// The price of the lowest level with a positive ask, or `None`
    /// when the book has no asks.
    pub fn get_best_ask(&self) -> (r: Option<u128>)
        ensures
            r == spec_best_ask(self@),
    {
        let ghost ls = self@;
        let n = self.levels.len();
        let mut i: usize = 0;
        proof {
            assert(ls.skip(0) =~= ls);
        }
        while i < n
            invariant
                i <= n,
                n == ls.len(),
                ls == self@,
                spec_best_ask(ls) == spec_best_ask(ls.skip(i as int)),
            decreases n - i,
        {
            proof {
                assert(ls.skip(i as int)[0] == ls[i as int]);
                assert(ls.skip(i as int).drop_first() =~= ls.skip(i + 1));
            }
            if self.levels[i].ask > 0 {
                return Some(self.levels[i].price);
            }
            i = i + 1;
        }
        proof {
            assert(ls.skip(n as int) =~= Seq::<PassiveLevel>::empty());
        }
        None
    }

    /// Best bid and best ask in one call.
    pub fn get_best_bid_ask(&self) -> (r: (u128, Option<u128>))
        ensures
            r.0 == spec_best_bid(self@),
            r.1 == spec_best_ask(self@),
    {
        (self.get_best_bid(), self.get_best_ask())
    }

    /// The spread between best ask and best bid; zero when either side
    /// is missing, never negative.
    pub fn get_spread(&self) -> (r: u128)
        ensures
            r == spec_spread(self@),
    {
        let best_bid = self.get_best_bid();
        let best_ask = self.get_best_ask();
        match best_ask {
            None => 0,
            Some(a) => {
                if best_bid == 0 {
                    0
                } else {
                    crate::arithmetic::calculate_spread(a, best_bid)
                }
            },
        }
    }

    /// The mid price between best bid and best ask, rounded down; zero
    /// when either side is missing.
    pub fn get_mid_price(&self) -> (r: u128)
        ensures
            r == spec_mid_price(self@),
    {
        let best_bid = self.get_best_bid();
        let best_ask = self.get_best_ask();
        match best_ask {
            None => 0,
            Some(a) => {
                if best_bid == 0 {
                    0
                } else if a >= best_bid {
                    crate::arithmetic::calculate_mid_price(best_bid, a)
                } else {
                    crate::arithmetic::calculate_mid_price(a, best_bid)
                }
            },
        }
    }


    /// The bid and ask volume within `band_ticks` ticks of `center`:
    /// an inclusive range scan over `[center - band, center + band]`
    /// with `band = tick_size * band_ticks`, all bounds clamped to the
    /// `u128` range. Sums are clamped too; the level count is exact.
    pub fn sum_band(&self, center: u128, band_ticks: u32, tick_size: u128) -> (r: BandSum)
        ensures
            ({
                let band = spec_cap(tick_size * band_ticks);
                let lo = if center >= band {
                    (center - band) as u128
                } else {
                    0u128
                };
                let hi = spec_cap(center + band);
                &&& r.bid == spec_cap(spec_band_bid(self@, lo, hi))
                &&& r.ask == spec_cap(spec_band_ask(self@, lo, hi))
                &&& r.levels == spec_band_count(self@, lo, hi)
            }),
    {
        let band = match tick_size.checked_mul(band_ticks as u128) {
            Some(b) => b,
            None => u128::MAX,
        };
        let lo = center.saturating_sub(band);
        let hi = center.saturating_add(band);

        let ghost ls = self@;
        let mut sum_bid: u128 = 0;
        let mut sum_ask: u128 = 0;
        let mut count: usize = 0;
        let mut i: usize = 0;
        proof {
            assert(ls.subrange(0, 0) =~= Seq::<PassiveLevel>::empty());
        }
        while i < self.levels.len()
            invariant
                i <= ls.len(),
                ls == self@,
                count <= i,
                sum_bid == spec_cap(spec_band_bid(ls.subrange(0, i as int), lo, hi)),
                sum_ask == spec_cap(spec_band_ask(ls.subrange(0, i as int), lo, hi)),
                count == spec_band_count(ls.subrange(0, i as int), lo, hi),
            decreases ls.len() - i,
        {
            proof {
                assert(ls.subrange(0, i + 1).drop_last() =~= ls.subrange(0, i as int));
                assert(ls.subrange(0, i + 1).last() == ls[i as int]);
                lemma_band_sums_nonneg(ls.subrange(0, i as int), lo, hi);
            }
            let lvl = self.levels[i];
            if lvl.price >= lo && lvl.price <= hi {
                sum_bid = sum_bid.saturating_add(lvl.bid);
                sum_ask = sum_ask.saturating_add(lvl.ask);
                count = count + 1;
            }
            i = i + 1;
        }
        proof {
            assert(ls.subrange(0, ls.len() as int) =~= ls);
        }
        BandSum { bid: sum_bid, ask: sum_ask, levels: count }
    }

    /// One pass over the book: level counts per side, clamped volume
    /// sums, and the signed volume imbalance.
    pub fn get_depth_metrics(&self) -> (r: DepthMetrics)
        ensures
            r.total_levels == self@.len(),
            r.bid_levels == spec_bid_count(self@),
            r.ask_levels == spec_ask_count(self@),
            r.total_bid_volume == spec_cap(spec_bid_volume(self@)),
            r.total_ask_volume == spec_cap(spec_ask_volume(self@)),
            r.imbalance == spec_imbalance(r.total_bid_volume, r.total_ask_volume),
    {
        let ghost ls = self@;
        let mut bid_levels: usize = 0;
        let mut ask_levels: usize = 0;
        let mut total_bid: u128 = 0;
        let mut total_ask: u128 = 0;
        let mut i: usize = 0;
        proof {
            assert(ls.subrange(0, 0) =~= Seq::<PassiveLevel>::empty());
        }
        while i < self.levels.len()
            invariant
                i <= ls.len(),
                ls == self@,
                bid_levels <= i,
                ask_levels <= i,
                bid_levels == spec_bid_count(ls.subrange(0, i as int)),
                ask_levels == spec_ask_count(ls.subrange(0, i as int)),
                total_bid == spec_cap(spec_bid_volume(ls.subrange(0, i as int))),
                total_ask == spec_cap(spec_ask_volume(ls.subrange(0, i as int))),
            decreases ls.len() - i,
        {
            proof {
                assert(ls.subrange(0, i + 1).drop_last() =~= ls.subrange(0, i as int));
                assert(ls.subrange(0, i + 1).last() == ls[i as int]);
                lemma_volumes_nonneg(ls.subrange(0, i as int));
            }
            let lvl = self.levels[i];
            if lvl.bid > 0 {
                bid_levels = bid_levels + 1;
                total_bid = total_bid.saturating_add(lvl.bid);
            }
            if lvl.ask > 0 {
                ask_levels = ask_levels + 1;
                total_ask = total_ask.saturating_add(lvl.ask);
            }
            i = i + 1;
        }
        proof {
            assert(ls.subrange(0, ls.len() as int) =~= ls);
        }

        let imbalance = imbalance_scaled(total_bid, total_ask);

        DepthMetrics {
            total_levels: self.levels.len(),
            bid_levels,
            ask_levels,
            total_bid_volume: total_bid,
            total_ask_volume: total_ask,
            imbalance,
        }
    }


    /// Open the circuit breaker until the given deadline: ingest is
    /// suppressed until then. The policy that decides to open it is the
    /// supervisor's; the book only records it.
    pub fn open_circuit(&mut self, until_ms: u64)
        ensures
            final(self).circuit_open,
            final(self).spec_circuit_open_until() == Some(until_ms),
            final(self)@ == old(self)@,
            final(self).spec_config() == old(self).spec_config(),
            final(self).spec_last_update() == old(self).spec_last_update(),
            final(self).spec_error_count() == old(self).spec_error_count(),
    {
        self.circuit_open = true;
        self.circuit_open_until = Some(until_ms);
    }

    /// The health report at time `now`: status, freshness, sizes,
    /// volumes, stale-level count and a rough memory estimate.
    pub fn get_health_at(&self, now: u64) -> (r: OrderBookHealth)
        ensures
            spec_health_report(*self, r, now),
    {
        let age = now.saturating_sub(self.last_update);
        let metrics = self.get_depth_metrics();

        let ghost ls = self@;
        let threshold = self.config.stale_threshold_ms;
        let mut stale_levels: usize = 0;
        let mut i: usize = 0;
        proof {
            assert(ls.subrange(0, 0) =~= Seq::<PassiveLevel>::empty());
        }
        while i < self.levels.len()
            invariant
                i <= ls.len(),
                ls == self@,
                stale_levels <= i,
                stale_levels == spec_stale_count(ls.subrange(0, i as int), now, threshold),
            decreases ls.len() - i,
        {
            proof {
                assert(ls.subrange(0, i + 1).drop_last() =~= ls.subrange(0, i as int));
                assert(ls.subrange(0, i + 1).last() == ls[i as int]);
            }
            if now.saturating_sub(self.levels[i].timestamp) > threshold {
                stale_levels = stale_levels + 1;
            }
            i = i + 1;
        }
        proof {
            assert(ls.subrange(0, ls.len() as int) =~= ls);
        }

        let status = if self.circuit_open || age > 10000 {
            String::from_str("unhealthy")
        } else if self.error_count > self.config.max_error_rate / 2 {
            String::from_str("degraded")
        } else if age > 5000 || stale_levels > self.levels.len() / 10 {
            String::from_str("degraded")
        } else {
            String::from_str("healthy")
        };

        let n = self.levels.len();
        proof {
            assert((n as int) * 200 / 1048576 <= n as int) by (nonlinear_arith)
                requires
                    n >= 0,
            ;
        }
        let memory_usage_mb: u64 = ((n as u128) * 200 / 1048576) as u64;

        OrderBookHealth {
            status,
            initialized: self.levels.len() > 0,
            last_update_ms: age,
            circuit_breaker_open: self.circuit_open,
            error_rate: self.error_count,
            book_size: self.levels.len(),
            spread: self.get_spread(),
            mid_price: self.get_mid_price(),
            details: HealthDetails {
                bid_levels: metrics.bid_levels,
                ask_levels: metrics.ask_levels,
                total_bid_volume: metrics.total_bid_volume,
                total_ask_volume: metrics.total_ask_volume,
                stale_levels,
                memory_usage_mb,
            },
        }
    }

    /// The health report, read at the current wall-clock time.
    pub fn get_health(&self) -> (r: OrderBookHealth)
        ensures
            exists|t: u64| #[trigger] spec_health_report(*self, r, t),
    {
        let now = now_millis();
        self.get_health_at(now)
    }

    /// The level `set` writes: the chosen side takes the quantity, and
    /// a positive quantity clears the other side.
    pub open spec fn spec_set_level(
        prev: Option<PassiveLevel>,
        nk: u128,
        is_bid: bool,
        quantity: u128,
        now: u64,
    ) -> PassiveLevel {
        match prev {
            Some(l) => {
                if is_bid {
                    PassiveLevel {
                        bid: quantity,
                        added_bid: Some(quantity),
                        ask: if quantity > 0 {
                            0
                        } else {
                            l.ask
                        },
                        added_ask: if quantity > 0 {
                            Some(0)
                        } else {
                            l.added_ask
                        },
                        timestamp: now,
                        ..l
                    }
                } else {
                    PassiveLevel {
                        ask: quantity,
                        added_ask: Some(quantity),
                        bid: if quantity > 0 {
                            0
                        } else {
                            l.bid
                        },
                        added_bid: if quantity > 0 {
                            Some(0)
                        } else {
                            l.added_bid
                        },
                        timestamp: now,
                        ..l
                    }
                }
            },
            None => PassiveLevel {
                price: nk,
                bid: if is_bid {
                    quantity
                } else {
                    0
                },
                ask: if is_bid {
                    0
                } else {
                    quantity
                },
                timestamp: now,
                consumed_ask: Some(0),
                consumed_bid: Some(0),
                added_ask: if is_bid {
                    Some(0)
                } else {
                    Some(quantity)
                },
                added_bid: if is_bid {
                    Some(quantity)
                } else {
                    Some(0)
                },
            },
        }
    }

    /// Write one side of the level at the normalized price at time
    /// `now`: the side takes the quantity, and a positive quantity
    /// clears the other side. Any side name other than `"bid"` selects
    /// the ask side.
    pub fn set_at(&mut self, price: u128, side: &str, quantity: u128, now: u64)
        requires
            old(self).wf(),
            spec_normalize_tick(price, old(self).spec_config().tick_size as nat) <= u128::MAX,
        ensures
            final(self).wf(),
            final(self).spec_config() == old(self).spec_config(),
            final(self).spec_last_update() == old(self).spec_last_update(),
            final(self).spec_circuit_open() == old(self).spec_circuit_open(),
            final(self).spec_circuit_open_until() == old(self).spec_circuit_open_until(),
            final(self).spec_error_count() == old(self).spec_error_count(),
            ({
                let nk = spec_normalize_tick(
                    price,
                    old(self).spec_config().tick_size as nat,
                ) as u128;
                final(self).map() =~= old(self).map().insert(
                    nk,
                    Self::spec_set_level(
                        Self::spec_prev(old(self).map(), nk),
                        nk,
                        side@ == "bid"@,
                        quantity,
                        now,
                    ),
                )
            }),
    {
        let nk = match self.try_normalize(price) {
            Some(v) => v,
            None => {
                proof {
                    assert(false);
                }
                return ;
            },
        };
        let is_bid = side_is_bid(side);

        let ghost ls = self.levels@;
        let pos = self.locate(nk);
        let found = pos < self.levels.len() && self.levels[pos].price == nk;

        proof {
            if found {
                lemma_as_map_index(ls, pos as int);
            } else {
                lemma_as_map_contains(ls, nk);
                assert forall|j: int| 0 <= j < ls.len() implies (#[trigger] ls[j]).price != nk by {
                    if j >= pos {
                        assert(ls[pos as int].price <= ls[j].price);
                    }
                }
            }
        }

        if found {
            let prev = self.levels[pos];
            let lvl = if is_bid {
                PassiveLevel {
                    bid: quantity,
                    added_bid: Some(quantity),
                    ask: if quantity > 0 {
                        0
                    } else {
                        prev.ask
                    },
                    added_ask: if quantity > 0 {
                        Some(0)
                    } else {
                        prev.added_ask
                    },
                    timestamp: now,
                    ..prev
                }
            } else {
                PassiveLevel {
                    ask: quantity,
                    added_ask: Some(quantity),
                    bid: if quantity > 0 {
                        0
                    } else {
                        prev.bid
                    },
                    added_bid: if quantity > 0 {
                        Some(0)
                    } else {
                        prev.added_bid
                    },
                    timestamp: now,
                    ..prev
                }
            };
            self.levels.set(pos, lvl);
            proof {
                lemma_as_map_update(ls, pos as int, lvl);
                assert(levels_wf(self.levels@));
            }
        } else {
            let lvl = PassiveLevel {
                price: nk,
                bid: if is_bid {
                    quantity
                } else {
                    0
                },
                ask: if is_bid {
                    0
                } else {
                    quantity
                },
                timestamp: now,
                consumed_ask: Some(0),
                consumed_bid: Some(0),
                added_ask: if is_bid {
                    Some(0)
                } else {
                    Some(quantity)
                },
                added_bid: if is_bid {
                    Some(quantity)
                } else {
                    Some(0)
                },
            };
            self.levels.insert(pos, lvl);
            proof {
                lemma_as_map_insert(ls, pos as int, lvl);
                let nls = self.levels@;
                assert forall|p: int, q: int| 0 <= p < q < nls.len() implies nls[p].price
                    < nls[q].price by {
                    if q < pos {
                    } else if p < pos && q == pos {
                        assert(nls[p] == ls[p]);
                    } else if p < pos {
                        assert(nls[q] == ls[q - 1]);
                    } else if p == pos {
                        assert(nls[q] == ls[q - 1]);
                        assert(ls[pos as int].price <= ls[q - 1].price);
                    } else {
                        assert(nls[p] == ls[p - 1] && nls[q] == ls[q - 1]);
                    }
                }
                assert(levels_wf(nls));
            }
        }
    }

    /// `set` wrote the level at `nk` at time `t`.
    pub open spec fn spec_set_post(
        pre: Map<u128, PassiveLevel>,
        post: Map<u128, PassiveLevel>,
        nk: u128,
        side: Seq<char>,
        quantity: u128,
        t: u64,
    ) -> bool {
        post =~= pre.insert(
            nk,
            Self::spec_set_level(Self::spec_prev(pre, nk), nk, side == "bid"@, quantity, t),
        )
    }

    /// Write one side of a level, stamping it with the current
    /// wall-clock time.
    pub fn set(&mut self, price: u128, side: &str, quantity: u128)
        requires
            old(self).wf(),
            spec_normalize_tick(price, old(self).spec_config().tick_size as nat) <= u128::MAX,
        ensures
            final(self).wf(),
            final(self).spec_config() == old(self).spec_config(),
            final(self).spec_last_update() == old(self).spec_last_update(),
            final(self).spec_circuit_open() == old(self).spec_circuit_open(),
            ({
                let nk = spec_normalize_tick(
                    price,
                    old(self).spec_config().tick_size as nat,
                ) as u128;
                exists|t: u64| #[trigger] Self::spec_set_post(
                    old(self).map(),
                    final(self).map(),
                    nk,
                    side@,
                    quantity,
                    t,
                )
            }),
    {
        let now = now_millis();
        self.set_at(price, side, quantity, now);
        proof {
            let nk = spec_normalize_tick(
                price,
                old(self).spec_config().tick_size as nat,
            ) as u128;
            assert(Self::spec_set_post(
                old(self).map(),
                final(self).map(),
                nk,
                side@,
                quantity,
                now,
            ));
        }
    }

    /// The merge of an incoming one-sided level into an existing one:
    /// the incoming side wins and the other side is cleared; timestamp
    /// and consumed deltas come from the incoming level.
    pub open spec fn spec_merge_level(existing: PassiveLevel, incoming: PassiveLevel) -> PassiveLevel {
        let merged = if incoming.bid > 0 {
            PassiveLevel {
                bid: incoming.bid,
                added_bid: incoming.added_bid,
                ask: 0,
                added_ask: Some(0),
                ..existing
            }
        } else if incoming.ask > 0 {
            PassiveLevel {
                ask: incoming.ask,
                added_ask: incoming.added_ask,
                bid: 0,
                added_bid: Some(0),
                ..existing
            }
        } else {
            existing
        };
        PassiveLevel {
            timestamp: incoming.timestamp,
            consumed_bid: incoming.consumed_bid,
            consumed_ask: incoming.consumed_ask,
            ..merged
        }
    }

    /// Insert a whole level at the normalized price. An existing level
    /// is merged under the bid/ask-exclusivity rule; the incoming level
    /// must itself carry at most one positive side.
    pub fn insert(&mut self, price: u128, level: PassiveLevel)
        requires
            old(self).wf(),
            level.bid == 0 || level.ask == 0,
            spec_normalize_tick(price, old(self).spec_config().tick_size as nat) <= u128::MAX,
        ensures
            final(self).wf(),
            final(self).spec_config() == old(self).spec_config(),
            final(self).spec_last_update() == old(self).spec_last_update(),
            final(self).spec_circuit_open() == old(self).spec_circuit_open(),
            final(self).spec_circuit_open_until() == old(self).spec_circuit_open_until(),
            final(self).spec_error_count() == old(self).spec_error_count(),
            ({
                let nk = spec_normalize_tick(
                    price,
                    old(self).spec_config().tick_size as nat,
                ) as u128;
                final(self).map() =~= old(self).map().insert(
                    nk,
                    match Self::spec_prev(old(self).map(), nk) {
                        Some(existing) => Self::spec_merge_level(existing, level),
                        None => PassiveLevel { price: nk, ..level },
                    },
                )
            }),
    {
        let nk = match self.try_normalize(price) {
            Some(v) => v,
            None => {
                proof {
                    assert(false);
                }
                return ;
            },
        };

        let ghost ls = self.levels@;
        let pos = self.locate(nk);
        let found = pos < self.levels.len() && self.levels[pos].price == nk;

        proof {
            if found {
                lemma_as_map_index(ls, pos as int);
            } else {
                lemma_as_map_contains(ls, nk);
                assert forall|j: int| 0 <= j < ls.len() implies (#[trigger] ls[j]).price != nk by {
                    if j >= pos {
                        assert(ls[pos as int].price <= ls[j].price);
                    }
                }
            }
        }

        if found {
            let existing = self.levels[pos];
            let merged = if level.bid > 0 {
                PassiveLevel {
                    bid: level.bid,
                    added_bid: level.added_bid,
                    ask: 0,
                    added_ask: Some(0),
                    ..existing
                }
            } else if level.ask > 0 {
                PassiveLevel {
                    ask: level.ask,
                    added_ask: level.added_ask,
                    bid: 0,
                    added_bid: Some(0),
                    ..existing
                }
            } else {
                existing
            };
            let lvl = PassiveLevel {
                timestamp: level.timestamp,
                consumed_bid: level.consumed_bid,
                consumed_ask: level.consumed_ask,
                ..merged
            };
            self.levels.set(pos, lvl);
            proof {
                lemma_as_map_update(ls, pos as int, lvl);
                assert(levels_wf(self.levels@));
            }
        } else {
            let lvl = PassiveLevel { price: nk, ..level };
            self.levels.insert(pos, lvl);
            proof {
                lemma_as_map_insert(ls, pos as int, lvl);
                let nls = self.levels@;
                assert forall|p: int, q: int| 0 <= p < q < nls.len() implies nls[p].price
                    < nls[q].price by {
                    if q < pos {
                    } else if p < pos && q == pos {
                        assert(nls[p] == ls[p]);
                    } else if p < pos {
                        assert(nls[q] == ls[q - 1]);
                    } else if p == pos {
                        assert(nls[q] == ls[q - 1]);
                        assert(ls[pos as int].price <= ls[q - 1].price);
                    } else {
                        assert(nls[p] == ls[p - 1] && nls[q] == ls[q - 1]);
                    }
                }
                assert(levels_wf(nls));
            }
        }
    }


    /// Apply a depth update at time `now`. When the circuit breaker is
    /// open and its deadline has not passed, the update is silently
    /// dropped; an expired deadline closes the circuit first. Tokens
    /// apply in order, bids then asks; the first bad token aborts the
    /// call with an error naming it, and keeps everything applied
    /// before it.
    pub fn update_depth_at(&mut self, update: &DepthUpdate, now: u64) -> (r: Result<
        (),
        DepthError,
    >)
        requires
            old(self).wf(),
        ensures
            final(self).wf(),
            levels_live(old(self)@) ==> levels_live(final(self)@),
            spec_update_depth_post(*old(self), *final(self), *update, r, now),
    {
        if self.circuit_open {
            match self.circuit_open_until {
                Some(until) => {
                    if now < until {
                        return Ok(());
                    }
                    self.circuit_open = false;
                    self.circuit_open_until = None;
                },
                None => {},
            }
        }

        let ghost m0 = self.map();
        let ghost tick = self.config.tick_size;
        let ghost bids0 = update.bids@;
        let ghost asks0 = update.asks@;
        let ghost c_open = self.circuit_open;
        let ghost c_until = self.circuit_open_until;

        let mut i: usize = 0;
        proof {
            assert(bids0.skip(0) =~= bids0);
        }
        while i < update.bids.len()
            invariant
                self.wf(),
                levels_live(old(self)@) ==> levels_live(self@),
                i <= bids0.len(),
                bids0 == update.bids@,
                tick == self.config.tick_size,
                self.config == old(self).config,
                self.last_update == old(self).last_update,
                self.error_count == old(self).error_count,
                self.circuit_open == c_open,
                self.circuit_open_until == c_until,
                !(old(self).circuit_open && old(self).circuit_open_until is Some && now < old(
                    self,
                ).circuit_open_until->0),
                m0 == as_map(old(self)@),
                c_open == (if old(self).circuit_open && old(self).circuit_open_until is Some {
                    false
                } else {
                    old(self).circuit_open
                }),
                c_until == (if old(self).circuit_open && old(self).circuit_open_until is Some {
                    Option::<u64>::None
                } else {
                    old(self).circuit_open_until
                }),
                ({
                    let full = spec_apply_list(m0, bids0, true, tick, now);
                    let rest = spec_apply_list(self.map(), bids0.skip(i as int), true, tick, now);
                    &&& full.0 == rest.0
                    &&& (full.1 is None <==> rest.1 is None)
                    &&& (rest.1 is Some ==> full.1 == Some(((rest.1->0).0 + i, (rest.1->0).1)))
                }),
            decreases bids0.len() - i,
        {
            let ghost sfx = bids0.skip(i as int);
            proof {
                assert(sfx[0] == bids0[i as int]);
                assert(sfx.drop_first() =~= bids0.skip(i + 1));
            }
            let price = match crate::decimal::parse_scaled(update.bids[i].0.as_str(), 8) {
                Ok(p) => p,
                Err(_) => {
                    return Err(DepthError::InvalidPrice(update.bids[i].0.clone()));
                },
            };
            match self.try_normalize(price) {
                Some(_) => {},
                None => {
                    return Err(DepthError::InvalidPrice(update.bids[i].0.clone()));
                },
            }
            let qty = match crate::decimal::parse_scaled(update.bids[i].1.as_str(), 8) {
                Ok(q) => q,
                Err(_) => {
                    return Err(DepthError::InvalidQuantity(update.bids[i].1.clone()));
                },
            };
            let res = self.update_level(price, qty, 0, now);
            proof {
                assert(res is Ok);
            }
            i = i + 1;
        }
        proof {
            assert(bids0.skip(bids0.len() as int) =~= Seq::<(String, String)>::empty());
        }

        let ghost mb = self.map();
        let mut k: usize = 0;
        proof {
            assert(asks0.skip(0) =~= asks0);
        }
        while k < update.asks.len()
            invariant
                self.wf(),
                levels_live(old(self)@) ==> levels_live(self@),
                k <= asks0.len(),
                asks0 == update.asks@,
                bids0 == update.bids@,
                tick == self.config.tick_size,
                self.config == old(self).config,
                self.last_update == old(self).last_update,
                self.error_count == old(self).error_count,
                self.circuit_open == c_open,
                self.circuit_open_until == c_until,
                !(old(self).circuit_open && old(self).circuit_open_until is Some && now < old(
                    self,
                ).circuit_open_until->0),
                m0 == as_map(old(self)@),
                c_open == (if old(self).circuit_open && old(self).circuit_open_until is Some {
                    false
                } else {
                    old(self).circuit_open
                }),
                c_until == (if old(self).circuit_open && old(self).circuit_open_until is Some {
                    Option::<u64>::None
                } else {
                    old(self).circuit_open_until
                }),
                spec_apply_list(m0, bids0, true, tick, now) == (
                    mb,
                    Option::<(int, bool)>::None,
                ),
                ({
                    let full = spec_apply_list(mb, asks0, false, tick, now);
                    let rest = spec_apply_list(self.map(), asks0.skip(k as int), false, tick, now);
                    &&& full.0 == rest.0
                    &&& (full.1 is None <==> rest.1 is None)
                    &&& (rest.1 is Some ==> full.1 == Some(((rest.1->0).0 + k, (rest.1->0).1)))
                }),
            decreases asks0.len() - k,
        {
            let ghost sfx = asks0.skip(k as int);
            proof {
                assert(sfx[0] == asks0[k as int]);
                assert(sfx.drop_first() =~= asks0.skip(k + 1));
            }
            let price = match crate::decimal::parse_scaled(update.asks[k].0.as_str(), 8) {
                Ok(p) => p,
                Err(_) => {
                    return Err(DepthError::InvalidPrice(update.asks[k].0.clone()));
                },
            };
            match self.try_normalize(price) {
                Some(_) => {},
                None => {
                    return Err(DepthError::InvalidPrice(update.asks[k].0.clone()));
                },
            }
            let qty = match crate::decimal::parse_scaled(update.asks[k].1.as_str(), 8) {
                Ok(q) => q,
                Err(_) => {
                    return Err(DepthError::InvalidQuantity(update.asks[k].1.clone()));
                },
            };
            let res = self.update_level(price, 0, qty, now);
            proof {
                assert(res is Ok);
            }
            k = k + 1;
        }
        proof {
            assert(asks0.skip(asks0.len() as int) =~= Seq::<(String, String)>::empty());
        }

        self.last_update = now;
        Ok(())
    }

    /// Apply a depth update, reading the clock for its timestamp.
    pub fn update_depth(&mut self, update: &DepthUpdate) -> (r: Result<(), DepthError>)
        requires
            old(self).wf(),
        ensures
            final(self).wf(),
            levels_live(old(self)@) ==> levels_live(final(self)@),
            exists|t: u64|
                #[trigger] spec_update_depth_post(*old(self), *final(self), *update, r, t),
    {
        let now = now_millis();
        self.update_depth_at(update, now)
    }

    /// Number of stored levels.
    pub fn size(&self) -> (r: usize)
        ensures
            r == self@.len(),
    {
        self.levels.len()
    }

    /// Remove every level.
    pub fn clear(&mut self)
        ensures
            final(self)@ =~= Seq::<PassiveLevel>::empty(),
            final(self).map() =~= Map::<u128, PassiveLevel>::empty(),
            old(self).spec_config().tick_size > 0 ==> final(self).wf(),
            final(self).spec_config() == old(self).spec_config(),
            final(self).spec_last_update() == old(self).spec_last_update(),
            final(self).spec_circuit_open() == old(self).spec_circuit_open(),
            final(self).spec_circuit_open_until() == old(self).spec_circuit_open_until(),
            final(self).spec_error_count() == old(self).spec_error_count(),
            levels_live(final(self)@),
    {
        self.levels.clear();
    }
}


/// The price of the highest level with a positive bid, or zero when no
/// level has one.
pub open spec fn spec_best_bid(ls: Seq<PassiveLevel>) -> u128
    decreases ls.len(),
{
    if ls.len() == 0 {
        0
    } else if ls.last().bid > 0 {
        ls.last().price
    } else {
        spec_best_bid(ls.drop_last())
    }
}

/// The price of the lowest level with a positive ask, or `None` when no
/// level has one.
pub open spec fn spec_best_ask(ls: Seq<PassiveLevel>) -> Option<u128>
    decreases ls.len(),
{
    if ls.len() == 0 {
        None
    } else if ls[0].ask > 0 {
        Some(ls[0].price)
    } else {
        spec_best_ask(ls.drop_first())
    }
}

/// The best bid is the maximum price among levels with a positive bid:
/// zero when there is none, and otherwise a level's price that no other
/// bid-carrying level exceeds.
pub proof fn lemma_best_bid_is_max(ls: Seq<PassiveLevel>)
    requires
        forall|p: int, q: int| 0 <= p < q < ls.len() ==> ls[p].price < ls[q].price,
    ensures
        (forall|i: int| 0 <= i < ls.len() ==> (#[trigger] ls[i]).bid == 0) ==> spec_best_bid(ls)
            == 0,
        (exists|i: int| 0 <= i < ls.len() && (#[trigger] ls[i]).bid > 0) ==> exists|i: int|
            0 <= i < ls.len() && (#[trigger] ls[i]).bid > 0 && ls[i].price == spec_best_bid(ls)
                && (forall|j: int|
                0 <= j < ls.len() && (#[trigger] ls[j]).bid > 0 ==> ls[j].price <= ls[i].price),
    decreases ls.len(),
{
    if ls.len() > 0 {
        if ls.last().bid > 0 {
            let i = ls.len() - 1;
            assert(ls[i].bid > 0 && ls[i].price == spec_best_bid(ls));
            assert(forall|j: int|
                0 <= j < ls.len() && (#[trigger] ls[j]).bid > 0 ==> ls[j].price <= ls[i].price);
        } else {
            lemma_best_bid_is_max(ls.drop_last());
            if exists|i: int| 0 <= i < ls.len() && (#[trigger] ls[i]).bid > 0 {
                let w = choose|i: int| 0 <= i < ls.len() && (#[trigger] ls[i]).bid > 0;
                assert(ls.drop_last()[w] == ls[w]);
                let i = choose|i: int|
                    0 <= i < ls.drop_last().len() && (#[trigger] ls.drop_last()[i]).bid > 0
                        && ls.drop_last()[i].price == spec_best_bid(ls.drop_last()) && (forall|
                        j: int,
                    |
                        0 <= j < ls.drop_last().len() && (#[trigger] ls.drop_last()[j]).bid > 0
                            ==> ls.drop_last()[j].price <= ls.drop_last()[i].price);
                assert(ls[i].bid > 0 && ls[i].price == spec_best_bid(ls));
                assert forall|j: int|
                    0 <= j < ls.len() && (#[trigger] ls[j]).bid > 0 implies ls[j].price
                    <= ls[i].price by {
                    assert(ls.drop_last()[j] == ls[j]);
                }
            }
        }
    }
}

/// The best ask is the minimum price among levels with a positive ask:
/// absent when there is none, and otherwise a level's price that no
/// other ask-carrying level undercuts.
pub proof fn lemma_best_ask_is_min(ls: Seq<PassiveLevel>)
    requires
        forall|p: int, q: int| 0 <= p < q < ls.len() ==> ls[p].price < ls[q].price,
    ensures
        (forall|i: int| 0 <= i < ls.len() ==> (#[trigger] ls[i]).ask == 0) ==> spec_best_ask(ls)
            is None,
        (exists|i: int| 0 <= i < ls.len() && (#[trigger] ls[i]).ask > 0) ==> exists|i: int|
            0 <= i < ls.len() && (#[trigger] ls[i]).ask > 0 && spec_best_ask(ls) == Some(
            ls[i].price,
        ) && (forall|j: int|
                0 <= j < ls.len() && (#[trigger] ls[j]).ask > 0 ==> ls[j].price >= ls[i].price),
    decreases ls.len(),
{
    if ls.len() > 0 {
        if ls[0].ask > 0 {
            assert(ls[0].ask > 0 && spec_best_ask(ls) == Some(ls[0].price));
            assert(forall|j: int|
                0 <= j < ls.len() && (#[trigger] ls[j]).ask > 0 ==> ls[j].price >= ls[0].price);
        } else {
            let tail = ls.drop_first();
            lemma_best_ask_is_min(tail);
            if exists|i: int| 0 <= i < ls.len() && (#[trigger] ls[i]).ask > 0 {
                let w = choose|i: int| 0 <= i < ls.len() && (#[trigger] ls[i]).ask > 0;
                assert(tail[w - 1] == ls[w]);
                let i = choose|i: int|
                    0 <= i < tail.len() && (#[trigger] tail[i]).ask > 0 && spec_best_ask(tail)
                        == Some(tail[i].price) && (forall|j: int|
                        0 <= j < tail.len() && (#[trigger] tail[j]).ask > 0 ==> tail[j].price
                            >= tail[i].price);
                assert(ls[i + 1].ask > 0 && spec_best_ask(ls) == Some(ls[i + 1].price));
                assert forall|j: int|
                    0 <= j < ls.len() && (#[trigger] ls[j]).ask > 0 implies ls[j].price
                    >= ls[i + 1].price by {
                    assert(j >= 1);
                    assert(tail[j - 1] == ls[j]);
                }
            }
        }
    }
}

/// The spread: best ask minus best bid, zero when either side is
/// missing, and clamped at zero for a crossed book.
pub open spec fn spec_spread(ls: Seq<PassiveLevel>) -> u128 {
    let b = spec_best_bid(ls);
    match spec_best_ask(ls) {
        None => 0,
        Some(a) => if b == 0 {
            0
        } else if a >= b {
            (a - b) as u128
        } else {
            0
        },
    }
}

/// The mid price: halfway between best bid and best ask (rounded down),
/// zero when either side is missing.
pub open spec fn spec_mid_price(ls: Seq<PassiveLevel>) -> u128 {
    let b = spec_best_bid(ls);
    match spec_best_ask(ls) {
        None => 0,
        Some(a) => if b == 0 {
            0
        } else if a >= b {
            (b + (a - b) / 2) as u128
        } else {
            (a + (b - a) / 2) as u128
        },
    }
}


/// A sum clamped to the `u128` range.
pub open spec fn spec_cap(x: int) -> u128 {
    if x > u128::MAX {
        u128::MAX
    } else {
        x as u128
    }
}

/// Sum of bid quantities at prices within `[lo, hi]`.
pub open spec fn spec_band_bid(ls: Seq<PassiveLevel>, lo: u128, hi: u128) -> int
    decreases ls.len(),
{
    if ls.len() == 0 {
        0
    } else {
        spec_band_bid(ls.drop_last(), lo, hi) + if lo <= ls.last().price <= hi {
            ls.last().bid as int
        } else {
            0
        }
    }
}

/// Sum of ask quantities at prices within `[lo, hi]`.
pub open spec fn spec_band_ask(ls: Seq<PassiveLevel>, lo: u128, hi: u128) -> int
    decreases ls.len(),
{
    if ls.len() == 0 {
        0
    } else {
        spec_band_ask(ls.drop_last(), lo, hi) + if lo <= ls.last().price <= hi {
            ls.last().ask as int
        } else {
            0
        }
    }
}

/// Number of levels with prices within `[lo, hi]`.
pub open spec fn spec_band_count(ls: Seq<PassiveLevel>, lo: u128, hi: u128) -> int
    decreases ls.len(),
{
    if ls.len() == 0 {
        0
    } else {
        spec_band_count(ls.drop_last(), lo, hi) + if lo <= ls.last().price <= hi {
            1int
        } else {
            0int
        }
    }
}

/// Number of levels with a positive bid.
pub open spec fn spec_bid_count(ls: Seq<PassiveLevel>) -> int
    decreases ls.len(),
{
    if ls.len() == 0 {
        0
    } else {
        spec_bid_count(ls.drop_last()) + if ls.last().bid > 0 {
            1int
        } else {
            0int
        }
    }
}

/// Number of levels with a positive ask.
pub open spec fn spec_ask_count(ls: Seq<PassiveLevel>) -> int
    decreases ls.len(),
{
    if ls.len() == 0 {
        0
    } else {
        spec_ask_count(ls.drop_last()) + if ls.last().ask > 0 {
            1int
        } else {
            0int
        }
    }
}

/// Sum of all bid quantities.
pub open spec fn spec_bid_volume(ls: Seq<PassiveLevel>) -> int
    decreases ls.len(),
{
    if ls.len() == 0 {
        0
    } else {
        spec_bid_volume(ls.drop_last()) + ls.last().bid
    }
}

/// Sum of all ask quantities.
pub open spec fn spec_ask_volume(ls: Seq<PassiveLevel>) -> int
    decreases ls.len(),
{
    if ls.len() == 0 {
        0
    } else {
        spec_ask_volume(ls.drop_last()) + ls.last().ask
    }
}

/// Number of levels whose last update is older than the threshold at
/// time `now`.
pub open spec fn spec_stale_count(ls: Seq<PassiveLevel>, now: u64, threshold: u64) -> int
    decreases ls.len(),
{
    if ls.len() == 0 {
        0
    } else {
        spec_stale_count(ls.drop_last(), now, threshold) + if (if now >= ls.last().timestamp {
            (now - ls.last().timestamp) as u64
        } else {
            0u64
        }) > threshold {
            1int
        } else {
            0int
        }
    }
}

/// When every level has exactly one positive side, the bid levels and
/// the ask levels partition the book, so their counts add up to its
/// size.
pub proof fn lemma_level_count_partition(ls: Seq<PassiveLevel>)
    requires
        forall|i: int| 0 <= i < ls.len() ==> !((#[trigger] ls[i]).bid > 0 && ls[i].ask > 0),
        levels_live(ls),
    ensures
        spec_bid_count(ls) + spec_ask_count(ls) == ls.len(),
    decreases ls.len(),
{
    if ls.len() > 0 {
        assert(forall|i: int|
            0 <= i < ls.drop_last().len() ==> (#[trigger] ls.drop_last()[i]) == ls[i]);
        lemma_level_count_partition(ls.drop_last());
        assert(ls.last() == ls[ls.len() - 1]);
    }
}

/// The scaled signed imbalance `(b - a) / (b + a)` of the bid and ask
/// volume, at 8 decimal places. The total is clamped to the `u128`
/// range; a magnitude too large for exact scaling falls back to
/// dividing by `total / 10^8`.
pub open spec fn spec_imbalance(b: u128, a: u128) -> int {
    let diff = if b >= a {
        (b - a) as u128
    } else {
        (a - b) as u128
    };
    let tot = spec_cap(b + a);
    if tot == 0 {
        0
    } else {
        let mag = if diff * 100_000_000 <= u128::MAX {
            diff * 100_000_000 / tot as int
        } else {
            diff as int / (tot as int / 100_000_000)
        };
        if a > b {
            -mag
        } else {
            mag
        }
    }
}



/// Milliseconds elapsed from `then` to `now`, zero if `then` is later.
pub open spec fn spec_age(now: u64, then: u64) -> u64 {
    if now >= then {
        (now - then) as u64
    } else {
        0
    }
}

/// The health status of a book at time `now` with `stale` stale levels:
/// unhealthy when the circuit is open or the book is over ten seconds
/// behind; degraded on a raised error count, five seconds of silence,
/// or more than a tenth of the levels stale; healthy otherwise.
pub open spec fn spec_health_status(b: OrderBook, now: u64, stale: int) -> Seq<char> {
    let age = spec_age(now, b.last_update);
    if b.circuit_open || age > 10000 {
        "unhealthy"@
    } else if b.error_count > b.config.max_error_rate / 2 {
        "degraded"@
    } else if age > 5000 || stale > b@.len() / 10 {
        "degraded"@
    } else {
        "healthy"@
    }
}

/// Everything the health report promises about its fields.
pub open spec fn spec_health_report(b: OrderBook, r: OrderBookHealth, now: u64) -> bool {
    let stale = spec_stale_count(b@, now, b.config.stale_threshold_ms);
    &&& r.status@ == spec_health_status(b, now, stale)
    &&& r.initialized == (b@.len() > 0)
    &&& r.last_update_ms == spec_age(now, b.last_update)
    &&& r.circuit_breaker_open == b.circuit_open
    &&& r.error_rate == b.error_count
    &&& r.book_size == b@.len()
    &&& r.spread == spec_spread(b@)
    &&& r.mid_price == spec_mid_price(b@)
    &&& r.details.bid_levels == spec_bid_count(b@)
    &&& r.details.ask_levels == spec_ask_count(b@)
    &&& r.details.total_bid_volume == spec_cap(spec_bid_volume(b@))
    &&& r.details.total_ask_volume == spec_cap(spec_ask_volume(b@))
    &&& r.details.stale_levels == stale
    &&& r.details.memory_usage_mb == b@.len() * 200 / 1048576
}

/// Band sums and counts are non-negative.
proof fn lemma_band_sums_nonneg(ls: Seq<PassiveLevel>, lo: u128, hi: u128)
    ensures
        spec_band_bid(ls, lo, hi) >= 0,
        spec_band_ask(ls, lo, hi) >= 0,
        spec_band_count(ls, lo, hi) >= 0,
    decreases ls.len(),
{
    if ls.len() > 0 {
        lemma_band_sums_nonneg(ls.drop_last(), lo, hi);
    }
}

/// Volume sums are non-negative.
proof fn lemma_volumes_nonneg(ls: Seq<PassiveLevel>)
    ensures
        spec_bid_volume(ls) >= 0,
        spec_ask_volume(ls) >= 0,
    decreases ls.len(),
{
    if ls.len() > 0 {
        lemma_volumes_nonneg(ls.drop_last());
    }
}

/// The signed scaled imbalance of the given bid and ask volume.
fn imbalance_scaled(b: u128, a: u128) -> (r: i128)
    ensures
        r == spec_imbalance(b, a),
{
    let diff = if b >= a {
        b - a
    } else {
        a - b
    };
    let tot = b.saturating_add(a);
    if tot == 0 {
        return 0;
    }
    let mag: u128 = match diff.checked_mul(100_000_000) {
        Some(scaled) => scaled / tot,
        None => {
            proof {
                assert(tot >= diff);
                assert(tot / 100_000_000 >= 1) by (nonlinear_arith)
                    requires
                        tot >= diff,
                        diff * 100_000_000 > u128::MAX,
                        tot <= u128::MAX,
                ;
            }
            diff / (tot / 100_000_000)
        },
    };
    proof {
        assert(diff <= tot);
        if diff * 100_000_000 <= u128::MAX {
            assert(mag <= 100_000_000) by (nonlinear_arith)
                requires
                    diff <= tot,
                    tot > 0,
                    mag == diff * 100_000_000 / tot as int,
            ;
        } else {
            let q = tot as int / 100_000_000;
            assert(q >= 1);
            assert(mag <= 200_000_000) by (nonlinear_arith)
                requires
                    q == tot as int / 100_000_000,
                    q >= 1,
                    diff <= tot,
                    tot <= u128::MAX,
                    mag == diff as int / q,
            ;
        }
    }
    if a > b {
        -(mag as i128)
    } else {
        mag as i128
    }
}



/// Whether a price token is acceptable: a decimal literal whose scaled
/// value and tick-normalized value both fit a `u128`.
pub open spec fn spec_price_ok(s: Seq<char>, tick: u128) -> bool {
    &&& crate::decimal::spec_is_decimal(s)
    &&& crate::decimal::spec_decimal_value(s, 8) <= u128::MAX
    &&& spec_normalize_tick(
        crate::decimal::spec_decimal_value(s, 8) as u128,
        tick as nat,
    ) <= u128::MAX
}

/// Whether a quantity token is acceptable: a decimal literal whose
/// scaled value fits a `u128`.
pub open spec fn spec_qty_ok(s: Seq<char>) -> bool {
    &&& crate::decimal::spec_is_decimal(s)
    &&& crate::decimal::spec_decimal_value(s, 8) <= u128::MAX
}

/// The book content after one acceptable depth token: a zero quantity
/// removes the level at the normalized price, anything else overwrites
/// the listed side.
pub open spec fn spec_apply_token(
    m: Map<u128, PassiveLevel>,
    ps: Seq<char>,
    qs: Seq<char>,
    is_bid: bool,
    tick: u128,
    now: u64,
) -> Map<u128, PassiveLevel> {
    let nk = spec_normalize_tick(
        crate::decimal::spec_decimal_value(ps, 8) as u128,
        tick as nat,
    ) as u128;
    let q = crate::decimal::spec_decimal_value(qs, 8) as u128;
    if q == 0 {
        m.remove(nk)
    } else {
        m.insert(
            nk,
            OrderBook::spec_updated_level(
                OrderBook::spec_prev(m, nk),
                nk,
                if is_bid {
                    q
                } else {
                    0
                },
                if is_bid {
                    0
                } else {
                    q
                },
                now,
            ),
        )
    }
}

/// The book content after a list of depth tokens, applied in order and
/// stopped at the first bad token: the map reached, and (if a token was
/// bad) its index and whether its price (true) or quantity (false)
/// offended.
pub open spec fn spec_apply_list(
    m: Map<u128, PassiveLevel>,
    toks: Seq<(String, String)>,
    is_bid: bool,
    tick: u128,
    now: u64,
) -> (Map<u128, PassiveLevel>, Option<(int, bool)>)
    decreases toks.len(),
{
    if toks.len() == 0 {
        (m, None)
    } else if !spec_price_ok(toks[0].0@, tick) {
        (m, Some((0int, true)))
    } else if !spec_qty_ok(toks[0].1@) {
        (m, Some((0int, false)))
    } else {
        let m1 = spec_apply_token(m, toks[0].0@, toks[0].1@, is_bid, tick, now);
        let rest = spec_apply_list(m1, toks.drop_first(), is_bid, tick, now);
        (
            rest.0,
            match rest.1 {
                None => None,
                Some(e) => Some((e.0 + 1, e.1)),
            },
        )
    }
}

/// The book content after a whole depth update: all bid tokens, then
/// all ask tokens, stopped at the first bad token. The error names the
/// list (true for bids), the index, and whether the price offended.
pub open spec fn spec_apply_update(
    m: Map<u128, PassiveLevel>,
    bids: Seq<(String, String)>,
    asks: Seq<(String, String)>,
    tick: u128,
    now: u64,
) -> (Map<u128, PassiveLevel>, Option<(bool, int, bool)>) {
    let rb = spec_apply_list(m, bids, true, tick, now);
    match rb.1 {
        Some(e) => (rb.0, Some((true, e.0, e.1))),
        None => {
            let ra = spec_apply_list(rb.0, asks, false, tick, now);
            (
                ra.0,
                match ra.1 {
                    None => None,
                    Some(e) => Some((false, e.0, e.1)),
                },
            )
        },
    }
}

/// Everything `update_depth` promises at time `now`: a suppressed
/// update changes nothing; otherwise an expired circuit is closed, the
/// tokens are applied in order up to the first bad one, and the error
/// (if any) carries the offending token.
pub open spec fn spec_update_depth_post(
    pre: OrderBook,
    post: OrderBook,
    u: DepthUpdate,
    r: Result<(), DepthError>,
    now: u64,
) -> bool {
    let tick = pre.config.tick_size;
    let suppressed = pre.circuit_open && pre.circuit_open_until is Some && now
        < pre.circuit_open_until->0;
    &&& post.config == pre.config
    &&& post.error_count == pre.error_count
    &&& if suppressed {
        &&& post@ == pre@
        &&& post.last_update == pre.last_update
        &&& post.circuit_open == pre.circuit_open
        &&& post.circuit_open_until == pre.circuit_open_until
        &&& r is Ok
    } else {
        let cleared = pre.circuit_open && pre.circuit_open_until is Some;
        let outcome = spec_apply_update(as_map(pre@), u.bids@, u.asks@, tick, now);
        &&& post.circuit_open == (if cleared {
            false
        } else {
            pre.circuit_open
        })
        &&& post.circuit_open_until == (if cleared {
            Option::<u64>::None
        } else {
            pre.circuit_open_until
        })
        &&& as_map(post@) =~= outcome.0
        &&& match outcome.1 {
            None => {
                &&& r is Ok
                &&& post.last_update == now
            },
            Some(e) => {
                let tok = if e.0 {
                    u.bids@[e.1]
                } else {
                    u.asks@[e.1]
                };
                &&& post.last_update == pre.last_update
                &&& r is Err
                &&& (e.2 ==> r->Err_0 is InvalidPrice && r->Err_0->InvalidPrice_0@ == tok.0@)
                &&& (!e.2 ==> r->Err_0 is InvalidQuantity && r->Err_0->InvalidQuantity_0@
                    == tok.1@)
            },
        }
    }
}


/// Per-level exclusivity: in a well-formed, live book every stored
/// level has exactly one strictly positive side.
pub proof fn lemma_level_exclusivity(ls: Seq<PassiveLevel>)
    requires
        levels_wf(ls),
        levels_live(ls),
    ensures
        forall|i: int|
            0 <= i < ls.len() ==> ((#[trigger] ls[i]).bid > 0) != (ls[i].ask > 0),
{
}

/// The spread is never negative, and whenever both sides are present
/// and not crossed it is exactly the gap between them.
pub proof fn lemma_spread_nonnegative(ls: Seq<PassiveLevel>)
    ensures
        spec_spread(ls) >= 0,
        spec_best_bid(ls) > 0 && spec_best_ask(ls) is Some && spec_best_ask(ls)->0
            >= spec_best_bid(ls) ==> spec_spread(ls) == spec_best_ask(ls)->0 - spec_best_bid(ls),
{
}

/// Whether the side name is `"bid"`; anything else selects the ask
/// side.
fn side_is_bid(side: &str) -> (r: bool)
    ensures
        r == (side@ == "bid"@),
{
    proof {
        reveal_strlit("bid");
    }
    if side.unicode_len() == 3 {
        let c0 = side.get_char(0);
        let c1 = side.get_char(1);
        let c2 = side.get_char(2);
        if c0 == 'b' && c1 == 'i' && c2 == 'd' {
            proof {
                assert(side@ =~= "bid"@);
            }
            true
        } else {
            false
        }
    } else {
        false
    }
}

/// Relies on `chrono::Utc::now`: the wall-clock time, converted to
/// whole milliseconds since the epoch. Nothing is assumed about the
/// value; times before the epoch are reported as zero.
#[verifier::external_body]
pub fn now_millis() -> u64 {
    let ms = chrono::Utc::now().timestamp_millis();
    u64::try_from(ms).unwrap_or(0)
}

} // verus!
