//! The data records of the order book engine.
//!
//! All prices and quantities are scaled unsigned integers at 8 decimal
//! places; timestamps are milliseconds since the epoch.

use vstd::prelude::*;

verus! {

/// A passive price level: the resting bid and ask quantity at one
/// normalized price, with diagnostic deltas of the last update.
#[derive(Debug, Clone, Copy)]
pub struct PassiveLevel {
    /// The normalized scaled price of this level.
    pub price: u128,
    /// Passive bid quantity (scaled).
    pub bid: u128,
    /// Passive ask quantity (scaled).
    pub ask: u128,
    /// Time of the last update to this level, in milliseconds.
    pub timestamp: u64,
    /// Diagnostic: ask quantity consumed by the last update.
    pub consumed_ask: Option<u128>,
    /// Diagnostic: bid quantity consumed by the last update.
    pub consumed_bid: Option<u128>,
    /// Diagnostic: ask quantity added by the last update.
    pub added_ask: Option<u128>,
    /// Diagnostic: bid quantity added by the last update.
    pub added_bid: Option<u128>,
}

impl Default for PassiveLevel {
    /// An empty level: both sides zero, no diagnostics.
    fn default() -> (r: Self)
        ensures
            r.price == 0 && r.bid == 0 && r.ask == 0 && r.timestamp == 0,
            r.consumed_ask is None && r.consumed_bid is None,
            r.added_ask is None && r.added_bid is None,
    {
        PassiveLevel {
            price: 0,
            bid: 0,
            ask: 0,
            timestamp: 0,
            consumed_ask: None,
            consumed_bid: None,
            added_ask: None,
            added_bid: None,
        }
    }
}

/// A price level together with its price key, for whole-book listings.
#[derive(Debug, Clone, Copy)]
pub struct RBNode {
    /// The scaled price of the level.
    pub price: u128,
    /// The level stored at that price.
    pub level: PassiveLevel,
}

/// A depth update from the market-data stream: the absolute passive
/// volume now resting at each listed price, as decimal strings.
#[derive(Debug, Clone)]
pub struct DepthUpdate {
    /// The trading symbol; opaque to the engine.
    pub symbol: String,
    /// First update identifier of this batch.
    pub first_update_id: u64,
    /// Final update identifier of this batch.
    pub final_update_id: u64,
    /// Bid levels as `(price, quantity)` decimal strings.
    pub bids: Vec<(String, String)>,
    /// Ask levels as `(price, quantity)` decimal strings.
    pub asks: Vec<(String, String)>,
}

/// Why a depth update was rejected: the offending token, verbatim.
#[derive(Debug, Clone)]
pub enum DepthError {
    /// A price string that does not parse to a scaled price on the
    /// book's grid.
    InvalidPrice(String),
    /// A quantity string that does not parse to a scaled quantity.
    InvalidQuantity(String),
}

/// Aggregate depth metrics over the whole book.
#[derive(Debug, Clone, Copy)]
pub struct DepthMetrics {
    /// Number of stored levels.
    pub total_levels: usize,
    /// Number of levels with a positive bid.
    pub bid_levels: usize,
    /// Number of levels with a positive ask.
    pub ask_levels: usize,
    /// Sum of all bid quantities (scaled).
    pub total_bid_volume: u128,
    /// Sum of all ask quantities (scaled).
    pub total_ask_volume: u128,
    /// `(bids - asks) / (bids + asks)`, scaled to 8 decimal places and
    /// signed; zero when the book is empty.
    pub imbalance: i128,
}

/// The bid and ask volume resting within a price band.
#[derive(Debug, Clone, Copy)]
pub struct BandSum {
    /// Sum of bid quantities in the band (scaled).
    pub bid: u128,
    /// Sum of ask quantities in the band (scaled).
    pub ask: u128,
    /// Number of levels in the band.
    pub levels: usize,
}

/// Details of the order book health report.
#[derive(Debug, Clone, Copy)]
pub struct HealthDetails {
    /// Number of levels with a positive bid.
    pub bid_levels: usize,
    /// Number of levels with a positive ask.
    pub ask_levels: usize,
    /// Sum of all bid quantities (scaled).
    pub total_bid_volume: u128,
    /// Sum of all ask quantities (scaled).
    pub total_ask_volume: u128,
    /// Levels older than the stale threshold.
    pub stale_levels: usize,
    /// A rough memory estimate in whole megabytes.
    pub memory_usage_mb: u64,
}

/// The order book health report.
#[derive(Debug, Clone)]
pub struct OrderBookHealth {
    /// `"healthy"`, `"degraded"` or `"unhealthy"`.
    pub status: String,
    /// Whether the book holds any level.
    pub initialized: bool,
    /// Milliseconds since the last accepted update.
    pub last_update_ms: u64,
    /// Whether the circuit breaker is open.
    pub circuit_breaker_open: bool,
    /// Rejected updates in the current window.
    pub error_rate: usize,
    /// Number of stored levels.
    pub book_size: usize,
    /// Current spread (scaled), zero when a side is missing.
    pub spread: u128,
    /// Current mid price (scaled), zero when a side is missing.
    pub mid_price: u128,
    /// Per-side details.
    pub details: HealthDetails,
}

/// Order book configuration.
#[derive(Debug, Clone, Copy)]
pub struct OrderBookConfig {
    /// Decimal places of the price scale.
    pub price_precision: u32,
    /// Tick size as a scaled price; prices are normalized to multiples
    /// of it.
    pub tick_size: u128,
    /// Soft cap on the number of levels.
    pub max_levels: usize,
    /// Maximum fraction of price distance from the mid, scaled to 8
    /// decimal places.
    pub max_price_distance: u128,
    /// How often stale levels may be pruned, in milliseconds.
    pub prune_interval_ms: u64,
    /// Error count above which the book is degraded.
    pub max_error_rate: usize,
    /// Age in milliseconds beyond which a level counts as stale.
    pub stale_threshold_ms: u64,
}

impl Default for OrderBookConfig {
    /// The default configuration: price scale 8, the smallest tick,
    /// at most 1000 levels, 10% price distance, 30 s prune interval,
    /// error rate 10, 5 min stale threshold.
    fn default() -> (r: Self)
        ensures
            r.price_precision == 8,
            r.tick_size == 1,
            r.max_levels == 1000,
            r.max_price_distance == 10_000_000,
            r.prune_interval_ms == 30_000,
            r.max_error_rate == 10,
            r.stale_threshold_ms == 300_000,
    {
        OrderBookConfig {
            price_precision: 8,
            tick_size: 1,
            max_levels: 1000,
            max_price_distance: 10_000_000,
            prune_interval_ms: 30_000,
            max_error_rate: 10,
            stale_threshold_ms: 300_000,
        }
    }
}

} // verus!
