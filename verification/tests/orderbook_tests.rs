use orderbook::orderbook::OrderBook;
use orderbook::types::{DepthError, DepthUpdate, PassiveLevel};

fn update(bids: Vec<(&str, &str)>, asks: Vec<(&str, &str)>) -> DepthUpdate {
    DepthUpdate {
        symbol: "BTCUSDT".to_string(),
        first_update_id: 1,
        final_update_id: 1,
        bids: bids
            .into_iter()
            .map(|(p, q)| (p.to_string(), q.to_string()))
            .collect(),
        asks: asks
            .into_iter()
            .map(|(p, q)| (p.to_string(), q.to_string()))
            .collect(),
    }
}

#[test]
fn orderbook_test_order_book_creation() {
    let order_book = OrderBook::new(8, 1); // tick 0.00000001 scaled
    assert_eq!(order_book.size(), 0);
}

#[test]
fn orderbook_test_update_depth() {
    let mut order_book = OrderBook::new(8, 1);

    let upd = update(vec![("50000.0", "1.0")], vec![("50001.0", "1.0")]);

    order_book.update_depth(&upd).unwrap();
    assert_eq!(order_book.size(), 2);
    assert_eq!(order_book.get_best_bid(), 5_000_000_000_000); // 50000.0
    assert_eq!(order_book.get_best_ask(), Some(5_000_100_000_000)); // 50001.0
}

#[test]
fn lib_test_btreemap_basic_operations() {
    let mut tree = OrderBook::new_at(8, 1, 0);

    // Test insert
    let level = PassiveLevel {
        price: 100_0000_0000, // 100.0
        bid: 10_0000_0000,    // 10.0
        ask: 0,
        timestamp: 1234567890,
        consumed_ask: Some(0),
        consumed_bid: Some(0),
        added_ask: Some(0),
        added_bid: Some(10_0000_0000),
    };

    tree.insert(100_0000_0000, level);

    // Test get
    let retrieved = tree.get(100_0000_0000);
    assert!(retrieved.is_some());
    assert_eq!(retrieved.unwrap().bid, 10_0000_0000);

    // Test size
    assert_eq!(tree.size(), 1);

    // Test set
    tree.set_at(100_0000_0000, "ask", 5_0000_0000, 1234567891);
    let updated = tree.get(100_0000_0000);
    assert!(updated.is_some());
    let updated_level = updated.unwrap();
    assert_eq!(updated_level.ask, 5_0000_0000);
    assert_eq!(updated_level.bid, 0); // Cleared by bid/ask separation

    // Test delete
    tree.delete(100_0000_0000);
    assert_eq!(tree.size(), 0);
}

#[test]
fn lib_test_best_bid_ask() {
    let mut tree = OrderBook::new_at(8, 1, 0);

    // Add some levels
    tree.set_at(100_0000_0000, "bid", 10_0000_0000, 1);
    tree.set_at(101_0000_0000, "bid", 5_0000_0000, 2);
    tree.set_at(102_0000_0000, "ask", 8_0000_0000, 3);
    tree.set_at(103_0000_0000, "ask", 3_0000_0000, 4);

    // Best bid: highest price with bid > 0
    assert_eq!(tree.get_best_bid(), 101_0000_0000);

    // Best ask: lowest price with ask > 0
    assert_eq!(tree.get_best_ask(), Some(102_0000_0000));

    // Combined
    let (bid, ask) = tree.get_best_bid_ask();
    assert_eq!(bid, 101_0000_0000);
    assert_eq!(ask, Some(102_0000_0000));
}

#[test]
fn test_search_and_all_nodes() {
    let mut book = OrderBook::new_at(8, 1, 0);
    book.set_at(100_0000_0000, "bid", 1_0000_0000, 7);
    book.set_at(101_0000_0000, "ask", 2_0000_0000, 8);

    let node = book.search(100_0000_0000).unwrap();
    assert_eq!(node.price, 100_0000_0000);
    assert_eq!(node.level.bid, 1_0000_0000);
    assert!(book.search(99_0000_0000).is_none());

    let nodes = book.get_all_nodes();
    assert_eq!(nodes.len(), 2);
    assert_eq!(nodes[0].price, 100_0000_0000);
    assert_eq!(nodes[1].price, 101_0000_0000);
}

#[test]
fn test_empty_book_queries() {
    let book = OrderBook::new_at(8, 1, 0);
    assert_eq!(book.get_best_bid(), 0);
    assert_eq!(book.get_best_ask(), None);
    assert_eq!(book.get_spread(), 0);
    assert_eq!(book.get_mid_price(), 0);
    let metrics = book.get_depth_metrics();
    assert_eq!(metrics.total_levels, 0);
    assert_eq!(metrics.bid_levels, 0);
    assert_eq!(metrics.ask_levels, 0);
    assert_eq!(metrics.total_bid_volume, 0);
    assert_eq!(metrics.total_ask_volume, 0);
    assert_eq!(metrics.imbalance, 0);
}

#[test]
fn test_remove_level_on_zero_quantities() {
    let mut book = OrderBook::new_at(8, 1, 0);
    book.update_depth_at(&update(vec![("100.0", "1.0")], vec![]), 1)
        .unwrap();
    assert_eq!(book.size(), 1);
    // An update with quantity zero at an existing price removes it
    book.update_depth_at(&update(vec![("100.0", "0.0")], vec![]), 2)
        .unwrap();
    assert_eq!(book.size(), 0);
    // Removing an absent level is a no-op
    book.update_depth_at(&update(vec![("100.0", "0")], vec![]), 3)
        .unwrap();
    assert_eq!(book.size(), 0);
}

#[test]
fn test_parse_error_keeps_prefix() {
    let mut book = OrderBook::new_at(8, 1, 0);
    let upd = update(
        vec![("100.0", "1.0"), ("abc", "2.0"), ("300.0", "3.0")],
        vec![],
    );
    let err = book.update_depth_at(&upd, 5).unwrap_err();
    match err {
        DepthError::InvalidPrice(tok) => assert_eq!(tok, "abc"),
        DepthError::InvalidQuantity(_) => panic!("wrong error kind"),
    }
    // The level before the bad token is retained; the one after is not.
    assert!(book.get(100_0000_0000).is_some());
    assert!(book.get(300_0000_0000).is_none());
    // A failed update does not advance the book's clock.
    assert_eq!(book.last_update, 0);
}

#[test]
fn test_invalid_quantity_error() {
    let mut book = OrderBook::new_at(8, 1, 0);
    let upd = update(vec![("100.0", "1.2.3")], vec![]);
    let err = book.update_depth_at(&upd, 5).unwrap_err();
    match err {
        DepthError::InvalidQuantity(tok) => assert_eq!(tok, "1.2.3"),
        DepthError::InvalidPrice(_) => panic!("wrong error kind"),
    }
}

#[test]
fn test_circuit_breaker_suppression() {
    let now: u64 = 1_000_000;
    let mut book = OrderBook::new_at(8, 1, now);
    book.set_at(100_0000_0000, "bid", 1_0000_0000, now);
    assert_eq!(book.size(), 1);
    let last_update = book.last_update;

    book.open_circuit(now + 1_000);
    let upd = update(vec![("200.0", "1.0")], vec![]);
    book.update_depth_at(&upd, now).unwrap();

    // Suppressed: nothing changed
    assert_eq!(book.size(), 1);
    assert_eq!(book.last_update, last_update);
    assert!(book.get(200_0000_0000).is_none());

    // After the deadline, the circuit closes and the update applies
    book.update_depth_at(&upd, now + 2_000).unwrap();
    assert_eq!(book.size(), 2);
    assert!(book.get(200_0000_0000).is_some());
    assert_eq!(book.last_update, now + 2_000);
}

#[test]
fn test_exclusivity_via_set() {
    let mut book = OrderBook::new_at(8, 1, 0);
    book.set_at(100_0000_0000, "bid", 10_0000_0000, 1);
    let level = book.get(100_0000_0000).unwrap();
    assert_eq!(level.bid, 10_0000_0000);
    assert_eq!(level.ask, 0);

    book.set_at(100_0000_0000, "ask", 5_0000_0000, 2);
    let level = book.get(100_0000_0000).unwrap();
    assert_eq!(level.ask, 5_0000_0000);
    assert_eq!(level.bid, 0);
}

#[test]
fn test_construct_and_basic_bbo() {
    let mut book = OrderBook::new(8, 1); // precision 8, tick 0.00000001
    let upd = update(vec![("50000.0", "1.0")], vec![("50001.0", "1.0")]);
    book.update_depth(&upd).unwrap();
    assert_eq!(book.size(), 2);
    assert_eq!(book.get_best_bid(), 5_000_000_000_000); // 50000.0
    assert_eq!(book.get_best_ask(), Some(5_000_100_000_000)); // 50001.0
    assert_eq!(book.get_spread(), 100_000_000); // 1.0
    assert_eq!(book.get_mid_price(), 5_000_050_000_000); // 50000.5
}

#[test]
fn test_band_sum() {
    // Levels at 99.99 bid 2, 100.00 bid 3, 100.01 ask 4, 100.02 ask 1,
    // with tick 0.01.
    let tick = 1_000_000u128; // 0.01
    let mut book = OrderBook::new_at(8, tick, 0);
    book.set_at(99_9900_0000, "bid", 2_0000_0000, 1);
    book.set_at(100_0000_0000, "bid", 3_0000_0000, 2);
    book.set_at(100_0100_0000, "ask", 4_0000_0000, 3);
    book.set_at(100_0200_0000, "ask", 1_0000_0000, 4);

    let band = book.sum_band(100_0000_0000, 1, tick); // [99.99, 100.01]
    assert_eq!(band.bid, 5_0000_0000);
    assert_eq!(band.ask, 4_0000_0000);
    assert_eq!(band.levels, 3);
}

#[test]
fn test_depth_metrics_partition_and_imbalance() {
    let mut book = OrderBook::new_at(8, 1, 0);
    book.set_at(100_0000_0000, "bid", 3_0000_0000, 1);
    book.set_at(101_0000_0000, "ask", 1_0000_0000, 2);

    let m = book.get_depth_metrics();
    assert_eq!(m.total_levels, 2);
    assert_eq!(m.bid_levels, 1);
    assert_eq!(m.ask_levels, 1);
    assert_eq!(m.bid_levels + m.ask_levels, m.total_levels);
    assert_eq!(m.total_bid_volume, 3_0000_0000);
    assert_eq!(m.total_ask_volume, 1_0000_0000);
    // (3 - 1) / (3 + 1) = 0.5, scaled to 8 decimals
    assert_eq!(m.imbalance, 50_000_000);

    // Asks above bids give a negative imbalance
    book.set_at(101_0000_0000, "ask", 9_0000_0000, 3);
    let m2 = book.get_depth_metrics();
    assert_eq!(m2.imbalance, -50_000_000); // (3 - 9) / 12 = -0.5
}

#[test]
fn test_health_report() {
    let now: u64 = 10_000_000;
    let mut book = OrderBook::new_at(8, 1, now);
    book.set_at(100_0000_0000, "bid", 1_0000_0000, now);

    let health = book.get_health_at(now + 100);
    assert_eq!(health.status, "healthy");
    assert!(health.initialized);
    assert_eq!(health.last_update_ms, 100); // age vs. construction time
    assert_eq!(health.book_size, 1);
    assert!(!health.circuit_breaker_open);
    assert_eq!(health.details.bid_levels, 1);
    assert_eq!(health.details.ask_levels, 0);
    assert_eq!(health.details.stale_levels, 0);

    // Silence beyond ten seconds is unhealthy
    let stale = book.get_health_at(now + 20_000);
    assert_eq!(stale.status, "unhealthy");

    // A shorter silence is only degraded
    let degraded = book.get_health_at(now + 7_000);
    assert_eq!(degraded.status, "degraded");

    // An open circuit is unhealthy
    book.open_circuit(now + 50_000);
    let broken = book.get_health_at(now + 100);
    assert_eq!(broken.status, "unhealthy");
}

#[test]
fn test_best_bid_after_updates_is_max() {
    let mut book = OrderBook::new_at(8, 1, 0);
    book.update_depth_at(
        &update(
            vec![("100.0", "1.0"), ("105.0", "2.0"), ("103.0", "1.5")],
            vec![("110.0", "1.0")],
        ),
        1,
    )
    .unwrap();
    book.update_depth_at(&update(vec![("105.0", "0")], vec![]), 2).unwrap();
    // After removing 105.0, the highest remaining bid is 103.0
    assert_eq!(book.get_best_bid(), 103_0000_0000);
}

#[test]
fn test_clear_empties_book() {
    let mut book = OrderBook::new_at(8, 1, 0);
    book.set_at(100_0000_0000, "bid", 1_0000_0000, 1);
    book.set_at(101_0000_0000, "ask", 1_0000_0000, 2);
    assert_eq!(book.size(), 2);
    book.clear();
    assert_eq!(book.size(), 0);
    assert_eq!(book.get_best_bid(), 0);
    assert_eq!(book.get_best_ask(), None);
}

#[test]
fn test_tick_normalization_on_ingest() {
    // With tick 0.01, the midpoint 100.005 lands on the even multiple
    let tick = 1_000_000u128;
    let mut book = OrderBook::new_at(8, tick, 0);
    book.update_depth_at(&update(vec![("100.005", "1.0")], vec![]), 1)
        .unwrap();
    assert!(book.get(100_0000_0000).is_some()); // stored at 100.00
    assert_eq!(book.get_best_bid(), 100_0000_0000);
}

#[test]
fn test_stale_levels_counted() {
    let now: u64 = 1_000_000;
    let mut book = OrderBook::new_at(8, 1, now);
    book.set_at(100_0000_0000, "bid", 1_0000_0000, now);
    book.set_at(101_0000_0000, "ask", 1_0000_0000, now + 500_000);

    // Default stale threshold is 300 s; at now + 400 s only the first
    // level has aged past it.
    let health = book.get_health_at(now + 400_000);
    assert_eq!(health.details.stale_levels, 1);
}
