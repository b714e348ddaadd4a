use order_matcher::level::PriceLevel;
use order_matcher::matcher::{Matcher, MatcherStats};
use order_matcher::order::{Fill, Order, Side};

fn fill_tuple(f: &Fill) -> (u64, u64, u64, u64) {
    (f.maker_id, f.taker_id, f.price, f.quantity)
}

fn submit(m: &mut Matcher, id: u64, price: u64, qty: u64, side: Side) -> Vec<(u64, u64, u64, u64)> {
    let order = Order::new(id, price, qty, side, id);
    m.process_order(order).iter().map(fill_tuple).collect()
}

#[test]
fn order_new_starts_unfilled() {
    let o = Order::new(7, 100, 10, Side::Bid, 3);
    assert_eq!(o.id, 7);
    assert_eq!(o.price, 100);
    assert_eq!(o.quantity, 10);
    assert_eq!(o.filled, 0);
    assert_eq!(o.timestamp, 3);
    assert_eq!(o.side, Side::Bid);
    assert_eq!(o.remaining(), 10);
}

#[test]
fn remaining_after_partial_fill() {
    let mut o = Order::new(1, 100, 10, Side::Ask, 1);
    o.filled = 4;
    assert_eq!(o.remaining(), 6);
    o.filled = 10;
    assert_eq!(o.remaining(), 0);
}

#[test]
fn price_level_fifo_and_total() {
    let mut level = PriceLevel::new(100);
    assert!(level.is_empty());
    assert_eq!(level.total_qty, 0);
    level.add(Order::new(1, 100, 5, Side::Ask, 1));
    level.add(Order::new(2, 100, 7, Side::Ask, 2));
    assert_eq!(level.total_qty, 12);
    assert!(!level.is_empty());
    {
        let head = level.front_mut().unwrap();
        assert_eq!(head.id, 1);
        head.filled = 2;
    }
    assert_eq!(level.front_mut().unwrap().filled, 2);
    assert_eq!(level.pop_front().unwrap().id, 1);
    assert_eq!(level.pop_front().unwrap().id, 2);
    assert!(level.pop_front().is_none());
    assert!(level.front_mut().is_none());
    assert!(level.is_empty());
}

#[test]
fn empty_matcher() {
    let m = Matcher::new();
    assert_eq!(m.best_bid(), None);
    assert_eq!(m.best_ask(), None);
    assert_eq!(
        m.stats(),
        MatcherStats { orders_processed: 0, total_fills: 0, total_volume: 0, bid_levels: 0, ask_levels: 0 }
    );
}

#[test]
fn example_scenario_partial_then_sweep() {
    let mut m = Matcher::new();
    let fills = submit(&mut m, 1, 100, 10, Side::Ask);
    assert!(fills.is_empty());
    assert_eq!(m.best_ask(), Some(100));
    assert_eq!(m.stats().ask_levels, 1);

    let fills = submit(&mut m, 2, 100, 4, Side::Bid);
    assert_eq!(fills, vec![(1, 2, 100, 4)]);
    assert_eq!(m.best_ask(), Some(100));
    assert_eq!(m.best_bid(), None);

    let fills = submit(&mut m, 3, 101, 10, Side::Bid);
    assert_eq!(fills, vec![(1, 3, 100, 6)]);
    assert_eq!(m.best_ask(), None);
    assert_eq!(m.best_bid(), Some(101));

    // The 4 left of order 3 rest at 101: an ask at 101 for 5 takes exactly 4.
    let fills = submit(&mut m, 4, 101, 5, Side::Ask);
    assert_eq!(fills, vec![(3, 4, 101, 4)]);
    assert_eq!(m.best_bid(), None);
    assert_eq!(m.best_ask(), Some(101));
}

#[test]
fn maker_sets_the_price() {
    let mut m = Matcher::new();
    submit(&mut m, 1, 95, 3, Side::Ask);
    let fills = submit(&mut m, 2, 120, 3, Side::Bid);
    assert_eq!(fills, vec![(1, 2, 95, 3)]);
    submit(&mut m, 3, 130, 2, Side::Bid);
    let fills = submit(&mut m, 4, 100, 2, Side::Ask);
    assert_eq!(fills, vec![(3, 4, 130, 2)]);
}

#[test]
fn time_priority_within_a_level() {
    let mut m = Matcher::new();
    submit(&mut m, 1, 100, 5, Side::Bid);
    submit(&mut m, 2, 100, 5, Side::Bid);
    submit(&mut m, 3, 100, 5, Side::Bid);
    let fills = submit(&mut m, 4, 100, 7, Side::Ask);
    assert_eq!(fills, vec![(1, 4, 100, 5), (2, 4, 100, 2)]);
    let fills = submit(&mut m, 5, 100, 4, Side::Ask);
    assert_eq!(fills, vec![(2, 5, 100, 3), (3, 5, 100, 1)]);
}

#[test]
fn price_priority_beats_arrival() {
    let mut m = Matcher::new();
    submit(&mut m, 1, 103, 5, Side::Ask);
    submit(&mut m, 2, 101, 5, Side::Ask);
    submit(&mut m, 3, 102, 5, Side::Ask);
    let fills = submit(&mut m, 4, 103, 12, Side::Bid);
    assert_eq!(fills, vec![(2, 4, 101, 5), (3, 4, 102, 5), (1, 4, 103, 2)]);
    assert_eq!(m.best_ask(), Some(103));
    assert_eq!(m.stats().ask_levels, 1);
}

#[test]
fn no_fill_when_prices_do_not_cross() {
    let mut m = Matcher::new();
    submit(&mut m, 1, 101, 5, Side::Ask);
    let fills = submit(&mut m, 2, 100, 5, Side::Bid);
    assert!(fills.is_empty());
    assert_eq!(m.best_bid(), Some(100));
    assert_eq!(m.best_ask(), Some(101));
    let s = m.stats();
    assert_eq!((s.bid_levels, s.ask_levels), (1, 1));
}

#[test]
fn sweep_stops_at_limit_and_rests_remainder() {
    let mut m = Matcher::new();
    submit(&mut m, 1, 100, 2, Side::Bid);
    submit(&mut m, 2, 99, 2, Side::Bid);
    submit(&mut m, 3, 98, 2, Side::Bid);
    let fills = submit(&mut m, 4, 99, 10, Side::Ask);
    assert_eq!(fills, vec![(1, 4, 100, 2), (2, 4, 99, 2)]);
    assert_eq!(m.best_bid(), Some(98));
    assert_eq!(m.best_ask(), Some(99));
}

#[test]
fn levels_removed_when_emptied() {
    let mut m = Matcher::new();
    submit(&mut m, 1, 100, 5, Side::Ask);
    submit(&mut m, 2, 100, 5, Side::Ask);
    assert_eq!(m.stats().ask_levels, 1);
    submit(&mut m, 3, 100, 10, Side::Bid);
    assert_eq!(m.stats().ask_levels, 0);
    assert_eq!(m.stats().bid_levels, 0);
    assert_eq!(m.best_ask(), None);
    assert_eq!(m.best_bid(), None);
}

#[test]
fn stats_count_orders_fills_and_volume() {
    let mut m = Matcher::new();
    submit(&mut m, 1, 100, 5, Side::Ask);
    submit(&mut m, 2, 101, 5, Side::Ask);
    let fills = submit(&mut m, 3, 101, 8, Side::Bid);
    assert_eq!(fills.len(), 2);
    let s = m.stats();
    assert_eq!(s.orders_processed, 3);
    assert_eq!(s.total_fills, 2);
    assert_eq!(s.total_volume, 8);
    assert_eq!(s.bid_levels, 0);
    assert_eq!(s.ask_levels, 1);
}

#[test]
fn stats_read_twice_agree() {
    let mut m = Matcher::new();
    submit(&mut m, 1, 100, 5, Side::Ask);
    submit(&mut m, 2, 100, 3, Side::Bid);
    let a = m.stats();
    let b = m.stats();
    assert_eq!(a, b);
}

#[test]
fn fill_quantities_add_up_to_taker_fill() {
    let mut m = Matcher::new();
    submit(&mut m, 1, 100, 3, Side::Ask);
    submit(&mut m, 2, 100, 4, Side::Ask);
    submit(&mut m, 3, 102, 6, Side::Ask);
    let fills = submit(&mut m, 4, 102, 10, Side::Bid);
    let total: u64 = fills.iter().map(|f| f.3).sum();
    assert_eq!(total, 10);
    assert!(fills.iter().all(|f| f.3 > 0 && f.1 == 4));
    // 3 of order 3 are left at 102.
    let fills = submit(&mut m, 5, 102, 10, Side::Bid);
    assert_eq!(fills, vec![(3, 5, 102, 3)]);
    assert_eq!(m.best_bid(), Some(102));
    assert_eq!(m.best_ask(), None);
}

#[test]
fn book_never_crossed_over_a_stream() {
    let mut m = Matcher::new();
    for i in 0..200u64 {
        let side = if (i * 7) % 3 == 0 { Side::Bid } else { Side::Ask };
        let price = 1000 + (i * 37) % 21;
        let qty = 1 + (i * 13) % 9;
        let fills = submit(&mut m, i, price, qty, side);
        let total: u64 = fills.iter().map(|f| f.3).sum();
        assert!(total <= qty);
        if let (Some(b), Some(a)) = (m.best_bid(), m.best_ask()) {
            assert!(b < a);
        }
    }
    assert_eq!(m.stats().orders_processed, 200);
}

#[test]
fn demo_stream_like_the_program() {
    let mut m = Matcher::new();
    let mut matched = 0;
    for i in 0..10u64 {
        let side = if i % 2 == 0 { Side::Bid } else { Side::Ask };
        let price = 50000 + (i % 5) * 10;
        if !m.process_order(Order::new(i, price, 100, side, i)).is_empty() {
            matched += 1;
        }
    }
    let s = m.stats();
    assert_eq!(s.orders_processed, 10);
    assert!(s.total_fills >= matched);
    if let (Some(b), Some(a)) = (m.best_bid(), m.best_ask()) {
        assert!(b < a);
    }
}
