use myrtle_wyckoff_dstack::amount::Amount;
use myrtle_wyckoff_dstack::book::OrderBook;
use myrtle_wyckoff_dstack::ledger::{Address, Inventory, Warehouse};
use myrtle_wyckoff_dstack::matching::match_order;
use myrtle_wyckoff_dstack::requests::{submit_order, Order};

fn amt(x: u64) -> Amount {
    Amount::from_u64(x)
}

fn val(a: &Amount) -> u128 {
    assert_eq!(a.l2, 0);
    assert_eq!(a.l3, 0);
    (a.l0 as u128) | ((a.l1 as u128) << 64)
}

fn addr(b: u8) -> Address {
    Address::new([b; 20])
}

fn funded(w: &mut Warehouse, a: Address, eth: u64, usdc: u64) {
    w.insert_inventory(Inventory::new(a, amt(eth), amt(0), amt(usdc), amt(0), 0, false));
}

fn order(price: u64, qty: u64, is_bid: bool) -> Order {
    Order { price: amt(price), qty: amt(qty), is_bid, timestamp: 0 }
}

fn book_is_empty(b: &OrderBook) -> bool {
    b.bids.is_empty() && b.asks.is_empty()
}

#[test]
fn simple_cross_without_residue() {
    let mut w = Warehouse::new(vec![1u8; 32], vec![2u8; 32]);
    let mut b = OrderBook::new();
    let a = addr(0xa);
    let bb = addr(0xb);
    funded(&mut w, a, 1000, 0);
    funded(&mut w, bb, 0, 1_000_000);
    let (ex, vol, oid) = submit_order(&mut w, &mut b, &a, &order(1500, 100, false)).unwrap();
    assert_eq!(val(&ex), 0);
    assert_eq!(val(&vol), 0);
    let ask_oid = oid.unwrap();
    assert_eq!(val(&w.inventory_of(&a).eth_liabilities), 100);

    let (ex, vol, oid) = submit_order(&mut w, &mut b, &bb, &order(1500, 100, true)).unwrap();
    assert_eq!(val(&ex), 100);
    assert_eq!(val(&vol), 150_000);
    assert_eq!(oid, None);
    assert!(book_is_empty(&b));

    let ia = w.inventory_of(&a);
    assert_eq!(val(&ia.eth_balance), 900);
    assert_eq!(val(&ia.usdc_balance), 150_000);
    assert_eq!(val(&ia.eth_liabilities), 0);
    let ib = w.inventory_of(&bb);
    assert_eq!(val(&ib.eth_balance), 100);
    assert_eq!(val(&ib.usdc_balance), 850_000);
    assert_eq!(val(&ib.usdc_liabilities), 0);
    assert!(w.reservation_of(ask_oid).is_none());
}

#[test]
fn simple_cross_reports_the_filled_ask() {
    let mut b = OrderBook::new();
    let ask = b.next_id().unwrap();
    b.add_order(ask, amt(100), amt(1500), false);
    let r = match_order(&mut b, amt(1500), amt(100), true);
    assert_eq!(val(&r.executed), 100);
    assert_eq!(val(&r.volume), 150_000);
    assert_eq!(r.new_oid, None);
    assert_eq!(r.filled.len(), 1);
    assert_eq!(r.filled[0].0, ask);
    assert_eq!(val(&r.filled[0].1), 1500);
    assert!(r.partial.is_none());
    assert!(book_is_empty(&b));
}

#[test]
fn partial_fill_with_residue() {
    let mut b = OrderBook::new();
    let o1 = b.next_id().unwrap();
    b.add_order(o1, amt(30), amt(1500), false);
    let o2 = b.next_id().unwrap();
    b.add_order(o2, amt(50), amt(1501), false);
    assert_eq!((o1, o2), (1, 2));
    let r = match_order(&mut b, amt(1502), amt(100), true);
    assert_eq!(val(&r.executed), 80);
    assert_eq!(val(&r.volume), 30 * 1500 + 50 * 1501);
    assert_eq!(val(&r.volume), 120_050);
    assert_eq!(r.filled.len(), 2);
    assert_eq!((r.filled[0].0, val(&r.filled[0].1)), (1, 1500));
    assert_eq!((r.filled[1].0, val(&r.filled[1].1)), (2, 1501));
    assert!(r.partial.is_none());
    let residue = r.new_oid.unwrap();
    assert!(b.asks.is_empty());
    assert_eq!(b.bids.len(), 1);
    assert_eq!(val(&b.bids[0].price), 1502);
    assert_eq!(val(&b.bids[0].size), 20);
    assert_eq!(b.bids[0].orders[0].oid, residue);
    assert_eq!(val(&b.bids[0].orders[0].qty), 20);
}

#[test]
fn partial_fill_at_last_touched_level() {
    let mut b = OrderBook::new();
    b.next_oid = 3;
    let o3 = b.next_id().unwrap();
    assert_eq!(o3, 3);
    b.add_order(o3, amt(70), amt(1500), false);
    let r = match_order(&mut b, amt(1500), amt(50), true);
    assert_eq!(val(&r.executed), 50);
    assert_eq!(val(&r.volume), 75_000);
    assert!(r.filled.is_empty());
    let (p_oid, p_price) = r.partial.unwrap();
    assert_eq!((p_oid, val(&p_price)), (3, 1500));
    assert_eq!(r.new_oid, None);
    assert_eq!(b.asks.len(), 1);
    assert_eq!(val(&b.asks[0].size), 20);
    assert_eq!(val(&b.asks[0].orders[0].qty), 20);
    assert!(b.bids.is_empty());
}

#[test]
fn partial_fill_settles_the_resting_owner() {
    let mut w = Warehouse::new(vec![1u8; 32], vec![2u8; 32]);
    let mut b = OrderBook::new();
    let a = addr(1);
    let c = addr(2);
    funded(&mut w, a, 100, 0);
    funded(&mut w, c, 0, 1_000_000);
    let (_, _, ask) = submit_order(&mut w, &mut b, &a, &order(1500, 70, false)).unwrap();
    let ask = ask.unwrap();
    let (ex, vol, oid) = submit_order(&mut w, &mut b, &c, &order(1500, 50, true)).unwrap();
    assert_eq!((val(&ex), val(&vol), oid), (50, 75_000, None));
    let ia = w.inventory_of(&a);
    assert_eq!(val(&ia.eth_balance), 50);
    assert_eq!(val(&ia.usdc_balance), 75_000);
    assert_eq!(val(&ia.eth_liabilities), 20);
    let res = w.reservation_of(ask).unwrap();
    assert_eq!(val(&res.qty), 20);
}

#[test]
fn exact_depth_clears_levels_without_residue() {
    let mut b = OrderBook::new();
    for (q, p) in [(10u64, 100u64), (20, 100), (30, 101)] {
        let id = b.next_id().unwrap();
        b.add_order(id, amt(q), amt(p), false);
    }
    let far = b.next_id().unwrap();
    b.add_order(far, amt(5), amt(200), false);
    let r = match_order(&mut b, amt(150), amt(60), true);
    assert_eq!(val(&r.executed), 60);
    assert_eq!(r.filled.len(), 3);
    assert!(r.partial.is_none());
    assert_eq!(r.new_oid, None);
    assert_eq!(b.asks.len(), 1);
    assert_eq!(val(&b.asks[0].price), 200);
}

#[test]
fn excess_over_depth_rests_at_incoming_price() {
    let mut b = OrderBook::new();
    let id = b.next_id().unwrap();
    b.add_order(id, amt(10), amt(100), true);
    let r = match_order(&mut b, amt(90), amt(25), false);
    assert_eq!(val(&r.executed), 10);
    assert_eq!(val(&r.volume), 1000);
    assert!(r.partial.is_none());
    let residue = r.new_oid.unwrap();
    assert!(b.bids.is_empty());
    assert_eq!(b.asks.len(), 1);
    assert_eq!(val(&b.asks[0].price), 90);
    assert_eq!(b.asks[0].orders[0].oid, residue);
    assert_eq!(val(&b.asks[0].orders[0].qty), 15);
}

#[test]
fn worse_price_rests_without_fills() {
    let mut b = OrderBook::new();
    let id = b.next_id().unwrap();
    b.add_order(id, amt(10), amt(1500), false);
    let r = match_order(&mut b, amt(1499), amt(10), true);
    assert_eq!(val(&r.executed), 0);
    assert_eq!(val(&r.volume), 0);
    assert!(r.filled.is_empty());
    assert!(r.partial.is_none());
    assert!(r.new_oid.is_some());
    assert_eq!(b.asks.len(), 1);
    assert_eq!(b.bids.len(), 1);
    assert_eq!(val(&b.bids[0].price), 1499);
}

#[test]
fn levels_stay_sorted_and_fifo() {
    let mut b = OrderBook::new();
    for (q, p) in [(1u64, 100u64), (2, 102), (3, 101), (4, 102)] {
        let id = b.next_id().unwrap();
        b.add_order(id, amt(q), amt(p), true);
    }
    let prices: Vec<u128> = b.bids.iter().map(|l| val(&l.price)).collect();
    assert_eq!(prices, vec![102, 101, 100]);
    assert_eq!(b.bids[0].orders.len(), 2);
    assert_eq!(b.bids[0].orders[0].oid, 2);
    assert_eq!(b.bids[0].orders[1].oid, 4);
    assert_eq!(val(&b.bids[0].size), 6);
    let info = b.remove_order(2).unwrap();
    assert!(info.is_bid);
    assert_eq!(val(&info.price), 102);
    assert_eq!(val(&b.bids[0].size), 4);
    b.remove_order(4).unwrap();
    assert_eq!(b.bids.len(), 2);
    assert!(b.remove_order(99).is_none());
}

#[test]
fn order_ids_run_out_at_saturation() {
    let mut b = OrderBook::new();
    b.next_oid = u32::MAX;
    assert_eq!(b.next_id(), None);
}
