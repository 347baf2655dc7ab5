use myrtle_wyckoff_dstack::amount::Amount;
use myrtle_wyckoff_dstack::book::OrderBook;
use myrtle_wyckoff_dstack::errors::MwError;
use myrtle_wyckoff_dstack::ledger::{gulp_deposits, Address, Inventory, Warehouse};
use myrtle_wyckoff_dstack::requests::{
    cancel_order, check_solvency, new_order, replace_order, revise_order, submit_order, withdraw_order, CancelOrder, Order,
    UserRequest,
};

fn amt(x: u64) -> Amount {
    Amount::from_u64(x)
}

fn val(a: &Amount) -> u128 {
    assert_eq!(a.l2, 0);
    assert_eq!(a.l3, 0);
    (a.l0 as u128) | ((a.l1 as u128) << 64)
}

fn addr(b: u8) -> Address {
    Address::new([b; 20])
}

fn order(price: u64, qty: u64, is_bid: bool) -> Order {
    Order { price: amt(price), qty: amt(qty), is_bid, timestamp: 0 }
}

fn setup() -> (Warehouse, OrderBook) {
    (Warehouse::new(vec![1u8; 32], vec![2u8; 32]), OrderBook::new())
}

#[test]
fn insufficient_usdc_is_refused_without_change() {
    let (mut w, mut b) = setup();
    let user = addr(0xb);
    w.insert_inventory(Inventory::new(user, amt(0), amt(0), amt(100_000), amt(0), 0, false));
    let r = submit_order(&mut w, &mut b, &user, &order(1500, 100, true));
    match r {
        Err(MwError::InsufficientBalance { token }) => assert_eq!(token, "USDC"),
        other => panic!("unexpected {:?}", other),
    }
    assert!(b.bids.is_empty() && b.asks.is_empty());
    assert_eq!(b.next_oid, 1);
    let inv = w.inventory_of(&user);
    assert_eq!(val(&inv.usdc_balance), 100_000);
    assert_eq!(val(&inv.usdc_liabilities), 0);
    assert!(w.reservations.is_empty());
}

#[test]
fn insufficient_eth_is_refused() {
    let (mut w, mut b) = setup();
    let user = addr(3);
    w.insert_inventory(Inventory::new(user, amt(5), amt(0), amt(0), amt(0), 0, false));
    match submit_order(&mut w, &mut b, &user, &order(10, 6, false)) {
        Err(MwError::InsufficientBalance { token }) => assert_eq!(token, "ETH"),
        other => panic!("unexpected {:?}", other),
    }
}

#[test]
fn takers_bypass_solvency() {
    let (mut w, mut b) = setup();
    let user = addr(4);
    w.insert_inventory(Inventory::new(user, amt(0), amt(0), amt(0), amt(0), 0, true));
    let (ex, _, oid) = submit_order(&mut w, &mut b, &user, &order(1500, 100, true)).unwrap();
    assert_eq!(val(&ex), 0);
    assert!(oid.is_some());
}

#[test]
fn zero_quantity_is_invalid() {
    let (mut w, mut b) = setup();
    let user = addr(4);
    assert!(matches!(submit_order(&mut w, &mut b, &user, &order(1500, 0, true)), Err(MwError::InvalidOrderParams)));
    let mut huge = order(1, 1, true);
    huge.qty = Amount { l0: 0, l1: 0, l2: 1, l3: 0 };
    assert!(matches!(submit_order(&mut w, &mut b, &user, &huge), Err(MwError::InvalidOrderParams)));
}

#[test]
fn solvency_verdict_is_repeatable() {
    let inv = Inventory::new(addr(1), amt(10), amt(4), amt(1000), amt(100), 0, false);
    let first = check_solvency(&inv, &amt(6), &amt(1), false).is_ok();
    let second = check_solvency(&inv, &amt(6), &amt(1), false).is_ok();
    assert!(first);
    assert_eq!(first, second);
    assert!(check_solvency(&inv, &amt(7), &amt(1), false).is_err());
    assert!(check_solvency(&inv, &amt(9), &amt(100), true).is_ok());
    assert!(check_solvency(&inv, &amt(10), &amt(100), true).is_err());
}

#[test]
fn cancel_by_non_owner_is_unauthorized() {
    let (mut w, mut b) = setup();
    let a = addr(0xa);
    let x = addr(0xee);
    w.insert_inventory(Inventory::new(a, amt(100), amt(0), amt(0), amt(0), 0, false));
    b.next_oid = 7;
    let (_, _, oid) = submit_order(&mut w, &mut b, &a, &order(1500, 10, false)).unwrap();
    assert_eq!(oid, Some(7));
    let r = withdraw_order(&mut w, &mut b, &x, 7);
    assert!(matches!(r, Err(MwError::UnauthorizedAccess)));
    assert_eq!(b.asks.len(), 1);
    assert_eq!(b.asks[0].orders[0].oid, 7);
    assert!(w.reservation_of(7).is_some());
    assert_eq!(val(&w.inventory_of(&a).eth_liabilities), 10);
}

#[test]
fn cancel_by_owner_releases_the_reservation() {
    let (mut w, mut b) = setup();
    let a = addr(0xa);
    w.insert_inventory(Inventory::new(a, amt(0), amt(0), amt(20_000), amt(0), 0, false));
    let (_, _, oid) = submit_order(&mut w, &mut b, &a, &order(100, 50, true)).unwrap();
    let oid = oid.unwrap();
    assert_eq!(val(&w.inventory_of(&a).usdc_liabilities), 5000);
    withdraw_order(&mut w, &mut b, &a, oid).unwrap();
    assert!(b.bids.is_empty());
    assert_eq!(val(&w.inventory_of(&a).usdc_liabilities), 0);
    assert!(matches!(withdraw_order(&mut w, &mut b, &a, oid), Err(MwError::OrderNotFound { order_id }) if order_id == oid));
}

#[test]
fn fill_bid_moves_balances_exactly() {
    let (mut w, _) = setup();
    let a = addr(9);
    w.insert_inventory(Inventory::new(a, amt(1), amt(0), amt(10_000), amt(0), 0, false));
    w.add_order(5, a, amt(4), amt(1500), true);
    let before = w.inventory_of(&a);
    assert_eq!(val(&before.usdc_liabilities), 6000);
    let q = w.fill_bid(5, amt(1500)).unwrap();
    assert_eq!(val(&q), 4);
    let after = w.inventory_of(&a);
    assert_eq!(val(&after.eth_balance), 5);
    assert_eq!(val(&after.usdc_balance), 4000);
    assert_eq!(val(&after.usdc_liabilities), 0);
    assert!(matches!(w.fill_bid(5, amt(1500)), Err(MwError::OrderNotFound { order_id: 5 })));
}

#[test]
fn add_then_remove_restores_the_ledger() {
    let (mut w, _) = setup();
    let a = addr(9);
    w.insert_inventory(Inventory::new(a, amt(70), amt(3), amt(500), amt(11), 2, false));
    w.add_order(8, a, amt(7), amt(9), false);
    assert_eq!(val(&w.inventory_of(&a).eth_liabilities), 10);
    let (q, inv) = w.remove_ask(8).unwrap();
    assert_eq!(val(&q), 7);
    assert_eq!(val(&inv.eth_liabilities), 3);
    assert!(w.reservation_of(8).is_none());
    w.add_order(9, a, amt(7), amt(9), true);
    assert_eq!(val(&w.inventory_of(&a).usdc_liabilities), 74);
    let (_, inv) = w.remove_bid(9, amt(9)).unwrap();
    assert_eq!(val(&inv.usdc_liabilities), 11);
    assert_eq!(val(&inv.eth_balance), 70);
    assert_eq!(val(&inv.usdc_balance), 500);
    assert!(w.reservations.is_empty());
}

#[test]
fn gulp_credits_deposit_sums() {
    let (mut w, _) = setup();
    let u = addr(6);
    let (eth, usdc) = gulp_deposits(&mut w, &u, &vec![(amt(1), amt(10)), (amt(2), amt(20))]);
    assert_eq!((val(&eth), val(&usdc)), (3, 30));
    let inv = w.inventory_of(&u);
    assert_eq!(val(&inv.eth_balance), 3);
    assert_eq!(val(&inv.usdc_balance), 30);
    assert_eq!(inv.deposit_nonce, 1);
    let (eth, _) = gulp_deposits(&mut w, &u, &vec![]);
    assert_eq!(val(&eth), 0);
    assert_eq!(w.inventory_of(&u).deposit_nonce, 2);
}

#[test]
fn modify_resets_priority_under_a_new_id() {
    let (mut w, mut b) = setup();
    let a = addr(1);
    let c = addr(2);
    w.insert_inventory(Inventory::new(a, amt(0), amt(0), amt(1_000_000), amt(0), 0, false));
    w.insert_inventory(Inventory::new(c, amt(0), amt(0), amt(1_000_000), amt(0), 0, false));
    let (_, _, first) = submit_order(&mut w, &mut b, &a, &order(100, 10, true)).unwrap();
    let (_, _, second) = submit_order(&mut w, &mut b, &c, &order(100, 10, true)).unwrap();
    let first = first.unwrap();
    let new_oid = revise_order(&mut w, &mut b, &a, first, &order(100, 5, true)).unwrap();
    assert_eq!(new_oid, 3);
    assert_eq!(b.bids[0].orders[0].oid, second.unwrap());
    assert_eq!(b.bids[0].orders[1].oid, new_oid);
    assert_eq!(val(&b.bids[0].size), 15);
    assert_eq!(val(&w.inventory_of(&a).usdc_liabilities), 500);
    assert!(w.reservation_of(first).is_none());
    assert!(matches!(revise_order(&mut w, &mut b, &c, new_oid, &order(100, 5, true)), Err(MwError::UnauthorizedAccess)));
    match revise_order(&mut w, &mut b, &a, new_oid, &order(100_000, 100, true)) {
        Err(MwError::InsufficientBalance { token }) => assert_eq!(token, "USDC"),
        other => panic!("unexpected {:?}", other),
    }
}

#[test]
fn listed_orders_come_from_the_book() {
    let (mut w, mut b) = setup();
    let a = addr(1);
    assert!(matches!(w.get_orders(&b, &a, 5), Err(MwError::NoOrdersFound)));
    w.insert_inventory(Inventory::new(a, amt(100), amt(0), amt(0), amt(0), 0, false));
    submit_order(&mut w, &mut b, &a, &order(1600, 50, false)).unwrap();
    let orders = w.get_orders(&b, &a, 5).unwrap();
    assert_eq!(orders.len(), 1);
    assert_eq!(val(&orders[0].price), 1600);
    assert_eq!(val(&orders[0].qty), 50);
    assert!(!orders[0].is_bid);
    assert_eq!(orders[0].timestamp, 5);
}

#[test]
fn timestamps_older_than_the_window_are_refused() {
    let o = Order { price: amt(1), qty: amt(1), is_bid: true, timestamp: 1_000 };
    assert!(o.validate_timestamp(61_000).is_ok());
    assert!(matches!(o.validate_timestamp(61_001), Err(MwError::InvalidTimestamp)));
    assert!(o.validate_timestamp(10).is_ok());
    let c = CancelOrder { oid: 1, timestamp: 0 };
    assert!(c.validate_timestamp(59_999).is_ok());
}

#[test]
fn request_type_must_match() {
    let r = UserRequest { user: addr(1), timestamp: 0, request_type: "orders".to_string() };
    assert!(r.validate_request_type("orders").is_ok());
    assert!(matches!(r.validate_request_type("inventory"), Err(MwError::InvalidRequestType)));
}

#[test]
fn status_codes_follow_the_error_kind() {
    assert_eq!(MwError::InvalidSignature.status_code(), 401);
    assert_eq!(MwError::UnauthorizedAccess.status_code(), 401);
    assert_eq!(MwError::NotTaker.status_code(), 401);
    assert_eq!(MwError::OrderNotFound { order_id: 1 }.status_code(), 404);
    assert_eq!(MwError::NoOrdersFound.status_code(), 404);
    assert_eq!(MwError::InvalidTimestamp.status_code(), 400);
    assert_eq!(MwError::InsufficientBalance { token: "ETH".to_string() }.status_code(), 400);
    assert_eq!(MwError::SnapshotError("x".to_string()).status_code(), 400);
}

fn user_signer() -> Warehouse {
    Warehouse::new(vec![7u8; 32], vec![0u8; 32])
}

#[test]
fn signed_order_flows_through_the_envelope() {
    let (mut w, mut b) = setup();
    let user = user_signer().enclave_address().unwrap();
    w.insert_inventory(Inventory::new(user, amt(100), amt(0), amt(0), amt(0), 0, false));
    let digest = [5u8; 32];
    let sig = user_signer().sign(&digest).unwrap();
    let o = Order { price: amt(10), qty: amt(4), is_bid: false, timestamp: 100_000 };
    assert!(matches!(new_order(&mut w, &mut b, &user, &o, &sig, &[6u8; 32], 100_000), Err(MwError::InvalidSignature)));
    assert!(matches!(new_order(&mut w, &mut b, &addr(3), &o, &sig, &digest, 100_000), Err(MwError::InvalidSignature)));
    assert!(matches!(new_order(&mut w, &mut b, &user, &o, &sig, &digest, 200_000), Err(MwError::InvalidTimestamp)));
    let mut bad = [0u8; 65];
    bad[64] = 27;
    assert!(matches!(new_order(&mut w, &mut b, &user, &o, &bad, &digest, 100_000), Err(MwError::SignatureRecoveryError)));
    assert!(b.asks.is_empty());
    let (_, _, oid) = new_order(&mut w, &mut b, &user, &o, &sig, &digest, 100_000).unwrap();
    let oid = oid.unwrap();
    let new_oid = replace_order(&user, &o, oid, &sig, &digest, 100_000, &mut w, &mut b).unwrap();
    assert_eq!(new_oid, oid + 1);
    let cancel = CancelOrder { oid: new_oid, timestamp: 100_000 };
    cancel_order(&user, &cancel, &sig, &digest, 100_000, &mut w, &mut b).unwrap();
    assert!(b.asks.is_empty());
    assert_eq!(val(&w.inventory_of(&user).eth_liabilities), 0);
}

#[test]
fn resting_asks_never_exceed_the_eth_balance() {
    let (mut w, mut b) = setup();
    let a = addr(0xa);
    w.insert_inventory(Inventory::new(a, amt(100), amt(0), amt(0), amt(0), 0, false));
    submit_order(&mut w, &mut b, &a, &order(1500, 60, false)).unwrap();
    match submit_order(&mut w, &mut b, &a, &order(1600, 41, false)) {
        Err(MwError::InsufficientBalance { token }) => assert_eq!(token, "ETH"),
        other => panic!("unexpected {:?}", other),
    }
    submit_order(&mut w, &mut b, &a, &order(1600, 40, false)).unwrap();
    let inv = w.inventory_of(&a);
    assert_eq!(val(&inv.eth_liabilities), 100);
    assert!(val(&inv.eth_liabilities) <= val(&inv.eth_balance));
    let resting: u128 = b.asks.iter().flat_map(|l| l.orders.iter()).map(|o| val(&o.qty)).sum();
    assert_eq!(resting, 100);
}

#[test]
fn modify_beyond_eth_cover_is_refused_without_change() {
    let (mut w, mut b) = setup();
    let a = addr(5);
    w.insert_inventory(Inventory::new(a, amt(10), amt(0), amt(0), amt(0), 0, false));
    let (_, _, oid) = submit_order(&mut w, &mut b, &a, &order(200, 8, false)).unwrap();
    let oid = oid.unwrap();
    match revise_order(&mut w, &mut b, &a, oid, &order(200, 11, false)) {
        Err(MwError::InsufficientBalance { token }) => assert_eq!(token, "ETH"),
        other => panic!("unexpected {:?}", other),
    }
    assert_eq!(b.next_oid, oid + 1);
    assert_eq!(b.asks[0].orders[0].oid, oid);
    assert_eq!(val(&b.asks[0].orders[0].qty), 8);
    assert_eq!(val(&w.inventory_of(&a).eth_liabilities), 8);
    let new_oid = revise_order(&mut w, &mut b, &a, oid, &order(210, 10, false)).unwrap();
    assert_eq!(val(&w.inventory_of(&a).eth_liabilities), 10);
    assert_eq!(val(&b.asks[0].price), 210);
    assert_eq!(b.asks[0].orders[0].oid, new_oid);
}

#[test]
fn takers_may_modify_beyond_cover() {
    let (mut w, mut b) = setup();
    let t = addr(6);
    w.insert_inventory(Inventory::new(t, amt(0), amt(0), amt(0), amt(0), 0, true));
    let (_, _, oid) = submit_order(&mut w, &mut b, &t, &order(100, 5, false)).unwrap();
    assert!(revise_order(&mut w, &mut b, &t, oid.unwrap(), &order(100, 50, true)).is_ok());
    assert_eq!(b.bids.len(), 1);
    assert!(b.asks.is_empty());
}
