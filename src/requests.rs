//! The request layer: admission of signed user requests and dispatch to the
//! matching engine and the ledger.

use vstd::prelude::*;
use crate::amount::{Amount, order_bound, sat_add, sat_sub, sat_mul, saturating_add, saturating_sub, saturating_mul, lt};
use crate::book::{OrderBook, LevelView, flat, placed, rests_in, removed_from, lemma_flat_rests, lemma_flat_distinct};
use crate::errors::MwError;
use crate::ledger::{Address, Inventory, InventoryView, Warehouse, same_address, reserve, release};
use crate::matching::{MatchResult, MatchSpec, match_order, match_spec, fills_view, partial_view, lemma_match_takes_front};
use crate::signing::{recover_signer, recovered_signer};

verus! {

/// How far (in milliseconds) a request's timestamp may lie behind the clock.
pub const TIMESTAMP_WINDOW_MS: u64 = 60000;

/// A new or replacement order.
#[derive(Clone, Copy, Debug)]
pub struct Order {
    pub price: Amount,
    pub qty: Amount,
    pub is_bid: bool,
    /// Milliseconds since the epoch.
    pub timestamp: u64,
}

/// A request to cancel a resting order.
#[derive(Clone, Copy, Debug)]
pub struct CancelOrder {
    pub oid: u32,
    /// Milliseconds since the epoch.
    pub timestamp: u64,
}

/// A signed read request; `request_type` is `"inventory"` or `"orders"`.
#[derive(Clone, Debug)]
pub struct UserRequest {
    pub user: Address,
    pub timestamp: u64,
    pub request_type: String,
}

/// Whether `timestamp` is no more than the window behind `now_ms`.
pub open spec fn fresh(timestamp: u64, now_ms: u64) -> bool {
    now_ms < TIMESTAMP_WINDOW_MS || timestamp >= now_ms - TIMESTAMP_WINDOW_MS
}

/// `Ok` iff `timestamp` is fresh at `now_ms`, else `InvalidTimestamp`.
pub fn check_timestamp(timestamp: u64, now_ms: u64) -> (r: Result<(), MwError>)
    ensures
        r.is_ok() == fresh(timestamp, now_ms),
        r.is_err() ==> r == Err::<(), MwError>(MwError::InvalidTimestamp),
{
    if now_ms >= TIMESTAMP_WINDOW_MS && timestamp < now_ms - TIMESTAMP_WINDOW_MS {
        Err(MwError::InvalidTimestamp)
    } else {
        Ok(())
    }
}

/// What checking signature `sig` over `digest` against `user` gives.
pub open spec fn signature_verdict(sig: Seq<u8>, digest: Seq<u8>, user: Seq<u8>) -> Result<(), MwError> {
    match recovered_signer(sig, digest) {
        None => Err(MwError::SignatureRecoveryError),
        Some(a) => if a == user { Ok(()) } else { Err(MwError::InvalidSignature) },
    }
}

/// Checks that `sig` over `digest` was made by `user`: `SignatureRecoveryError`
/// where no signer can be recovered, `InvalidSignature` where it is another.
pub fn check_signature(sig: &[u8; 65], digest: &[u8; 32], user: &Address) -> (r: Result<(), MwError>)
    ensures
        r == signature_verdict(sig@, digest@, user.bytes@),
{
    match recover_signer(sig, digest) {
        None => Err(MwError::SignatureRecoveryError),
        Some(a) => if same_address(&a, user) { Ok(()) } else { Err(MwError::InvalidSignature) },
    }
}

impl Order {
    /// `InvalidTimestamp` where the order is older than the window at `now_ms`.
    pub fn validate_timestamp(&self, now_ms: u64) -> (r: Result<(), MwError>)
        ensures
            r.is_ok() == fresh(self.timestamp, now_ms),
            r.is_err() ==> r == Err::<(), MwError>(MwError::InvalidTimestamp),
    {
        check_timestamp(self.timestamp, now_ms)
    }

    /// Checks `signature` over `digest`, the order's structured hash, against `user`.
    pub fn validate_signature(&self, signature: &[u8; 65], digest: &[u8; 32], user: &Address) -> (r: Result<(), MwError>)
        ensures
            r == signature_verdict(signature@, digest@, user.bytes@),
    {
        check_signature(signature, digest, user)
    }
}

impl CancelOrder {
    /// `InvalidTimestamp` where the request is older than the window at `now_ms`.
    pub fn validate_timestamp(&self, now_ms: u64) -> (r: Result<(), MwError>)
        ensures
            r.is_ok() == fresh(self.timestamp, now_ms),
            r.is_err() ==> r == Err::<(), MwError>(MwError::InvalidTimestamp),
    {
        check_timestamp(self.timestamp, now_ms)
    }

    /// Checks `signature` over `digest`, the request's structured hash, against `user`.
    pub fn validate_signature(&self, signature: &[u8; 65], digest: &[u8; 32], user: &Address) -> (r: Result<(), MwError>)
        ensures
            r == signature_verdict(signature@, digest@, user.bytes@),
    {
        check_signature(signature, digest, user)
    }
}

impl UserRequest {
    /// `InvalidTimestamp` where the request is older than the window at `now_ms`.
    pub fn validate_timestamp(&self, now_ms: u64) -> (r: Result<(), MwError>)
        ensures
            r.is_ok() == fresh(self.timestamp, now_ms),
            r.is_err() ==> r == Err::<(), MwError>(MwError::InvalidTimestamp),
    {
        check_timestamp(self.timestamp, now_ms)
    }

    /// Checks `signature` over `digest`, the request's structured hash, against `user`.
    pub fn validate_signature(&self, signature: &[u8; 65], digest: &[u8; 32], user: &Address) -> (r: Result<(), MwError>)
        ensures
            r == signature_verdict(signature@, digest@, user.bytes@),
    {
        check_signature(signature, digest, user)
    }

    /// `InvalidRequestType` unless the request is of type `request_type`.
    pub fn validate_request_type(&self, request_type: &str) -> (r: Result<(), MwError>)
        ensures
            r.is_ok() == (self.request_type@ == request_type@),
            r.is_err() ==> r == Err::<(), MwError>(MwError::InvalidRequestType),
    {
        if self.request_type == request_type.to_owned() {
            Ok(())
        } else {
            Err(MwError::InvalidRequestType)
        }
    }
}

/// Whether an order of `qty` at `price` may be admitted for inventory `v`:
/// takers always; otherwise a bid's cost must be covered by unreserved USDC
/// and an ask's quantity by unreserved ETH.
pub open spec fn solvent(v: InventoryView, qty: nat, price: nat, is_bid: bool) -> bool {
    v.is_taker || if is_bid {
        sat_mul(qty, price) <= sat_sub(v.usdc_balance, v.usdc_liabilities)
    } else {
        qty <= sat_sub(v.eth_balance, v.eth_liabilities)
    }
}

/// Whether `e` reports want of USDC (`is_bid`) or ETH.
pub open spec fn is_insufficient(e: MwError, is_bid: bool) -> bool {
    match e {
        MwError::InsufficientBalance { token } => token@ == if is_bid { "USDC"@ } else { "ETH"@ },
        _ => false,
    }
}

/// Checks that `inv` can carry an order of `qty` at `price`.
pub fn check_solvency(inv: &Inventory, qty: &Amount, price: &Amount, is_bid: bool) -> (r: Result<(), MwError>)
    ensures
        r.is_ok() == solvent(inv@, qty.value(), price.value(), is_bid),
        r matches Err(e) ==> is_insufficient(e, is_bid),
{
    if inv.is_taker {
        Ok(())
    } else if is_bid {
        if lt(&inv.net_usdc(), &saturating_mul(qty, price)) {
            Err(MwError::InsufficientBalance { token: "USDC".to_owned() })
        } else {
            Ok(())
        }
    } else {
        if lt(&inv.net_eth(), qty) {
            Err(MwError::InsufficientBalance { token: "ETH".to_owned() })
        } else {
            Ok(())
        }
    }
}

/// Whether an order's quantity and price are admissible for `book`: a
/// positive quantity, both below 2^128, and an order id left to hand out.
pub open spec fn params_ok(order: Order, book: OrderBook) -> bool {
    &&& 0 < order.qty.value() < order_bound()
    &&& order.price.value() < order_bound()
    &&& book.next_oid < u32::MAX
}

/// `v` after its owner's incoming order executed `executed` for `volume`:
/// a bid receives ETH and pays USDC, an ask the reverse. Balances saturate
/// at zero and at 2^256 - 1 rather than wrap.
pub open spec fn taker_moved(v: InventoryView, executed: nat, volume: nat, is_bid: bool) -> InventoryView {
    if is_bid {
        InventoryView { eth_balance: sat_add(v.eth_balance, executed), usdc_balance: sat_sub(v.usdc_balance, volume), ..v }
    } else {
        InventoryView { eth_balance: sat_sub(v.eth_balance, executed), usdc_balance: sat_add(v.usdc_balance, volume), ..v }
    }
}


/// Applies to `user`'s balances what its incoming order executed.
pub fn apply_taker_fill(warehouse: &mut Warehouse, user: &Address, executed: &Amount, volume: &Amount, is_bid: bool)
    requires
        old(warehouse).wf(),
    ensures
        final(warehouse).wf(),
        final(warehouse).keeps_config(old(warehouse)),
        final(warehouse).reservations == old(warehouse).reservations,
        final(warehouse).inventory(user.bytes@) == taker_moved(old(warehouse).inventory(user.bytes@), executed.value(), volume.value(), is_bid),
        forall|b: Seq<u8>| b != user.bytes@ ==> #[trigger] final(warehouse).inventory(b) == old(warehouse).inventory(b),
{
    let idx = warehouse.entry(user);
    let mut inv = warehouse.inventories[idx];
    if is_bid {
        inv.eth_balance = saturating_add(&inv.eth_balance, executed);
        inv.usdc_balance = saturating_sub(&inv.usdc_balance, volume);
    } else {
        inv.eth_balance = saturating_sub(&inv.eth_balance, executed);
        inv.usdc_balance = saturating_add(&inv.usdc_balance, volume);
    }
    warehouse.put(idx, inv);
}

/// Whether `states` runs through the wholly filled orders `filled`
/// (`(oid, price)`, resting bids where `resting_is_bid`), one fill per step.
pub open spec fn fill_chain(states: Seq<Warehouse>, filled: Seq<(u32, nat)>, resting_is_bid: bool) -> bool {
    &&& states.len() == filled.len() + 1
    &&& forall|k: int| 0 <= k < filled.len() ==> #[trigger] Warehouse::filled(&states[k], &states[k + 1], filled[k].0, filled[k].1, resting_is_bid)
}

/// The (saturating) total quantity of the first `n` fills of a chain.
pub open spec fn chain_qty(states: Seq<Warehouse>, filled: Seq<(u32, nat)>, n: nat) -> nat
    decreases n,
{
    if n == 0 {
        0
    } else {
        sat_add(chain_qty(states, filled, (n - 1) as nat), states[n - 1].reserved_qty(filled[n - 1].0))
    }
}

/// Whether `w1` is `w0` with the resting side of a match settled: every
/// wholly filled order in turn, then the partly filled one, if any, for what
/// `executed` leaves after the whole fills.
#[verifier::opaque]
pub open spec fn counterparties_settled(
    w0: Warehouse,
    w1: Warehouse,
    filled: Seq<(u32, nat)>,
    partial: Option<(u32, nat)>,
    executed: nat,
    resting_is_bid: bool,
) -> bool {
    exists|states: Seq<Warehouse>| {
        &&& #[trigger] fill_chain(states, filled, resting_is_bid)
        &&& states[0] == w0
        &&& match partial {
            None => w1 == states.last(),
            Some(p) => Warehouse::partly_filled(&states.last(), &w1, p.0, sat_sub(executed, chain_qty(states, filled, filled.len())), p.1,
                resting_is_bid),
        }
    }
}

/// Whether every order of a match's resting side is booked in `w`, once.
pub open spec fn all_booked(w: Warehouse, filled: Seq<(u32, nat)>, partial: Option<(u32, nat)>) -> bool {
    &&& forall|k: int| 0 <= k < filled.len() ==> (#[trigger] w.reservation(filled[k].0)).is_some()
    &&& forall|a: int, b: int| 0 <= a < b < filled.len() ==> #[trigger] filled[a].0 != #[trigger] filled[b].0
    &&& partial matches Some(p) ==> {
        &&& w.reservation(p.0).is_some()
        &&& forall|k: int| 0 <= k < filled.len() ==> #[trigger] filled[k].0 != p.0
    }
}

/// Whether every order resting on side `s` is booked in `w`.
pub open spec fn covers(w: Warehouse, s: Seq<LevelView>) -> bool {
    forall|oid: u32| #[trigger] rests_in(s, oid) ==> w.reservation(oid).is_some()
}

/// Whether settling the fills `filled` and then `partial` from `w0` stops
/// at step `n` of `states` because the order it reaches is not booked.
pub open spec fn blocked_at(
    states: Seq<Warehouse>,
    w0: Warehouse,
    filled: Seq<(u32, nat)>,
    partial: Option<(u32, nat)>,
    resting_is_bid: bool,
    n: int,
) -> bool {
    &&& 0 <= n <= filled.len()
    &&& states.len() == n + 1
    &&& states[0] == w0
    &&& forall|k: int| 0 <= k < n ==> #[trigger] Warehouse::filled(&states[k], &states[k + 1], filled[k].0, filled[k].1, resting_is_bid)
    &&& if n < filled.len() {
        states[n].reservation(filled[n].0).is_none()
    } else {
        partial matches Some(p) && states[n].reservation(p.0).is_none()
    }
}

/// Whether settling a match's resting side from `w0` meets an order that is
/// not booked in the ledger.
pub open spec fn settlement_blocked(w0: Warehouse, filled: Seq<(u32, nat)>, partial: Option<(u32, nat)>, resting_is_bid: bool) -> bool {
    exists|states: Seq<Warehouse>, n: int| #[trigger] blocked_at(states, w0, filled, partial, resting_is_bid, n)
}

/// Settles the resting orders that an incoming order (a bid where
/// `incoming_is_bid`) traded with: each wholly filled order through
/// `fill_ask`/`fill_bid`, the partly filled one through
/// `partially_fill_order` with what `executed` leaves after the whole fills.
/// `OrderNotFound` where one of them is not booked.
pub fn settle_counterparties(
    warehouse: &mut Warehouse,
    filled: &Vec<(u32, Amount)>,
    partial: Option<(u32, Amount)>,
    executed: &Amount,
    incoming_is_bid: bool,
) -> (r: Result<(), MwError>)
    requires
        old(warehouse).wf(),
    ensures
        final(warehouse).wf(),
        final(warehouse).keeps_config(old(warehouse)),
        r.is_ok() ==> counterparties_settled(*old(warehouse), *final(warehouse), fills_view(filled@), partial_view(partial),
            executed.value(), !incoming_is_bid),
        r.is_err() ==> settlement_blocked(*old(warehouse), fills_view(filled@), partial_view(partial), !incoming_is_bid),
        all_booked(*old(warehouse), fills_view(filled@), partial_view(partial)) ==> r.is_ok(),
        r matches Err(e) ==> e matches MwError::OrderNotFound { .. },
{
    let ghost fills = fills_view(filled@);
    let ghost resting = !incoming_is_bid;
    let ghost mut states: Seq<Warehouse> = seq![*warehouse];
    let mut total = Amount::zero();
    let mut i: usize = 0;
    while i < filled.len()
        invariant
            0 <= i <= filled@.len(),
            fills == fills_view(filled@),
            resting == !incoming_is_bid,
            warehouse.wf(),
            warehouse.keeps_config(old(warehouse)),
            states.len() == i + 1,
            states[0] == *old(warehouse),
            states.last() == *warehouse,
            forall|k: int| 0 <= k < i ==> #[trigger] Warehouse::filled(&states[k], &states[k + 1], fills[k].0, fills[k].1, resting),
            total.value() == chain_qty(states, fills, i as nat),
            all_booked(*old(warehouse), fills, partial_view(partial)) ==> {
                &&& forall|k: int| i <= k < fills.len() ==> (#[trigger] warehouse.reservation(fills[k].0)).is_some()
                &&& partial matches Some(p) ==> warehouse.reservation(p.0).is_some()
            },
        decreases filled@.len() - i,
    {
        let (oid, price) = filled[i];
        let ghost before = *warehouse;
        assert(fills[i as int].0 == oid);
        let res = if incoming_is_bid { warehouse.fill_ask(oid, price) } else { warehouse.fill_bid(oid, price) };
        match res {
            Ok(q) => {
                total = saturating_add(&total, &q);
            },
            Err(e) => {
                proof {
                    assert(blocked_at(states, *old(warehouse), fills, partial_view(partial), resting, i as int));
                }
                return Err(e);
            },
        }
        proof {
            if all_booked(*old(warehouse), fills, partial_view(partial)) {
                assert forall|k: int| i + 1 <= k < fills.len() implies (#[trigger] warehouse.reservation(fills[k].0)).is_some() by {
                    assert(fills[k].0 != fills[i as int].0);
                    assert(before.reservation(fills[k].0).is_some());
                }
                if let Some(p) = partial {
                    assert(fills[i as int].0 != p.0);
                    assert(before.reservation(p.0).is_some());
                }
            }
            let next = states.push(*warehouse);
            assert forall|k: int| 0 <= k < i + 1 implies #[trigger] Warehouse::filled(&next[k], &next[k + 1], fills[k].0, fills[k].1, resting) by {
                if k < i {
                    assert(next[k] == states[k] && next[k + 1] == states[k + 1]);
                } else {
                    assert(next[k] == before);
                }
            }
            assert(chain_qty(next, fills, (i + 1) as nat) == sat_add(chain_qty(next, fills, i as nat), next[i as int].reserved_qty(fills[i as int].0)));
            assert(chain_qty(next, fills, i as nat) == chain_qty(states, fills, i as nat)) by {
                lemma_chain_qty_prefix(states, next, fills, i as nat);
            }
            states = next;
        }
        i = i + 1;
    }
    if let Some((oid, price)) = partial {
        let part = saturating_sub(executed, &total);
        match warehouse.partially_fill_order(oid, part, price, !incoming_is_bid) {
            Ok(()) => {},
            Err(e) => {
                proof {
                    assert(blocked_at(states, *old(warehouse), fills, partial_view(partial), resting, filled@.len() as int));
                }
                return Err(e);
            },
        }
    }
    proof {
        assert(fill_chain(states, fills, resting));
        reveal(counterparties_settled);
    }
    Ok(())
}

proof fn lemma_chain_qty_prefix(a: Seq<Warehouse>, b: Seq<Warehouse>, fills: Seq<(u32, nat)>, n: nat)
    requires
        n <= a.len(),
        n <= b.len(),
        forall|k: int| 0 <= k < n ==> a[k] == b[k],
    ensures
        chain_qty(a, fills, n) == chain_qty(b, fills, n),
    decreases n,
{
    if n > 0 {
        lemma_chain_qty_prefix(a, b, fills, (n - 1) as nat);
    }
}

/// What submitting `order` for `user` to `w0`/`b0` did, giving `w1`/`b1` and
/// `r`: a rejection leaves both unchanged; an admitted order is matched as
/// `match_spec` says, its residue rests under the next order id and is booked
/// for `user`, and the result is `(executed, volume, residue id)`.
pub open spec fn submitted(
    w0: Warehouse,
    b0: OrderBook,
    w1: Warehouse,
    b1: OrderBook,
    user: Seq<u8>,
    order: Order,
    r: Result<(Amount, Amount, Option<u32>), MwError>,
) -> bool {
    let qty = order.qty.value();
    let price = order.price.value();
    &&& w1.wf()
    &&& b1.wf()
    &&& !params_ok(order, b0) ==> r == Err::<(Amount, Amount, Option<u32>), MwError>(MwError::InvalidOrderParams) && w1 == w0 && b1 == b0
    &&& params_ok(order, b0) && !solvent(w0.inventory(user), qty, price, order.is_bid) ==> {
        &&& r matches Err(e) && is_insufficient(e, order.is_bid)
        &&& w1 == w0
        &&& b1 == b0
    }
    &&& params_ok(order, b0) && solvent(w0.inventory(user), qty, price, order.is_bid) ==> executed_as(w0, b0, w1, b1, user, order, r)
}

/// Admits, matches and books `order` for `user` (the core of a send-order
/// request, once its envelope is checked). Returns the quantity executed,
/// the volume and the id of the resting residue, if any.
pub fn submit_order(warehouse: &mut Warehouse, book: &mut OrderBook, user: &Address, order: &Order)
    -> (r: Result<(Amount, Amount, Option<u32>), MwError>)
    requires
        old(warehouse).wf(),
        old(book).wf(),
    ensures
        submitted(*old(warehouse), *old(book), *final(warehouse), *final(book), user.bytes@, *order, r),
{
    if order.qty.is_zero() || !order.qty.below_order_bound() || !order.price.below_order_bound() || book.next_oid == u32::MAX {
        return Err(MwError::InvalidOrderParams);
    }
    let inv = warehouse.inventory_of(user);
    match check_solvency(&inv, &order.qty, &order.price, order.is_bid) {
        Ok(()) => {},
        Err(e) => {
            return Err(e);
        },
    }
    execute_order(warehouse, book, user, order)
}

/// Whether `w1` is `w0` after `user`'s incoming order executed `executed`
/// for `volume`, as `apply_taker_fill` does it.
pub open spec fn taker_filled(w0: Warehouse, w1: Warehouse, user: Seq<u8>, executed: nat, volume: nat, is_bid: bool) -> bool {
    &&& w1.wf()
    &&& w1.keeps_config(&w0)
    &&& w1.reservations == w0.reservations
    &&& w1.inventory(user) == taker_moved(w0.inventory(user), executed, volume, is_bid)
    &&& forall|b: Seq<u8>| b != user ==> #[trigger] w1.inventory(b) == w0.inventory(b)
}

/// The ledger side of executing an incoming order (a bid where `is_bid`) of
/// `user` at `price`, through `wa` (the submitter's balances moved) and `wb`
/// (the resting side settled) to `w1` (the residue, if any, booked).
#[verifier::opaque]
pub open spec fn ledger_steps(
    w0: Warehouse,
    wa: Warehouse,
    wb: Warehouse,
    w1: Warehouse,
    user: Seq<u8>,
    is_bid: bool,
    price: nat,
    executed: nat,
    volume: nat,
    filled: Seq<(u32, nat)>,
    partial: Option<(u32, nat)>,
    residue: Option<(u32, nat)>,
) -> bool {
    &&& taker_filled(w0, wa, user, executed, volume, is_bid)
    &&& counterparties_settled(wa, wb, filled, partial, executed, !is_bid)
    &&& match residue {
        Some((oid, q)) => Warehouse::booked(&wb, &w1, oid, user, q, price, is_bid),
        None => w1 == wb,
    }
}

/// The residue a match leaves of an order of `qty`, resting as `oid`.
pub open spec fn residue_of(m: MatchSpec, qty: nat, oid: u32) -> Option<(u32, nat)> {
    if m.executed < qty { Some((oid, (qty - m.executed) as nat)) } else { None }
}

/// Whether `wa` is `w0` with the submitter's balances moved and settling the
/// resting side from there meets an order that is not booked.
pub open spec fn blocked_ledger_step(
    w0: Warehouse,
    wa: Warehouse,
    user: Seq<u8>,
    is_bid: bool,
    executed: nat,
    volume: nat,
    filled: Seq<(u32, nat)>,
    partial: Option<(u32, nat)>,
) -> bool {
    &&& taker_filled(w0, wa, user, executed, volume, is_bid)
    &&& settlement_blocked(wa, filled, partial, !is_bid)
}

/// Whether booking a match in the ledger from `w0` meets a resting order
/// that is not booked.
pub open spec fn ledger_blocked(
    w0: Warehouse,
    user: Seq<u8>,
    is_bid: bool,
    executed: nat,
    volume: nat,
    filled: Seq<(u32, nat)>,
    partial: Option<(u32, nat)>,
) -> bool {
    exists|wa: Warehouse| #[trigger] blocked_ledger_step(w0, wa, user, is_bid, executed, volume, filled, partial)
}

pub open spec fn residue_view(r: Option<(u32, Amount)>) -> Option<(u32, nat)> {
    match r {
        Some(x) => Some((x.0, x.1.value())),
        None => None,
    }
}

/// Books what a match did in the ledger: the submitter's balances, every
/// resting order it traded with, and its residue, if any.
pub fn settle_ledger(
    warehouse: &mut Warehouse,
    user: &Address,
    is_bid: bool,
    price: &Amount,
    executed: &Amount,
    volume: &Amount,
    filled: &Vec<(u32, Amount)>,
    partial: Option<(u32, Amount)>,
    residue: Option<(u32, Amount)>,
) -> (r: Result<(), MwError>)
    requires
        old(warehouse).wf(),
    ensures
        final(warehouse).wf(),
        r.is_ok() ==> exists|wa: Warehouse, wb: Warehouse| #[trigger] ledger_steps(*old(warehouse), wa, wb, *final(warehouse),
            user.bytes@, is_bid, price.value(), executed.value(), volume.value(), fills_view(filled@), partial_view(partial),
            residue_view(residue)),
        r.is_ok() ==> (residue matches Some(x) ==> final(warehouse).reservation(x.0) == Some((user.bytes@, x.1.value()))),
        r.is_err() ==> ledger_blocked(*old(warehouse), user.bytes@, is_bid, executed.value(), volume.value(), fills_view(filled@),
            partial_view(partial)),
        all_booked(*old(warehouse), fills_view(filled@), partial_view(partial)) ==> r.is_ok(),
        r matches Err(e) ==> e matches MwError::OrderNotFound { .. },
{
    apply_taker_fill(warehouse, user, executed, volume, is_bid);
    let ghost wa = *warehouse;
    assert(forall|o: u32| #[trigger] wa.reservation(o) == old(warehouse).reservation(o));
    match settle_counterparties(warehouse, filled, partial, executed, is_bid) {
        Ok(()) => {},
        Err(e) => {
            proof {
                assert(blocked_ledger_step(*old(warehouse), wa, user.bytes@, is_bid, executed.value(), volume.value(), fills_view(filled@),
                    partial_view(partial)));
            }
            return Err(e);
        },
    }
    let ghost wb = *warehouse;
    if let Some((oid, rest)) = residue {
        let _ = warehouse.add_order(oid, *user, rest, *price, is_bid);
    }
    proof {
        assert(ledger_steps(*old(warehouse), wa, wb, *warehouse, user.bytes@, is_bid, price.value(), executed.value(), volume.value(),
            fills_view(filled@), partial_view(partial), residue_view(residue))) by {
            reveal(ledger_steps);
        }
    }
    Ok(())
}

/// Whether `w1` is `w0` after the ledger side of executing `order` for
/// `user`, matched as `m`, with the residue resting as `residue_oid`.
pub open spec fn ledger_executed(w0: Warehouse, w1: Warehouse, user: Seq<u8>, order: Order, m: MatchSpec, residue_oid: u32) -> bool {
    exists|wa: Warehouse, wb: Warehouse| #[trigger] ledger_steps(w0, wa, wb, w1, user, order.is_bid, order.price.value(), m.executed,
        m.volume, m.filled, m.partial, residue_of(m, order.qty.value(), residue_oid))
}

/// What executing an admitted `order` for `user` did (see `submitted`).
pub open spec fn executed_as(
    w0: Warehouse,
    b0: OrderBook,
    w1: Warehouse,
    b1: OrderBook,
    user: Seq<u8>,
    order: Order,
    r: Result<(Amount, Amount, Option<u32>), MwError>,
) -> bool {
    let qty = order.qty.value();
    let price = order.price.value();
    let m = match_spec(flat(b0.side(!order.is_bid)), price, order.is_bid, qty);
    &&& w1.wf()
    &&& b1.wf()
    &&& flat(b1.side(!order.is_bid)) == m.rest
    &&& m.executed < qty ==> {
        &&& b1.next_oid == b0.next_oid + 1
        &&& b1.side(order.is_bid) == placed(b0.side(order.is_bid), price, (b0.next_oid, (qty - m.executed) as nat), order.is_bid)
    }
    &&& m.executed == qty ==> b1.next_oid == b0.next_oid && b1.side(order.is_bid) == b0.side(order.is_bid)
    &&& r matches Ok(t) ==> {
        &&& t.0.value() == m.executed
        &&& t.1.value() == m.volume
        &&& t.2 == if m.executed < qty { Some(b0.next_oid) } else { None::<u32> }
        &&& m.executed < qty ==> w1.reservation(b0.next_oid) == Some((user, (qty - m.executed) as nat))
        &&& ledger_executed(w0, w1, user, order, m, b0.next_oid)
    }
    &&& r.is_err() ==> ledger_blocked(w0, user, order.is_bid, m.executed, m.volume, m.filled, m.partial)
    &&& covers(w0, b0.side(!order.is_bid)) ==> r.is_ok()
    &&& r matches Err(e) ==> e matches MwError::OrderNotFound { .. }
}

/// Matches an admitted order, settles both sides of every trade and books
/// the residue for `user`.
pub fn execute_order(warehouse: &mut Warehouse, book: &mut OrderBook, user: &Address, order: &Order)
    -> (r: Result<(Amount, Amount, Option<u32>), MwError>)
    requires
        old(warehouse).wf(),
        old(book).wf(),
        params_ok(*order, *old(book)),
    ensures
        executed_as(*old(warehouse), *old(book), *final(warehouse), *final(book), user.bytes@, *order, r),
{
    let MatchResult { volume, executed, new_oid, filled, partial } = match_order(book, order.price, order.qty, order.is_bid);
    let residue = match new_oid {
        Some(oid) => Some((oid, saturating_sub(&order.qty, &executed))),
        None => None,
    };
    let ghost m = match_spec(flat(old(book).side(!order.is_bid)), order.price.value(), order.is_bid, order.qty.value());
    assert(residue_view(residue) == residue_of(m, order.qty.value(), old(book).next_oid));
    proof {
        if covers(*old(warehouse), old(book).side(!order.is_bid)) {
            let q = flat(old(book).side(!order.is_bid));
            lemma_match_takes_front(q, order.price.value(), order.is_bid, order.qty.value());
            lemma_flat_rests(old(book).side(!order.is_bid));
            lemma_flat_distinct(old(book).side(!order.is_bid));
            assert forall|k: int| 0 <= k < m.filled.len() implies (#[trigger] old(warehouse).reservation(m.filled[k].0)).is_some() by {
                assert(m.filled[k].0 == q[k].0);
                assert(rests_in(old(book).side(!order.is_bid), q[k].0));
            }
            assert forall|a: int, b: int| 0 <= a < b < m.filled.len() implies #[trigger] m.filled[a].0 != #[trigger] m.filled[b].0 by {
                assert(m.filled[a].0 == q[a].0);
                assert(m.filled[b].0 == q[b].0);
            }
            if let Some(p) = m.partial {
                let n = m.filled.len() as int;
                assert(rests_in(old(book).side(!order.is_bid), q[n].0));
                assert forall|k: int| 0 <= k < m.filled.len() implies #[trigger] m.filled[k].0 != p.0 by {
                    assert(m.filled[k].0 == q[k].0);
                }
            }
            assert(all_booked(*old(warehouse), m.filled, m.partial));
        }
    }
    match settle_ledger(warehouse, user, order.is_bid, &order.price, &executed, &volume, &filled, partial, residue) {
        Ok(()) => {},
        Err(e) => {
            return Err(e);
        },
    }
    proof {
        let (wa, wb) = choose|wa: Warehouse, wb: Warehouse| #[trigger] ledger_steps(*old(warehouse), wa, wb, *warehouse, user.bytes@,
            order.is_bid, order.price.value(), executed.value(), volume.value(), fills_view(filled@), partial_view(partial),
            residue_view(residue));
        assert(ledger_steps(*old(warehouse), wa, wb, *warehouse, user.bytes@, order.is_bid, order.price.value(), m.executed, m.volume,
            m.filled, m.partial, residue_of(m, order.qty.value(), old(book).next_oid)));
        assert(ledger_executed(*old(warehouse), *warehouse, user.bytes@, *order, m, old(book).next_oid));
    }
    let result: Result<(Amount, Amount, Option<u32>), MwError> = Ok((executed, volume, new_oid));
    proof {
        assert(executed_as(*old(warehouse), *old(book), *warehouse, *book, user.bytes@, *order, result));
    }
    result
}

/// The send-order request: checks `signature` over `digest` (the order's
/// structured hash) against `user` and the order's freshness at `now_ms`,
/// then submits it.
pub fn new_order(
    warehouse: &mut Warehouse,
    book: &mut OrderBook,
    user: &Address,
    order: &Order,
    signature: &[u8; 65],
    digest: &[u8; 32],
    now_ms: u64,
) -> (r: Result<(Amount, Amount, Option<u32>), MwError>)
    requires
        old(warehouse).wf(),
        old(book).wf(),
    ensures
        signature_verdict(signature@, digest@, user.bytes@) matches Err(e) ==> r == Err::<(Amount, Amount, Option<u32>), MwError>(e)
            && *final(warehouse) == *old(warehouse) && *final(book) == *old(book),
        signature_verdict(signature@, digest@, user.bytes@).is_ok() && !fresh(order.timestamp, now_ms) ==> r
            == Err::<(Amount, Amount, Option<u32>), MwError>(MwError::InvalidTimestamp) && *final(warehouse) == *old(warehouse)
            && *final(book) == *old(book),
        signature_verdict(signature@, digest@, user.bytes@).is_ok() && fresh(order.timestamp, now_ms) ==> submitted(
            *old(warehouse), *old(book), *final(warehouse), *final(book), user.bytes@, *order, r),
        final(warehouse).wf(),
        final(book).wf(),
{
    match order.validate_signature(signature, digest, user) {
        Ok(()) => {},
        Err(e) => {
            return Err(e);
        },
    }
    match order.validate_timestamp(now_ms) {
        Ok(()) => {},
        Err(e) => {
            return Err(e);
        },
    }
    submit_order(warehouse, book, user, order)
}


/// What withdrawing order `oid` for `user` did: it is refused, with nothing
/// changed, where the order is not booked (`OrderNotFound`), belongs to
/// another owner (`UnauthorizedAccess`) or does not rest (`OrderNotFound`);
/// else it leaves the book and the ledger, and its reservation is released.
pub open spec fn withdrawn(
    w0: Warehouse,
    b0: OrderBook,
    w1: Warehouse,
    b1: OrderBook,
    user: Seq<u8>,
    oid: u32,
    r: Result<(), MwError>,
) -> bool {
    &&& w1.wf()
    &&& b1.wf()
    &&& b1.next_oid == b0.next_oid
    &&& w0.reservation(oid).is_none() ==> r == Err::<(), MwError>(MwError::OrderNotFound { order_id: oid }) && w1 == w0 && b1 == b0
    &&& w0.reservation(oid).is_some() && w0.owner_of(oid) != user ==> r == Err::<(), MwError>(MwError::UnauthorizedAccess) && w1 == w0
        && b1 == b0
    &&& w0.reservation(oid).is_some() && w0.owner_of(oid) == user && !rests_in(b0.side(true), oid) && !rests_in(b0.side(false), oid)
        ==> r == Err::<(), MwError>(MwError::OrderNotFound { order_id: oid }) && w1 == w0 && b1.side(true) == b0.side(true)
        && b1.side(false) == b0.side(false)
    &&& w0.reservation(oid).is_some() && w0.owner_of(oid) == user && (rests_in(b0.side(true), oid) || rests_in(b0.side(false), oid))
        ==> {
        &&& r.is_ok()
        &&& !rests_in(b1.side(true), oid)
        &&& !rests_in(b1.side(false), oid)
        &&& exists|p: nat, q: nat, s: bool| {
            &&& #[trigger] removed_from(b0.side(s), b1.side(s), oid, p, q)
            &&& b1.side(!s) == b0.side(!s)
            &&& Warehouse::closed(&w0, &w1, oid, user, w0.reserved_qty(oid), release(w0.inventory(user), w0.reserved_qty(oid), p, s))
        }
    }
}

/// Cancels order `oid` of `user` (the core of a cancel-order request, once
/// its envelope is checked).
pub fn withdraw_order(warehouse: &mut Warehouse, book: &mut OrderBook, user: &Address, oid: u32) -> (r: Result<(), MwError>)
    requires
        old(warehouse).wf(),
        old(book).wf(),
    ensures
        withdrawn(*old(warehouse), *old(book), *final(warehouse), *final(book), user.bytes@, oid, r),
{
    let res = match warehouse.reservation_of(oid) {
        Some(res) => res,
        None => {
            return Err(MwError::OrderNotFound { order_id: oid });
        },
    };
    if !same_address(&res.owner, user) {
        return Err(MwError::UnauthorizedAccess);
    }
    let info = match book.remove_order(oid) {
        Some(info) => info,
        None => {
            return Err(MwError::OrderNotFound { order_id: oid });
        },
    };
    let ghost w0 = *warehouse;
    let released = if info.is_bid { warehouse.remove_bid(oid, info.price) } else { warehouse.remove_ask(oid) };
    proof {
        if let Ok((q, inv)) = released {
            assert(inv.address.bytes@ == user.bytes@);
            assert(removed_from(old(book).side(info.is_bid), book.side(info.is_bid), oid, info.price.value(), info.qty.value()));
        }
    }
    Ok(())
}

/// The cancel-order request: checks `signature` over `digest` (the request's
/// structured hash) against `user` and its freshness at `now_ms`, then
/// cancels the order.
pub fn cancel_order(
    user: &Address,
    cancel: &CancelOrder,
    signature: &[u8; 65],
    digest: &[u8; 32],
    now_ms: u64,
    warehouse: &mut Warehouse,
    book: &mut OrderBook,
) -> (r: Result<(), MwError>)
    requires
        old(warehouse).wf(),
        old(book).wf(),
    ensures
        final(warehouse).wf(),
        final(book).wf(),
        signature_verdict(signature@, digest@, user.bytes@) matches Err(e) ==> r == Err::<(), MwError>(e)
            && *final(warehouse) == *old(warehouse) && *final(book) == *old(book),
        signature_verdict(signature@, digest@, user.bytes@).is_ok() && !fresh(cancel.timestamp, now_ms) ==> r
            == Err::<(), MwError>(MwError::InvalidTimestamp) && *final(warehouse) == *old(warehouse) && *final(book) == *old(book),
        signature_verdict(signature@, digest@, user.bytes@).is_ok() && fresh(cancel.timestamp, now_ms) ==> withdrawn(
            *old(warehouse), *old(book), *final(warehouse), *final(book), user.bytes@, cancel.oid, r),
{
    match cancel.validate_signature(signature, digest, user) {
        Ok(()) => {},
        Err(e) => {
            return Err(e);
        },
    }
    match cancel.validate_timestamp(now_ms) {
        Ok(()) => {},
        Err(e) => {
            return Err(e);
        },
    }
    withdraw_order(warehouse, book, user, cancel.oid)
}


/// Whether inventory `v` is covered: liabilities within balances, or a taker.
pub open spec fn covered(v: InventoryView) -> bool {
    v.is_taker || (v.eth_liabilities <= v.eth_balance && v.usdc_liabilities <= v.usdc_balance)
}

/// The side and level price at which order `oid` rests in `b` (meaningful
/// where it rests).
pub open spec fn resting_place(b: OrderBook, oid: u32) -> (bool, nat) {
    match b.position(oid) {
        Some((s, i, j)) => (s, b.side(s)[i].price),
        None => (false, 0),
    }
}

/// `user`'s inventory once booked order `oid` (resting in `b0`) is replaced
/// by `order`: the old reservation released, the new one made.
pub open spec fn revised_inventory(w0: Warehouse, b0: OrderBook, user: Seq<u8>, oid: u32, order: Order) -> InventoryView {
    let (s, p) = resting_place(b0, oid);
    reserve(release(w0.inventory(user), w0.reserved_qty(oid), p, s), order.qty.value(), order.price.value(), order.is_bid)
}

/// The token reported for an uncovered inventory: ETH where its ETH
/// liabilities exceed its ETH balance, USDC otherwise.
pub open spec fn uncovered_token(v: InventoryView) -> Seq<char> {
    if v.eth_liabilities > v.eth_balance { "ETH"@ } else { "USDC"@ }
}

/// Whether `r` reports want of the token `token`.
pub open spec fn refused_for(r: Result<u32, MwError>, token: Seq<char>) -> bool {
    match r {
        Err(MwError::InsufficientBalance { token: t }) => t@ == token,
        _ => false,
    }
}

/// What replacing order `oid` of `user` by `order` did: refused with nothing
/// changed for bad parameters (`InvalidOrderParams`), an unbooked or
/// non-resting order (`OrderNotFound`), another owner (`UnauthorizedAccess`)
/// or an uncovered result (`InsufficientBalance`); else the old order leaves
/// the book and the ledger and the new one, under the next order id, joins
/// the tail of its level.
pub open spec fn revised(
    w0: Warehouse,
    b0: OrderBook,
    w1: Warehouse,
    b1: OrderBook,
    user: Seq<u8>,
    oid: u32,
    order: Order,
    r: Result<u32, MwError>,
) -> bool {
    let booked = w0.reservation(oid).is_some();
    let rests = rests_in(b0.side(true), oid) || rests_in(b0.side(false), oid);
    &&& w1.wf()
    &&& b1.wf()
    &&& !params_ok(order, b0) ==> r == Err::<u32, MwError>(MwError::InvalidOrderParams) && w1 == w0 && b1 == b0
    &&& params_ok(order, b0) && !booked ==> r == Err::<u32, MwError>(MwError::OrderNotFound { order_id: oid }) && w1 == w0 && b1 == b0
    &&& params_ok(order, b0) && booked && w0.owner_of(oid) != user ==> r == Err::<u32, MwError>(MwError::UnauthorizedAccess) && w1 == w0
        && b1 == b0
    &&& params_ok(order, b0) && booked && w0.owner_of(oid) == user && !rests ==> r == Err::<u32, MwError>(MwError::OrderNotFound { order_id: oid })
        && w1 == w0 && b1 == b0
    &&& r.is_ok() ==> params_ok(order, b0) && booked && w0.owner_of(oid) == user && rests
    &&& params_ok(order, b0) && booked && w0.owner_of(oid) == user && rests && covered(revised_inventory(w0, b0, user, oid, order))
        ==> r.is_ok()
    &&& params_ok(order, b0) && booked && w0.owner_of(oid) == user && rests && !covered(revised_inventory(w0, b0, user, oid, order))
        ==> refused_for(r, uncovered_token(revised_inventory(w0, b0, user, oid, order))) && w1 == w0 && b1 == b0
    &&& (r matches Err(MwError::InsufficientBalance { .. })) ==> w1 == w0 && b1 == b0
    &&& r matches Ok(new_oid) ==> {
        &&& new_oid == b0.next_oid
        &&& b1.next_oid == b0.next_oid + 1
        &&& w1.reservation(new_oid) == Some((user, order.qty.value()))
        &&& w1.reservation(oid).is_none()
        &&& exists|p: nat, q: nat, s: bool, mid: Seq<LevelView>| {
            &&& #[trigger] removed_from(b0.side(s), mid, oid, p, q)
            &&& covered(reserve(release(w0.inventory(user), w0.reserved_qty(oid), p, s), order.qty.value(), order.price.value(), order.is_bid))
            &&& w1.inventory(user) == reserve(release(w0.inventory(user), w0.reserved_qty(oid), p, s), order.qty.value(),
                order.price.value(), order.is_bid)
            &&& s == order.is_bid ==> b1.side(s) == placed(mid, order.price.value(), (new_oid, order.qty.value()), s)
            &&& s != order.is_bid ==> b1.side(s) == mid && b1.side(order.is_bid) == placed(b0.side(order.is_bid), order.price.value(),
                (new_oid, order.qty.value()), order.is_bid)
        }
    }
}

/// Replaces order `oid` of `user` by `order` under a fresh id (the core of a
/// modify-order request, once its envelope is checked). Time priority is
/// reset: the new order joins the tail of its level.
#[verifier::rlimit(60)]
pub fn revise_order(warehouse: &mut Warehouse, book: &mut OrderBook, user: &Address, oid: u32, order: &Order) -> (r: Result<u32, MwError>)
    requires
        old(warehouse).wf(),
        old(book).wf(),
    ensures
        revised(*old(warehouse), *old(book), *final(warehouse), *final(book), user.bytes@, oid, *order, r),
{
    if order.qty.is_zero() || !order.qty.below_order_bound() || !order.price.below_order_bound() || book.next_oid == u32::MAX {
        return Err(MwError::InvalidOrderParams);
    }
    let res = match warehouse.reservation_of(oid) {
        Some(res) => res,
        None => {
            return Err(MwError::OrderNotFound { order_id: oid });
        },
    };
    if !same_address(&res.owner, user) {
        return Err(MwError::UnauthorizedAccess);
    }
    let info = match book.order_info(oid) {
        Some(info) => info,
        None => {
            return Err(MwError::OrderNotFound { order_id: oid });
        },
    };
    let inv = warehouse.inventory_of(user);
    let after = inv.with_released(&res.qty, &info.price, info.is_bid).with_reserved(&order.qty, &order.price, order.is_bid);
    proof {
        assert(after@ == revised_inventory(*old(warehouse), *old(book), user.bytes@, oid, *order));
    }
    if !after.is_taker {
        if lt(&after.eth_balance, &after.eth_liabilities) {
            return Err(MwError::InsufficientBalance { token: "ETH".to_owned() });
        }
        if lt(&after.usdc_balance, &after.usdc_liabilities) {
            return Err(MwError::InsufficientBalance { token: "USDC".to_owned() });
        }
    }
    proof {
        book.lemma_next_fresh();
    }
    let new_oid = match book.next_id() {
        Some(id) => id,
        None => {
            return Err(MwError::InvalidOrderParams);
        },
    };
    let ghost b1 = *book;
    let removed = book.remove_order(oid);
    let ghost b2 = *book;
    proof {
        assert(!rests_in(b2.side(true), new_oid)) by {
            if rests_in(b2.side(true), new_oid) {
                assert(rests_in(b1.side(true), new_oid));
            }
        }
        assert(!rests_in(b2.side(false), new_oid)) by {
            if rests_in(b2.side(false), new_oid) {
                assert(rests_in(b1.side(false), new_oid));
            }
        }
    }
    let ghost w0 = *warehouse;
    let _ = warehouse.replace_order(oid, new_oid, order.qty, order.price, order.is_bid, info.price, info.is_bid);
    book.add_order(new_oid, order.qty, order.price, order.is_bid);
    proof {
        assert(b1.side(true) == old(book).side(true));
        assert(b1.side(false) == old(book).side(false));
        if let Some(rinfo) = removed {
            assert(removed_from(old(book).side(rinfo.is_bid), b2.side(rinfo.is_bid), oid, rinfo.price.value(), rinfo.qty.value()));
        }
    }
    Ok(new_oid)
}


/// The modify-order request: checks `signature` over `digest` (the order's
/// structured hash) against `user` and the order's freshness at `now_ms`,
/// then replaces order `oid` by `order`. Returns the new order id.
pub fn replace_order(
    user: &Address,
    order: &Order,
    oid: u32,
    signature: &[u8; 65],
    digest: &[u8; 32],
    now_ms: u64,
    warehouse: &mut Warehouse,
    book: &mut OrderBook,
) -> (r: Result<u32, MwError>)
    requires
        old(warehouse).wf(),
        old(book).wf(),
    ensures
        final(warehouse).wf(),
        final(book).wf(),
        signature_verdict(signature@, digest@, user.bytes@) matches Err(e) ==> r == Err::<u32, MwError>(e)
            && *final(warehouse) == *old(warehouse) && *final(book) == *old(book),
        signature_verdict(signature@, digest@, user.bytes@).is_ok() && !fresh(order.timestamp, now_ms) ==> r
            == Err::<u32, MwError>(MwError::InvalidTimestamp) && *final(warehouse) == *old(warehouse) && *final(book) == *old(book),
        signature_verdict(signature@, digest@, user.bytes@).is_ok() && fresh(order.timestamp, now_ms) ==> revised(
            *old(warehouse), *old(book), *final(warehouse), *final(book), user.bytes@, oid, *order, r),
{
    match order.validate_signature(signature, digest, user) {
        Ok(()) => {},
        Err(e) => {
            return Err(e);
        },
    }
    match order.validate_timestamp(now_ms) {
        Ok(()) => {},
        Err(e) => {
            return Err(e);
        },
    }
    revise_order(warehouse, book, user, oid, order)
}

} // verus!
