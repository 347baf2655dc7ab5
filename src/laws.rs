//! Laws relating the matching engine's and the ledger's contracts.

use vstd::prelude::*;
use crate::amount::{Amount, amount_max, sat_sub};
use crate::book::{LevelView, OrderBook, flat, rests_in, lemma_flat_rests};
use crate::errors::MwError;
use crate::ledger::{InventoryView, Warehouse, reserve, release, settle};
use crate::matching::{crosses, match_spec, lemma_match_takes_front};
use crate::requests::{Order, solvent, taker_moved, submitted, is_insufficient};

verus! {

/// Number of leading entries of queue `q` that cross `limit`.
pub open spec fn crossing_count(q: Seq<(u32, nat, nat)>, limit: nat, incoming_is_bid: bool) -> nat
    decreases q.len(),
{
    if q.len() == 0 || !crosses(q[0].1, limit, incoming_is_bid) {
        0
    } else {
        1 + crossing_count(q.drop_first(), limit, incoming_is_bid)
    }
}

/// Total quantity of the leading entries of queue `q` that cross `limit`.
pub open spec fn crossing_depth(q: Seq<(u32, nat, nat)>, limit: nat, incoming_is_bid: bool) -> nat
    decreases q.len(),
{
    if q.len() == 0 || !crosses(q[0].1, limit, incoming_is_bid) {
        0
    } else {
        q[0].2 + crossing_depth(q.drop_first(), limit, incoming_is_bid)
    }
}

proof fn lemma_count_bounded(q: Seq<(u32, nat, nat)>, limit: nat, incoming_is_bid: bool)
    ensures
        crossing_count(q, limit, incoming_is_bid) <= q.len(),
    decreases q.len(),
{
    if q.len() > 0 && crosses(q[0].1, limit, incoming_is_bid) {
        lemma_count_bounded(q.drop_first(), limit, incoming_is_bid);
    }
}

/// Total of quantity times price over the leading entries of queue `q` that
/// cross `limit`.
pub open spec fn crossing_volume(q: Seq<(u32, nat, nat)>, limit: nat, incoming_is_bid: bool) -> nat
    decreases q.len(),
{
    if q.len() == 0 || !crosses(q[0].1, limit, incoming_is_bid) {
        0
    } else {
        q[0].2 * q[0].1 + crossing_volume(q.drop_first(), limit, incoming_is_bid)
    }
}

pub open spec fn positive_qtys(q: Seq<(u32, nat, nat)>) -> bool {
    forall|k: int| 0 <= k < q.len() ==> (#[trigger] q[k]).2 > 0
}

/// An order whose size equals the crossing depth clears exactly the crossing
/// orders, every one of them wholly, and leaves no residue and no partial fill.
pub proof fn law_exact_depth_clears(q: Seq<(u32, nat, nat)>, limit: nat, incoming_is_bid: bool)
    requires
        positive_qtys(q),
    ensures
        ({
            let d = crossing_depth(q, limit, incoming_is_bid);
            let n = crossing_count(q, limit, incoming_is_bid);
            let m = match_spec(q, limit, incoming_is_bid, d);
            &&& m.partial.is_none()
            &&& m.executed == d
            &&& m.volume == crossing_volume(q, limit, incoming_is_bid)
            &&& m.filled.len() == n
            &&& forall|k: int| 0 <= k < n ==> #[trigger] m.filled[k] == (q[k].0, q[k].1)
            &&& m.rest == q.subrange(n as int, q.len() as int)
        }),
    decreases q.len(),
{
    let d = crossing_depth(q, limit, incoming_is_bid);
    if q.len() == 0 || !crosses(q[0].1, limit, incoming_is_bid) {
        assert(q.subrange(0, q.len() as int) =~= q);
    } else {
        let t = q.drop_first();
        assert forall|k: int| 0 <= k < t.len() implies (#[trigger] t[k]).2 > 0 by {
            assert(t[k] == q[k + 1]);
        }
        law_exact_depth_clears(t, limit, incoming_is_bid);
        lemma_count_bounded(t, limit, incoming_is_bid);
        let n1 = crossing_count(t, limit, incoming_is_bid);
        let m1 = match_spec(t, limit, incoming_is_bid, crossing_depth(t, limit, incoming_is_bid));
        assert(q[0].2 > 0);
        assert(t.subrange(n1 as int, t.len() as int) =~= q.subrange(n1 + 1int, q.len() as int));
        let m = match_spec(q, limit, incoming_is_bid, d);
        assert forall|k: int| 0 <= k < n1 + 1 implies #[trigger] m.filled[k] == (q[k].0, q[k].1) by {
            if k > 0 {
                assert(m.filled[k] == m1.filled[k - 1]);
                assert(t[k - 1] == q[k]);
            }
        }
    }
}

/// An order larger than the crossing depth executes exactly that depth,
/// with no partial fill: the rest of it is left over to rest.
pub proof fn law_excess_leaves_residue(q: Seq<(u32, nat, nat)>, limit: nat, incoming_is_bid: bool, qty: nat)
    requires
        qty > crossing_depth(q, limit, incoming_is_bid),
    ensures
        match_spec(q, limit, incoming_is_bid, qty).executed == crossing_depth(q, limit, incoming_is_bid),
        match_spec(q, limit, incoming_is_bid, qty).executed < qty,
        match_spec(q, limit, incoming_is_bid, qty).partial.is_none(),
    decreases q.len(),
{
    if q.len() == 0 || !crosses(q[0].1, limit, incoming_is_bid) {
    } else {
        law_excess_leaves_residue(q.drop_first(), limit, incoming_is_bid, (qty - q[0].2) as nat);
    }
}

/// An order that does not cross the best opposite price fills nothing and
/// leaves the opposite side as it was.
pub proof fn law_no_cross_no_fill(q: Seq<(u32, nat, nat)>, limit: nat, incoming_is_bid: bool, qty: nat)
    requires
        q.len() == 0 || !crosses(q[0].1, limit, incoming_is_bid),
    ensures
        match_spec(q, limit, incoming_is_bid, qty).filled.len() == 0,
        match_spec(q, limit, incoming_is_bid, qty).partial.is_none(),
        match_spec(q, limit, incoming_is_bid, qty).executed == 0,
        match_spec(q, limit, incoming_is_bid, qty).rest == q,
{
}

/// An order that no longer rests on a side (a cancelled one) is neither
/// filled nor partly filled by any later match against that side.
pub proof fn law_absent_order_not_filled(s: Seq<LevelView>, oid: u32, limit: nat, incoming_is_bid: bool, qty: nat)
    requires
        !rests_in(s, oid),
    ensures
        forall|k: int| 0 <= k < match_spec(flat(s), limit, incoming_is_bid, qty).filled.len()
            ==> #[trigger] match_spec(flat(s), limit, incoming_is_bid, qty).filled[k].0 != oid,
        match_spec(flat(s), limit, incoming_is_bid, qty).partial matches Some(p) ==> p.0 != oid,
{
    let q = flat(s);
    let m = match_spec(q, limit, incoming_is_bid, qty);
    lemma_match_takes_front(q, limit, incoming_is_bid, qty);
    lemma_flat_rests(s);
    assert forall|k: int| 0 <= k < m.filled.len() implies #[trigger] m.filled[k].0 != oid by {
        assert(m.filled[k].0 == q[k].0);
        assert(rests_in(s, q[k].0));
    }
    if let Some(p) = m.partial {
        assert(rests_in(s, q[m.filled.len() as int].0));
    }
}

/// Submitting an order that was refused for want of a token, again against
/// the same state, is refused again for the same token, with nothing changed.
pub proof fn law_refusal_repeats(
    w0: Warehouse,
    b0: OrderBook,
    w1: Warehouse,
    b1: OrderBook,
    w2: Warehouse,
    b2: OrderBook,
    user: Seq<u8>,
    order: Order,
    r1: Result<(Amount, Amount, Option<u32>), MwError>,
    r2: Result<(Amount, Amount, Option<u32>), MwError>,
)
    requires
        submitted(w0, b0, w1, b1, user, order, r1),
        submitted(w0, b0, w2, b2, user, order, r2),
        r1 matches Err(MwError::InsufficientBalance { .. }),
    ensures
        r2 matches Err(MwError::InsufficientBalance { .. }),
        is_insufficient(r1->Err_0, order.is_bid) && is_insufficient(r2->Err_0, order.is_bid),
        w1 == w0 && b1 == b0,
        w2 == w0 && b2 == b0,
{
}

/// A wholly filled resting bid moves its owner's balances exactly: ETH up by
/// its quantity, USDC and USDC liabilities down by quantity times price
/// (where no amount saturates).
pub proof fn law_fill_bid_deltas(v: InventoryView, qty: nat, price: nat)
    requires
        qty * price <= v.usdc_liabilities,
        qty * price <= v.usdc_balance,
        v.usdc_balance <= amount_max(),
        v.eth_balance + qty <= amount_max(),
    ensures
        ({
            let a = settle(release(v, qty, price, true), qty, price, true);
            &&& a.eth_balance == v.eth_balance + qty
            &&& a.usdc_balance == v.usdc_balance - qty * price
            &&& a.usdc_liabilities == v.usdc_liabilities - qty * price
            &&& a.eth_liabilities == v.eth_liabilities
            &&& a.deposit_nonce == v.deposit_nonce
            &&& a.is_taker == v.is_taker
        }),
{
    assert(qty * price <= amount_max());
}

/// Reserving for an order and releasing the same reservation restores the
/// inventory (where the reservation does not saturate).
pub proof fn law_reserve_release(v: InventoryView, qty: nat, price: nat, is_bid: bool)
    requires
        is_bid ==> v.usdc_liabilities + qty * price <= amount_max(),
        !is_bid ==> v.eth_liabilities + qty <= amount_max(),
    ensures
        release(reserve(v, qty, price, is_bid), qty, price, is_bid) == v,
{
    if is_bid {
        assert(qty * price <= amount_max());
    }
}

/// Booking order `oid` with `Warehouse::add_order` and then taking it out
/// with `remove_bid`/`remove_ask` restores every inventory and reservation.
pub proof fn law_add_remove_round_trip(
    w0: Warehouse,
    w1: Warehouse,
    w2: Warehouse,
    oid: u32,
    owner: Seq<u8>,
    qty: nat,
    price: nat,
    is_bid: bool,
)
    requires
        w0.reservation(oid).is_none(),
        w1.reservation(oid) == Some((owner, qty)),
        forall|o: u32| o != oid ==> #[trigger] w1.reservation(o) == w0.reservation(o),
        w1.inventory(owner) == reserve(w0.inventory(owner), qty, price, is_bid),
        forall|b: Seq<u8>| b != owner ==> #[trigger] w1.inventory(b) == w0.inventory(b),
        Warehouse::closed(&w1, &w2, oid, owner, qty, release(w1.inventory(owner), qty, price, is_bid)),
        is_bid ==> w0.inventory(owner).usdc_liabilities + qty * price <= amount_max(),
        !is_bid ==> w0.inventory(owner).eth_liabilities + qty <= amount_max(),
    ensures
        forall|o: u32| #[trigger] w2.reservation(o) == w0.reservation(o),
        forall|b: Seq<u8>| #[trigger] w2.inventory(b) == w0.inventory(b),
{
    law_reserve_release(w0.inventory(owner), qty, price, is_bid);
    assert forall|o: u32| #[trigger] w2.reservation(o) == w0.reservation(o) by {
        if o != oid {
            assert(w2.reservation(o) == w1.reservation(o));
        }
    }
    assert forall|b: Seq<u8>| #[trigger] w2.inventory(b) == w0.inventory(b) by {
        if b != owner {
            assert(w2.inventory(b) == w1.inventory(b));
        }
    }
}

/// The solvency verdict is a function of the inventory and the order alone:
/// checking an unchanged inventory again gives the same verdict.
pub proof fn law_solvency_repeatable(v: InventoryView, w: InventoryView, qty: nat, price: nat, is_bid: bool)
    requires
        v == w,
    ensures
        solvent(v, qty, price, is_bid) == solvent(w, qty, price, is_bid),
{
}

/// Whether a non-taker's ETH liabilities are covered by its ETH balance.
pub open spec fn eth_covered(v: InventoryView) -> bool {
    v.is_taker || v.eth_liabilities <= v.eth_balance
}

/// An admitted ask of `qty` at `price` whose `executed` part traded and
/// whose residue rests keeps its owner's ETH liabilities covered.
pub proof fn law_admitted_ask_keeps_cover(v: InventoryView, qty: nat, price: nat, executed: nat, volume: nat)
    requires
        eth_covered(v),
        solvent(v, qty, price, false),
        executed <= qty,
        v.eth_liabilities + qty <= amount_max(),
    ensures
        eth_covered(reserve(taker_moved(v, executed, volume, false), (qty - executed) as nat, price, false)),
{
}

/// Settling a wholly filled resting ask keeps its owner's ETH liabilities
/// covered, where the ask's quantity was reserved.
pub proof fn law_filled_ask_keeps_cover(v: InventoryView, qty: nat, price: nat)
    requires
        eth_covered(v),
        qty <= v.eth_liabilities,
    ensures
        eth_covered(settle(release(v, qty, price, false), qty, price, false)),
{
}

/// Settling part `filled` of a resting ask of `qty` and booking the rest
/// again keeps its owner's ETH liabilities covered.
pub proof fn law_partial_ask_keeps_cover(v: InventoryView, qty: nat, filled: nat, price: nat)
    requires
        eth_covered(v),
        qty <= v.eth_liabilities,
        filled <= qty,
    ensures
        eth_covered(reserve(settle(release(v, qty, price, false), filled, price, false), sat_sub(qty, filled), price, false)),
{
}

} // verus!
