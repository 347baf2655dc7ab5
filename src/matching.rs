//! The matching engine: crosses one incoming order against the opposite
//! side of the book in price-time priority and rests what is left.

use vstd::prelude::*;
use crate::amount::{Amount, order_bound, amount_max, saturating_add, saturating_sub, saturating_mul, le, lt};
use crate::book::{OrderBook, PriceLevel, side_view, side_wf, flat, placed, fill_front, level_wf, lemma_flat_front, rests_in, rests_within};

verus! {

/// Whether a resting level at `level_price` crosses an incoming order with
/// limit `limit`: asks at or below a bid's limit, bids at or above an ask's.
pub open spec fn crosses(level_price: nat, limit: nat, incoming_is_bid: bool) -> bool {
    if incoming_is_bid { level_price <= limit } else { level_price >= limit }
}

/// What matching `rem` against queue `q` does.
pub struct MatchSpec {
    /// Wholly filled orders, as `(oid, price)`, in the order filled.
    pub filled: Seq<(u32, nat)>,
    /// The order filled only in part, if any.
    pub partial: Option<(u32, nat)>,
    pub executed: nat,
    pub volume: nat,
    /// The queue left behind.
    pub rest: Seq<(u32, nat, nat)>,
}

/// Matching an incoming order of `rem` at `limit` against the priority queue
/// `q` of `(oid, price, qty)`: orders are taken from the front while they
/// cross and quantity remains; the last one taken may be filled in part.
pub open spec fn match_spec(q: Seq<(u32, nat, nat)>, limit: nat, incoming_is_bid: bool, rem: nat) -> MatchSpec
    decreases q.len(),
{
    if rem == 0 || q.len() == 0 || !crosses(q[0].1, limit, incoming_is_bid) {
        MatchSpec { filled: Seq::empty(), partial: None, executed: 0, volume: 0, rest: q }
    } else if q[0].2 <= rem {
        let m = match_spec(q.drop_first(), limit, incoming_is_bid, (rem - q[0].2) as nat);
        MatchSpec {
            filled: seq![(q[0].0, q[0].1)] + m.filled,
            partial: m.partial,
            executed: m.executed + q[0].2,
            volume: m.volume + q[0].2 * q[0].1,
            rest: m.rest,
        }
    } else {
        MatchSpec {
            filled: Seq::empty(),
            partial: Some((q[0].0, q[0].1)),
            executed: rem,
            volume: rem * q[0].1,
            rest: q.update(0, (q[0].0, q[0].1, (q[0].2 - rem) as nat)),
        }
    }
}

/// The orders a match fills are the leading orders of the queue, in order;
/// the partly filled one, if any, is the next.
pub proof fn lemma_match_takes_front(q: Seq<(u32, nat, nat)>, limit: nat, incoming_is_bid: bool, rem: nat)
    ensures
        ({
            let m = match_spec(q, limit, incoming_is_bid, rem);
            &&& m.filled.len() <= q.len()
            &&& forall|k: int| 0 <= k < m.filled.len() ==> #[trigger] m.filled[k].0 == q[k].0
            &&& m.partial matches Some(p) ==> m.filled.len() < q.len() && p.0 == q[m.filled.len() as int].0
        }),
    decreases q.len(),
{
    if rem == 0 || q.len() == 0 || !crosses(q[0].1, limit, incoming_is_bid) {
    } else if q[0].2 <= rem {
        let t = q.drop_first();
        lemma_match_takes_front(t, limit, incoming_is_bid, (rem - q[0].2) as nat);
        let m = match_spec(q, limit, incoming_is_bid, rem);
        let m1 = match_spec(t, limit, incoming_is_bid, (rem - q[0].2) as nat);
        assert forall|k: int| 0 <= k < m.filled.len() implies #[trigger] m.filled[k].0 == q[k].0 by {
            if k > 0 {
                assert(m.filled[k] == m1.filled[k - 1]);
                assert(t[k - 1] == q[k]);
            }
        }
        if m.partial is Some {
            assert(t[m1.filled.len() as int] == q[m.filled.len() as int]);
        }
    }
}

pub open spec fn fills_view(v: Seq<(u32, Amount)>) -> Seq<(u32, nat)> {
    v.map_values(|p: (u32, Amount)| (p.0, p.1.value()))
}

pub open spec fn partial_view(p: Option<(u32, Amount)>) -> Option<(u32, nat)> {
    match p {
        Some(x) => Some((x.0, x.1.value())),
        None => None,
    }
}

/// The outcome of matching one incoming order.
#[derive(Clone, Debug)]
pub struct MatchResult {
    /// Sum of quantity times level price over all fills.
    pub volume: Amount,
    /// Quantity executed.
    pub executed: Amount,
    /// The id of the resting order made of the residue, if any.
    pub new_oid: Option<u32>,
    /// Wholly filled resting orders, as `(oid, level price)`.
    pub filled: Vec<(u32, Amount)>,
    /// The resting order filled in part, if any.
    pub partial: Option<(u32, Amount)>,
}

/// Whether a level at `level_price` crosses the incoming limit.
pub fn crossing(level_price: &Amount, limit: &Amount, incoming_is_bid: bool) -> (r: bool)
    ensures
        r == crosses(level_price.value(), limit.value(), incoming_is_bid),
{
    if incoming_is_bid { le(level_price, limit) } else { le(limit, level_price) }
}

proof fn lemma_match_bounds(q: Seq<(u32, nat, nat)>, limit: nat, b: bool, rem: nat)
    ensures
        match_spec(q, limit, b, rem).executed <= rem,
    decreases q.len(),
{
    if !(rem == 0 || q.len() == 0 || !crosses(q[0].1, limit, b)) && q[0].2 <= rem {
        lemma_match_bounds(q.drop_first(), limit, b, (rem - q[0].2) as nat);
    }
}

/// Crosses `qty` at `limit` against `side`, the side opposite the incoming
/// order. Returns the fills, the partial fill, the quantity executed and the
/// volume.
pub fn match_side(side: &mut Vec<PriceLevel>, limit: &Amount, qty: &Amount, incoming_is_bid: bool, next: u32)
    -> (r: (Vec<(u32, Amount)>, Option<(u32, Amount)>, Amount, Amount))
    requires
        side_wf(old(side)@, !incoming_is_bid, next),
        qty.value() < order_bound(),
    ensures
        side_wf(final(side)@, !incoming_is_bid, next),
        rests_within(side_view(final(side)@), side_view(old(side)@)),
        ({
            let m = match_spec(flat(side_view(old(side)@)), limit.value(), incoming_is_bid, qty.value());
            &&& fills_view(r.0@) == m.filled
            &&& partial_view(r.1) == m.partial
            &&& r.2.value() == m.executed
            &&& r.3.value() == m.volume
            &&& flat(side_view(final(side)@)) == m.rest
        }),
{
    let ghost q0 = flat(side_view(side@));
    let ghost m0 = match_spec(q0, limit.value(), incoming_is_bid, qty.value());
    let mut rem = *qty;
    let mut executed = Amount::zero();
    let mut volume = Amount::zero();
    let mut filled: Vec<(u32, Amount)> = Vec::new();
    let mut partial: Option<(u32, Amount)> = None;
    let mut go = true;
    while go
        invariant
            side_wf(side@, !incoming_is_bid, next),
            rests_within(side_view(side@), side_view(old(side)@)),
            m0 == match_spec(q0, limit.value(), incoming_is_bid, qty.value()),
            rem.value() + executed.value() == qty.value(),
            qty.value() < order_bound(),
            volume.value() <= executed.value() * order_bound(),
            go ==> partial.is_none(),
            go ==> ({
                let m = match_spec(flat(side_view(side@)), limit.value(), incoming_is_bid, rem.value());
                &&& m0.filled == fills_view(filled@) + m.filled
                &&& m0.partial == m.partial
                &&& m0.executed == executed.value() + m.executed
                &&& m0.volume == volume.value() + m.volume
                &&& m0.rest == m.rest
            }),
            !go ==> ({
                &&& m0.filled == fills_view(filled@)
                &&& m0.partial == partial_view(partial)
                &&& m0.executed == executed.value()
                &&& m0.volume == volume.value()
                &&& m0.rest == flat(side_view(side@))
            }),
        decreases flat(side_view(side@)).len() + if go { 1int } else { 0int },
    {
        let ghost q = flat(side_view(side@));
        let stop = rem.is_zero() || side.len() == 0 || !crossing(&side[0].price, limit, incoming_is_bid);
        if stop {
            proof {
                if side@.len() > 0 {
                    assert(level_wf(side@[0], next));
                    lemma_flat_front(side_view(side@));
                } else {
                    assert(side_view(side@).len() == 0);
                    assert(q.len() == 0);
                }
                assert(fills_view(filled@) + Seq::<(u32, nat)>::empty() =~= fills_view(filled@));
            }
            go = false;
        } else {
            proof {
                assert(level_wf(side@[0], next));
                lemma_flat_front(side_view(side@));
            }
            let ghost m = match_spec(q, limit.value(), incoming_is_bid, rem.value());
            let ghost old_filled = filled@;
            let ghost e = executed.value();
            let ghost before = side_view(side@);
            let (oid, price, f, whole) = fill_front(side, &rem, !incoming_is_bid, next);
            proof {
                assert forall|x: u32| #[trigger] rests_in(side_view(side@), x) implies rests_in(side_view(old(side)@), x) by {
                    assert(rests_in(before, x));
                }
                let fq = f.value();
                let pv = price.value();
                let b = order_bound();
                assert(fq * pv <= fq * b) by (nonlinear_arith)
                    requires pv < b;
                assert((e + fq) * b == e * b + fq * b) by (nonlinear_arith);
                assert((e + fq) * b <= qty.value() * b) by (nonlinear_arith)
                    requires e + fq <= qty.value();
                assert(qty.value() * b <= amount_max()) by (nonlinear_arith)
                    requires qty.value() < b, b == 0x1_0000_0000_0000_0000_0000_0000_0000_0000nat,
                        amount_max() == 0xffff_ffff_ffff_ffff_ffff_ffff_ffff_ffff_ffff_ffff_ffff_ffff_ffff_ffff_ffff_ffffnat;
            }
            let fv = saturating_mul(&f, &price);
            volume = saturating_add(&volume, &fv);
            executed = saturating_add(&executed, &f);
            if whole {
                filled.push((oid, price));
                rem = saturating_sub(&rem, &f);
                proof {
                    let m1 = match_spec(q.drop_first(), limit.value(), incoming_is_bid, rem.value());
                    assert(m.filled == seq![(q[0].0, q[0].1)] + m1.filled);
                    assert(fills_view(filled@) =~= fills_view(old_filled).push((oid, price.value())));
                    assert(m0.filled =~= fills_view(filled@) + m1.filled);
                }
            } else {
                partial = Some((oid, price));
                rem = Amount::zero();
                go = false;
                proof {
                    assert(m0.filled =~= fills_view(filled@));
                }
            }
        }
    }
    (filled, partial, executed, volume)
}


/// Matches an incoming order of `qty` at limit `price` against the book:
/// crossing resting orders on the opposite side are filled in price-time
/// priority, and any residue rests at `price` under a fresh order id.
pub fn match_order(book: &mut OrderBook, price: Amount, qty: Amount, is_bid: bool) -> (r: MatchResult)
    requires
        old(book).wf(),
        0 < qty.value() < order_bound(),
        price.value() < order_bound(),
        old(book).next_oid < u32::MAX,
    ensures
        final(book).wf(),
        ({
            let m = match_spec(flat(old(book).side(!is_bid)), price.value(), is_bid, qty.value());
            &&& m.executed <= qty.value()
            &&& fills_view(r.filled@) == m.filled
            &&& partial_view(r.partial) == m.partial
            &&& r.executed.value() == m.executed
            &&& r.volume.value() == m.volume
            &&& flat(final(book).side(!is_bid)) == m.rest
            &&& m.executed < qty.value() ==> {
                &&& r.new_oid == Some(old(book).next_oid)
                &&& final(book).next_oid == old(book).next_oid + 1
                &&& final(book).side(is_bid) == placed(old(book).side(is_bid), price.value(),
                    (old(book).next_oid, (qty.value() - m.executed) as nat), is_bid)
            }
            &&& m.executed == qty.value() ==> {
                &&& r.new_oid.is_none()
                &&& final(book).next_oid == old(book).next_oid
                &&& final(book).side(is_bid) == old(book).side(is_bid)
            }
        }),
{
    let next = book.next_oid;
    let (filled, partial, executed, volume) = if is_bid {
        match_side(&mut book.asks, &price, &qty, true, next)
    } else {
        match_side(&mut book.bids, &price, &qty, false, next)
    };
    proof {
        lemma_match_bounds(flat(old(book).side(!is_bid)), price.value(), is_bid, qty.value());
        old(book).lemma_next_fresh();
        assert(book.side(is_bid) == old(book).side(is_bid));
        assert forall|x: u32| #[trigger] rests_in(book.side(true), x) implies !rests_in(book.side(false), x) by {
            if is_bid {
                if rests_in(book.side(false), x) {
                    assert(rests_in(old(book).side(false), x));
                }
            } else {
                assert(rests_in(old(book).side(true), x));
            }
        }
        assert(!rests_in(book.side(!is_bid), old(book).next_oid)) by {
            if rests_in(book.side(!is_bid), old(book).next_oid) {
                assert(rests_in(old(book).side(!is_bid), old(book).next_oid));
            }
        }
    }
    let mut new_oid: Option<u32> = None;
    if lt(&executed, &qty) {
        let rest = saturating_sub(&qty, &executed);
        let id = book.next_id();
        if let Some(oid) = id {
            book.add_order(oid, rest, price, is_bid);
            new_oid = Some(oid);
        }
    }
    MatchResult { volume, executed, new_oid, filled, partial }
}

} // verus!
