//! The order book: two sides of price levels, each level a FIFO of resting
//! orders.
//!
//! Each side is kept best price first: bids by descending price, asks by
//! ascending price. A side is modelled as a sequence of `LevelView`s, and
//! its priority queue as `flat`, the concatenation of its levels' orders.

use vstd::prelude::*;
use crate::amount::{Amount, order_bound, amount_max, saturating_add, saturating_sub, lt, le, same};

verus! {

/// A resting order: its id and remaining quantity.
#[derive(Clone, Copy, Debug)]
pub struct RestingOrder {
    pub oid: u32,
    pub qty: Amount,
}

/// A price level: its price, total size, and orders in arrival order.
#[derive(Clone, Debug)]
pub struct PriceLevel {
    pub price: Amount,
    pub size: Amount,
    pub orders: Vec<RestingOrder>,
}

/// The mathematical model of a price level.
pub struct LevelView {
    pub price: nat,
    /// `(oid, qty)` in arrival order.
    pub orders: Seq<(u32, nat)>,
}

pub open spec fn order_view(o: RestingOrder) -> (u32, nat) {
    (o.oid, o.qty.value())
}

impl View for PriceLevel {
    type V = LevelView;

    open spec fn view(&self) -> LevelView {
        LevelView { price: self.price.value(), orders: self.orders@.map_values(|o: RestingOrder| order_view(o)) }
    }
}

pub open spec fn side_view(levels: Seq<PriceLevel>) -> Seq<LevelView> {
    levels.map_values(|l: PriceLevel| l@)
}

/// Sum of the quantities of `os`.
pub open spec fn sum_qty(os: Seq<RestingOrder>) -> nat
    decreases os.len(),
{
    if os.len() == 0 {
        0
    } else {
        os[0].qty.value() + sum_qty(os.drop_first())
    }
}

/// Whether price `a` has priority over price `b` on the bid (`is_bid`) or ask side.
pub open spec fn better(a: nat, b: nat, is_bid: bool) -> bool {
    if is_bid { a > b } else { a < b }
}

/// A well-formed level: non-empty, positive bounded quantities, ids below
/// `next`, and size equal to the sum of its orders' quantities.
pub open spec fn level_wf(l: PriceLevel, next: u32) -> bool {
    &&& l.orders@.len() > 0
    &&& l.price.value() < order_bound()
    &&& l.size.value() == sum_qty(l.orders@)
    &&& forall|k: int| 0 <= k < l.orders@.len() ==> {
        &&& 0 < #[trigger] l.orders@[k].qty.value() < order_bound()
        &&& l.orders@[k].oid < next
    }
}

/// Levels strictly ordered best price first.
pub open spec fn sorted(s: Seq<LevelView>, is_bid: bool) -> bool {
    forall|i: int, j: int| 0 <= i < j < s.len() ==> better(#[trigger] s[i].price, #[trigger] s[j].price, is_bid)
}

pub open spec fn side_wf(levels: Seq<PriceLevel>, is_bid: bool, next: u32) -> bool {
    &&& forall|i: int| 0 <= i < levels.len() ==> level_wf(#[trigger] levels[i], next)
    &&& sorted(side_view(levels), is_bid)
    &&& side_unique(side_view(levels))
}

/// The orders of one level as `(oid, price, qty)` triples.
pub open spec fn tagged(l: LevelView) -> Seq<(u32, nat, nat)> {
    l.orders.map_values(|e: (u32, nat)| (e.0, l.price, e.1))
}

/// The priority queue of a side: its orders, best price first, FIFO within a price.
pub open spec fn flat(s: Seq<LevelView>) -> Seq<(u32, nat, nat)>
    decreases s.len(),
{
    if s.len() == 0 {
        Seq::empty()
    } else {
        tagged(s[0]) + flat(s.drop_first())
    }
}

/// Number of leading levels whose price is better than `price`.
pub open spec fn insert_pos(s: Seq<LevelView>, price: nat, is_bid: bool) -> nat
    decreases s.len(),
{
    if s.len() == 0 || !better(s[0].price, price, is_bid) {
        0
    } else {
        1 + insert_pos(s.drop_first(), price, is_bid)
    }
}

/// The side after appending order `e` at `price`: to the tail of the level
/// at that price, or as a new level at its place in price order.
pub open spec fn placed(s: Seq<LevelView>, price: nat, e: (u32, nat), is_bid: bool) -> Seq<LevelView> {
    let p = insert_pos(s, price, is_bid) as int;
    if p < s.len() && s[p].price == price {
        s.update(p, LevelView { price, orders: s[p].orders.push(e) })
    } else {
        s.insert(p, LevelView { price, orders: seq![e] })
    }
}

/// The side after removing the order at index `j` of level `i`; a level left
/// empty is dropped.
pub open spec fn removed(s: Seq<LevelView>, i: int, j: int) -> Seq<LevelView> {
    if s[i].orders.len() == 1 {
        s.remove(i)
    } else {
        s.update(i, LevelView { price: s[i].price, orders: s[i].orders.remove(j) })
    }
}

/// Whether order `oid` rests at index `j` of level `i`.
pub open spec fn rests_at(s: Seq<LevelView>, oid: u32, i: int, j: int) -> bool {
    0 <= i < s.len() && 0 <= j < s[i].orders.len() && s[i].orders[j].0 == oid
}

pub open spec fn rests_in(s: Seq<LevelView>, oid: u32) -> bool {
    exists|i: int, j: int| rests_at(s, oid, i, j)
}

/// Whether `(i, j)` is the first place, level by level and in arrival
/// order, where order `oid` rests on side `s`.
pub open spec fn first_at(s: Seq<LevelView>, oid: u32, i: int, j: int) -> bool {
    &&& rests_at(s, oid, i, j)
    &&& forall|a: int, b: int| #[trigger] rests_at(s, oid, a, b) ==> a > i || (a == i && b >= j)
}

/// The first place where order `oid` rests on side `s` (meaningful where it rests).
pub open spec fn first_loc(s: Seq<LevelView>, oid: u32) -> (int, int) {
    choose|ij: (int, int)| first_at(s, oid, ij.0, ij.1)
}

proof fn lemma_first_loc(s: Seq<LevelView>, oid: u32, i: int, j: int)
    requires
        first_at(s, oid, i, j),
    ensures
        first_loc(s, oid) == (i, j),
{
    assert(first_at(s, oid, (i, j).0, (i, j).1));
    let ij = first_loc(s, oid);
    assert(first_at(s, oid, ij.0, ij.1));
    assert(rests_at(s, oid, i, j));
    assert(rests_at(s, oid, ij.0, ij.1));
}

/// No order id rests at two places of side `s`.
pub open spec fn side_unique(s: Seq<LevelView>) -> bool {
    forall|oid: u32, i1: int, j1: int, i2: int, j2: int|
        #[trigger] rests_at(s, oid, i1, j1) && #[trigger] rests_at(s, oid, i2, j2) ==> i1 == i2 && j1 == j2
}

/// Every order resting on `t` rests on `s`.
pub open spec fn rests_within(t: Seq<LevelView>, s: Seq<LevelView>) -> bool {
    forall|oid: u32| #[trigger] rests_in(t, oid) ==> rests_in(s, oid)
}

/// Whether order `oid` rests on side `s` at `price` with quantity `qty`.
pub open spec fn rests_with(s: Seq<LevelView>, oid: u32, price: nat, qty: nat) -> bool {
    exists|i: int, j: int| #[trigger] rests_at(s, oid, i, j) && s[i].price == price && s[i].orders[j].1 == qty
}

/// Whether `t` is side `s` with order `oid`, resting at `price` with
/// quantity `qty`, taken out.
pub open spec fn removed_from(s: Seq<LevelView>, t: Seq<LevelView>, oid: u32, price: nat, qty: nat) -> bool {
    exists|i: int, j: int| {
        &&& #[trigger] rests_at(s, oid, i, j)
        &&& s[i].price == price
        &&& s[i].orders[j].1 == qty
        &&& t == removed(s, i, j)
    }
}

// ---------------------------------------------------------------- lemmas

proof fn lemma_sum_push(os: Seq<RestingOrder>, o: RestingOrder)
    ensures
        sum_qty(os.push(o)) == sum_qty(os) + o.qty.value(),
    decreases os.len(),
{
    if os.len() == 0 {
        assert(os.push(o).drop_first() =~= Seq::<RestingOrder>::empty());
        assert(sum_qty(Seq::<RestingOrder>::empty()) == 0);
        assert(os.push(o)[0] == o);
    } else {
        assert(os.push(o).drop_first() =~= os.drop_first().push(o));
        assert(os.push(o)[0] == os[0]);
        lemma_sum_push(os.drop_first(), o);
    }
}

proof fn lemma_sum_bound(os: Seq<RestingOrder>)
    requires
        forall|k: int| 0 <= k < os.len() ==> #[trigger] os[k].qty.value() < order_bound(),
    ensures
        sum_qty(os) <= os.len() * order_bound(),
    decreases os.len(),
{
    if os.len() > 0 {
        assert forall|k: int| 0 <= k < os.drop_first().len() implies #[trigger] os.drop_first()[k].qty.value()
            < order_bound() by {
            assert(os.drop_first()[k] == os[k + 1]);
        }
        lemma_sum_bound(os.drop_first());
    }
}

proof fn lemma_sum_remove(os: Seq<RestingOrder>, j: int)
    requires
        0 <= j < os.len(),
    ensures
        sum_qty(os.remove(j)) + os[j].qty.value() == sum_qty(os),
    decreases os.len(),
{
    if j == 0 {
        assert(os.remove(0) =~= os.drop_first());
    } else {
        assert(os.remove(j).drop_first() =~= os.drop_first().remove(j - 1));
        lemma_sum_remove(os.drop_first(), j - 1);
    }
}

proof fn lemma_sum_update(os: Seq<RestingOrder>, j: int, o: RestingOrder)
    requires
        0 <= j < os.len(),
    ensures
        sum_qty(os.update(j, o)) + os[j].qty.value() == sum_qty(os) + o.qty.value(),
{
    lemma_sum_remove(os, j);
    lemma_sum_remove(os.update(j, o), j);
    assert(os.update(j, o).remove(j) =~= os.remove(j));
}

proof fn lemma_flat_front_removed(s: Seq<LevelView>)
    requires
        s.len() > 0,
        s[0].orders.len() > 0,
    ensures
        flat(removed(s, 0, 0)) == flat(s).drop_first(),
{
    let r = removed(s, 0, 0);
    if s[0].orders.len() == 1 {
        assert(r =~= s.drop_first());
        assert(tagged(s[0]).len() == 1);
        assert(flat(s) =~= tagged(s[0]) + flat(s.drop_first()));
        assert(flat(s).drop_first() =~= flat(s.drop_first()));
    } else {
        assert(r.drop_first() =~= s.drop_first());
        assert(tagged(r[0]) =~= tagged(s[0]).drop_first());
        assert(flat(r) =~= tagged(r[0]) + flat(r.drop_first()));
        assert(flat(s) =~= tagged(s[0]) + flat(s.drop_first()));
        assert(flat(r) =~= flat(s).drop_first());
    }
}

proof fn lemma_flat_front_reduced(s: Seq<LevelView>, q: nat)
    requires
        s.len() > 0,
        s[0].orders.len() > 0,
    ensures
        ({
            let l = LevelView { price: s[0].price, orders: s[0].orders.update(0, (s[0].orders[0].0, q)) };
            flat(s.update(0, l)) == flat(s).update(0, (s[0].orders[0].0, s[0].price, q))
        }),
{
    let l = LevelView { price: s[0].price, orders: s[0].orders.update(0, (s[0].orders[0].0, q)) };
    let r = s.update(0, l);
    assert(r.drop_first() =~= s.drop_first());
    assert(tagged(l) =~= tagged(s[0]).update(0, (s[0].orders[0].0, s[0].price, q)));
    assert(flat(r) =~= tagged(r[0]) + flat(r.drop_first()));
    assert(flat(s) =~= tagged(s[0]) + flat(s.drop_first()));
    assert(flat(r) =~= flat(s).update(0, (s[0].orders[0].0, s[0].price, q)));
}

pub proof fn lemma_flat_front(s: Seq<LevelView>)
    requires
        s.len() > 0,
        s[0].orders.len() > 0,
    ensures
        flat(s).len() > 0,
        flat(s)[0] == (s[0].orders[0].0, s[0].price, s[0].orders[0].1),
{
    assert(flat(s) =~= tagged(s[0]) + flat(s.drop_first()));
    assert(tagged(s[0])[0] == (s[0].orders[0].0, s[0].price, s[0].orders[0].1));
}

proof fn lemma_insert_pos(s: Seq<LevelView>, price: nat, is_bid: bool, i: int)
    requires
        0 <= i <= s.len(),
        forall|k: int| 0 <= k < i ==> better(#[trigger] s[k].price, price, is_bid),
        i == s.len() || !better(s[i].price, price, is_bid),
    ensures
        insert_pos(s, price, is_bid) == i,
    decreases i,
{
    if i > 0 {
        assert forall|k: int| 0 <= k < i - 1 implies better(#[trigger] s.drop_first()[k].price, price, is_bid) by {
            assert(s.drop_first()[k] == s[k + 1]);
        }
        lemma_insert_pos(s.drop_first(), price, is_bid, i - 1);
    }
}

proof fn lemma_insert_pos_bound(s: Seq<LevelView>, price: nat, is_bid: bool)
    ensures
        insert_pos(s, price, is_bid) <= s.len(),
    decreases s.len(),
{
    if s.len() > 0 && better(s[0].price, price, is_bid) {
        lemma_insert_pos_bound(s.drop_first(), price, is_bid);
    }
}

proof fn lemma_unique_placed(s: Seq<LevelView>, price: nat, e: (u32, nat), is_bid: bool)
    requires
        side_unique(s),
        !rests_in(s, e.0),
    ensures
        side_unique(placed(s, price, e, is_bid)),
        forall|oid: u32| #[trigger] rests_in(placed(s, price, e, is_bid), oid) ==> rests_in(s, oid) || oid == e.0,
{
    let t = placed(s, price, e, is_bid);
    let p = insert_pos(s, price, is_bid) as int;
    lemma_insert_pos_bound(s, price, is_bid);
    if p < s.len() && s[p].price == price {
        let n = s[p].orders.len() as int;
        // A place of `t` other than the appended one is the same place of `s`.
        assert forall|oid: u32, i: int, j: int| #[trigger] rests_at(t, oid, i, j) && !(i == p && j == n) implies rests_at(s, oid, i, j) by {
            if i == p {
                assert(t[p].orders[j] == s[p].orders[j]);
            } else {
                assert(t[i] == s[i]);
            }
        }
        assert forall|oid: u32, i1: int, j1: int, i2: int, j2: int|
            #[trigger] rests_at(t, oid, i1, j1) && #[trigger] rests_at(t, oid, i2, j2) implies i1 == i2 && j1 == j2 by {
            if i1 == p && j1 == n {
                assert(oid == e.0);
                if !(i2 == p && j2 == n) {
                    assert(rests_at(s, oid, i2, j2));
                }
            } else if i2 == p && j2 == n {
                assert(oid == e.0);
                assert(rests_at(s, oid, i1, j1));
            } else {
                assert(rests_at(s, oid, i1, j1));
                assert(rests_at(s, oid, i2, j2));
            }
        }
        assert forall|oid: u32| #[trigger] rests_in(t, oid) implies rests_in(s, oid) || oid == e.0 by {
            let (i, j) = choose|i: int, j: int| rests_at(t, oid, i, j);
            if !(i == p && j == n) {
                assert(rests_at(s, oid, i, j));
            }
        }
    } else {
        assert forall|oid: u32, i: int, j: int| #[trigger] rests_at(t, oid, i, j) && i != p implies rests_at(s, oid, if i < p { i } else { i - 1 }, j) by {
            if i < p {
                assert(t[i] == s[i]);
            } else {
                assert(t[i] == s[i - 1]);
            }
        }
        assert forall|oid: u32, i1: int, j1: int, i2: int, j2: int|
            #[trigger] rests_at(t, oid, i1, j1) && #[trigger] rests_at(t, oid, i2, j2) implies i1 == i2 && j1 == j2 by {
            if i1 == p {
                assert(t[p].orders.len() == 1);
                assert(oid == e.0);
                if i2 != p {
                    assert(rests_at(s, oid, if i2 < p { i2 } else { i2 - 1 }, j2));
                }
            } else if i2 == p {
                assert(oid == e.0);
                assert(rests_at(s, oid, if i1 < p { i1 } else { i1 - 1 }, j1));
            } else {
                assert(rests_at(s, oid, if i1 < p { i1 } else { i1 - 1 }, j1));
                assert(rests_at(s, oid, if i2 < p { i2 } else { i2 - 1 }, j2));
            }
        }
        assert forall|oid: u32| #[trigger] rests_in(t, oid) implies rests_in(s, oid) || oid == e.0 by {
            let (i, j) = choose|i: int, j: int| rests_at(t, oid, i, j);
            if i != p {
                assert(rests_at(s, oid, if i < p { i } else { i - 1 }, j));
            }
        }
    }
}

proof fn lemma_unique_removed(s: Seq<LevelView>, i0: int, j0: int)
    requires
        side_unique(s),
        0 <= i0 < s.len(),
        0 <= j0 < s[i0].orders.len(),
    ensures
        side_unique(removed(s, i0, j0)),
        rests_within(removed(s, i0, j0), s),
        !rests_in(removed(s, i0, j0), s[i0].orders[j0].0),
{
    let t = removed(s, i0, j0);
    let gone = s[i0].orders[j0].0;
    if s[i0].orders.len() == 1 {
        assert forall|oid: u32, i: int, j: int| #[trigger] rests_at(t, oid, i, j) implies rests_at(s, oid, if i < i0 { i } else { i + 1 }, j) by {
            if i < i0 {
                assert(t[i] == s[i]);
            } else {
                assert(t[i] == s[i + 1]);
            }
        }
        assert forall|oid: u32, i1: int, j1: int, i2: int, j2: int|
            #[trigger] rests_at(t, oid, i1, j1) && #[trigger] rests_at(t, oid, i2, j2) implies i1 == i2 && j1 == j2 by {
            assert(rests_at(s, oid, if i1 < i0 { i1 } else { i1 + 1 }, j1));
            assert(rests_at(s, oid, if i2 < i0 { i2 } else { i2 + 1 }, j2));
        }
        assert forall|oid: u32| #[trigger] rests_in(t, oid) implies rests_in(s, oid) by {
            let (i, j) = choose|i: int, j: int| rests_at(t, oid, i, j);
            assert(rests_at(s, oid, if i < i0 { i } else { i + 1 }, j));
        }
        if rests_in(t, gone) {
            let (i, j) = choose|i: int, j: int| rests_at(t, gone, i, j);
            assert(rests_at(s, gone, if i < i0 { i } else { i + 1 }, j));
            assert(rests_at(s, gone, i0, j0));
        }
    } else {
        assert forall|oid: u32, i: int, j: int| #[trigger] rests_at(t, oid, i, j) implies rests_at(s, oid, i, if i == i0 && j >= j0 { j + 1 } else { j }) by {
            if i == i0 {
                if j < j0 {
                    assert(t[i0].orders[j] == s[i0].orders[j]);
                } else {
                    assert(t[i0].orders[j] == s[i0].orders[j + 1]);
                }
            } else {
                assert(t[i] == s[i]);
            }
        }
        assert forall|oid: u32, i1: int, j1: int, i2: int, j2: int|
            #[trigger] rests_at(t, oid, i1, j1) && #[trigger] rests_at(t, oid, i2, j2) implies i1 == i2 && j1 == j2 by {
            assert(rests_at(s, oid, i1, if i1 == i0 && j1 >= j0 { j1 + 1 } else { j1 }));
            assert(rests_at(s, oid, i2, if i2 == i0 && j2 >= j0 { j2 + 1 } else { j2 }));
        }
        assert forall|oid: u32| #[trigger] rests_in(t, oid) implies rests_in(s, oid) by {
            let (i, j) = choose|i: int, j: int| rests_at(t, oid, i, j);
            assert(rests_at(s, oid, i, if i == i0 && j >= j0 { j + 1 } else { j }));
        }
        if rests_in(t, gone) {
            let (i, j) = choose|i: int, j: int| rests_at(t, gone, i, j);
            assert(rests_at(s, gone, i, if i == i0 && j >= j0 { j + 1 } else { j }));
            assert(rests_at(s, gone, i0, j0));
        }
    }
}

proof fn lemma_unique_reduced(s: Seq<LevelView>, q: nat)
    requires
        side_unique(s),
        s.len() > 0,
        s[0].orders.len() > 0,
    ensures
        ({
            let t = s.update(0, LevelView { price: s[0].price, orders: s[0].orders.update(0, (s[0].orders[0].0, q)) });
            side_unique(t) && rests_within(t, s)
        }),
{
    let t = s.update(0, LevelView { price: s[0].price, orders: s[0].orders.update(0, (s[0].orders[0].0, q)) });
    assert forall|oid: u32, i: int, j: int| #[trigger] rests_at(t, oid, i, j) implies rests_at(s, oid, i, j) by {
        if i == 0 {
            if j > 0 {
                assert(t[0].orders[j] == s[0].orders[j]);
            }
        } else {
            assert(t[i] == s[i]);
        }
    }
    assert forall|oid: u32| #[trigger] rests_in(t, oid) implies rests_in(s, oid) by {
        let (i, j) = choose|i: int, j: int| rests_at(t, oid, i, j);
        assert(rests_at(s, oid, i, j));
    }
}

/// Every entry of a side's queue rests on that side.
pub proof fn lemma_flat_rests(s: Seq<LevelView>)
    ensures
        forall|k: int| 0 <= k < flat(s).len() ==> rests_in(s, #[trigger] flat(s)[k].0),
    decreases s.len(),
{
    if s.len() > 0 {
        let t = s.drop_first();
        lemma_flat_rests(t);
        assert(flat(s) =~= tagged(s[0]) + flat(t));
        assert forall|k: int| 0 <= k < flat(s).len() implies rests_in(s, #[trigger] flat(s)[k].0) by {
            let n = tagged(s[0]).len() as int;
            if k < n {
                assert(flat(s)[k] == tagged(s[0])[k]);
                assert(rests_at(s, flat(s)[k].0, 0, k));
            } else {
                assert(flat(s)[k] == flat(t)[k - n]);
                let x = flat(t)[k - n].0;
                assert(rests_in(t, x));
                let (i, j) = choose|i: int, j: int| rests_at(t, x, i, j);
                assert(s[i + 1] == t[i]);
                assert(rests_at(s, flat(s)[k].0, i + 1, j));
            }
        }
    }
}

/// A side whose ids rest at one place each has a queue without repeated ids.
pub proof fn lemma_flat_distinct(s: Seq<LevelView>)
    requires
        side_unique(s),
    ensures
        forall|a: int, b: int| 0 <= a < b < flat(s).len() ==> #[trigger] flat(s)[a].0 != #[trigger] flat(s)[b].0,
    decreases s.len(),
{
    if s.len() > 0 {
        let t = s.drop_first();
        assert forall|oid: u32, i1: int, j1: int, i2: int, j2: int|
            #[trigger] rests_at(t, oid, i1, j1) && #[trigger] rests_at(t, oid, i2, j2) implies i1 == i2 && j1 == j2 by {
            assert(rests_at(s, oid, i1 + 1, j1));
            assert(rests_at(s, oid, i2 + 1, j2));
        }
        lemma_flat_distinct(t);
        lemma_flat_rests(t);
        assert(flat(s) =~= tagged(s[0]) + flat(t));
        let n = tagged(s[0]).len() as int;
        assert forall|a: int, b: int| 0 <= a < b < flat(s).len() implies #[trigger] flat(s)[a].0 != #[trigger] flat(s)[b].0 by {
            if b < n {
                assert(rests_at(s, flat(s)[a].0, 0, a));
                assert(rests_at(s, flat(s)[b].0, 0, b));
            } else if a < n {
                assert(rests_at(s, flat(s)[a].0, 0, a));
                assert(flat(s)[b] == flat(t)[b - n]);
                let x = flat(t)[b - n].0;
                assert(rests_in(t, x));
                let (i, j) = choose|i: int, j: int| rests_at(t, x, i, j);
                assert(s[i + 1] == t[i]);
                assert(rests_at(s, flat(s)[b].0, i + 1, j));
            } else {
                assert(flat(s)[a] == flat(t)[a - n]);
                assert(flat(s)[b] == flat(t)[b - n]);
            }
        }
    }
}

// ------------------------------------------------------------ level operations

/// The level priced `price` holding the single order `o`.
pub fn new_level(price: Amount, o: RestingOrder) -> (r: PriceLevel)
    ensures
        r.price == price,
        r.size.value() == o.qty.value(),
        r.orders@ == seq![o],
        sum_qty(r.orders@) == o.qty.value(),
{
    let mut orders: Vec<RestingOrder> = Vec::new();
    orders.push(o);
    proof {
        assert(orders@.drop_first() =~= Seq::<RestingOrder>::empty());
        assert(sum_qty(Seq::<RestingOrder>::empty()) == 0);
        assert(orders@[0] == o);
    }
    PriceLevel { price, size: o.qty, orders }
}

/// Removes the order at index `j` of `level` and returns it.
pub fn take_from_level(level: &mut PriceLevel, j: usize, next: u32) -> (r: RestingOrder)
    requires
        level_wf(*old(level), next),
        j < old(level).orders@.len(),
    ensures
        r == old(level).orders@[j as int],
        final(level).price == old(level).price,
        final(level).orders@ == old(level).orders@.remove(j as int),
        final(level).size.value() == sum_qty(final(level).orders@),
{
    let o = level.orders.remove(j);
    proof {
        lemma_sum_remove(old(level).orders@, j as int);
    }
    level.size = saturating_sub(&level.size, &o.qty);
    o
}

/// Appends `o` to the tail of `level`.
pub fn append_to_level(level: &mut PriceLevel, o: RestingOrder, next: u32)
    requires
        level_wf(*old(level), next),
        0 < o.qty.value() < order_bound(),
        o.oid < next,
    ensures
        level_wf(*final(level), next),
        final(level).price == old(level).price,
        final(level).orders@ == old(level).orders@.push(o),
{
    let n = level.orders.len();
    proof {
        lemma_sum_bound(level.orders@);
        lemma_sum_push(level.orders@, o);
        assert(level.orders@.len() < 0x1_0000_0000_0000_0000nat);
        assert((level.orders@.len() + 1) * order_bound() <= amount_max()) by (nonlinear_arith)
            requires level.orders@.len() < 0x1_0000_0000_0000_0000nat, order_bound()
                == 0x1_0000_0000_0000_0000_0000_0000_0000_0000nat, amount_max()
                == 0xffff_ffff_ffff_ffff_ffff_ffff_ffff_ffff_ffff_ffff_ffff_ffff_ffff_ffff_ffff_ffffnat;
        assert(level.orders@.len() * order_bound() + order_bound() == (level.orders@.len() + 1)
            * order_bound()) by (nonlinear_arith);
    }
    level.size = saturating_add(&level.size, &o.qty);
    level.orders.push(o);
    proof {
        let os = level.orders@;
        assert forall|k: int| 0 <= k < os.len() implies {
            &&& 0 < #[trigger] os[k].qty.value() < order_bound()
            &&& os[k].oid < next
        } by {
            if k < os.len() - 1 {
                assert(os[k] == old(level).orders@[k]);
            }
        }
    }
}


/// Whether price `a` has priority over price `b` on the given side.
pub fn better_price(a: &Amount, b: &Amount, is_bid: bool) -> (r: bool)
    ensures
        r == better(a.value(), b.value(), is_bid),
{
    if is_bid { lt(b, a) } else { lt(a, b) }
}

proof fn lemma_view_update(s: Seq<PriceLevel>, i: int, l: PriceLevel)
    requires
        0 <= i < s.len(),
    ensures
        side_view(s.update(i, l)) == side_view(s).update(i, l@),
{
    assert(side_view(s.update(i, l)) =~= side_view(s).update(i, l@));
}

proof fn lemma_view_insert(s: Seq<PriceLevel>, i: int, l: PriceLevel)
    requires
        0 <= i <= s.len(),
    ensures
        side_view(s.insert(i, l)) == side_view(s).insert(i, l@),
{
    assert(side_view(s.insert(i, l)) =~= side_view(s).insert(i, l@));
}

proof fn lemma_view_remove(s: Seq<PriceLevel>, i: int)
    requires
        0 <= i < s.len(),
    ensures
        side_view(s.remove(i)) == side_view(s).remove(i),
{
    assert(side_view(s.remove(i)) =~= side_view(s).remove(i));
}

proof fn lemma_sorted_insert(s: Seq<LevelView>, i: int, l: LevelView, is_bid: bool)
    requires
        sorted(s, is_bid),
        0 <= i <= s.len(),
        forall|k: int| 0 <= k < i ==> better(#[trigger] s[k].price, l.price, is_bid),
        i < s.len() ==> !better(s[i].price, l.price, is_bid) && s[i].price != l.price,
    ensures
        sorted(s.insert(i, l), is_bid),
{
    let t = s.insert(i, l);
    assert forall|a: int, b: int| 0 <= a < b < t.len() implies better(#[trigger] t[a].price, #[trigger] t[b].price, is_bid) by {
        if b < i {
        } else if b == i {
            assert(t[a] == s[a]);
        } else if a < i {
            assert(t[a] == s[a]);
            assert(t[b] == s[b - 1]);
            if a < b - 1 {
                assert(better(s[a].price, s[b - 1].price, is_bid));
            }
        } else if a == i {
            assert(t[b] == s[b - 1]);
            if b - 1 > i {
                assert(better(s[i].price, s[b - 1].price, is_bid));
            }
        } else {
            assert(t[a] == s[a - 1]);
            assert(t[b] == s[b - 1]);
            assert(better(s[a - 1].price, s[b - 1].price, is_bid));
        }
    }
}

/// Appends order `o` at `price` to a side: to the tail of the level at that
/// price, or as a new level at its place in price order.
pub fn place(side: &mut Vec<PriceLevel>, price: Amount, o: RestingOrder, is_bid: bool, next: u32)
    requires
        side_wf(old(side)@, is_bid, next),
        price.value() < order_bound(),
        0 < o.qty.value() < order_bound(),
        o.oid < next,
        !rests_in(side_view(old(side)@), o.oid),
    ensures
        side_wf(final(side)@, is_bid, next),
        side_view(final(side)@) == placed(side_view(old(side)@), price.value(), order_view(o), is_bid),
{
    let ghost s = side_view(side@);
    proof {
        lemma_unique_placed(s, price.value(), order_view(o), is_bid);
    }
    let mut i: usize = 0;
    while i < side.len() && better_price(&side[i].price, &price, is_bid)
        invariant
            0 <= i <= side@.len(),
            side@ == old(side)@,
            s == side_view(side@),
            forall|k: int| 0 <= k < i ==> better(#[trigger] s[k].price, price.value(), is_bid),
        decreases side@.len() - i,
    {
        i = i + 1;
    }
    proof {
        lemma_insert_pos(s, price.value(), is_bid, i as int);
    }
    if i < side.len() && same(&side[i].price, &price) {
        let mut lvl = side.remove(i);
        append_to_level(&mut lvl, o, next);
        side.insert(i, lvl);
        proof {
            assert(side@ =~= old(side)@.update(i as int, lvl));
            lemma_view_update(old(side)@, i as int, lvl);
            assert(lvl@.orders =~= s[i as int].orders.push(order_view(o)));
            assert(side_view(side@) =~= placed(s, price.value(), order_view(o), is_bid));
            assert forall|k: int| 0 <= k < side@.len() implies level_wf(#[trigger] side@[k], next) by {
                if k != i {
                    assert(side@[k] == old(side)@[k]);
                }
            }
        }
    } else {
        let lvl = new_level(price, o);
        proof {
            assert(lvl@.orders =~= seq![order_view(o)]);
        }
        side.insert(i, lvl);
        proof {
            lemma_view_insert(old(side)@, i as int, lvl);
            let t = side_view(side@);
            assert(t =~= placed(s, price.value(), order_view(o), is_bid));
            lemma_sorted_insert(s, i as int, lvl@, is_bid);
            assert forall|k: int| 0 <= k < side@.len() implies level_wf(#[trigger] side@[k], next) by {
                if k < i {
                    assert(side@[k] == old(side)@[k]);
                } else if k > i {
                    assert(side@[k] == old(side)@[k - 1]);
                }
            }
        }
    }
}

/// Fills the first order of a side against `rem`: wholly where its quantity
/// is at most `rem`, else by `rem`. Returns its id, its level's price and
/// the quantity filled, and whether the order was filled wholly.
pub fn fill_front(side: &mut Vec<PriceLevel>, rem: &Amount, is_bid: bool, next: u32) -> (r: (u32, Amount, Amount, bool))
    requires
        side_wf(old(side)@, is_bid, next),
        old(side)@.len() > 0,
        rem.value() > 0,
    ensures
        side_wf(final(side)@, is_bid, next),
        rests_within(side_view(final(side)@), side_view(old(side)@)),
        flat(side_view(old(side)@)).len() > 0,
        ({
            let q = flat(side_view(old(side)@));
            let after = flat(side_view(final(side)@));
            &&& r.0 == q[0].0
            &&& r.1.value() == q[0].1
            &&& r.3 == (q[0].2 <= rem.value())
            &&& q[0].2 <= rem.value() ==> r.2.value() == q[0].2 && after == q.drop_first()
            &&& q[0].2 > rem.value() ==> r.2.value() == rem.value() && after == q.update(0, (q[0].0, q[0].1, (q[0].2 - rem.value()) as nat))
        }),
{
    let ghost s = side_view(side@);
    proof {
        assert(level_wf(side@[0], next));
        assert(s[0].orders.len() > 0);
        lemma_flat_front(s);
        lemma_unique_removed(s, 0, 0);
        lemma_unique_reduced(s, (s[0].orders[0].1 - rem.value()) as nat);
    }
    let mut lvl = side.remove(0);
    let o = lvl.orders[0];
    let price = lvl.price;
    proof {
        lemma_view_remove(old(side)@, 0);
        assert(s.remove(0) =~= s.drop_first());
    }
    if le(&o.qty, rem) {
        let _ = take_from_level(&mut lvl, 0, next);
        if lvl.orders.len() > 0 {
            side.insert(0, lvl);
            proof {
                lemma_view_insert(old(side)@.remove(0), 0, lvl);
                assert(lvl@.orders =~= s[0].orders.remove(0));
                assert(side_view(side@) =~= removed(s, 0, 0));
                assert forall|k: int| 0 <= k < side@.len() implies level_wf(#[trigger] side@[k], next) by {
                    if k > 0 {
                        assert(side@[k] == old(side)@[k]);
                    } else {
                        assert forall|m: int| 0 <= m < lvl.orders@.len() implies {
                            &&& 0 < #[trigger] lvl.orders@[m].qty.value() < order_bound()
                            &&& lvl.orders@[m].oid < next
                        } by {
                            assert(lvl.orders@[m] == old(side)@[0].orders@[m + 1]);
                        }
                    }
                }
            }
        } else {
            proof {
                assert(side_view(side@) =~= removed(s, 0, 0));
                assert forall|k: int| 0 <= k < side@.len() implies level_wf(#[trigger] side@[k], next) by {
                    assert(side@[k] == old(side)@[k + 1]);
                }
            }
        }
        proof {
            lemma_flat_front_removed(s);
        }
        (o.oid, price, o.qty, true)
    } else {
        let left = saturating_sub(&o.qty, rem);
        let reduced = RestingOrder { oid: o.oid, qty: left };
        proof {
            lemma_sum_update(lvl.orders@, 0, reduced);
        }
        lvl.orders.set(0, reduced);
        lvl.size = saturating_sub(&lvl.size, rem);
        side.insert(0, lvl);
        proof {
            assert(side@ =~= old(side)@.update(0, lvl));
            lemma_view_update(old(side)@, 0, lvl);
            let l2 = LevelView { price: s[0].price, orders: s[0].orders.update(0, (s[0].orders[0].0, left.value())) };
            assert(lvl@.orders =~= l2.orders);
            assert(side_view(side@) =~= s.update(0, l2));
            lemma_flat_front_reduced(s, left.value());
            assert forall|k: int| 0 <= k < side@.len() implies level_wf(#[trigger] side@[k], next) by {
                if k > 0 {
                    assert(side@[k] == old(side)@[k]);
                } else {
                    assert forall|m: int| 0 <= m < lvl.orders@.len() implies {
                        &&& 0 < #[trigger] lvl.orders@[m].qty.value() < order_bound()
                        &&& lvl.orders@[m].oid < next
                    } by {
                        if m > 0 {
                            assert(lvl.orders@[m] == old(side)@[0].orders@[m]);
                        }
                    }
                }
            }
        }
        (o.oid, price, *rem, false)
    }
}


/// Finds order `oid` on a side: its level index and its index in that level.
pub fn locate(side: &Vec<PriceLevel>, oid: u32) -> (r: Option<(usize, usize)>)
    ensures
        match r {
            Some((i, j)) => first_at(side_view(side@), oid, i as int, j as int),
            None => !rests_in(side_view(side@), oid),
        },
{
    let ghost s = side_view(side@);
    let mut i: usize = 0;
    while i < side.len()
        invariant
            0 <= i <= side@.len(),
            s == side_view(side@),
            forall|a: int, b: int| 0 <= a < i ==> !rests_at(s, oid, a, b),
        decreases side@.len() - i,
    {
        let mut j: usize = 0;
        while j < side[i].orders.len()
            invariant
                0 <= i < side@.len(),
                0 <= j <= side@[i as int].orders@.len(),
                s == side_view(side@),
                forall|a: int, b: int| 0 <= a < i ==> !rests_at(s, oid, a, b),
                forall|b: int| 0 <= b < j ==> !rests_at(s, oid, i as int, b),
            decreases side@[i as int].orders@.len() - j,
        {
            if side[i].orders[j].oid == oid {
                proof {
                    assert forall|a: int, b: int| #[trigger] rests_at(s, oid, a, b) implies a > i || (a == i && b >= j) by {
                        if a < i {
                            assert(!rests_at(s, oid, a, b));
                        }
                    }
                }
                return Some((i, j));
            }
            j = j + 1;
        }
        i = i + 1;
    }
    None
}

/// Removes the order at index `j` of level `i` of a side, dropping the
/// level if it is left empty.
pub fn remove_at(side: &mut Vec<PriceLevel>, i: usize, j: usize, is_bid: bool, next: u32) -> (r: RestingOrder)
    requires
        side_wf(old(side)@, is_bid, next),
        i < old(side)@.len(),
        j < old(side)@[i as int].orders@.len(),
    ensures
        side_wf(final(side)@, is_bid, next),
        side_view(final(side)@) == removed(side_view(old(side)@), i as int, j as int),
        rests_within(side_view(final(side)@), side_view(old(side)@)),
        !rests_in(side_view(final(side)@), r.oid),
        r == old(side)@[i as int].orders@[j as int],
{
    let ghost s = side_view(side@);
    proof {
        lemma_unique_removed(s, i as int, j as int);
    }
    assert(level_wf(side@[i as int], next));
    let mut lvl = side.remove(i);
    let o = take_from_level(&mut lvl, j, next);
    proof {
        lemma_view_remove(old(side)@, i as int);
    }
    if lvl.orders.len() > 0 {
        side.insert(i, lvl);
        proof {
            assert(side@ =~= old(side)@.update(i as int, lvl));
            lemma_view_update(old(side)@, i as int, lvl);
            assert(lvl@.orders =~= s[i as int].orders.remove(j as int));
            assert(side_view(side@) =~= removed(s, i as int, j as int));
            assert forall|k: int| 0 <= k < side@.len() implies level_wf(#[trigger] side@[k], next) by {
                if k != i {
                    assert(side@[k] == old(side)@[k]);
                } else {
                    assert forall|m: int| 0 <= m < lvl.orders@.len() implies {
                        &&& 0 < #[trigger] lvl.orders@[m].qty.value() < order_bound()
                        &&& lvl.orders@[m].oid < next
                    } by {
                        if m < j {
                            assert(lvl.orders@[m] == old(side)@[i as int].orders@[m]);
                        } else {
                            assert(lvl.orders@[m] == old(side)@[i as int].orders@[m + 1]);
                        }
                    }
                }
            }
        }
    } else {
        proof {
            assert(side_view(side@) =~= removed(s, i as int, j as int));
            let t = side_view(side@);
            assert forall|a: int, b: int| 0 <= a < b < t.len() implies better(#[trigger] t[a].price, #[trigger] t[b].price, is_bid) by {
                if b < i {
                } else if a < i {
                    assert(t[b] == s[b + 1]);
                } else {
                    assert(t[a] == s[a + 1]);
                    assert(t[b] == s[b + 1]);
                }
            }
            assert forall|k: int| 0 <= k < side@.len() implies level_wf(#[trigger] side@[k], next) by {
                if k < i {
                    assert(side@[k] == old(side)@[k]);
                } else {
                    assert(side@[k] == old(side)@[k + 1]);
                }
            }
        }
    }
    o
}

proof fn lemma_side_wf_grow(levels: Seq<PriceLevel>, is_bid: bool, n: u32, m: u32)
    requires
        side_wf(levels, is_bid, n),
        n <= m,
    ensures
        side_wf(levels, is_bid, m),
{
    assert forall|i: int| 0 <= i < levels.len() implies level_wf(#[trigger] levels[i], m) by {
        assert(level_wf(levels[i], n));
    }
}

proof fn lemma_side_fresh(levels: Seq<PriceLevel>, is_bid: bool, next: u32)
    requires
        side_wf(levels, is_bid, next),
    ensures
        !rests_in(side_view(levels), next),
{
    if rests_in(side_view(levels), next) {
        let (i, j) = choose|i: int, j: int| rests_at(side_view(levels), next, i, j);
        assert(level_wf(levels[i], next));
        assert(side_view(levels)[i].orders[j] == order_view(levels[i].orders@[j]));
    }
}

/// What a book reports of a resting order.
#[derive(Clone, Copy, Debug)]
pub struct OrderInfo {
    pub price: Amount,
    pub qty: Amount,
    pub is_bid: bool,
}

/// The order book of the one traded pair.
#[derive(Clone, Debug)]
pub struct OrderBook {
    pub bids: Vec<PriceLevel>,
    pub asks: Vec<PriceLevel>,
    /// The id that the next new order gets.
    pub next_oid: u32,
}

impl OrderBook {
    /// Levels sorted best first, non-empty, sizes equal to the sums of their
    /// orders, quantities positive, ids already handed out, and no id resting
    /// at two places.
    pub open spec fn wf(&self) -> bool {
        &&& side_wf(self.bids@, true, self.next_oid)
        &&& side_wf(self.asks@, false, self.next_oid)
        &&& forall|oid: u32| #[trigger] rests_in(self.side(true), oid) ==> !rests_in(self.side(false), oid)
    }

    /// No order rests under the next order id.
    pub proof fn lemma_next_fresh(&self)
        requires
            self.wf(),
        ensures
            !rests_in(self.side(true), self.next_oid),
            !rests_in(self.side(false), self.next_oid),
    {
        lemma_side_fresh(self.bids@, true, self.next_oid);
        lemma_side_fresh(self.asks@, false, self.next_oid);
    }

    /// The bid side (`is_bid`) or the ask side, as levels.
    pub open spec fn side(&self, is_bid: bool) -> Seq<LevelView> {
        if is_bid { side_view(self.bids@) } else { side_view(self.asks@) }
    }

    /// Where order `oid` rests: its side and its first place there, bids
    /// searched before asks.
    pub open spec fn position(&self, oid: u32) -> Option<(bool, int, int)> {
        if rests_in(self.side(true), oid) {
            Some((true, first_loc(self.side(true), oid).0, first_loc(self.side(true), oid).1))
        } else if rests_in(self.side(false), oid) {
            Some((false, first_loc(self.side(false), oid).0, first_loc(self.side(false), oid).1))
        } else {
            None
        }
    }

    /// Whether `info` describes order `oid` at its position.
    pub open spec fn describes(&self, oid: u32, info: OrderInfo) -> bool {
        match self.position(oid) {
            Some((s, i, j)) => {
                &&& s == info.is_bid
                &&& self.side(s)[i].price == info.price.value()
                &&& self.side(s)[i].orders[j].1 == info.qty.value()
            },
            None => false,
        }
    }

    /// Whether order `oid` rests on the `is_bid` side at a level priced `price`.
    pub open spec fn places(&self, oid: u32, is_bid: bool, price: nat) -> bool {
        match self.position(oid) {
            Some((s, i, j)) => s == is_bid && self.side(s)[i].price == price,
            None => false,
        }
    }

    pub fn new() -> (r: OrderBook)
        ensures
            r.wf(),
            r.side(true).len() == 0,
            r.side(false).len() == 0,
            r.next_oid == 1,
    {
        OrderBook { bids: Vec::new(), asks: Vec::new(), next_oid: 1 }
    }

    /// Hands out a fresh order id; `None` once the id space is used up.
    pub fn next_id(&mut self) -> (r: Option<u32>)
        requires
            old(self).wf(),
        ensures
            final(self).wf(),
            final(self).bids == old(self).bids,
            final(self).asks == old(self).asks,
            old(self).next_oid < u32::MAX ==> r == Some(old(self).next_oid) && final(self).next_oid == old(self).next_oid + 1,
            old(self).next_oid == u32::MAX ==> r.is_none() && final(self).next_oid == old(self).next_oid,
    {
        if self.next_oid == u32::MAX {
            None
        } else {
            let id = self.next_oid;
            proof {
                lemma_side_wf_grow(self.bids@, true, self.next_oid, (self.next_oid + 1) as u32);
                lemma_side_wf_grow(self.asks@, false, self.next_oid, (self.next_oid + 1) as u32);
            }
            self.next_oid = self.next_oid + 1;
            assert(self.side(true) == old(self).side(true));
            assert(self.side(false) == old(self).side(false));
            Some(id)
        }
    }

    /// Rests order `oid` of `qty` at `price` on the bid (`is_bid`) or ask side,
    /// at the tail of its price level.
    pub fn add_order(&mut self, oid: u32, qty: Amount, price: Amount, is_bid: bool)
        requires
            old(self).wf(),
            oid < old(self).next_oid,
            !rests_in(old(self).side(true), oid),
            !rests_in(old(self).side(false), oid),
            0 < qty.value() < order_bound(),
            price.value() < order_bound(),
        ensures
            final(self).wf(),
            final(self).next_oid == old(self).next_oid,
            final(self).side(is_bid) == placed(old(self).side(is_bid), price.value(), (oid, qty.value()), is_bid),
            final(self).side(!is_bid) == old(self).side(!is_bid),
    {
        let o = RestingOrder { oid, qty };
        if is_bid {
            place(&mut self.bids, price, o, true, self.next_oid);
        } else {
            place(&mut self.asks, price, o, false, self.next_oid);
        }
        proof {
            lemma_unique_placed(old(self).side(is_bid), price.value(), order_view(o), is_bid);
        }
    }

    /// Where order `oid` rests, if it does: its price, remaining quantity and side.
    pub fn order_info(&self, oid: u32) -> (r: Option<OrderInfo>)
        ensures
            match r {
                Some(info) => rests_with(self.side(info.is_bid), oid, info.price.value(), info.qty.value()) && self.describes(oid, info),
                None => !rests_in(self.side(true), oid) && !rests_in(self.side(false), oid),
            },
    {
        match locate(&self.bids, oid) {
            Some((i, j)) => {
                let info = OrderInfo { price: self.bids[i].price, qty: self.bids[i].orders[j].qty, is_bid: true };
                proof {
                    lemma_first_loc(self.side(true), oid, i as int, j as int);
                }
                assert(self.side(true)[i as int] == self.bids@[i as int]@);
                assert(self.side(true)[i as int].orders[j as int] == order_view(self.bids@[i as int].orders@[j as int]));
                assert(rests_at(self.side(info.is_bid), oid, i as int, j as int));
                assert(info.price.value() == self.side(info.is_bid)[i as int].price);
                assert(info.qty.value() == self.side(info.is_bid)[i as int].orders[j as int].1);
                assert(rests_with(self.side(info.is_bid), oid, info.price.value(), info.qty.value()));
                Some(info)
            },
            None => match locate(&self.asks, oid) {
                Some((i, j)) => {
                    let info = OrderInfo { price: self.asks[i].price, qty: self.asks[i].orders[j].qty, is_bid: false };
                    proof {
                        lemma_first_loc(self.side(false), oid, i as int, j as int);
                    }
                    assert(self.side(false)[i as int] == self.asks@[i as int]@);
                    assert(self.side(false)[i as int].orders[j as int] == order_view(self.asks@[i as int].orders@[j as int]));
                    assert(rests_at(self.side(info.is_bid), oid, i as int, j as int));
                    assert(info.price.value() == self.side(info.is_bid)[i as int].price);
                    assert(info.qty.value() == self.side(info.is_bid)[i as int].orders[j as int].1);
                    assert(rests_with(self.side(info.is_bid), oid, info.price.value(), info.qty.value()));
                    Some(info)
                },
                None => None,
            },
        }
    }

    /// Cancels order `oid`; returns where it rested, or `None` if it does not rest.
    pub fn remove_order(&mut self, oid: u32) -> (r: Option<OrderInfo>)
        requires
            old(self).wf(),
        ensures
            final(self).wf(),
            final(self).next_oid == old(self).next_oid,
            rests_within(final(self).side(true), old(self).side(true)),
            rests_within(final(self).side(false), old(self).side(false)),
            !rests_in(final(self).side(true), oid),
            !rests_in(final(self).side(false), oid),
            match r {
                Some(info) => {
                    &&& old(self).describes(oid, info)
                    &&& removed_from(old(self).side(info.is_bid), final(self).side(info.is_bid), oid, info.price.value(), info.qty.value())
                    &&& final(self).side(!info.is_bid) == old(self).side(!info.is_bid)
                },
                None => {
                    &&& !rests_in(old(self).side(true), oid)
                    &&& !rests_in(old(self).side(false), oid)
                    &&& final(self).side(true) == old(self).side(true)
                    &&& final(self).side(false) == old(self).side(false)
                },
            },
    {
        match locate(&self.bids, oid) {
            Some((i, j)) => {
                let price = self.bids[i].price;
                let o = remove_at(&mut self.bids, i, j, true, self.next_oid);
                let info = OrderInfo { price, qty: o.qty, is_bid: true };
                proof {
                    assert(self.side(false) == old(self).side(false));
                    assert(rests_at(old(self).side(true), oid, i as int, j as int));
                    assert(rests_in(old(self).side(true), oid));
                    assert forall|x: u32| #[trigger] rests_in(self.side(true), x) implies !rests_in(self.side(false), x) by {
                        assert(rests_in(old(self).side(true), x));
                    }
                }
                proof {
                    lemma_first_loc(old(self).side(true), oid, i as int, j as int);
                }
                assert(old(self).side(true)[i as int] == old(self).bids@[i as int]@);
                assert(old(self).side(true)[i as int].orders[j as int] == order_view(old(self).bids@[i as int].orders@[j as int]));
                assert(rests_at(old(self).side(info.is_bid), oid, i as int, j as int));
                assert(removed_from(old(self).side(true), self.side(true), oid, info.price.value(), info.qty.value()));
                Some(info)
            },
            None => match locate(&self.asks, oid) {
                Some((i, j)) => {
                    let price = self.asks[i].price;
                    let o = remove_at(&mut self.asks, i, j, false, self.next_oid);
                    let info = OrderInfo { price, qty: o.qty, is_bid: false };
                    proof {
                        assert(self.side(true) == old(self).side(true));
                        assert forall|x: u32| #[trigger] rests_in(self.side(true), x) implies !rests_in(self.side(false), x) by {
                            if rests_in(self.side(false), x) {
                                assert(rests_in(old(self).side(false), x));
                            }
                        }
                    }
                    proof {
                        lemma_first_loc(old(self).side(false), oid, i as int, j as int);
                    }
                    assert(old(self).side(false)[i as int] == old(self).asks@[i as int]@);
                    assert(old(self).side(false)[i as int].orders[j as int] == order_view(old(self).asks@[i as int].orders@[j as int]));
                    assert(rests_at(old(self).side(info.is_bid), oid, i as int, j as int));
                    assert(removed_from(old(self).side(false), self.side(false), oid, info.price.value(), info.qty.value()));
                    Some(info)
                },
                None => None,
            },
        }
    }
}

} // verus!
