//! The inventory ledger: per-user balances and liabilities, and the
//! reservation each resting order holds against its owner.

use vstd::prelude::*;
use crate::amount::{Amount, sat_add, sat_sub, sat_mul, saturating_add, saturating_sub, saturating_mul};
use crate::errors::MwError;
use crate::settlement::CowSwapOrder;
use crate::book::OrderBook;
use crate::requests::Order;
use crate::keyed::{keys_unique, has_key, lookup, lemma_lookup_at, lemma_lookup_push, lemma_lookup_update, lemma_lookup_remove};

verus! {

/// A 20-byte account address.
#[derive(Clone, Copy, Debug)]
pub struct Address {
    pub bytes: [u8; 20],
}

impl Address {
    pub fn new(bytes: [u8; 20]) -> (r: Address)
        ensures
            r.bytes == bytes,
    {
        Address { bytes }
    }
}

/// Whether two addresses are equal.
pub fn same_address(a: &Address, b: &Address) -> (r: bool)
    ensures
        r == (a.bytes@ == b.bytes@),
{
    let mut i: usize = 0;
    while i < 20
        invariant
            0 <= i <= 20,
            a.bytes@.len() == 20,
            b.bytes@.len() == 20,
            forall|k: int| 0 <= k < i ==> a.bytes@[k] == b.bytes@[k],
        decreases 20 - i,
    {
        if a.bytes[i] != b.bytes[i] {
            return false;
        }
        i = i + 1;
    }
    assert(a.bytes@ =~= b.bytes@);
    true
}

#[derive(Clone, Copy, Debug)]
pub struct Inventory {
    pub address: Address,
    pub eth_balance: Amount,
    pub eth_liabilities: Amount,
    pub usdc_balance: Amount,
    pub usdc_liabilities: Amount,
    pub deposit_nonce: u32,
    pub is_taker: bool,
}

/// The mathematical model of an inventory (its address aside).
pub struct InventoryView {
    pub eth_balance: nat,
    pub eth_liabilities: nat,
    pub usdc_balance: nat,
    pub usdc_liabilities: nat,
    pub deposit_nonce: u32,
    pub is_taker: bool,
}

impl View for Inventory {
    type V = InventoryView;

    open spec fn view(&self) -> InventoryView {
        InventoryView {
            eth_balance: self.eth_balance.value(),
            eth_liabilities: self.eth_liabilities.value(),
            usdc_balance: self.usdc_balance.value(),
            usdc_liabilities: self.usdc_liabilities.value(),
            deposit_nonce: self.deposit_nonce,
            is_taker: self.is_taker,
        }
    }
}

/// The inventory of an address that was never touched.
pub open spec fn empty_inventory() -> InventoryView {
    InventoryView {
        eth_balance: 0,
        eth_liabilities: 0,
        usdc_balance: 0,
        usdc_liabilities: 0,
        deposit_nonce: 0,
        is_taker: false,
    }
}

/// `v` with the reservation for an order of `qty` at `price` added: USDC
/// `qty * price` for a bid, ETH `qty` for an ask. Amounts saturate at
/// 2^256 - 1 rather than wrap.
pub open spec fn reserve(v: InventoryView, qty: nat, price: nat, is_bid: bool) -> InventoryView {
    if is_bid {
        InventoryView { usdc_liabilities: sat_add(v.usdc_liabilities, sat_mul(qty, price)), ..v }
    } else {
        InventoryView { eth_liabilities: sat_add(v.eth_liabilities, qty), ..v }
    }
}

/// `v` with the reservation for an order of `qty` at `price` released.
/// Liabilities saturate at zero: a release larger than what is reserved
/// leaves none.
pub open spec fn release(v: InventoryView, qty: nat, price: nat, is_bid: bool) -> InventoryView {
    if is_bid {
        InventoryView { usdc_liabilities: sat_sub(v.usdc_liabilities, sat_mul(qty, price)), ..v }
    } else {
        InventoryView { eth_liabilities: sat_sub(v.eth_liabilities, qty), ..v }
    }
}

/// `v` after its resting order traded `qty` at `price`: a bid receives ETH
/// and pays USDC, an ask pays ETH and receives USDC. Balances saturate: a
/// payment larger than the balance (possible only for a taker, whose orders
/// are not checked for cover) leaves the balance at zero, and the shortfall
/// is left to the taker's settlement through the external exchange.
pub open spec fn settle(v: InventoryView, qty: nat, price: nat, is_bid: bool) -> InventoryView {
    if is_bid {
        InventoryView {
            eth_balance: sat_add(v.eth_balance, qty),
            usdc_balance: sat_sub(v.usdc_balance, sat_mul(qty, price)),
            ..v
        }
    } else {
        InventoryView {
            eth_balance: sat_sub(v.eth_balance, qty),
            usdc_balance: sat_add(v.usdc_balance, sat_mul(qty, price)),
            ..v
        }
    }
}

impl Inventory {
    /// A fresh inventory for `address`: no balances, no liabilities.
    pub fn empty(address: Address) -> (r: Inventory)
        ensures
            r@ == empty_inventory(),
            r.address == address,
    {
        Inventory {
            address,
            eth_balance: Amount::zero(),
            eth_liabilities: Amount::zero(),
            usdc_balance: Amount::zero(),
            usdc_liabilities: Amount::zero(),
            deposit_nonce: 0,
            is_taker: false,
        }
    }

    pub fn new(
        address: Address,
        eth_balance: Amount,
        eth_liabilities: Amount,
        usdc_balance: Amount,
        usdc_liabilities: Amount,
        deposit_nonce: u32,
        is_taker: bool,
    ) -> (r: Inventory)
        ensures
            r.address == address,
            r.eth_balance == eth_balance,
            r.eth_liabilities == eth_liabilities,
            r.usdc_balance == usdc_balance,
            r.usdc_liabilities == usdc_liabilities,
            r.deposit_nonce == deposit_nonce,
            r.is_taker == is_taker,
    {
        Inventory { address, eth_balance, eth_liabilities, usdc_balance, usdc_liabilities, deposit_nonce, is_taker }
    }

    /// ETH not reserved by resting asks (zero where liabilities exceed the balance).
    pub fn net_eth(&self) -> (r: Amount)
        ensures
            r.value() == sat_sub(self.eth_balance.value(), self.eth_liabilities.value()),
    {
        saturating_sub(&self.eth_balance, &self.eth_liabilities)
    }

    /// USDC not reserved by resting bids (zero where liabilities exceed the balance).
    pub fn net_usdc(&self) -> (r: Amount)
        ensures
            r.value() == sat_sub(self.usdc_balance.value(), self.usdc_liabilities.value()),
    {
        saturating_sub(&self.usdc_balance, &self.usdc_liabilities)
    }

    /// This inventory with the reservation for an order of `qty` at `price` added.
    pub fn with_reserved(&self, qty: &Amount, price: &Amount, is_bid: bool) -> (r: Inventory)
        ensures
            r@ == reserve(self@, qty.value(), price.value(), is_bid),
            r.address == self.address,
    {
        let mut r = *self;
        if is_bid {
            r.usdc_liabilities = saturating_add(&self.usdc_liabilities, &saturating_mul(qty, price));
        } else {
            r.eth_liabilities = saturating_add(&self.eth_liabilities, qty);
        }
        r
    }

    /// This inventory with the reservation for an order of `qty` at `price` released.
    pub fn with_released(&self, qty: &Amount, price: &Amount, is_bid: bool) -> (r: Inventory)
        ensures
            r@ == release(self@, qty.value(), price.value(), is_bid),
            r.address == self.address,
    {
        let mut r = *self;
        if is_bid {
            r.usdc_liabilities = saturating_sub(&self.usdc_liabilities, &saturating_mul(qty, price));
        } else {
            r.eth_liabilities = saturating_sub(&self.eth_liabilities, qty);
        }
        r
    }

    /// This inventory after its resting order traded `qty` at `price`.
    pub fn with_settled(&self, qty: &Amount, price: &Amount, is_bid: bool) -> (r: Inventory)
        ensures
            r@ == settle(self@, qty.value(), price.value(), is_bid),
            r.address == self.address,
    {
        let mut r = *self;
        let cost = saturating_mul(qty, price);
        if is_bid {
            r.eth_balance = saturating_add(&self.eth_balance, qty);
            r.usdc_balance = saturating_sub(&self.usdc_balance, &cost);
        } else {
            r.eth_balance = saturating_sub(&self.eth_balance, qty);
            r.usdc_balance = saturating_add(&self.usdc_balance, &cost);
        }
        r
    }
}

/// The reservation a resting order holds: its owner and quantity.
#[derive(Clone, Copy, Debug)]
pub struct Reservation {
    pub oid: u32,
    pub owner: Address,
    pub qty: Amount,
}

pub open spec fn inv_key() -> spec_fn(Inventory) -> Seq<u8> {
    |i: Inventory| i.address.bytes@
}

pub open spec fn res_key() -> spec_fn(Reservation) -> u32 {
    |r: Reservation| r.oid
}


/// The ledger: every inventory, every reservation, and the enclave's
/// configuration and settlement outbox.
#[derive(Clone, Debug)]
pub struct Warehouse {
    /// At most one per address.
    pub inventories: Vec<Inventory>,
    /// At most one per order id: `owner_by_order` and `orders_by_owner` in one.
    pub reservations: Vec<Reservation>,
    pub deposit_contract: Address,
    pub checkpoint_contract: Address,
    pub rpc_api_key: String,
    pub settlement_orders: Vec<CowSwapOrder>,
    /// The enclave's 32-byte signing key.
    pub signing_key: Vec<u8>,
    /// The 32-byte AES-256-GCM key that checkpoints are encrypted under.
    pub encryption_key: Vec<u8>,
}

impl Warehouse {
    pub open spec fn wf(&self) -> bool {
        &&& keys_unique(self.inventories@, inv_key())
        &&& keys_unique(self.reservations@, res_key())
    }

    /// The inventory of address `a`; an untouched address has the empty one.
    pub open spec fn inventory(&self, a: Seq<u8>) -> InventoryView {
        match lookup(self.inventories@, inv_key(), a) {
            Some(i) => i@,
            None => empty_inventory(),
        }
    }

    /// The owner and reserved quantity of order `oid`, if it is booked.
    pub open spec fn reservation(&self, oid: u32) -> Option<(Seq<u8>, nat)> {
        match lookup(self.reservations@, res_key(), oid) {
            Some(r) => Some((r.owner.bytes@, r.qty.value())),
            None => None,
        }
    }

    /// Everything but inventories and reservations is as in `o`.
    pub open spec fn keeps_config(&self, o: &Warehouse) -> bool {
        &&& self.deposit_contract == o.deposit_contract
        &&& self.checkpoint_contract == o.checkpoint_contract
        &&& self.rpc_api_key == o.rpc_api_key
        &&& self.settlement_orders == o.settlement_orders
        &&& self.signing_key == o.signing_key
        &&& self.encryption_key == o.encryption_key
    }

    pub fn new(signing_key: Vec<u8>, encryption_key: Vec<u8>) -> (r: Warehouse)
        ensures
            r.wf(),
            r.inventories@.len() == 0,
            r.reservations@.len() == 0,
            r.settlement_orders@.len() == 0,
            r.signing_key == signing_key,
            r.encryption_key == encryption_key,
    {
        Warehouse {
            inventories: Vec::new(),
            reservations: Vec::new(),
            deposit_contract: Address { bytes: [0u8; 20] },
            checkpoint_contract: Address { bytes: [0u8; 20] },
            rpc_api_key: String::new(),
            settlement_orders: Vec::new(),
            signing_key,
            encryption_key,
        }
    }

    fn find_inventory(&self, a: &Address) -> (r: Option<usize>)
        ensures
            match r {
                Some(i) => i < self.inventories@.len() && self.inventories@[i as int].address.bytes@ == a.bytes@,
                None => !has_key(self.inventories@, inv_key(), a.bytes@),
            },
    {
        let mut i: usize = 0;
        while i < self.inventories.len()
            invariant
                0 <= i <= self.inventories@.len(),
                forall|k: int| 0 <= k < i ==> (#[trigger] self.inventories@[k]).address.bytes@ != a.bytes@,
            decreases self.inventories@.len() - i,
        {
            if same_address(&self.inventories[i].address, a) {
                return Some(i);
            }
            i = i + 1;
        }
        None
    }

    pub(crate) fn find_reservation(&self, oid: u32) -> (r: Option<usize>)
        ensures
            match r {
                Some(i) => i < self.reservations@.len() && self.reservations@[i as int].oid == oid,
                None => !has_key(self.reservations@, res_key(), oid),
            },
    {
        let mut i: usize = 0;
        while i < self.reservations.len()
            invariant
                0 <= i <= self.reservations@.len(),
                forall|k: int| 0 <= k < i ==> (#[trigger] self.reservations@[k]).oid != oid,
            decreases self.reservations@.len() - i,
        {
            if self.reservations[i].oid == oid {
                return Some(i);
            }
            i = i + 1;
        }
        None
    }

    /// The index of `a`'s inventory, made empty if `a` had none.
    pub(crate) fn entry(&mut self, a: &Address) -> (idx: usize)
        requires
            old(self).wf(),
        ensures
            final(self).wf(),
            idx < final(self).inventories@.len(),
            final(self).inventories@[idx as int].address.bytes@ == a.bytes@,
            final(self).inventories@[idx as int]@ == old(self).inventory(a.bytes@),
            forall|b: Seq<u8>| #[trigger] final(self).inventory(b) == old(self).inventory(b),
            final(self).reservations == old(self).reservations,
            final(self).keeps_config(old(self)),
    {
        match self.find_inventory(a) {
            Some(i) => {
                proof {
                    lemma_lookup_at(self.inventories@, inv_key(), i as int);
                }
                i
            },
            None => {
                let inv = Inventory::empty(*a);
                self.inventories.push(inv);
                proof {
                    lemma_lookup_push(old(self).inventories@, inv_key(), inv);
                    lemma_lookup_at(self.inventories@, inv_key(), self.inventories@.len() - 1);
                }
                self.inventories.len() - 1
            },
        }
    }

    /// Replaces the inventory at `idx` by `inv`, of the same address.
    pub(crate) fn put(&mut self, idx: usize, inv: Inventory)
        requires
            old(self).wf(),
            idx < old(self).inventories@.len(),
            inv.address.bytes@ == old(self).inventories@[idx as int].address.bytes@,
        ensures
            final(self).wf(),
            final(self).inventories@ == old(self).inventories@.update(idx as int, inv),
            final(self).inventory(inv.address.bytes@) == inv@,
            forall|b: Seq<u8>| b != inv.address.bytes@ ==> #[trigger] final(self).inventory(b) == old(self).inventory(b),
            final(self).reservations == old(self).reservations,
            final(self).keeps_config(old(self)),
    {
        self.inventories.set(idx, inv);
        proof {
            lemma_lookup_update(old(self).inventories@, inv_key(), idx as int, inv);
        }
    }

    /// Takes the reservation of order `oid` out of the ledger.
    fn take_reservation(&mut self, oid: u32) -> (r: Option<Reservation>)
        requires
            old(self).wf(),
        ensures
            final(self).wf(),
            final(self).inventories == old(self).inventories,
            final(self).keeps_config(old(self)),
            match r {
                Some(res) => {
                    &&& old(self).reservation(oid) == Some((res.owner.bytes@, res.qty.value()))
                    &&& final(self).reservation(oid).is_none()
                    &&& forall|o: u32| o != oid ==> #[trigger] final(self).reservation(o) == old(self).reservation(o)
                },
                None => old(self).reservation(oid).is_none() && *final(self) == *old(self),
            },
    {
        match self.find_reservation(oid) {
            Some(j) => {
                let res = self.reservations.remove(j);
                proof {
                    lemma_lookup_at(old(self).reservations@, res_key(), j as int);
                    lemma_lookup_remove(old(self).reservations@, res_key(), j as int);
                }
                Some(res)
            },
            None => None,
        }
    }

    /// Whether `new` is `old` with order `oid` of `owner`, reserved for `qty`,
    /// taken out and `owner`'s inventory made `after`.
    pub open spec fn closed(old: &Warehouse, new: &Warehouse, oid: u32, owner: Seq<u8>, qty: nat, after: InventoryView) -> bool {
        &&& new.wf()
        &&& new.keeps_config(old)
        &&& old.reservation(oid) == Some((owner, qty))
        &&& new.reservation(oid).is_none()
        &&& forall|o: u32| o != oid ==> #[trigger] new.reservation(o) == old.reservation(o)
        &&& new.inventory(owner) == after
        &&& forall|b: Seq<u8>| b != owner ==> #[trigger] new.inventory(b) == old.inventory(b)
    }

    /// Whether `new` is `old` after its booked order `oid` was filled wholly
    /// at `price` (a bid where `is_bid`): the reservation is released and the
    /// owner's balances move for the whole booked quantity.
    pub open spec fn filled(old: &Warehouse, new: &Warehouse, oid: u32, price: nat, is_bid: bool) -> bool {
        let owner = old.owner_of(oid);
        let q = old.reserved_qty(oid);
        &&& old.reservation(oid).is_some()
        &&& Warehouse::closed(old, new, oid, owner, q, settle(release(old.inventory(owner), q, price, is_bid), q, price, is_bid))
    }

    /// Whether `new` is `old` after its booked order `oid` was filled by
    /// `qty` at `price`: the reservation is released, balances move for
    /// `qty`, and the rest is booked again under the same id.
    pub open spec fn partly_filled(old: &Warehouse, new: &Warehouse, oid: u32, qty: nat, price: nat, is_bid: bool) -> bool {
        let owner = old.owner_of(oid);
        let q0 = old.reserved_qty(oid);
        &&& old.reservation(oid).is_some()
        &&& new.wf()
        &&& new.keeps_config(old)
        &&& new.reservation(oid) == Some((owner, sat_sub(q0, qty)))
        &&& forall|o: u32| o != oid ==> #[trigger] new.reservation(o) == old.reservation(o)
        &&& new.inventory(owner) == reserve(settle(release(old.inventory(owner), q0, price, is_bid), qty, price, is_bid),
            sat_sub(q0, qty), price, is_bid)
        &&& forall|b: Seq<u8>| b != owner ==> #[trigger] new.inventory(b) == old.inventory(b)
    }

    /// Whether `new` is `old` with order `oid` of `owner` booked for `qty` at
    /// `price` (a bid where `is_bid`), as `add_order` does it.
    pub open spec fn booked(old: &Warehouse, new: &Warehouse, oid: u32, owner: Seq<u8>, qty: nat, price: nat, is_bid: bool) -> bool {
        &&& new.wf()
        &&& new.keeps_config(old)
        &&& new.reservation(oid) == Some((owner, qty))
        &&& forall|o: u32| o != oid ==> #[trigger] new.reservation(o) == old.reservation(o)
        &&& new.inventory(owner) == reserve(old.inventory(owner), qty, price, is_bid)
        &&& forall|b: Seq<u8>| b != owner ==> #[trigger] new.inventory(b) == old.inventory(b)
    }

    /// The owner of booked order `oid`.
    pub open spec fn owner_of(&self, oid: u32) -> Seq<u8> {
        self.reservation(oid).unwrap().0
    }

    /// The quantity reserved by booked order `oid`.
    pub open spec fn reserved_qty(&self, oid: u32) -> nat {
        self.reservation(oid).unwrap().1
    }

    /// Takes order `oid` out and releases its reservation at `price`; returns
    /// its quantity and the index of its owner's inventory.
    fn release_core(&mut self, oid: u32, price: &Amount, is_bid: bool) -> (r: Result<(Amount, usize), MwError>)
        requires
            old(self).wf(),
        ensures
            match r {
                Ok((q, idx)) => {
                    &&& idx < final(self).inventories@.len()
                    &&& Warehouse::closed(old(self), final(self), oid, final(self).inventories@[idx as int].address.bytes@, q.value(),
                        release(old(self).inventory(final(self).inventories@[idx as int].address.bytes@), q.value(), price.value(), is_bid))
                    &&& final(self).inventories@[idx as int]@ == final(self).inventory(final(self).inventories@[idx as int].address.bytes@)
                },
                Err(e) => {
                    &&& old(self).reservation(oid).is_none()
                    &&& e == MwError::OrderNotFound { order_id: oid }
                    &&& *final(self) == *old(self)
                },
            },
    {
        match self.take_reservation(oid) {
            None => Err(MwError::OrderNotFound { order_id: oid }),
            Some(res) => {
                let ghost w0 = *self;
                let idx = self.entry(&res.owner);
                let ghost w1 = *self;
                let inv = self.inventories[idx].with_released(&res.qty, price, is_bid);
                self.put(idx, inv);
                proof {
                    assert(self.inventories@[idx as int] == inv);
                    assert forall|o: u32| #[trigger] self.reservation(o) == w0.reservation(o) by {
                        assert(self.reservations == w0.reservations);
                    }
                }
                Ok((res.qty, idx))
            },
        }
    }

    /// Takes bid `oid` out of the ledger and releases its USDC reservation
    /// (`qty * price`). Returns its quantity and its owner's inventory after.
    pub fn remove_bid(&mut self, oid: u32, price: Amount) -> (r: Result<(Amount, Inventory), MwError>)
        requires
            old(self).wf(),
        ensures
            match r {
                Ok((q, inv)) => {
                    &&& Warehouse::closed(old(self), final(self), oid, inv.address.bytes@, q.value(),
                        release(old(self).inventory(inv.address.bytes@), q.value(), price.value(), true))
                    &&& inv@ == final(self).inventory(inv.address.bytes@)
                },
                Err(e) => old(self).reservation(oid).is_none() && e == MwError::OrderNotFound { order_id: oid } && *final(self) == *old(self),
            },
    {
        match self.release_core(oid, &price, true) {
            Ok((q, idx)) => Ok((q, self.inventories[idx])),
            Err(e) => Err(e),
        }
    }

    /// Takes ask `oid` out of the ledger and releases its ETH reservation.
    /// Returns its quantity and its owner's inventory after.
    pub fn remove_ask(&mut self, oid: u32) -> (r: Result<(Amount, Inventory), MwError>)
        requires
            old(self).wf(),
        ensures
            match r {
                Ok((q, inv)) => {
                    &&& Warehouse::closed(old(self), final(self), oid, inv.address.bytes@, q.value(),
                        release(old(self).inventory(inv.address.bytes@), q.value(), 0, false))
                    &&& inv@ == final(self).inventory(inv.address.bytes@)
                },
                Err(e) => old(self).reservation(oid).is_none() && e == MwError::OrderNotFound { order_id: oid } && *final(self) == *old(self),
            },
    {
        match self.release_core(oid, &Amount::zero(), false) {
            Ok((q, idx)) => Ok((q, self.inventories[idx])),
            Err(e) => Err(e),
        }
    }

    /// Settles resting order `oid`, filled wholly at `price`: releases its
    /// reservation, then moves ETH and USDC for its whole quantity.
    fn fill_core(&mut self, oid: u32, price: Amount, is_bid: bool) -> (r: Result<Amount, MwError>)
        requires
            old(self).wf(),
        ensures
            match r {
                Ok(q) => q.value() == old(self).reserved_qty(oid) && Warehouse::filled(old(self), final(self), oid, price.value(), is_bid),
                Err(e) => old(self).reservation(oid).is_none() && e == MwError::OrderNotFound { order_id: oid } && *final(self) == *old(self),
            },
    {
        match self.release_core(oid, &price, is_bid) {
            Ok((q, idx)) => {
                let ghost w1 = *self;
                let inv = self.inventories[idx].with_settled(&q, &price, is_bid);
                self.put(idx, inv);
                proof {
                    assert forall|o: u32| #[trigger] self.reservation(o) == w1.reservation(o) by {
                        assert(self.reservations == w1.reservations);
                    }
                }
                Ok(q)
            },
            Err(e) => Err(e),
        }
    }

    /// Settles resting bid `oid`, filled wholly at `price`: its owner's USDC
    /// reservation is released, ETH balance rises by its quantity and USDC
    /// balance falls by quantity times price. Returns the quantity.
    pub fn fill_bid(&mut self, oid: u32, price: Amount) -> (r: Result<Amount, MwError>)
        requires
            old(self).wf(),
        ensures
            match r {
                Ok(q) => q.value() == old(self).reserved_qty(oid) && Warehouse::filled(old(self), final(self), oid, price.value(), true),
                Err(e) => old(self).reservation(oid).is_none() && e == MwError::OrderNotFound { order_id: oid } && *final(self) == *old(self),
            },
    {
        self.fill_core(oid, price, true)
    }

    /// Settles resting ask `oid`, filled wholly at `price`: its owner's ETH
    /// reservation is released, ETH balance falls by its quantity and USDC
    /// balance rises by quantity times price. Returns the quantity.
    pub fn fill_ask(&mut self, oid: u32, price: Amount) -> (r: Result<Amount, MwError>)
        requires
            old(self).wf(),
        ensures
            match r {
                Ok(q) => q.value() == old(self).reserved_qty(oid) && Warehouse::filled(old(self), final(self), oid, price.value(), false),
                Err(e) => old(self).reservation(oid).is_none() && e == MwError::OrderNotFound { order_id: oid } && *final(self) == *old(self),
            },
    {
        self.fill_core(oid, price, false)
    }

    /// Books order `oid` of `owner` for `qty` at `price`: reserves USDC
    /// `qty * price` for a bid, ETH `qty` for an ask. Returns `qty` and the
    /// owner's inventory after.
    pub fn add_order(&mut self, oid: u32, owner: Address, qty: Amount, price: Amount, is_bid: bool) -> (r: (Amount, Inventory))
        requires
            old(self).wf(),
        ensures
            Warehouse::booked(old(self), final(self), oid, owner.bytes@, qty.value(), price.value(), is_bid),
            r.0 == qty,
            r.1@ == final(self).inventory(owner.bytes@),
            r.1.address.bytes@ == owner.bytes@,
    {
        let idx = self.entry(&owner);
        let ghost w0 = *self;
        let inv = self.inventories[idx].with_reserved(&qty, &price, is_bid);
        self.put(idx, inv);
        let ghost w1 = *self;
        let res = Reservation { oid, owner, qty };
        let ghost mid = self.reservations@;
        match self.find_reservation(oid) {
            Some(j) => {
                self.reservations.set(j, res);
                proof {
                    lemma_lookup_update(mid, res_key(), j as int, res);
                }
            },
            None => {
                self.reservations.push(res);
                proof {
                    lemma_lookup_push(mid, res_key(), res);
                }
            },
        }
        assert(self.inventories == w1.inventories);
        assert forall|b: Seq<u8>| b != owner.bytes@ implies #[trigger] self.inventory(b) == old(self).inventory(b) by {
            assert(self.inventory(b) == w1.inventory(b));
            assert(w1.inventory(b) == w0.inventory(b));
        }
        (qty, inv)
    }

    /// Settles resting order `oid` filled by `qty` of its quantity at `price`:
    /// its reservation is released, funds move for `qty`, and the rest of the
    /// order is booked again under the same id.
    pub fn partially_fill_order(&mut self, oid: u32, qty: Amount, price: Amount, is_bid: bool) -> (r: Result<(), MwError>)
        requires
            old(self).wf(),
        ensures
            final(self).wf(),
            final(self).keeps_config(old(self)),
            match r {
                Ok(()) => Warehouse::partly_filled(old(self), final(self), oid, qty.value(), price.value(), is_bid),
                Err(e) => old(self).reservation(oid).is_none() && e == MwError::OrderNotFound { order_id: oid } && *final(self) == *old(self),
            },
    {
        match self.release_core(oid, &price, is_bid) {
            Ok((q0, idx)) => {
                let owner = self.inventories[idx].address;
                let ghost w1 = *self;
                let inv = self.inventories[idx].with_settled(&qty, &price, is_bid);
                self.put(idx, inv);
                let ghost w2 = *self;
                proof {
                    assert forall|o: u32| #[trigger] w2.reservation(o) == w1.reservation(o) by {
                        assert(w2.reservations == w1.reservations);
                    }
                }
                let rest = saturating_sub(&q0, &qty);
                let _ = self.add_order(oid, owner, rest, price, is_bid);
                Ok(())
            },
            Err(e) => Err(e),
        }
    }

    /// Replaces order `oid` (resting at `old_price` on the `old_is_bid` side)
    /// by order `new_oid` of `new_qty` at `price` on the `is_bid` side, under
    /// the same owner. Returns the old quantity and the owner's inventory after.
    pub fn replace_order(
        &mut self,
        oid: u32,
        new_oid: u32,
        new_qty: Amount,
        price: Amount,
        is_bid: bool,
        old_price: Amount,
        old_is_bid: bool,
    ) -> (r: Result<(Amount, Inventory), MwError>)
        requires
            old(self).wf(),
        ensures
            final(self).wf(),
            final(self).keeps_config(old(self)),
            match r {
                Ok((q, inv)) => {
                    let owner = inv.address.bytes@;
                    &&& old(self).reservation(oid) == Some((owner, q.value()))
                    &&& final(self).reservation(new_oid) == Some((owner, new_qty.value()))
                    &&& new_oid != oid ==> final(self).reservation(oid).is_none()
                    &&& forall|o: u32| o != oid && o != new_oid ==> #[trigger] final(self).reservation(o) == old(self).reservation(o)
                    &&& final(self).inventory(owner) == reserve(
                        release(old(self).inventory(owner), q.value(), old_price.value(), old_is_bid),
                        new_qty.value(), price.value(), is_bid)
                    &&& inv@ == final(self).inventory(owner)
                    &&& forall|b: Seq<u8>| b != owner ==> #[trigger] final(self).inventory(b) == old(self).inventory(b)
                },
                Err(e) => old(self).reservation(oid).is_none() && e == MwError::OrderNotFound { order_id: oid } && *final(self) == *old(self),
            },
    {
        match self.release_core(oid, &old_price, old_is_bid) {
            Ok((q, idx)) => {
                let owner = self.inventories[idx].address;
                let (_, inv) = self.add_order(new_oid, owner, new_qty, price, is_bid);
                Ok((q, inv))
            },
            Err(e) => Err(e),
        }
    }

    /// The reservation of order `oid`, if it is booked.
    pub fn reservation_of(&self, oid: u32) -> (r: Option<Reservation>)
        requires
            self.wf(),
        ensures
            match r {
                Some(res) => self.reservation(oid) == Some((res.owner.bytes@, res.qty.value())) && res.oid == oid,
                None => self.reservation(oid).is_none(),
            },
    {
        match self.find_reservation(oid) {
            Some(j) => {
                proof {
                    lemma_lookup_at(self.reservations@, res_key(), j as int);
                }
                Some(self.reservations[j])
            },
            None => None,
        }
    }

    /// Whether `user` has any booked order.
    pub open spec fn has_orders(&self, user: Seq<u8>) -> bool {
        exists|k: int| 0 <= k < self.reservations@.len() && (#[trigger] self.reservations@[k]).owner.bytes@ == user
    }

    /// The orders of `user` that rest in `book`, in booking order, each with
    /// its side and level price from the book, its booked quantity, and
    /// timestamp `now_ms`. `NoOrdersFound` where `user` has no booked order.
    pub fn get_orders(&self, book: &OrderBook, user: &Address, now_ms: u64) -> (r: Result<Vec<Order>, MwError>)
        requires
            self.wf(),
        ensures
            r.is_err() == !self.has_orders(user.bytes@),
            r matches Err(e) ==> e == MwError::NoOrdersFound,
            r matches Ok(v) ==> ({
                let l = listing(self.reservations@, *book, user.bytes@);
                &&& v@.len() == l.len()
                &&& forall|k: int| 0 <= k < v@.len() ==> {
                    &&& (#[trigger] v@[k]).timestamp == now_ms
                    &&& self.reservation(l[k]) == Some((user.bytes@, v@[k].qty.value()))
                    &&& book.places(l[k], v@[k].is_bid, v@[k].price.value())
                }
            }),
    {
        let mut out: Vec<Order> = Vec::new();
        let mut any = false;
        let mut j: usize = 0;
        while j < self.reservations.len()
            invariant
                0 <= j <= self.reservations@.len(),
                self.wf(),
                any == exists|k: int| 0 <= k < j && (#[trigger] self.reservations@[k]).owner.bytes@ == user.bytes@,
                ({
                    let l = listing(self.reservations@.subrange(0, j as int), *book, user.bytes@);
                    &&& out@.len() == l.len()
                    &&& forall|k: int| 0 <= k < out@.len() ==> {
                        &&& (#[trigger] out@[k]).timestamp == now_ms
                        &&& self.reservation(l[k]) == Some((user.bytes@, out@[k].qty.value()))
                        &&& book.places(l[k], out@[k].is_bid, out@[k].price.value())
                    }
                }),
            decreases self.reservations@.len() - j,
        {
            let res = self.reservations[j];
            let ghost before = self.reservations@.subrange(0, j as int);
            let ghost after = self.reservations@.subrange(0, j as int + 1);
            proof {
                assert(after.drop_last() =~= before);
                assert(after.last() == res);
                lemma_lookup_at(self.reservations@, res_key(), j as int);
            }
            if same_address(&res.owner, user) {
                any = true;
                match book.order_info(res.oid) {
                    Some(info) => {
                        let o = Order { price: info.price, qty: res.qty, is_bid: info.is_bid, timestamp: now_ms };
                        let ghost old_out = out@;
                        out.push(o);
                        proof {
                            assert(book.position(res.oid).is_some());
                            let l = listing(after, *book, user.bytes@);
                            assert(l == listing(before, *book, user.bytes@).push(res.oid));
                            assert forall|k: int| 0 <= k < out@.len() implies {
                                &&& (#[trigger] out@[k]).timestamp == now_ms
                                &&& self.reservation(l[k]) == Some((user.bytes@, out@[k].qty.value()))
                                &&& book.places(l[k], out@[k].is_bid, out@[k].price.value())
                            } by {
                                if k < out@.len() - 1 {
                                    assert(out@[k] == old_out[k]);
                                }
                            }
                        }
                    },
                    None => {
                        proof {
                            assert(book.position(res.oid).is_none());
                            assert(listing(after, *book, user.bytes@) == listing(before, *book, user.bytes@));
                        }
                    },
                }
            } else {
                proof {
                    assert(listing(after, *book, user.bytes@) == listing(before, *book, user.bytes@));
                }
            }
            j = j + 1;
        }
        proof {
            assert(self.reservations@.subrange(0, self.reservations@.len() as int) =~= self.reservations@);
        }
        if any {
            Ok(out)
        } else {
            Err(MwError::NoOrdersFound)
        }
    }

    /// Whether `a` trades on margin (an untouched address does not).
    pub fn is_taker(&self, a: &Address) -> (r: bool)
        requires
            self.wf(),
        ensures
            r == self.inventory(a.bytes@).is_taker,
    {
        match self.find_inventory(a) {
            Some(i) => {
                proof {
                    lemma_lookup_at(self.inventories@, inv_key(), i as int);
                }
                self.inventories[i].is_taker
            },
            None => false,
        }
    }

    /// The inventory of `a`, empty if `a` was never touched.
    pub fn inventory_of(&self, a: &Address) -> (r: Inventory)
        requires
            self.wf(),
        ensures
            r@ == self.inventory(a.bytes@),
            r.address.bytes@ == a.bytes@,
    {
        match self.find_inventory(a) {
            Some(i) => {
                proof {
                    lemma_lookup_at(self.inventories@, inv_key(), i as int);
                }
                self.inventories[i]
            },
            None => Inventory::empty(*a),
        }
    }

    /// Stores `inv` as the inventory of its address, replacing any earlier one.
    pub fn insert_inventory(&mut self, inv: Inventory)
        requires
            old(self).wf(),
        ensures
            final(self).wf(),
            final(self).keeps_config(old(self)),
            final(self).reservations == old(self).reservations,
            final(self).inventory(inv.address.bytes@) == inv@,
            forall|b: Seq<u8>| b != inv.address.bytes@ ==> #[trigger] final(self).inventory(b) == old(self).inventory(b),
    {
        let idx = self.entry(&inv.address);
        self.put(idx, inv);
    }

    /// Queues a settlement order for the next checkpoint.
    pub fn add_settlement_order(&mut self, order: CowSwapOrder)
        ensures
            final(self).settlement_orders@ == old(self).settlement_orders@.push(order),
            final(self).inventories == old(self).inventories,
            final(self).reservations == old(self).reservations,
    {
        self.settlement_orders.push(order);
    }

    /// Empties the settlement outbox.
    pub fn clear_settlement_orders(&mut self)
        ensures
            final(self).settlement_orders@.len() == 0,
            final(self).inventories == old(self).inventories,
            final(self).reservations == old(self).reservations,
    {
        self.settlement_orders.clear();
    }
}

/// Credits the deposits `(eth, usdc)` read for `user` at its current
/// deposit nonce, and advances the nonce. Returns the sums credited.
pub fn gulp_deposits(warehouse: &mut Warehouse, user: &Address, deposits: &Vec<(Amount, Amount)>) -> (r: (Amount, Amount))
    requires
        old(warehouse).wf(),
    ensures
        final(warehouse).wf(),
        final(warehouse).keeps_config(old(warehouse)),
        final(warehouse).reservations == old(warehouse).reservations,
        r.0.value() == deposit_sum(deposits@, true),
        r.1.value() == deposit_sum(deposits@, false),
        ({
            let v = old(warehouse).inventory(user.bytes@);
            final(warehouse).inventory(user.bytes@) == InventoryView {
                eth_balance: sat_add(v.eth_balance, r.0.value()),
                usdc_balance: sat_add(v.usdc_balance, r.1.value()),
                deposit_nonce: if v.deposit_nonce < u32::MAX { (v.deposit_nonce + 1) as u32 } else { v.deposit_nonce },
                ..v
            }
        }),
        forall|b: Seq<u8>| b != user.bytes@ ==> #[trigger] final(warehouse).inventory(b) == old(warehouse).inventory(b),
{
    let mut eth = Amount::zero();
    let mut usdc = Amount::zero();
    let mut i: usize = 0;
    while i < deposits.len()
        invariant
            0 <= i <= deposits@.len(),
            eth.value() == deposit_sum(deposits@.subrange(0, i as int), true),
            usdc.value() == deposit_sum(deposits@.subrange(0, i as int), false),
        decreases deposits@.len() - i,
    {
        proof {
            assert(deposits@.subrange(0, i as int + 1).drop_last() =~= deposits@.subrange(0, i as int));
        }
        eth = saturating_add(&eth, &deposits[i].0);
        usdc = saturating_add(&usdc, &deposits[i].1);
        i = i + 1;
    }
    proof {
        assert(deposits@.subrange(0, deposits@.len() as int) =~= deposits@);
    }
    let idx = warehouse.entry(user);
    let mut inv = warehouse.inventories[idx];
    inv.eth_balance = saturating_add(&inv.eth_balance, &eth);
    inv.usdc_balance = saturating_add(&inv.usdc_balance, &usdc);
    if inv.deposit_nonce < u32::MAX {
        inv.deposit_nonce = inv.deposit_nonce + 1;
    }
    warehouse.put(idx, inv);
    (eth, usdc)
}

/// The ids of the booked orders in `rs` that belong to `user` and rest in
/// `book`, in booking order.
pub open spec fn listing(rs: Seq<Reservation>, book: OrderBook, user: Seq<u8>) -> Seq<u32>
    decreases rs.len(),
{
    if rs.len() == 0 {
        Seq::empty()
    } else {
        let prev = listing(rs.drop_last(), book, user);
        let r = rs.last();
        if r.owner.bytes@ == user && book.position(r.oid).is_some() {
            prev.push(r.oid)
        } else {
            prev
        }
    }
}

/// The saturating sum of the ETH (`eth`) or USDC parts of `deposits`.
pub open spec fn deposit_sum(deposits: Seq<(Amount, Amount)>, eth: bool) -> nat
    decreases deposits.len(),
{
    if deposits.len() == 0 {
        0
    } else {
        let d = deposits.last();
        sat_add(deposit_sum(deposits.drop_last(), eth), if eth { d.0.value() } else { d.1.value() })
    }
}

} // verus!
