//! Settlement intents: admission of a taker's signed intent, and the order
//! in the external batch-auction exchange's schema that carries it out,
//! queued for the next checkpoint.

use vstd::prelude::*;
use alloy::primitives::U256;
use crate::amount::{Amount, sat_sub};
use crate::errors::MwError;
use crate::ledger::{Address, Warehouse};
use crate::requests::{check_signature, signature_verdict, is_insufficient};

verus! {

/// How long (in seconds) a settlement order stays valid.
pub const SETTLEMENT_VALIDITY_S: u64 = 300;

/// The signing scheme tag of an enclave-signed exchange order.
pub const SIGNING_SCHEME: u8 = 3;

/// A taker's settlement intent, as registered with the deposit registry.
#[derive(Clone, Copy, Debug)]
pub struct SettlementIntent {
    pub eth_amount: Amount,
    pub usdc_amount: Amount,
    pub is_bid: bool,
    pub nonce: Amount,
}

/// The fields of an exchange order that its signature covers.
#[derive(Clone, Debug)]
pub struct CowSwapOrderDigest {
    pub sell_token: String,
    pub buy_token: String,
    pub receiver: String,
    pub sell_amount: String,
    pub buy_amount: String,
    pub valid_to: u64,
    pub fee_amount: String,
    pub kind: String,
    pub partially_fillable: bool,
    pub sell_token_balance: String,
    pub buy_token_balance: String,
    pub from: String,
    pub app_data: String,
    pub app_data_hash: String,
}

/// A signed order in the exchange's native schema.
#[derive(Clone, Debug)]
pub struct CowSwapOrder {
    pub sell_token: String,
    pub buy_token: String,
    pub receiver: String,
    pub sell_amount: String,
    pub buy_amount: String,
    pub valid_to: u64,
    pub fee_amount: String,
    pub kind: String,
    pub partially_fillable: bool,
    pub sell_token_balance: String,
    pub buy_token_balance: String,
    pub signing_scheme: u8,
    pub signature: String,
    pub from: String,
    pub app_data: String,
    pub app_data_hash: String,
}

/// The decimal digits of `n`.
pub open spec fn decimal(n: nat) -> Seq<char>
    decreases n,
{
    if n < 10 {
        seq![(('0' as u8) + n as u8) as char]
    } else {
        decimal(n / 10) + seq![(('0' as u8) + (n % 10) as u8) as char]
    }
}

/// Relies on `U256`'s `Display`: the value in decimal digits.
#[verifier::external_body]
pub(crate) fn decimal_string(a: &Amount) -> (r: String)
    ensures
        r@ == decimal(a.value()),
{
    U256::from_limbs([a.l0, a.l1, a.l2, a.l3]).to_string()
}

/// What admitting a settlement intent of `user` with inventory view `v`
/// gives, once its signature verdict is `Ok`: `NotTaker` for a non-taker;
/// for a bid, USDC not reserved must cover `usdc_amount`; for an ask,
/// ETH not reserved must cover `eth_amount`.
pub open spec fn intent_covered(w: Warehouse, user: Seq<u8>, intent: SettlementIntent) -> bool {
    let v = w.inventory(user);
    if intent.is_bid {
        intent.usdc_amount.value() <= sat_sub(v.usdc_balance, v.usdc_liabilities)
    } else {
        intent.eth_amount.value() <= sat_sub(v.eth_balance, v.eth_liabilities)
    }
}

/// Admits a taker's settlement intent: checks `taker_signature` over
/// `digest` (the intent's structured hash under the settlement domain)
/// against `user`, that `user` is a taker, and that its unreserved balance
/// covers what the intent sells.
pub fn check_settlement_intent(
    warehouse: &Warehouse,
    user: &Address,
    intent: &SettlementIntent,
    taker_signature: &[u8; 65],
    digest: &[u8; 32],
) -> (r: Result<(), MwError>)
    requires
        warehouse.wf(),
    ensures
        signature_verdict(taker_signature@, digest@, user.bytes@) matches Err(e) ==> r == Err::<(), MwError>(e),
        signature_verdict(taker_signature@, digest@, user.bytes@).is_ok() && !warehouse.inventory(user.bytes@).is_taker
            ==> r == Err::<(), MwError>(MwError::NotTaker),
        signature_verdict(taker_signature@, digest@, user.bytes@).is_ok() && warehouse.inventory(user.bytes@).is_taker ==> {
            &&& r.is_ok() == intent_covered(*warehouse, user.bytes@, *intent)
            &&& r matches Err(e) ==> is_insufficient(e, intent.is_bid)
        },
{
    match check_signature(taker_signature, digest, user) {
        Ok(()) => {},
        Err(e) => {
            return Err(e);
        },
    }
    let inv = warehouse.inventory_of(user);
    if !inv.is_taker {
        return Err(MwError::NotTaker);
    }
    if intent.is_bid {
        if crate::amount::lt(&inv.net_usdc(), &intent.usdc_amount) {
            return Err(MwError::InsufficientBalance { token: "USDC".to_owned() });
        }
    } else {
        if crate::amount::lt(&inv.net_eth(), &intent.eth_amount) {
            return Err(MwError::InsufficientBalance { token: "ETH".to_owned() });
        }
    }
    Ok(())
}

impl CowSwapOrderDigest {
    /// The exchange order that carries out `settlement_order`: a buy order
    /// selling WETH for USDC for a bid and the reverse for an ask, received
    /// by the deposit registry, valid for five minutes from `now_s`, with no
    /// fee, not partially fillable, settled in ERC-20 balances.
    pub fn from_settlement_order(
        deposit_registry_contract: &String,
        weth: &String,
        usdc: &String,
        settlement_order: &SettlementIntent,
        app_data: String,
        app_data_hash: String,
        now_s: u64,
    ) -> (r: CowSwapOrderDigest)
        ensures
            settlement_order.is_bid ==> r.sell_token@ == weth@ && r.buy_token@ == usdc@
                && r.sell_amount@ == decimal(settlement_order.eth_amount.value())
                && r.buy_amount@ == decimal(settlement_order.usdc_amount.value()),
            !settlement_order.is_bid ==> r.sell_token@ == usdc@ && r.buy_token@ == weth@
                && r.sell_amount@ == decimal(settlement_order.usdc_amount.value())
                && r.buy_amount@ == decimal(settlement_order.eth_amount.value()),
            r.receiver@ == deposit_registry_contract@,
            r.from@ == deposit_registry_contract@,
            r.valid_to == if now_s <= u64::MAX - SETTLEMENT_VALIDITY_S { (now_s + SETTLEMENT_VALIDITY_S) as u64 } else { u64::MAX },
            r.fee_amount@ == "0"@,
            r.kind@ == "buy"@,
            !r.partially_fillable,
            r.sell_token_balance@ == "erc20"@,
            r.buy_token_balance@ == "erc20"@,
            r.app_data == app_data,
            r.app_data_hash == app_data_hash,
    {
        let (sell_token, buy_token, sell_amount, buy_amount) = if settlement_order.is_bid {
            (weth.clone(), usdc.clone(), decimal_string(&settlement_order.eth_amount), decimal_string(&settlement_order.usdc_amount))
        } else {
            (usdc.clone(), weth.clone(), decimal_string(&settlement_order.usdc_amount), decimal_string(&settlement_order.eth_amount))
        };
        let valid_to = if now_s <= u64::MAX - SETTLEMENT_VALIDITY_S { now_s + SETTLEMENT_VALIDITY_S } else { u64::MAX };
        CowSwapOrderDigest {
            sell_token,
            buy_token,
            receiver: deposit_registry_contract.clone(),
            sell_amount,
            buy_amount,
            valid_to,
            fee_amount: "0".to_owned(),
            kind: "buy".to_owned(),
            partially_fillable: false,
            sell_token_balance: "erc20".to_owned(),
            buy_token_balance: "erc20".to_owned(),
            from: deposit_registry_contract.clone(),
            app_data,
            app_data_hash,
        }
    }
}

impl CowSwapOrder {
    /// The order of `digest` with the enclave's `signature` over it, tagged
    /// with the pre-signed signing scheme.
    pub fn from_cowswap_order_digest(digest: CowSwapOrderDigest, signature: String) -> (r: CowSwapOrder)
        ensures
            r.sell_token == digest.sell_token,
            r.buy_token == digest.buy_token,
            r.receiver == digest.receiver,
            r.sell_amount == digest.sell_amount,
            r.buy_amount == digest.buy_amount,
            r.valid_to == digest.valid_to,
            r.fee_amount == digest.fee_amount,
            r.kind == digest.kind,
            r.partially_fillable == digest.partially_fillable,
            r.sell_token_balance == digest.sell_token_balance,
            r.buy_token_balance == digest.buy_token_balance,
            r.signing_scheme == SIGNING_SCHEME,
            r.signature == signature,
            r.from == digest.from,
            r.app_data == digest.app_data,
            r.app_data_hash == digest.app_data_hash,
    {
        CowSwapOrder {
            sell_token: digest.sell_token,
            buy_token: digest.buy_token,
            receiver: digest.receiver,
            sell_amount: digest.sell_amount,
            buy_amount: digest.buy_amount,
            valid_to: digest.valid_to,
            fee_amount: digest.fee_amount,
            kind: digest.kind,
            partially_fillable: digest.partially_fillable,
            sell_token_balance: digest.sell_token_balance,
            buy_token_balance: digest.buy_token_balance,
            signing_scheme: SIGNING_SCHEME,
            signature,
            from: digest.from,
            app_data: digest.app_data,
            app_data_hash: digest.app_data_hash,
        }
    }
}

} // verus!
