use aes_gcm::aead::Aead;
use aes_gcm::{Aes256Gcm, KeyInit, Nonce};
use myrtle_wyckoff_dstack::amount::Amount;
use myrtle_wyckoff_dstack::checkpoint::{derive_encryption_key, seal_inventories};
use myrtle_wyckoff_dstack::errors::MwError;
use myrtle_wyckoff_dstack::ledger::{Address, Inventory, Warehouse};
use myrtle_wyckoff_dstack::requests::check_signature;
use myrtle_wyckoff_dstack::settlement::{check_settlement_intent, CowSwapOrder, CowSwapOrderDigest, SettlementIntent};

fn signer_of(key: Vec<u8>) -> Warehouse {
    Warehouse::new(key, vec![0u8; 32])
}

fn amt(x: u64) -> Amount {
    Amount::from_u64(x)
}

fn enclave() -> Warehouse {
    let secret = vec![0x42u8; 32];
    let key = derive_encryption_key(&secret);
    Warehouse::new(vec![9u8; 32], key)
}

fn decode_u256(b: &[u8]) -> u128 {
    assert!(b[16..32].iter().all(|x| *x == 0));
    let mut v: u128 = 0;
    for i in (0..16).rev() {
        v = (v << 8) | b[i] as u128;
    }
    v
}

#[test]
fn record_layout_is_fixed_width() {
    let inv = Inventory::new(Address::new([0xab; 20]), amt(1), amt(2), amt(300), amt(4), 0x01020304, true);
    let r = inv.to_bytes();
    assert_eq!(r.len(), 153);
    assert_eq!(&r[0..20], &[0xab; 20]);
    assert_eq!(decode_u256(&r[20..52]), 1);
    assert_eq!(decode_u256(&r[52..84]), 2);
    assert_eq!(decode_u256(&r[84..116]), 300);
    assert_eq!(decode_u256(&r[116..148]), 4);
    assert_eq!(&r[148..152], &[4, 3, 2, 1]);
    assert_eq!(r[152], 1);
}

#[test]
fn checkpoint_round_trip() {
    let mut w = enclave();
    let a = Inventory::new(Address::new([1; 20]), amt(10), amt(1), amt(150_000), amt(0), 3, false);
    let b = Inventory::new(Address::new([2; 20]), amt(0), amt(0), amt(5), amt(5), 0, true);
    w.insert_inventory(a);
    w.insert_inventory(b);
    let state = w.get_encrypted_inventory().unwrap();
    assert_eq!(state.len(), 2 * (12 + 153 + 16));
    let cipher = Aes256Gcm::new_from_slice(&w.encryption_key).unwrap();
    let mut recovered = Vec::new();
    for chunk in state.chunks(12 + 153 + 16) {
        let nonce = Nonce::from_slice(&chunk[..12]);
        let plain = cipher.decrypt(nonce, &chunk[12..]).unwrap();
        assert_eq!(plain.len(), 153);
        recovered.push(plain);
    }
    assert_eq!(recovered[0], a.to_bytes());
    assert_eq!(recovered[1], b.to_bytes());
    assert_eq!(decode_u256(&recovered[0][84..116]), 150_000);
    assert_eq!(&recovered[0][148..152], &[3, 0, 0, 0]);
    assert_eq!(recovered[1][152], 1);

    let digest = [0x11u8; 32];
    let sig = w.sign(&digest).unwrap();
    let enclave_address = w.enclave_address().unwrap();
    assert!(check_signature(&sig, &digest, &enclave_address).is_ok());
    assert!(matches!(check_signature(&sig, &[0x12u8; 32], &enclave_address), Err(MwError::InvalidSignature)));

    let hook = CowSwapOrderDigest::from_settlement_order(
        &"0xreg".to_string(),
        &"WETH".to_string(),
        &"USDC".to_string(),
        &SettlementIntent { eth_amount: amt(1), usdc_amount: amt(2), is_bid: true, nonce: amt(0) },
        String::new(),
        String::new(),
        0,
    );
    w.add_settlement_order(CowSwapOrder::from_cowswap_order_digest(hook, "0x".to_string()));
    assert!(matches!(w.conclude_checkpoint(false), Err(MwError::SnapshotError(_))));
    assert_eq!(w.settlement_orders.len(), 1);
    assert!(w.conclude_checkpoint(true).is_ok());
    assert!(w.settlement_orders.is_empty());
}

#[test]
fn sealing_needs_a_32_byte_key() {
    let invs = vec![Inventory::new(Address::new([1; 20]), amt(0), amt(0), amt(0), amt(0), 0, false)];
    let nonces = vec![[0u8; 12]];
    assert!(matches!(seal_inventories(&vec![1u8; 16], &invs, &nonces), Err(MwError::EncryptionError)));
    let sealed = seal_inventories(&vec![1u8; 32], &invs, &nonces).unwrap();
    assert_eq!(&sealed[..12], &[0u8; 12]);
    assert_ne!(&sealed[12..165], invs[0].to_bytes().as_slice());
}

#[test]
fn encryption_key_is_derived_not_copied() {
    let secret = vec![0x42u8; 32];
    let key = derive_encryption_key(&secret);
    assert_eq!(key.len(), 32);
    assert_ne!(key, secret);
    assert_eq!(key, derive_encryption_key(&secret));
}

#[test]
fn amounts_encode_little_endian_and_decimal() {
    let a = Amount::from_u128(0x0102_0304_0506_0708_090a_0b0c_0d0e_0f10);
    let inv = Inventory::new(Address::new([0; 20]), a, amt(0), amt(0), amt(0), 0, false);
    let b = inv.to_bytes();
    assert_eq!(b[20], 0x10);
    assert_eq!(b[35], 0x01);
    assert_eq!(b[36], 0);
    let intent = SettlementIntent { eth_amount: amt(120_050), usdc_amount: amt(0), is_bid: true, nonce: amt(0) };
    let d = CowSwapOrderDigest::from_settlement_order(
        &String::new(),
        &String::new(),
        &String::new(),
        &intent,
        String::new(),
        String::new(),
        0,
    );
    assert_eq!(d.sell_amount, "120050");
    assert_eq!(d.buy_amount, "0");
}

#[test]
fn settlement_digest_pairs_tokens_by_side() {
    let intent = SettlementIntent { eth_amount: amt(3), usdc_amount: amt(4500), is_bid: false, nonce: amt(1) };
    let d = CowSwapOrderDigest::from_settlement_order(
        &"0xreg".to_string(),
        &"WETH".to_string(),
        &"USDC".to_string(),
        &intent,
        "{}".to_string(),
        "0x".to_string(),
        1_000,
    );
    assert_eq!(d.sell_token, "USDC");
    assert_eq!(d.buy_token, "WETH");
    assert_eq!(d.sell_amount, "4500");
    assert_eq!(d.buy_amount, "3");
    assert_eq!(d.valid_to, 1_300);
    assert_eq!(d.kind, "buy");
    assert_eq!(d.fee_amount, "0");
    assert_eq!(d.receiver, "0xreg");
    let o = CowSwapOrder::from_cowswap_order_digest(d, "0xsig".to_string());
    assert_eq!(o.signing_scheme, 3);
    assert_eq!(o.signature, "0xsig");
}

#[test]
fn settlement_intents_need_a_solvent_taker() {
    let mut w = enclave();
    let taker = signer_of(vec![7u8; 32]);
    let user = taker.enclave_address().unwrap();
    let digest = [3u8; 32];
    let sig = taker.sign(&digest).unwrap();
    let intent = SettlementIntent { eth_amount: amt(2), usdc_amount: amt(100), is_bid: true, nonce: amt(0) };
    assert!(matches!(check_settlement_intent(&w, &user, &intent, &sig, &digest), Err(MwError::NotTaker)));
    w.insert_inventory(Inventory::new(user, amt(0), amt(0), amt(99), amt(0), 0, true));
    match check_settlement_intent(&w, &user, &intent, &sig, &digest) {
        Err(MwError::InsufficientBalance { token }) => assert_eq!(token, "USDC"),
        other => panic!("unexpected {:?}", other),
    }
    w.insert_inventory(Inventory::new(user, amt(0), amt(0), amt(100), amt(0), 0, true));
    assert!(check_settlement_intent(&w, &user, &intent, &sig, &digest).is_ok());
    assert!(matches!(check_settlement_intent(&w, &Address::new([1; 20]), &intent, &sig, &digest), Err(MwError::InvalidSignature)));
}

#[test]
fn an_invalid_enclave_key_cannot_sign() {
    let w = Warehouse::new(vec![0u8; 32], vec![1u8; 32]);
    assert!(matches!(w.enclave_address(), Err(MwError::SignerCreationError)));
    assert!(matches!(w.sign(&[1u8; 32]), Err(MwError::SigningError)));
}
