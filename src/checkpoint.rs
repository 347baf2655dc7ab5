//! Checkpoints: fixed-width inventory records, sealed one by one under
//! AES-256-GCM, and the outbox handling around their submission.

use vstd::prelude::*;
use aes_gcm::{Aes256Gcm, KeyInit};
use aes_gcm::aead::{Aead, AeadCore, OsRng};
use hkdf::Hkdf;
use sha2::Sha256;
use crate::amount::{le_bytes, to_le_bytes};
use crate::errors::MwError;
use crate::ledger::{Address, Inventory, Warehouse};
use crate::signing::{sign_digest, signature_by, key_address, address_of_key};

verus! {

/// Length of one inventory record.
pub const RECORD_LEN: usize = 153;

/// Length of an AES-GCM nonce.
pub const NONCE_LEN: usize = 12;

/// Length of an AES-GCM tag.
pub const TAG_LEN: usize = 16;

/// The record of an inventory: address (20) ‖ ETH balance (32) ‖ ETH
/// liabilities (32) ‖ USDC balance (32) ‖ USDC liabilities (32) ‖ deposit
/// nonce (4) ‖ taker flag (1), integers little-endian.
pub open spec fn record(inv: Inventory) -> Seq<u8> {
    inv.address.bytes@ + le_bytes(inv.eth_balance.value(), 32) + le_bytes(inv.eth_liabilities.value(), 32) + le_bytes(
        inv.usdc_balance.value(),
        32,
    ) + le_bytes(inv.usdc_liabilities.value(), 32) + le_bytes(inv.deposit_nonce as nat, 4) + seq![
        if inv.is_taker { 1u8 } else { 0u8 },
    ]
}

/// What AES-256-GCM under `key` and `nonce` makes of `plaintext`, with no
/// associated data: ciphertext followed by tag.
pub uninterp spec fn aes_gcm_sealed(key: Seq<u8>, nonce: Seq<u8>, plaintext: Seq<u8>) -> Seq<u8>;

/// HKDF-SHA256, without salt, of `secret` expanded with `info` to 32 bytes.
pub uninterp spec fn hkdf_sha256(secret: Seq<u8>, info: Seq<u8>) -> Seq<u8>;

/// Relies on `Aes256Gcm::new_from_slice` and `Aead::encrypt`: the ciphertext
/// and its 16-byte tag; `None` where the key is not 32 bytes long or the
/// plaintext is longer than 2^36 bytes.
#[verifier::external_body]
fn seal(key: &Vec<u8>, nonce: &[u8; 12], plaintext: &Vec<u8>) -> (r: Option<Vec<u8>>)
    ensures
        key@.len() == 32 && plaintext@.len() <= 0x10_0000_0000 ==> r.is_some(),
        r.is_some() ==> r.unwrap()@ == aes_gcm_sealed(key@, nonce@, plaintext@),
        r.is_some() ==> r.unwrap()@.len() == plaintext@.len() + 16,
{
    match Aes256Gcm::new_from_slice(key) {
        Ok(cipher) => match cipher.encrypt(nonce.into(), plaintext.as_slice()) {
            Ok(sealed) => Some(sealed),
            Err(_) => None,
        },
        Err(_) => None,
    }
}

/// Relies on `AeadCore::generate_nonce` with the OS random source: a fresh
/// 12-byte nonce. Nothing is known of its value.
#[verifier::external_body]
fn fresh_nonce() -> (r: [u8; 12]) {
    Aes256Gcm::generate_nonce(&mut OsRng).into()
}

/// Relies on `Hkdf::<Sha256>::new` (no salt) and `Hkdf::expand` into 32
/// bytes, which cannot fail at that length.
#[verifier::external_body]
fn hkdf_expand(secret: &Vec<u8>, info: &Vec<u8>) -> (r: Vec<u8>)
    ensures
        r@ == hkdf_sha256(secret@, info@),
        r@.len() == 32,
{
    let hk = Hkdf::<Sha256>::new(None, secret);
    let mut okm = [0u8; 32];
    let _ = hk.expand(info, &mut okm);
    okm.to_vec()
}

/// The AES-256-GCM key for checkpoints: HKDF-SHA256 of the enclave's shared
/// secret with info `"aes-key"`.
pub fn derive_encryption_key(secret: &Vec<u8>) -> (r: Vec<u8>)
    ensures
        r@ == hkdf_sha256(secret@, seq![0x61u8, 0x65u8, 0x73u8, 0x2du8, 0x6bu8, 0x65u8, 0x79u8]),
        r@.len() == 32,
{
    let info: Vec<u8> = vec![0x61u8, 0x65u8, 0x73u8, 0x2du8, 0x6bu8, 0x65u8, 0x79u8];
    proof {
        assert(info@ =~= seq![0x61u8, 0x65u8, 0x73u8, 0x2du8, 0x6bu8, 0x65u8, 0x79u8]);
    }
    hkdf_expand(secret, &info)
}

fn push_all(out: &mut Vec<u8>, bytes: &[u8])
    ensures
        final(out)@ == old(out)@ + bytes@,
{
    let mut i: usize = 0;
    while i < bytes.len()
        invariant
            0 <= i <= bytes@.len(),
            out@ == old(out)@ + bytes@.subrange(0, i as int),
        decreases bytes@.len() - i,
    {
        out.push(bytes[i]);
        proof {
            assert(bytes@.subrange(0, i as int + 1) =~= bytes@.subrange(0, i as int).push(bytes@[i as int]));
        }
        i = i + 1;
    }
    proof {
        assert(bytes@.subrange(0, bytes@.len() as int) =~= bytes@);
    }
}

fn u32_le_bytes(n: u32) -> (r: [u8; 4])
    ensures
        r@ == le_bytes(n as nat, 4),
{
    let b0 = (n % 256) as u8;
    let b1 = ((n / 256) % 256) as u8;
    let b2 = ((n / 65536) % 256) as u8;
    let b3 = ((n / 16777216) % 256) as u8;
    let r = [b0, b1, b2, b3];
    proof {
        let m = n as nat;
        assert(m / 256 / 256 == m / 65536) by (nonlinear_arith);
        assert(m / 65536 / 256 == m / 16777216) by (nonlinear_arith);
        assert(le_bytes(m / 16777216 / 256, 0) == Seq::<u8>::empty());
        assert(le_bytes(m / 16777216, 1) =~= seq![b3]);
        assert(le_bytes(m / 65536, 2) =~= seq![b2, b3]);
        assert(le_bytes(m / 256, 3) =~= seq![b1, b2, b3]);
        assert(le_bytes(m, 4) =~= seq![b0, b1, b2, b3]);
        assert(r@ =~= seq![b0, b1, b2, b3]);
    }
    r
}

impl Inventory {
    /// The 153-byte record of this inventory.
    pub fn to_bytes(&self) -> (r: Vec<u8>)
        ensures
            r@ == record(*self),
            r@.len() == RECORD_LEN,
    {
        let mut buffer: Vec<u8> = Vec::new();
        push_all(&mut buffer, &self.address.bytes);
        push_all(&mut buffer, &to_le_bytes(&self.eth_balance));
        push_all(&mut buffer, &to_le_bytes(&self.eth_liabilities));
        push_all(&mut buffer, &to_le_bytes(&self.usdc_balance));
        push_all(&mut buffer, &to_le_bytes(&self.usdc_liabilities));
        push_all(&mut buffer, &u32_le_bytes(self.deposit_nonce));
        buffer.push(if self.is_taker { 1u8 } else { 0u8 });
        proof {
            lemma_le_bytes_len(self.eth_balance.value(), 32);
            lemma_le_bytes_len(self.eth_liabilities.value(), 32);
            lemma_le_bytes_len(self.usdc_balance.value(), 32);
            lemma_le_bytes_len(self.usdc_liabilities.value(), 32);
            lemma_le_bytes_len(self.deposit_nonce as nat, 4);
            assert(buffer@ =~= record(*self));
        }
        buffer
    }
}

proof fn lemma_le_bytes_len(n: nat, k: nat)
    ensures
        le_bytes(n, k).len() == k,
    decreases k,
{
    if k > 0 {
        lemma_le_bytes_len(n / 256, (k - 1) as nat);
    }
}

/// The sealed records of `invs` under `key`, the `i`-th with nonce `nonces[i]`,
/// each as nonce ‖ ciphertext ‖ tag, concatenated.
pub open spec fn sealed_records(key: Seq<u8>, invs: Seq<Inventory>, nonces: Seq<Seq<u8>>) -> Seq<u8>
    decreases invs.len(),
{
    if invs.len() == 0 || nonces.len() == 0 {
        Seq::empty()
    } else {
        sealed_records(key, invs.drop_last(), nonces.drop_last()) + nonces.last() + aes_gcm_sealed(key, nonces.last(), record(invs.last()))
    }
}

pub open spec fn nonce_views(nonces: Seq<[u8; 12]>) -> Seq<Seq<u8>> {
    nonces.map_values(|n: [u8; 12]| n@)
}

/// Seals the record of each inventory under `key` with the nonce of the same
/// index. `EncryptionError` where the key is not 32 bytes long.
pub fn seal_inventories(key: &Vec<u8>, invs: &Vec<Inventory>, nonces: &Vec<[u8; 12]>) -> (r: Result<Vec<u8>, MwError>)
    requires
        nonces@.len() == invs@.len(),
    ensures
        key@.len() == 32 <==> r.is_ok(),
        r matches Ok(bytes) ==> bytes@ == sealed_records(key@, invs@, nonce_views(nonces@)),
        r matches Ok(bytes) ==> bytes@.len() == invs@.len() * (NONCE_LEN + RECORD_LEN + TAG_LEN),
        r matches Err(e) ==> e == MwError::EncryptionError,
{
    if key.len() != 32 {
        return Err(MwError::EncryptionError);
    }
    let mut out: Vec<u8> = Vec::new();
    let mut i: usize = 0;
    while i < invs.len()
        invariant
            0 <= i <= invs@.len(),
            nonces@.len() == invs@.len(),
            key@.len() == 32,
            out@ == sealed_records(key@, invs@.subrange(0, i as int), nonce_views(nonces@).subrange(0, i as int)),
            out@.len() == i * (NONCE_LEN + RECORD_LEN + TAG_LEN),
        decreases invs@.len() - i,
    {
        let plain = invs[i].to_bytes();
        let sealed = match seal(key, &nonces[i], &plain) {
            Some(s) => s,
            None => {
                return Err(MwError::EncryptionError);
            },
        };
        push_all(&mut out, &nonces[i]);
        push_all(&mut out, sealed.as_slice());
        proof {
            let iv = invs@.subrange(0, i as int + 1);
            let nv = nonce_views(nonces@).subrange(0, i as int + 1);
            assert(iv.drop_last() =~= invs@.subrange(0, i as int));
            assert(nv.drop_last() =~= nonce_views(nonces@).subrange(0, i as int));
            assert(nv.last() == nonces@[i as int]@);
            assert(iv.last() == invs@[i as int]);
            assert((i + 1) * (NONCE_LEN + RECORD_LEN + TAG_LEN) == i * (NONCE_LEN + RECORD_LEN + TAG_LEN) + (NONCE_LEN + RECORD_LEN + TAG_LEN))
                by (nonlinear_arith);
        }
        i = i + 1;
    }
    proof {
        assert(invs@.subrange(0, invs@.len() as int) =~= invs@);
        assert(nonce_views(nonces@).subrange(0, invs@.len() as int) =~= nonce_views(nonces@));
    }
    Ok(out)
}

impl Warehouse {
    /// The inventory state of a checkpoint: every inventory's record sealed
    /// under the encryption key with a fresh random nonce.
    pub fn get_encrypted_inventory(&self) -> (r: Result<Vec<u8>, MwError>)
        ensures
            self.encryption_key@.len() == 32 <==> r.is_ok(),
            r matches Ok(bytes) ==> exists|nonces: Seq<[u8; 12]>| nonces.len() == self.inventories@.len() && bytes@ == #[trigger] sealed_records(
                self.encryption_key@, self.inventories@, nonce_views(nonces)),
            r matches Ok(bytes) ==> bytes@.len() == self.inventories@.len() * (NONCE_LEN + RECORD_LEN + TAG_LEN),
            r matches Err(e) ==> e == MwError::EncryptionError,
    {
        let mut nonces: Vec<[u8; 12]> = Vec::new();
        let mut i: usize = 0;
        while i < self.inventories.len()
            invariant
                0 <= i <= self.inventories@.len(),
                nonces@.len() == i,
            decreases self.inventories@.len() - i,
        {
            nonces.push(fresh_nonce());
            i = i + 1;
        }
        seal_inventories(&self.encryption_key, &self.inventories, &nonces)
    }

    /// Signs `digest` (a checkpoint's or an intent's structured hash) with the enclave key.
    pub fn sign(&self, digest: &[u8; 32]) -> (r: Result<[u8; 65], MwError>)
        ensures
            r.is_ok() == signature_by(self.signing_key@, digest@).is_some(),
            r matches Ok(sig) ==> signature_by(self.signing_key@, digest@) == Some(sig@),
            r matches Err(e) ==> e == MwError::SigningError,
    {
        match sign_digest(&self.signing_key, digest) {
            Some(sig) => Ok(sig),
            None => Err(MwError::SigningError),
        }
    }

    /// The enclave's address: that of its signing key.
    pub fn enclave_address(&self) -> (r: Result<Address, MwError>)
        ensures
            r.is_ok() == address_of_key(self.signing_key@).is_some(),
            r matches Ok(a) ==> address_of_key(self.signing_key@) == Some(a.bytes@),
            r matches Err(e) ==> e == MwError::SignerCreationError,
    {
        match key_address(&self.signing_key) {
            Some(a) => Ok(a),
            None => Err(MwError::SignerCreationError),
        }
    }

    /// Ends a checkpoint round: the outbox is cleared once the submission was
    /// acknowledged, and kept, with a `SnapshotError`, otherwise.
    pub fn conclude_checkpoint(&mut self, acknowledged: bool) -> (r: Result<(), MwError>)
        ensures
            acknowledged ==> r.is_ok() && final(self).settlement_orders@.len() == 0,
            !acknowledged ==> (r matches Err(MwError::SnapshotError(_))) && final(self).settlement_orders == old(self).settlement_orders,
            final(self).inventories == old(self).inventories,
            final(self).reservations == old(self).reservations,
    {
        if acknowledged {
            self.clear_settlement_orders();
            Ok(())
        } else {
            Err(MwError::SnapshotError("checkpoint submission was not acknowledged".to_owned()))
        }
    }
}

} // verus!
