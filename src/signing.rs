//! Signature recovery and signing over 32-byte digests, by `alloy`.

use vstd::prelude::*;
use alloy::primitives::{Signature, B256};
use alloy::signers::SignerSync;
use alloy::signers::local::PrivateKeySigner;
use crate::ledger::Address;

verus! {

/// The address whose key made the 65-byte signature `sig` over `digest`,
/// if one can be recovered.
pub uninterp spec fn recovered_signer(sig: Seq<u8>, digest: Seq<u8>) -> Option<Seq<u8>>;

/// The 65-byte signature that secret key `key` makes over `digest`, if
/// `key` is a valid secp256k1 secret key.
pub uninterp spec fn signature_by(key: Seq<u8>, digest: Seq<u8>) -> Option<Seq<u8>>;

/// The address of secret key `key`, if it is a valid secp256k1 secret key.
pub uninterp spec fn address_of_key(key: Seq<u8>) -> Option<Seq<u8>>;

/// Relies on `Signature::from_raw_array` and
/// `Signature::recover_address_from_prehash`: the signer's address, or
/// `None` where the signature is malformed or recovery fails.
#[verifier::external_body]
pub(crate) fn recover_signer(sig: &[u8; 65], digest: &[u8; 32]) -> (r: Option<Address>)
    ensures
        r.is_some() == recovered_signer(sig@, digest@).is_some(),
        r.is_some() ==> recovered_signer(sig@, digest@) == Some(r.unwrap().bytes@),
{
    match Signature::from_raw_array(sig) {
        Ok(s) => match s.recover_address_from_prehash(&B256::from(*digest)) {
            Ok(a) => Some(Address { bytes: a.0.0 }),
            Err(_) => None,
        },
        Err(_) => None,
    }
}

/// Relies on `PrivateKeySigner::from_slice` and `SignerSync::sign_hash_sync`:
/// the 65-byte signature (`r ‖ s ‖ v`) of `digest` under `key`, or `None`
/// where `key` is no valid secret key.
#[verifier::external_body]
pub(crate) fn sign_digest(key: &Vec<u8>, digest: &[u8; 32]) -> (r: Option<[u8; 65]>)
    ensures
        r.is_some() == signature_by(key@, digest@).is_some(),
        r.is_some() ==> signature_by(key@, digest@) == Some(r.unwrap()@),
{
    match PrivateKeySigner::from_slice(key) {
        Ok(signer) => match signer.sign_hash_sync(&B256::from(*digest)) {
            Ok(sig) => Some(sig.as_bytes()),
            Err(_) => None,
        },
        Err(_) => None,
    }
}

/// Relies on `PrivateKeySigner::from_slice` and `address`: the address that
/// belongs to secret key `key`, or `None` where `key` is no valid secret key.
#[verifier::external_body]
pub(crate) fn key_address(key: &Vec<u8>) -> (r: Option<Address>)
    ensures
        r.is_some() == address_of_key(key@).is_some(),
        r.is_some() ==> address_of_key(key@) == Some(r.unwrap().bytes@),
{
    match PrivateKeySigner::from_slice(key) {
        Ok(signer) => Some(Address { bytes: signer.address().0.0 }),
        Err(_) => None,
    }
}

} // verus!
