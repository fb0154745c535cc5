use vstd::prelude::*;
use crate::bytes::{le_u32, le_u64, push_all, push_le_u32, push_le_u64, copy_bytes};
use crate::hash::{sha256, sha256_of, H160, H256};
use ring::signature::KeyPair;

verus! {

/// An account-based transfer.
#[derive(Clone, Copy, Debug)]
pub struct RawTransaction {
    pub from_addr: H160,
    pub to_addr: H160,
    pub value: u64,
    pub nonce: u32,
}

/// A transfer together with the signer's public key and signature.
#[derive(Clone, Debug)]
pub struct SignedTransaction {
    pub raw: RawTransaction,
    pub pub_key: Vec<u8>,
    pub signature: Vec<u8>,
}

/// What a signed transaction holds, with its byte vectors as sequences.
pub ghost struct SignedTransactionView {
    pub raw: RawTransaction,
    pub pub_key: Seq<u8>,
    pub signature: Seq<u8>,
}

impl View for SignedTransaction {
    type V = SignedTransactionView;

    open spec fn view(&self) -> SignedTransactionView {
        SignedTransactionView { raw: self.raw, pub_key: self.pub_key@, signature: self.signature@ }
    }
}

/// Canonical encoding of a raw transaction: both addresses, then value and
/// nonce little-endian.
pub open spec fn raw_bytes(t: RawTransaction) -> Seq<u8> {
    t.from_addr@ + t.to_addr@ + le_u64(t.value) + le_u32(t.nonce)
}

/// Canonical encoding of a signed transaction: the raw part, then each byte
/// vector prefixed by its length as a little-endian `u64`.
pub open spec fn signed_bytes(t: SignedTransactionView) -> Seq<u8> {
    raw_bytes(t.raw) + le_u64(t.pub_key.len() as u64) + t.pub_key + le_u64(t.signature.len() as u64)
        + t.signature
}

/// The identity of a signed transaction: SHA-256 of its encoding.
pub open spec fn tx_hash(t: SignedTransactionView) -> Seq<u8> {
    sha256_of(signed_bytes(t))
}

/// Whether a signed transaction is small enough to be encoded and hashed.
pub open spec fn tx_encodable(t: SignedTransactionView) -> bool {
    t.pub_key.len() < 0x0800_0000_0000_0000 && t.signature.len() < 0x0800_0000_0000_0000
}

impl RawTransaction {
    /// The transaction with both addresses zero and zero value and nonce.
    pub fn zero() -> (r: RawTransaction)
        ensures
            r.value == 0,
            r.nonce == 0,
            forall|i: int| 0 <= i < 20 ==> r.from_addr@[i] == 0 && r.to_addr@[i] == 0,
    {
        RawTransaction {
            from_addr: H160 { bytes: [0u8; 20] },
            to_addr: H160 { bytes: [0u8; 20] },
            value: 0,
            nonce: 0,
        }
    }

    /// The canonical encoding that is hashed and signed.
    pub fn to_bytes(&self) -> (r: Vec<u8>)
        ensures
            r@ == raw_bytes(*self),
    {
        let mut out: Vec<u8> = Vec::new();
        push_all(&mut out, self.from_addr.bytes.as_slice());
        push_all(&mut out, self.to_addr.bytes.as_slice());
        push_le_u64(&mut out, self.value);
        push_le_u32(&mut out, self.nonce);
        assert(out@ =~= raw_bytes(*self));
        out
    }

    pub fn hash(&self) -> (r: H256)
        ensures
            r@ == sha256_of(raw_bytes(*self)),
    {
        let bytes = self.to_bytes();
        H256 { bytes: sha256(bytes.as_slice()) }
    }
}

impl SignedTransaction {
    /// The zero-valued transaction with empty key and signature.
    pub fn filler() -> (r: SignedTransaction)
        ensures
            r@.raw.value == 0,
            r@.raw.nonce == 0,
            forall|i: int| 0 <= i < 20 ==> r@.raw.from_addr@[i] == 0 && r@.raw.to_addr@[i] == 0,
            r@.pub_key.len() == 0,
            r@.signature.len() == 0,
    {
        let raw = RawTransaction::zero();
        SignedTransaction { raw, pub_key: Vec::new(), signature: Vec::new() }
    }

    /// A copy with the same contents.
    pub fn duplicate(&self) -> (r: SignedTransaction)
        ensures
            r@ == self@,
    {
        SignedTransaction {
            raw: self.raw,
            pub_key: copy_bytes(&self.pub_key),
            signature: copy_bytes(&self.signature),
        }
    }

    /// The canonical encoding.
    pub fn to_bytes(&self) -> (r: Vec<u8>)
        requires
            tx_encodable(self@),
        ensures
            r@ == signed_bytes(self@),
    {
        let mut out = self.raw.to_bytes();
        push_le_u64(&mut out, self.pub_key.len() as u64);
        push_all(&mut out, self.pub_key.as_slice());
        push_le_u64(&mut out, self.signature.len() as u64);
        push_all(&mut out, self.signature.as_slice());
        assert(out@ =~= signed_bytes(self@));
        out
    }

    pub fn hash(&self) -> (r: H256)
        requires
            tx_encodable(self@),
        ensures
            r@ == tx_hash(self@),
    {
        let bytes = self.to_bytes();
        assert(bytes@.len() == 68 + self@.pub_key.len() + self@.signature.len());
        H256 { bytes: sha256(bytes.as_slice()) }
    }
}

#[verifier::external_type_specification]
#[verifier::external_body]
pub struct ExEd25519KeyPair(ring::signature::Ed25519KeyPair);

#[verifier::external_type_specification]
#[verifier::external_body]
pub struct ExSignature(ring::signature::Signature);

/// Name for whether `sig` is a valid Ed25519 signature of `msg` under the
/// public key `pk`.
pub uninterp spec fn ed25519_valid(pk: Seq<u8>, msg: Seq<u8>, sig: Seq<u8>) -> bool;

/// Relies on `ring::signature::UnparsedPublicKey::verify` with `ED25519`: the
/// answer depends on the key, message and signature bytes alone.
#[verifier::external_body]
fn ed25519_verify(pk: &[u8], msg: &[u8], sig: &[u8]) -> (r: bool)
    ensures
        r == ed25519_valid(pk@, msg@, sig@),
{
    ring::signature::UnparsedPublicKey::new(&ring::signature::ED25519, pk).verify(msg, sig).is_ok()
}

/// Relies on `ring::signature::Ed25519KeyPair::sign`.
#[verifier::external_body]
fn ed25519_sign(key: &ring::signature::Ed25519KeyPair, msg: &[u8]) -> (r: ring::signature::Signature) {
    key.sign(msg)
}

/// Relies on `AsRef<[u8]>` for `ring::signature::Signature`: the signature's bytes.
#[verifier::external_body]
fn signature_bytes(sig: &ring::signature::Signature) -> (r: Vec<u8>) {
    sig.as_ref().to_vec()
}

/// Relies on `KeyPair::public_key` of `ring::signature::Ed25519KeyPair`: an
/// Ed25519 public key is 32 bytes.
#[verifier::external_body]
fn public_key_bytes(key: &ring::signature::Ed25519KeyPair) -> (r: Vec<u8>)
    ensures
        r@.len() == 32,
{
    key.public_key().as_ref().to_vec()
}

/// Signs the canonical encoding of `t`.
pub fn sign(t: &RawTransaction, key: &ring::signature::Ed25519KeyPair) -> ring::signature::Signature {
    let bytes = t.to_bytes();
    ed25519_sign(key, bytes.as_slice())
}

/// Whether `signature` signs the canonical encoding of `t` under `public_key`.
pub fn verify(t: &RawTransaction, public_key: &[u8], signature: &[u8]) -> (r: bool)
    ensures
        r == ed25519_valid(public_key@, raw_bytes(*t), signature@),
{
    let bytes = t.to_bytes();
    ed25519_verify(public_key, bytes.as_slice(), signature)
}

impl SignedTransaction {
    /// Signs `raw` with `key`, keeping the public key beside the signature.
    pub fn from_raw(raw: RawTransaction, key: &ring::signature::Ed25519KeyPair) -> (r: SignedTransaction)
        ensures
            r.raw == raw,
            r@.pub_key.len() == 32,
    {
        let pub_key = public_key_bytes(key);
        let sig = sign(&raw, key);
        let signature = signature_bytes(&sig);
        SignedTransaction { raw, pub_key, signature }
    }

    /// Whether the signature signs the raw part under the carried key.
    pub fn verify_signature(&self) -> (r: bool)
        ensures
            r == ed25519_valid(self@.pub_key, raw_bytes(self.raw), self@.signature),
    {
        verify(&self.raw, self.pub_key.as_slice(), self.signature.as_slice())
    }
}

} // verus!
