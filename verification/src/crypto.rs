//! Hash and identity primitives: content hashing for block linkage,
//! asymmetric keypairs with sign/verify, and the placeholder
//! encrypt/decrypt pair, which deliberately performs no transformation.
use vstd::prelude::*;
use vstd::slice::slice_to_vec;
use ed25519_dalek::Verifier;

verus! {

/// The 32-byte digest that blake3 computes for a byte string; a pure
/// function of its input, the same in every process and on every machine.
pub uninterp spec fn blake3_of(data: Seq<u8>) -> Seq<u8>;

/// The public key that ed25519 derives from a 32-byte secret key.
pub uninterp spec fn ed_public_of(secret: Seq<u8>) -> Seq<u8>;

/// The deterministic ed25519 signature over a message under a secret key.
pub uninterp spec fn ed_signature_of(secret: Seq<u8>, data: Seq<u8>) -> Seq<u8>;

/// Whether ed25519 verification accepts `signature` for `data` under the
/// public key bytes `public`; a pure function of the three byte strings.
pub uninterp spec fn ed_verifies(public: Seq<u8>, data: Seq<u8>, signature: Seq<u8>) -> bool;

/// A 32-byte content hash, used both as a block-linkage pointer and as a
/// merkle root over a serialized transaction batch.
#[derive(Debug, Clone, PartialEq, Eq)]
pub struct Hash(Vec<u8>);

impl View for Hash {
    type V = Seq<u8>;

    closed spec fn view(&self) -> Seq<u8> {
        self.0@
    }
}

impl Hash {
    /// A hash is well formed when it holds exactly 32 bytes.
    pub open spec fn wf(&self) -> bool {
        self@.len() == 32
    }

    /// The digest bytes.
    pub fn as_bytes(&self) -> (r: &Vec<u8>)
        ensures
            r@ == self@,
    {
        &self.0
    }
}

/// Relies on blake3::hash: the 32-byte digest of the input bytes,
/// which depends on those bytes alone.
#[verifier::external_body]
fn blake3_digest(data: &Vec<u8>) -> (r: Vec<u8>)
    ensures
        r@ == blake3_of(data@),
        r@.len() == 32,
{
    blake3::hash(data.as_slice()).as_bytes().to_vec()
}

/// The content hash of a byte string: deterministic, 32 bytes.
pub fn hash_of(data: &Vec<u8>) -> (h: Hash)
    ensures
        h@ == blake3_of(data@),
        h.wf(),
{
    Hash(blake3_digest(data))
}

/// An asymmetric signing identity: a 32-byte secret key and the matching
/// 32-byte public key. Key lifecycle is entirely the caller's concern.
/// Only `generate_keypair` builds one, so every keypair in existence
/// pairs a secret with exactly the public key derived from it; that is
/// the type's invariant.
#[derive(Debug)]
pub struct Keypair {
    secret: Vec<u8>,
    public: Vec<u8>,
}

impl Keypair {
    /// A keypair holds 32 secret-key bytes and the 32 public-key bytes
    /// that the secret key determines.
    #[verifier::type_invariant]
    pub closed spec fn wf(self) -> bool {
        self.secret@.len() == 32 && self.public@.len() == 32 && self.public@ == ed_public_of(
            self.secret@,
        )
    }

    /// The secret-key bytes.
    pub closed spec fn spec_secret(&self) -> Seq<u8> {
        self.secret@
    }

    /// The public-key bytes.
    pub closed spec fn spec_public(&self) -> Seq<u8> {
        self.public@
    }

    /// The public half, as handed to `verify`.
    pub fn public_key(&self) -> (r: &Vec<u8>)
        ensures
            r@ == self.spec_public(),
            r@ == ed_public_of(self.spec_secret()),
            r@.len() == 32,
    {
        proof {
            use_type_invariant(self);
        }
        &self.public
    }
}

/// Relies on ed25519_dalek::Keypair::generate with the operating system's
/// secure random source: an independent keypair whose public half is the
/// one derived from its secret half (which is what the type invariant
/// demands of it).
#[verifier::external_body]
pub fn generate_keypair() -> (kp: Keypair)
    ensures
        kp.spec_secret().len() == 32,
        kp.spec_public().len() == 32,
        kp.spec_public() == ed_public_of(kp.spec_secret()),
{
    let mut csprng = rand::rngs::OsRng {};
    let pair = ed25519_dalek::Keypair::generate(&mut csprng);
    Keypair { secret: pair.secret.to_bytes().to_vec(), public: pair.public.to_bytes().to_vec() }
}

/// Relies on ed25519_dalek signing: the 64-byte signature is a
/// deterministic function of the secret key and the message (the hash
/// inside also absorbs the public key, which the type invariant pins to
/// the one derived from the secret key), and verification under that
/// public key accepts it. The invariant also keeps both `from_bytes`
/// calls in the body from failing.
#[verifier::external_body]
pub fn sign(data: &Vec<u8>, keypair: &Keypair) -> (sig: Vec<u8>)
    ensures
        sig@ == ed_signature_of(keypair.spec_secret(), data@),
        sig@.len() == 64,
        ed_verifies(keypair.spec_public(), data@, sig@),
{
    let secret = ed25519_dalek::SecretKey::from_bytes(keypair.secret.as_slice()).unwrap();
    let public = ed25519_dalek::PublicKey::from_bytes(keypair.public.as_slice()).unwrap();
    let expanded = ed25519_dalek::ExpandedSecretKey::from(&secret);
    expanded.sign(data.as_slice(), &public).to_bytes().to_vec()
}

/// Relies on ed25519_dalek verification: acceptance is a pure function of
/// the public-key bytes, the message and the signature bytes; malformed
/// key or signature bytes are never accepted.
#[verifier::external_body]
pub fn verify(data: &Vec<u8>, signature: &Vec<u8>, public_key: &Vec<u8>) -> (r: bool)
    ensures
        r == ed_verifies(public_key@, data@, signature@),
{
    match ed25519_dalek::PublicKey::from_bytes(public_key.as_slice()) {
        Ok(pk) => match ed25519_dalek::Signature::try_from(signature.as_slice()) {
            Ok(sig) => pk.verify(data.as_slice(), &sig).is_ok(),
            Err(_) => false,
        },
        Err(_) => false,
    }
}

/// Placeholder encryption: returns the input unchanged. Callers must not
/// rely on it for confidentiality; a value stored through the ledger is
/// expected to be encrypted by the caller already.
pub fn encrypt(data: &[u8], public_key: &[u8]) -> (r: Vec<u8>)
    ensures
        r@ == data@,
{
    slice_to_vec(data)
}

/// Placeholder decryption: returns the input unchanged, always
/// successfully, mirroring the placeholder `encrypt`.
pub fn decrypt(encrypted_data: &[u8], private_key: &[u8]) -> (r: Option<Vec<u8>>)
    ensures
        r is Some,
        r.unwrap()@ == encrypted_data@,
{
    Some(slice_to_vec(encrypted_data))
}

} // verus!
