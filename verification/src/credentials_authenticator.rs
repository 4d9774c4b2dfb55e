//! Turning a user's name and password into credentials.

use vstd::prelude::*;

verus! {

/// This function takes username and password and hashes them. It does no
/// work yet: it keeps nothing and returns nothing.
pub fn hash_username_and_password(username: String, password: String) {
}

#[verifier::external_type_specification]
#[verifier::external_body]
pub struct ExStdRng(rand::rngs::StdRng);

#[verifier::external_type_specification]
#[verifier::external_body]
pub struct ExRsaPrivateKey(rsa::RsaPrivateKey);

#[verifier::external_type_specification]
#[verifier::external_body]
pub struct ExRsaPublicKey(rsa::RsaPublicKey);

/// `rand::SeedableRng::seed_from_u64` for `StdRng`: a generator started from
/// `seed`. The generator is opaque here; nothing is stated of it.
#[verifier::external_body]
fn seeded_rng(seed: u64) -> (res: rand::rngs::StdRng) {
    rand::SeedableRng::seed_from_u64(seed)
}

/// `RsaPrivateKey::new`: a new key pair of `bits` bits drawn from `rng`, or
/// `None` where rsa reports an error. rsa refuses only sizes under 64 bits:
/// from 64 bits on it draws primes until their product has the size asked
/// for, with the exponent 65537 below it, and such a key passes its own
/// validation. The key and the generator's new state are opaque here.
#[verifier::external_body]
fn generate_key(rng: &mut rand::rngs::StdRng, bits: usize) -> (res: Option<rsa::RsaPrivateKey>)
    ensures
        64 <= bits ==> res is Some,
{
    rsa::RsaPrivateKey::new(rng, bits).ok()
}

/// `RsaPublicKey::from(&RsaPrivateKey)`: the public half of a key pair. It is
/// opaque here; nothing is stated of it.
#[verifier::external_body]
fn public_key(key: &rsa::RsaPrivateKey) -> (res: rsa::RsaPublicKey) {
    rsa::RsaPublicKey::from(key)
}

/// `RsaPublicKey::encrypt` with PKCS#1 v1.5 padding drawn from `rng`: the
/// ciphertext, or `None` where rsa reports an error. The ciphertext is as
/// long as the key's modulus, and rsa refuses a message longer than that
/// less 11 bytes, so a ciphertext is at least 11 bytes longer than the
/// message. The padding is random, so nothing more is stated of the bytes.
#[verifier::external_body]
fn encrypt(key: &rsa::RsaPublicKey, rng: &mut rand::rngs::StdRng, data: &[u8]) -> (res: Option<
    Vec<u8>,
>)
    ensures
        res matches Some(c) ==> c@.len() >= data@.len() + 11,
{
    key.encrypt(rng, rsa::Pkcs1v15Encrypt, data).ok()
}

/// `RsaPrivateKey::decrypt` with PKCS#1 v1.5 padding: the plaintext, or
/// `None` where rsa reports an error. The key is opaque here, so nothing is
/// stated of the bytes.
#[verifier::external_body]
fn decrypt(key: &rsa::RsaPrivateKey, ciphertext: &[u8]) -> (res: Option<Vec<u8>>) {
    key.decrypt(rsa::Pkcs1v15Encrypt, ciphertext).ok()
}

/// Where the check of a new key pair failed.
#[derive(Debug, Clone, Copy, PartialEq, Eq)]
pub enum KeyCheckError {
    /// No key pair could be generated.
    KeyGeneration,
    /// The sample could not be encrypted.
    Encryption,
    /// The ciphertext equals the sample.
    Unchanged,
    /// The ciphertext could not be decrypted.
    Decryption,
    /// Decrypting did not give the sample back.
    Mismatch,
}

impl KeyCheckError {
    /// What the failed check reports.
    pub fn message(&self) -> (res: &'static str)
        ensures
            *self == KeyCheckError::KeyGeneration ==> res@ == "failed to generate a key"@,
            *self == KeyCheckError::Encryption ==> res@ == "failed to encrypt"@,
            *self == KeyCheckError::Unchanged ==> res@ == "encrypting left the sample unchanged"@,
            *self == KeyCheckError::Decryption ==> res@ == "failed to decrypt"@,
            *self == KeyCheckError::Mismatch ==> res@ == "decrypting did not give the sample back"@,
    {
        match self {
            KeyCheckError::KeyGeneration => "failed to generate a key",
            KeyCheckError::Encryption => "failed to encrypt",
            KeyCheckError::Unchanged => "encrypting left the sample unchanged",
            KeyCheckError::Decryption => "failed to decrypt",
            KeyCheckError::Mismatch => "decrypting did not give the sample back",
        }
    }
}

/// Whether two byte strings are equal.
fn same_bytes(a: &[u8], b: &[u8]) -> (res: bool)
    ensures
        res == (a@ == b@),
{
    if a.len() != b.len() {
        return false;
    }
    let mut i: usize = 0;
    while i < a.len()
        invariant
            a@.len() == b@.len(),
            i <= a@.len(),
            forall|j: int| 0 <= j < i ==> a@[j] == b@[j],
        decreases a@.len() - i,
    {
        if a[i] != b[i] {
            return false;
        }
        i += 1;
    }
    assert(a@ =~= b@);
    true
}

/// The first half of the key check, given what encrypting `sample` gave: the
/// ciphertext when there is one and it differs from the sample.
pub fn check_encrypted(sample: &[u8], encrypted: Option<Vec<u8>>) -> (res: Result<Vec<u8>, KeyCheckError>)
    ensures
        encrypted is None ==> res == Err::<Vec<u8>, KeyCheckError>(KeyCheckError::Encryption),
        encrypted matches Some(e) ==> (if e@ == sample@ {
            res == Err::<Vec<u8>, KeyCheckError>(KeyCheckError::Unchanged)
        } else {
            res matches Ok(r) && r@ == e@
        }),
{
    match encrypted {
        None => Err(KeyCheckError::Encryption),
        Some(e) => {
            if same_bytes(e.as_slice(), sample) {
                Err(KeyCheckError::Unchanged)
            } else {
                Ok(e)
            }
        },
    }
}

/// The second half of the key check, given what decrypting gave: it passes
/// when the sample came back.
pub fn check_decrypted(sample: &[u8], decrypted: Option<Vec<u8>>) -> (res: Result<(), KeyCheckError>)
    ensures
        decrypted is None ==> res == Err::<(), KeyCheckError>(KeyCheckError::Decryption),
        decrypted matches Some(d) ==> (if d@ == sample@ {
            res is Ok
        } else {
            res == Err::<(), KeyCheckError>(KeyCheckError::Mismatch)
        }),
{
    match decrypted {
        None => Err(KeyCheckError::Decryption),
        Some(d) => {
            if same_bytes(d.as_slice(), sample) {
                Ok(())
            } else {
                Err(KeyCheckError::Mismatch)
            }
        },
    }
}

/// The bytes of the sample text `hello world`.
pub open spec fn key_check_sample() -> Seq<u8> {
    seq![104u8, 101, 108, 108, 111, 32, 119, 111, 114, 108, 100]
}

/// What the key check hands to rsa: the generator's seed 0, the key size of
/// 2048 bits and the sample text `hello world`.
pub fn key_check_parameters() -> (res: (u64, usize, Vec<u8>))
    ensures
        res.0 == 0,
        res.1 == 2048,
        res.2@ == key_check_sample(),
{
    let sample: Vec<u8> = vec![104, 101, 108, 108, 111, 32, 119, 111, 114, 108, 100];
    assert(sample@ =~= key_check_sample());
    (0, 2048, sample)
}

/// This function takes username and password and returns the user's private
/// key: a 2048-bit RSA key drawn from a generator seeded with 0, checked by
/// encrypting `hello world` with its public half and decrypting it again
/// (the inputs are `key_check_parameters`). The key is always generated and
/// the ciphertext never equals the sample; whether encrypting and decrypting
/// succeed, and what decrypting gives, is rsa's, checked by
/// `check_encrypted` and `check_decrypted`.
pub fn get_private_key(username: String, password: String) -> (res: Result<rsa::RsaPrivateKey, KeyCheckError>)
    ensures
        res matches Err(e) ==> e == KeyCheckError::Encryption || e == KeyCheckError::Decryption || e
            == KeyCheckError::Mismatch,
{
    let (seed, bits, data) = key_check_parameters();
    let mut rng = seeded_rng(seed);
    let priv_key = match generate_key(&mut rng, bits) {
        Some(k) => k,
        None => return Err(KeyCheckError::KeyGeneration),
    };
    let pub_key = public_key(&priv_key);
    let enc_data = match check_encrypted(data.as_slice(), encrypt(&pub_key, &mut rng, data.as_slice())) {
        Ok(e) => e,
        Err(e) => return Err(e),
    };
    match check_decrypted(data.as_slice(), decrypt(&priv_key, enc_data.as_slice())) {
        Ok(()) => Ok(priv_key),
        Err(e) => Err(e),
    }
}

} // verus!
