use vstd::prelude::*;

use aes_gcm::aead::{Aead, KeyInit};
use aes_gcm::Aes256Gcm;
use argon2::Argon2;
use rand::RngCore;

use crate::entry::{Entry, EntryView, SALT_LEN, NONCE_LEN, TAG_LEN};
use crate::errors::VaultError;
use vstd::utf8::{encode_utf8, valid_utf8};

verus! {

/// Longest plaintext the cipher accepts, in bytes.
pub const MAX_PLAINTEXT_LEN: u64 = 0x1000000000;

/// Longest password and salt the key derivation accepts, in bytes.
pub const MAX_KDF_INPUT_LEN: u64 = 0xFFFFFFFF;

/// Shortest salt the key derivation accepts, in bytes.
pub const MIN_KDF_SALT_LEN: u64 = 8;

/// The 32-byte key that the memory-hard key derivation (Argon2, default
/// parameters) produces from a password and a salt. A function of its
/// arguments alone; nothing further is assumed of its value.
pub uninterp spec fn kdf_of(password: Seq<u8>, salt: Seq<u8>) -> Seq<u8>;

/// The authenticated ciphertext (ciphertext followed by its tag) that
/// AES-256-GCM with no associated data produces from a key, a nonce and a
/// plaintext. A function of its arguments alone.
pub uninterp spec fn aead_seal(key: Seq<u8>, nonce: Seq<u8>, plaintext: Seq<u8>) -> Seq<u8>;

/// The key derivation accepts this salt length.
pub open spec fn kdf_salt_len_ok(n: nat) -> bool {
    MIN_KDF_SALT_LEN <= n && n <= MAX_KDF_INPUT_LEN
}

/// The key derivation accepts this password length.
pub open spec fn kdf_password_len_ok(n: nat) -> bool {
    n <= MAX_KDF_INPUT_LEN
}

/// The key a record's salt derives from a password.
pub open spec fn entry_key(e: EntryView, password: Seq<char>) -> Seq<u8> {
    kdf_of(encode_utf8(password), e.salt)
}

/// `pt` is a plaintext that record `e` seals under `password`: the record's
/// shape is one the cipher and key derivation accept, and its ciphertext is
/// exactly the authenticated encryption of `pt` under the derived key and
/// the record's nonce — the plaintext followed by the 16-byte tag, so 16
/// bytes longer than the plaintext.
pub open spec fn seals(e: EntryView, password: Seq<char>, pt: Seq<u8>) -> bool {
    &&& kdf_salt_len_ok(e.salt.len())
    &&& e.nonce.len() == NONCE_LEN
    &&& pt.len() <= MAX_PLAINTEXT_LEN
    &&& e.cipher_text.len() == pt.len() + TAG_LEN
    &&& e.cipher_text == aead_seal(entry_key(e, password), e.nonce, pt)
}

/// Some plaintext opens record `e` under `password`.
pub open spec fn openable(e: EntryView, password: Seq<char>) -> bool {
    exists|pt: Seq<u8>| seals(e, password, pt)
}

/// Relies on `rand::rng()` and `rand::RngCore::fill_bytes`: fills the buffer
/// from the thread-local cryptographically secure generator. Of a random
/// value only the length can be stated.
#[verifier::external_body]
fn random_bytes(n: usize) -> (r: Vec<u8>)
    ensures
        r@.len() == n,
{
    let mut buf = vec![0u8; n];
    rand::rng().fill_bytes(&mut buf);
    buf
}

/// Relies on `argon2::Argon2::hash_password_into` with default parameters
/// and a 32-byte output: it fills the output exactly when the password is at
/// most `MAX_KDF_INPUT_LEN` bytes and the salt length lies between
/// `MIN_KDF_SALT_LEN` and `MAX_KDF_INPUT_LEN`, and errs otherwise; the
/// derived key depends on the password and salt alone.
#[verifier::external_body]
fn argon2_derive_key(password: &[u8], salt: &[u8]) -> (r: Result<Vec<u8>, VaultError>)
    ensures
        r matches Ok(k) ==> k@.len() == 32 && k@ == kdf_of(password@, salt@),
        r is Ok ==> kdf_salt_len_ok(salt@.len()) && kdf_password_len_ok(password@.len()),
        r is Ok <== kdf_salt_len_ok(salt@.len()) && kdf_password_len_ok(password@.len()),
        r matches Err(e) ==> e == VaultError::KeyDerivationFailure,
{
    let mut key = [0u8; 32];
    match Argon2::default().hash_password_into(password, salt, &mut key) {
        Ok(()) => Ok(key.to_vec()),
        Err(_) => Err(VaultError::KeyDerivationFailure),
    }
}

/// Relies on `aes_gcm::Aes256Gcm` through `aead::Aead::encrypt` with no
/// associated data: succeeds exactly when the plaintext is at most
/// `MAX_PLAINTEXT_LEN` bytes, returning the ciphertext followed by its
/// 16-byte tag; the result depends on key, nonce and plaintext alone.
#[verifier::external_body]
fn aes_gcm_encrypt(key: &[u8], nonce: &[u8], plaintext: &[u8]) -> (r: Result<Vec<u8>, VaultError>)
    requires
        key@.len() == 32,
        nonce@.len() == NONCE_LEN,
    ensures
        r matches Ok(c) ==> c@ == aead_seal(key@, nonce@, plaintext@) && c@.len() == plaintext@.len() + TAG_LEN,
        r is Ok <==> plaintext@.len() <= MAX_PLAINTEXT_LEN,
        r matches Err(e) ==> e == VaultError::EncryptionFailure,
{
    let cipher = Aes256Gcm::new(aes_gcm::Key::<Aes256Gcm>::from_slice(key));
    match cipher.encrypt(aes_gcm::Nonce::from_slice(nonce), plaintext) {
        Ok(c) => Ok(c),
        Err(_) => Err(VaultError::EncryptionFailure),
    }
}

/// Relies on `aes_gcm::Aes256Gcm` through `aead::Aead::decrypt` with no
/// associated data: returns the plaintext exactly when the input is the
/// authenticated encryption of that plaintext under the given key and
/// nonce, and fails closed otherwise (tag verification). The crate bounds
/// only the message left after the 16-byte tag is split off, so the input
/// here is kept within ciphertext-plus-tag of the longest encryptable
/// plaintext; a successful decryption returns exactly the input minus the
/// tag.
#[verifier::external_body]
fn aes_gcm_decrypt(key: &[u8], nonce: &[u8], cipher_text: &[u8]) -> (r: Option<Vec<u8>>)
    requires
        key@.len() == 32,
        nonce@.len() == NONCE_LEN,
        cipher_text@.len() <= MAX_PLAINTEXT_LEN + TAG_LEN,
    ensures
        r matches Some(p) ==> p@.len() + TAG_LEN == cipher_text@.len() && cipher_text@
            == aead_seal(key@, nonce@, p@),
        r matches Some(p) ==> forall|pt: Seq<u8>|
            pt.len() <= MAX_PLAINTEXT_LEN && cipher_text@ == aead_seal(key@, nonce@, pt) ==> p@ == pt,
        r is None ==> forall|pt: Seq<u8>|
            pt.len() <= MAX_PLAINTEXT_LEN ==> cipher_text@ != aead_seal(key@, nonce@, pt),
{
    let cipher = Aes256Gcm::new(aes_gcm::Key::<Aes256Gcm>::from_slice(key));
    match cipher.decrypt(aes_gcm::Nonce::from_slice(nonce), cipher_text) {
        Ok(p) => Some(p),
        Err(_) => None,
    }
}

/// Relies on `String::from_utf8`: returns the decoded string exactly when
/// the bytes are valid UTF-8, and nothing otherwise.
#[verifier::external_body]
pub(crate) fn bytes_to_text(bytes: Vec<u8>) -> (r: Option<String>)
    ensures
        r matches Some(s) ==> encode_utf8(s@) == bytes@,
        r is Some <==> valid_utf8(bytes@),
{
    match String::from_utf8(bytes) {
        Ok(s) => Some(s),
        Err(_) => None,
    }
}

/// Seal `text` under `password`: generate a fresh 16-byte salt, derive a
/// one-time 256-bit key from `(password, salt)`, generate a fresh 12-byte
/// nonce, and authenticate-encrypt the text. The derived key is discarded;
/// the returned record is self-contained.
pub fn cipher(text: String, password: String) -> (r: Result<Entry, VaultError>)
    ensures
        r is Ok <==> (encode_utf8(text@).len() <= MAX_PLAINTEXT_LEN && kdf_password_len_ok(
            encode_utf8(password@).len(),
        )),
        !kdf_password_len_ok(encode_utf8(password@).len()) ==> r == Result::<
            Entry,
            VaultError,
        >::Err(VaultError::KeyDerivationFailure),
        kdf_password_len_ok(encode_utf8(password@).len()) && encode_utf8(text@).len()
            > MAX_PLAINTEXT_LEN ==> r == Result::<Entry, VaultError>::Err(
            VaultError::EncryptionFailure,
        ),
        r matches Ok(e) ==> {
            &&& e@.salt.len() == SALT_LEN
            &&& e@.nonce.len() == NONCE_LEN
            &&& e@.cipher_text.len() == encode_utf8(text@).len() + TAG_LEN
            &&& seals(e@, password@, encode_utf8(text@))
        },
{
    let salt = random_bytes(SALT_LEN);
    let key = match argon2_derive_key(password.as_str().as_bytes(), salt.as_slice()) {
        Ok(k) => k,
        Err(e) => return Err(e),
    };
    let nonce = random_bytes(NONCE_LEN);
    let cipher_text = match aes_gcm_encrypt(key.as_slice(), nonce.as_slice(), text.as_str().as_bytes()) {
        Ok(c) => c,
        Err(e) => return Err(e),
    };
    Ok(Entry { salt, nonce, cipher_text })
}

/// Open a record under `password`: re-derive the key from the record's salt
/// and attempt authenticated decryption. A failed tag check comes back as
/// the single undifferentiated `AuthenticationFailure` (wrong password or
/// corrupted data); decrypted bytes that are not UTF-8 come back as
/// `DecodedTextInvalid`.
pub fn decipher(entry: &Entry, password: String) -> (r: Result<String, VaultError>)
    ensures
        r matches Ok(s) ==> seals(entry@, password@, encode_utf8(s@)),
        forall|pt: Seq<u8>|
            kdf_password_len_ok(encode_utf8(password@).len()) && seals(entry@, password@, pt)
                && valid_utf8(pt) ==> (r matches Ok(s) && encode_utf8(s@) == pt),
        forall|pt: Seq<u8>|
            kdf_password_len_ok(encode_utf8(password@).len()) && seals(entry@, password@, pt)
                && !valid_utf8(pt) ==> r == Result::<String, VaultError>::Err(
                VaultError::DecodedTextInvalid,
            ),
        kdf_password_len_ok(encode_utf8(password@).len()) && kdf_salt_len_ok(entry@.salt.len())
            && entry@.nonce.len() == NONCE_LEN && !openable(entry@, password@) ==> r == Result::<
            String,
            VaultError,
        >::Err(VaultError::AuthenticationFailure),
        entry@.nonce.len() != NONCE_LEN ==> r == Result::<String, VaultError>::Err(
            VaultError::AuthenticationFailure,
        ),
        entry@.cipher_text.len() > MAX_PLAINTEXT_LEN + TAG_LEN ==> r == Result::<
            String,
            VaultError,
        >::Err(VaultError::AuthenticationFailure),
        entry@.cipher_text.len() <= MAX_PLAINTEXT_LEN + TAG_LEN && entry@.nonce.len() == NONCE_LEN
            && (!kdf_salt_len_ok(entry@.salt.len()) || !kdf_password_len_ok(
            encode_utf8(password@).len(),
        )) ==> r == Result::<String, VaultError>::Err(VaultError::KeyDerivationFailure),
{
    if entry.cipher_text.len() as u64 > MAX_PLAINTEXT_LEN + (TAG_LEN as u64) {
        return Err(VaultError::AuthenticationFailure);
    }
    if entry.nonce.len() != NONCE_LEN {
        return Err(VaultError::AuthenticationFailure);
    }
    let key = match argon2_derive_key(password.as_str().as_bytes(), entry.salt.as_slice()) {
        Ok(k) => k,
        Err(e) => return Err(e),
    };
    match aes_gcm_decrypt(key.as_slice(), entry.nonce.as_slice(), entry.cipher_text.as_slice()) {
        Some(plain) => {
            proof {
                assert(seals(entry@, password@, plain@));
            }
            match bytes_to_text(plain) {
                Some(s) => Ok(s),
                None => Err(VaultError::DecodedTextInvalid),
            }
        },
        None => Err(VaultError::AuthenticationFailure),
    }
}

/// Round-trip law: if a record seals `text` under `password` — which is what
/// `cipher` ensures of every record it returns — then the sealed bytes are
/// valid UTF-8 and decode to `text` alone, so `decipher`'s contract forces
/// it to return exactly `Ok(text)`.
pub proof fn lemma_seal_open_round_trip(e: EntryView, password: Seq<char>, text: Seq<char>)
    requires
        seals(e, password, encode_utf8(text)),
    ensures
        valid_utf8(encode_utf8(text)),
        forall|s: Seq<char>| encode_utf8(s) == encode_utf8(text) ==> s == text,
{
    broadcast use vstd::utf8::encode_utf8_valid_utf8;
    broadcast use vstd::utf8::encode_utf8_decode_utf8;

    assert forall|s: Seq<char>| encode_utf8(s) == encode_utf8(text) implies s == text by {
        assert(vstd::utf8::decode_utf8(encode_utf8(s)) == s);
        assert(vstd::utf8::decode_utf8(encode_utf8(text)) == text);
    }
}

/// Wrong-password law: a record sealed under one password, offered
/// another password that authenticates no plaintext at all, meets exactly
/// the clause of `decipher`'s contract that forces `AuthenticationFailure`
/// — never a value. The second hypothesis cannot be discharged here: that
/// a key derived from a different password authenticates nothing is the
/// AEAD's probabilistic guarantee, not a logical one (a password pair whose
/// derived keys collided on this salt would be the exception).
pub proof fn lemma_wrong_password_rejected(
    e: EntryView,
    pw1: Seq<char>,
    pw2: Seq<char>,
    pt: Seq<u8>,
)
    requires
        seals(e, pw1, pt),
        !openable(e, pw2),
    ensures
        kdf_salt_len_ok(e.salt.len()),
        e.nonce.len() == NONCE_LEN,
        forall|q: Seq<u8>| !seals(e, pw2, q),
{
}

/// Tamper law: a record whose ciphertext or nonce was altered, so that it
/// no longer authenticates any plaintext under the password, meets exactly
/// the clause of `decipher`'s contract that forces `AuthenticationFailure`.
/// The last hypothesis is again the AEAD's probabilistic guarantee: a
/// flipped bit that still passed tag verification would be a forgery.
pub proof fn lemma_tampered_rejected(e: EntryView, e2: EntryView, pw: Seq<char>, pt: Seq<u8>)
    requires
        seals(e, pw, pt),
        e2.salt == e.salt,
        e2.nonce.len() == e.nonce.len(),
        !openable(e2, pw),
    ensures
        kdf_salt_len_ok(e2.salt.len()),
        e2.nonce.len() == NONCE_LEN,
        forall|q: Seq<u8>| !seals(e2, pw, q),
{
}

} // verus!
