use vstd::prelude::*;

use crate::StoreError;
use rand::RngCore;
use vstd::string::StringSliceAdditionalSpecFns;

verus! {

/// The Argon2id digest (with the argon2 crate's default parameters) of a
/// password and a salt: a function of those two inputs alone.
pub uninterp spec fn argon2_of(pass: Seq<char>, salt: Seq<u8>) -> Seq<u8>;

/// The XChaCha20Poly1305 ciphertext (payload then 16-byte tag) for a key, a
/// nonce and a payload: a function of those three inputs alone.
pub uninterp spec fn xchacha_seal(key: Seq<u8>, nonce: Seq<u8>, payload: Seq<u8>) -> Seq<u8>;

/// What XChaCha20Poly1305 decryption returns for a key, a nonce and a
/// ciphertext: the payload when the tag verifies, nothing otherwise.
pub uninterp spec fn xchacha_open(key: Seq<u8>, nonce: Seq<u8>, ct: Seq<u8>) -> Option<Seq<u8>>;

pub const KEY_LEN: usize = 32;

pub const NONCE_LEN: usize = 24;

pub const SALT_LEN: usize = 32;

/// The authentication tag the cipher appends to every ciphertext.
pub const TAG_LEN: usize = 16;

/// Nonce and salt together: the trailer of every envelope.
pub const TRAILER_LEN: usize = 56;

/// Argon2 rejects a password of 2^32 bytes or more; every shorter one is
/// accepted.
pub open spec fn pass_fits(pass: Seq<char>) -> bool {
    vstd::utf8::encode_utf8(pass).len() <= 0xFFFF_FFFF
}

/// An envelope: ciphertext, then the 24-byte nonce, then the 32-byte salt.
pub open spec fn envelope_bytes(payload: Seq<u8>, key: Seq<u8>, nonce: Seq<u8>, salt: Seq<u8>) -> Seq<u8> {
    xchacha_seal(key, nonce, payload) + nonce + salt
}

pub open spec fn env_salt(data: Seq<u8>) -> Seq<u8>
    recommends
        data.len() >= TRAILER_LEN,
{
    data.subrange(data.len() - SALT_LEN, data.len() as int)
}

pub open spec fn env_nonce(data: Seq<u8>) -> Seq<u8>
    recommends
        data.len() >= TRAILER_LEN,
{
    data.subrange(data.len() - TRAILER_LEN, data.len() - SALT_LEN)
}

pub open spec fn env_ciphertext(data: Seq<u8>) -> Seq<u8>
    recommends
        data.len() >= TRAILER_LEN,
{
    data.subrange(0, data.len() - TRAILER_LEN)
}

/// What opening an envelope with a password yields: the envelope must be
/// longer than its trailer, and the ciphertext must verify under the key
/// derived from the password and the envelope's own salt.
pub open spec fn open_spec(data: Seq<u8>, pass: Seq<char>) -> Option<Seq<u8>> {
    if data.len() <= TRAILER_LEN {
        None
    } else {
        xchacha_open(argon2_of(pass, env_salt(data)), env_nonce(data), env_ciphertext(data))
    }
}

pub open spec fn all_zero(s: Seq<u8>) -> bool {
    forall|i: int| 0 <= i < s.len() ==> s[i] == 0
}

/// Relies on rand::rngs::OsRng (rand::RngCore::fill_bytes): fills the buffer
/// from the operating system's random source. Nothing is promised of the
/// values: no two calls need agree.
#[verifier::external_body]
pub(crate) fn os_random_bytes(n: usize) -> (r: Vec<u8>)
    ensures
        r@.len() == n,
{
    let mut buf = vec![0u8; n];
    rand::rngs::OsRng.fill_bytes(&mut buf);
    buf
}

/// Relies on argon2::Argon2::hash_password_into with the crate's default
/// parameters (Argon2id, v19): fills a 32-byte buffer with a digest of the
/// password and the salt alone. With a 32-byte salt it rejects only a
/// password of 2^32 bytes or more.
#[verifier::external_body]
fn argon2_derive(pass: &str, salt: &Vec<u8>) -> (r: Option<Vec<u8>>)
    requires
        salt@.len() == SALT_LEN,
    ensures
        r matches Some(k) ==> k@ == argon2_of(pass@, salt@) && k@.len() == KEY_LEN,
        pass.spec_bytes().len() <= 0xFFFF_FFFF ==> r is Some,
{
    let mut key = [0u8; 32];
    match argon2::Argon2::default().hash_password_into(pass.as_bytes(), salt.as_slice(), &mut key) {
        Ok(()) => Some(key.to_vec()),
        Err(_) => None,
    }
}

/// Relies on chacha20poly1305::XChaCha20Poly1305 (aead::Aead::encrypt, no
/// associated data): the ciphertext is the encrypted payload followed by a
/// 16-byte tag, a function of key, nonce and payload alone; decrypting it
/// under the same key and nonce gives the payload back. It fails only on a
/// payload of 2^32 or more 64-byte blocks.
#[verifier::external_body]
fn aead_encrypt(key: &Vec<u8>, nonce: &Vec<u8>, payload: &Vec<u8>) -> (r: Option<Vec<u8>>)
    requires
        key@.len() == KEY_LEN,
        nonce@.len() == NONCE_LEN,
    ensures
        r matches Some(c) ==> c@ == xchacha_seal(key@, nonce@, payload@) && c@.len() == payload@.len()
            + TAG_LEN && xchacha_open(key@, nonce@, c@) == Some(payload@),
        payload@.len() <= 0xFFFF_FFFF ==> r is Some,
{
    let cipher = <chacha20poly1305::XChaCha20Poly1305 as chacha20poly1305::KeyInit>::new(
        chacha20poly1305::Key::from_slice(key.as_slice()),
    );
    let nonce = chacha20poly1305::XNonce::from_slice(nonce.as_slice());
    match chacha20poly1305::aead::Aead::encrypt(&cipher, nonce, payload.as_slice()) {
        Ok(c) => Some(c),
        Err(_) => None,
    }
}

/// Relies on chacha20poly1305::XChaCha20Poly1305 (aead::Aead::decrypt, no
/// associated data): returns the payload exactly when the tag verifies, and
/// fails otherwise; a function of key, nonce and ciphertext alone.
#[verifier::external_body]
fn aead_decrypt(key: &Vec<u8>, nonce: &Vec<u8>, ct: &Vec<u8>) -> (r: Option<Vec<u8>>)
    requires
        key@.len() == KEY_LEN,
        nonce@.len() == NONCE_LEN,
    ensures
        r matches Some(p) ==> xchacha_open(key@, nonce@, ct@) == Some(p@),
        r is None ==> xchacha_open(key@, nonce@, ct@) is None,
{
    let cipher = <chacha20poly1305::XChaCha20Poly1305 as chacha20poly1305::KeyInit>::new(
        chacha20poly1305::Key::from_slice(key.as_slice()),
    );
    let nonce = chacha20poly1305::XNonce::from_slice(nonce.as_slice());
    match chacha20poly1305::aead::Aead::decrypt(&cipher, nonce, ct.as_slice()) {
        Ok(p) => Some(p),
        Err(_) => None,
    }
}

/// Derive a 32-byte key from a password. A fresh random salt is drawn when
/// the caller hands in an all-zero placeholder; any other salt is used as it
/// stands and handed back beside the key.
pub fn pass_2_key(input: &str, salt: Vec<u8>) -> (r: Result<(Vec<u8>, Vec<u8>), StoreError>)
    requires
        salt@.len() == SALT_LEN,
        pass_fits(input@),
    ensures
        r matches Ok(ks) ==> {
            &&& ks.0@ == argon2_of(input@, ks.1@)
            &&& ks.0@.len() == KEY_LEN
            &&& ks.1@.len() == SALT_LEN
            &&& !all_zero(salt@) ==> ks.1@ == salt@
        },
        r is Ok,
{
    let mut zero = true;
    let mut i: usize = 0;
    while i < salt.len()
        invariant
            i <= salt@.len(),
            zero <==> (forall|j: int| 0 <= j < i ==> salt@[j] == 0),
        decreases salt@.len() - i,
    {
        if salt[i] != 0 {
            zero = false;
        }
        i += 1;
    }
    let s = if zero {
        os_random_bytes(SALT_LEN)
    } else {
        salt
    };
    match argon2_derive(input, &s) {
        Some(k) => Ok((k, s)),
        None => Err(StoreError::KeyDerivation),
    }
}

/// Seal a payload: encrypt it under the key and nonce, then append the nonce
/// and the salt, yielding a self-describing envelope.
pub fn encrypt_file_mem_with_salt(
    file_data: Vec<u8>,
    key: &Vec<u8>,
    nonce: &Vec<u8>,
    salt: &Vec<u8>,
) -> (r: Result<Vec<u8>, StoreError>)
    requires
        key@.len() == KEY_LEN,
        nonce@.len() == NONCE_LEN,
        salt@.len() == SALT_LEN,
    ensures
        r matches Ok(env) ==> {
            &&& env@ == envelope_bytes(file_data@, key@, nonce@, salt@)
            &&& env@.len() == file_data@.len() + TAG_LEN + TRAILER_LEN
            &&& xchacha_open(key@, nonce@, xchacha_seal(key@, nonce@, file_data@)) == Some(
                file_data@,
            )
        },
        file_data@.len() <= 0xFFFF_FFFF ==> r is Ok,
        r matches Err(e) ==> e == StoreError::Encryption,
{
    let ghost payload = file_data@;
    match aead_encrypt(key, nonce, &file_data) {
        Some(mut env) => {
            let mut i: usize = 0;
            while i < NONCE_LEN
                invariant
                    i <= NONCE_LEN,
                    nonce@.len() == NONCE_LEN,
                    env@ == xchacha_seal(key@, nonce@, payload) + nonce@.subrange(0, i as int),
                decreases NONCE_LEN - i,
            {
                env.push(nonce[i]);
                i += 1;
                proof {
                    assert(env@ =~= xchacha_seal(key@, nonce@, payload) + nonce@.subrange(
                        0,
                        i as int,
                    ));
                }
            }
            let mut j: usize = 0;
            while j < SALT_LEN
                invariant
                    j <= SALT_LEN,
                    nonce@.len() == NONCE_LEN,
                    salt@.len() == SALT_LEN,
                    env@ == xchacha_seal(key@, nonce@, payload) + nonce@ + salt@.subrange(
                        0,
                        j as int,
                    ),
                decreases SALT_LEN - j,
            {
                env.push(salt[j]);
                j += 1;
                proof {
                    assert(env@ =~= xchacha_seal(key@, nonce@, payload) + nonce@ + salt@.subrange(
                        0,
                        j as int,
                    ));
                }
            }
            proof {
                assert(env@ =~= envelope_bytes(payload, key@, nonce@, salt@));
            }
            Ok(env)
        },
        None => Err(StoreError::Encryption),
    }
}

/// Open an envelope with a password: split off the trailing salt and nonce,
/// re-derive the key, decrypt and verify the ciphertext.
pub fn decrypt_file_mem_gen_key(file_data: Vec<u8>, pass: &str) -> (r: Result<
    Vec<u8>,
    StoreError,
>)
    requires
        pass_fits(pass@),
    ensures
        r matches Ok(p) ==> open_spec(file_data@, pass@) == Some(p@),
        r matches Err(e) ==> {
            &&& open_spec(file_data@, pass@) is None
            &&& e == if file_data@.len() <= TRAILER_LEN {
                StoreError::MalformedEnvelope
            } else {
                StoreError::AuthenticationFailed
            }
        },
{
    let n = file_data.len();
    if n <= TRAILER_LEN {
        return Err(StoreError::MalformedEnvelope);
    }
    let salt_start = n - SALT_LEN;
    let nonce_start = n - TRAILER_LEN;
    let mut salt: Vec<u8> = Vec::new();
    let mut i: usize = salt_start;
    while i < n
        invariant
            salt_start <= i <= n,
            n == file_data@.len(),
            salt_start == n - SALT_LEN,
            salt@ == file_data@.subrange(salt_start as int, i as int),
        decreases n - i,
    {
        salt.push(file_data[i]);
        i += 1;
        proof {
            assert(salt@ =~= file_data@.subrange(salt_start as int, i as int));
        }
    }
    let mut nonce: Vec<u8> = Vec::new();
    let mut j: usize = nonce_start;
    while j < salt_start
        invariant
            nonce_start <= j <= salt_start,
            n == file_data@.len(),
            salt_start == n - SALT_LEN,
            nonce_start == n - TRAILER_LEN,
            nonce@ == file_data@.subrange(nonce_start as int, j as int),
        decreases salt_start - j,
    {
        nonce.push(file_data[j]);
        j += 1;
        proof {
            assert(nonce@ =~= file_data@.subrange(nonce_start as int, j as int));
        }
    }
    let mut ct: Vec<u8> = Vec::new();
    let mut k: usize = 0;
    while k < nonce_start
        invariant
            k <= nonce_start,
            n == file_data@.len(),
            nonce_start == n - TRAILER_LEN,
            ct@ == file_data@.subrange(0, k as int),
        decreases nonce_start - k,
    {
        ct.push(file_data[k]);
        k += 1;
        proof {
            assert(ct@ =~= file_data@.subrange(0, k as int));
        }
    }
    proof {
        assert(salt@ == env_salt(file_data@));
        assert(nonce@ == env_nonce(file_data@));
        assert(ct@ == env_ciphertext(file_data@));
    }
    let key = match argon2_derive(pass, &salt) {
        Some(k) => k,
        None => {
            proof {
                // a password within Argon2's bound always derives
                assert(false);
            }
            return Err(StoreError::AuthenticationFailed);
        },
    };
    match aead_decrypt(&key, &nonce, &ct) {
        Some(p) => Ok(p),
        None => Err(StoreError::AuthenticationFailed),
    }
}

/// Sealing, then opening with the password the key was derived from, gives
/// the payload back: an envelope made from a password-derived key always
/// opens under that password. The first three hypotheses are exactly what
/// sealing establishes of its result.
pub proof fn lemma_envelope_round_trip(
    payload: Seq<u8>,
    key: Seq<u8>,
    nonce: Seq<u8>,
    salt: Seq<u8>,
    pass: Seq<char>,
)
    ensures
        (nonce.len() == NONCE_LEN && salt.len() == SALT_LEN && key == argon2_of(pass, salt)
            && xchacha_seal(key, nonce, payload).len() == payload.len() + TAG_LEN && xchacha_open(
            key,
            nonce,
            xchacha_seal(key, nonce, payload),
        ) == Some(payload)) ==> open_spec(envelope_bytes(payload, key, nonce, salt), pass) == Some(
            payload,
        ),
{
    if nonce.len() == NONCE_LEN && salt.len() == SALT_LEN && key == argon2_of(pass, salt)
        && xchacha_seal(key, nonce, payload).len() == payload.len() + TAG_LEN && xchacha_open(
        key,
        nonce,
        xchacha_seal(key, nonce, payload),
    ) == Some(payload) {
        let env = envelope_bytes(payload, key, nonce, salt);
        assert(env.len() == payload.len() + TAG_LEN + TRAILER_LEN);
        assert(env_salt(env) =~= salt);
        assert(env_nonce(env) =~= nonce);
        assert(env_ciphertext(env) =~= xchacha_seal(key, nonce, payload));
    }
}

/// Two envelopes over the same payload that carry different nonces are
/// different byte strings, whatever their keys and salts: the nonce is in
/// the clear at a fixed place. The length hypotheses are what sealing
/// establishes of its results.
pub proof fn lemma_distinct_nonces_distinct_envelopes(
    payload: Seq<u8>,
    key1: Seq<u8>,
    key2: Seq<u8>,
    nonce1: Seq<u8>,
    nonce2: Seq<u8>,
    salt1: Seq<u8>,
    salt2: Seq<u8>,
)
    ensures
        (nonce1.len() == NONCE_LEN && nonce2.len() == NONCE_LEN && nonce1 != nonce2 && xchacha_seal(
            key1,
            nonce1,
            payload,
        ).len() == payload.len() + TAG_LEN && xchacha_seal(key2, nonce2, payload).len()
            == payload.len() + TAG_LEN) ==> envelope_bytes(payload, key1, nonce1, salt1)
            != envelope_bytes(payload, key2, nonce2, salt2),
{
    if nonce1.len() == NONCE_LEN && nonce2.len() == NONCE_LEN && nonce1 != nonce2 && xchacha_seal(
        key1,
        nonce1,
        payload,
    ).len() == payload.len() + TAG_LEN && xchacha_seal(key2, nonce2, payload).len() == payload.len()
        + TAG_LEN {
        let e1 = envelope_bytes(payload, key1, nonce1, salt1);
        let e2 = envelope_bytes(payload, key2, nonce2, salt2);
        let ct_len = payload.len() + TAG_LEN;
        if e1 == e2 {
            assert(forall|i: int|
                0 <= i < NONCE_LEN ==> nonce1[i] == e1[ct_len + i] && nonce2[i] == e2[ct_len + i]);
            assert(nonce1 =~= nonce2);
        }
    }
}

} // verus!
