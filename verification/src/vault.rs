//! Settings at rest: encrypted with a key of this installation, each time under
//! another nonce, and written as text.

use aes_gcm::aead::rand_core::RngCore;
use aes_gcm::aead::Aead;
use aes_gcm::KeyInit;
use base64::Engine;
use vstd::prelude::*;
use vstd::utf8::{decode_utf8, encode_utf8, valid_utf8};

use crate::text::utf8_text;

verus! {

/// What AES-256-GCM makes of some data under a key and a nonce; nothing where
/// there is too much of it.
pub uninterp spec fn sealed(key: Seq<u8>, nonce: Seq<u8>, data: Seq<u8>) -> Option<Seq<u8>>;

/// The data that AES-256-GCM finds under a key and a nonce; nothing where it was
/// not made under them.
pub uninterp spec fn opened(key: Seq<u8>, nonce: Seq<u8>, data: Seq<u8>) -> Option<Seq<u8>>;

/// `Aead::encrypt` of `aes_gcm::Aes256Gcm` without associated data, a function
/// of the key, the nonce and the data. It adds a tag of 16 bytes, and what it
/// gives can be decrypted under the same key and nonce. It takes up to
/// `aes_gcm::P_MAX` bytes.
#[verifier::external_body]
fn seal(key: &[u8; 32], nonce: &[u8; 12], data: &[u8]) -> (r: Option<Vec<u8>>)
    ensures
        match r {
            Some(d) => {
                &&& sealed(key@, nonce@, data@) == Some(d@)
                &&& d@.len() == data@.len() + 16
                &&& opened(key@, nonce@, d@) == Some(data@)
            },
            None => sealed(key@, nonce@, data@) is None,
        },
        r is Some <==> data@.len() <= 0x10_0000_0000,
{
    match aes_gcm::Aes256Gcm::new_from_slice(key) {
        Ok(cipher) => cipher.encrypt(aes_gcm::Nonce::from_slice(nonce), data).ok(),
        Err(_) => None,
    }
}

/// `Aead::decrypt` of `aes_gcm::Aes256Gcm` without associated data, a function
/// of the key, the nonce and the data.
#[verifier::external_body]
fn unseal(key: &[u8; 32], nonce: &[u8; 12], data: &[u8]) -> (r: Option<Vec<u8>>)
    ensures
        match r {
            Some(d) => opened(key@, nonce@, data@) == Some(d@),
            None => opened(key@, nonce@, data@) is None,
        },
{
    match aes_gcm::Aes256Gcm::new_from_slice(key) {
        Ok(cipher) => cipher.decrypt(aes_gcm::Nonce::from_slice(nonce), data).ok(),
        Err(_) => None,
    }
}

/// `try_fill_bytes` of `aes_gcm::aead::OsRng`: twelve bytes of chance, or
/// nothing where the system has none to give.
#[verifier::external_body]
fn random_nonce() -> (r: Option<[u8; 12]>) {
    let mut nonce = [0u8; 12];
    match aes_gcm::aead::OsRng.try_fill_bytes(&mut nonce) {
        Ok(()) => Some(nonce),
        Err(_) => None,
    }
}

/// The text that some bytes are in standard Base64.
pub uninterp spec fn base64_text(data: Seq<u8>) -> Seq<char>;

/// The bytes that a text is in standard Base64, where it is one.
pub uninterp spec fn base64_bytes(text: Seq<char>) -> Option<Seq<u8>>;

/// `encode` of `base64::engine::general_purpose::STANDARD`, a function of the
/// bytes. What it gives can be decoded. It counts the length of the text in a
/// `usize`.
#[verifier::external_body]
fn to_base64(data: &[u8]) -> (r: String)
    requires
        data@.len() <= usize::MAX / 4,
    ensures
        r@ == base64_text(data@),
        base64_bytes(r@) == Some(data@),
{
    base64::engine::general_purpose::STANDARD.encode(data)
}

/// `decode` of `base64::engine::general_purpose::STANDARD`, a function of the
/// text.
#[verifier::external_body]
fn from_base64(text: &str) -> (r: Option<Vec<u8>>)
    ensures
        match r {
            Some(d) => base64_bytes(text@) == Some(d@),
            None => base64_bytes(text@) is None,
        },
{
    base64::engine::general_purpose::STANDARD.decode(text).ok()
}

/// The key of this installation, and where its files lie.
pub struct Vault {
    key: [u8; 32],
    pub dir: String,
}

/// Why a vault does not do what it was asked for.
#[derive(Clone, Copy, Debug, PartialEq, Eq, Structural)]
pub enum VaultFault {
    /// A key has 32 bytes.
    Key,
    /// There is no chance to be had.
    Chance,
    /// There is too much to encrypt.
    Encryption,
    /// The text is no Base64.
    Base64,
    /// There is no nonce.
    TooShort,
    /// It was not encrypted here, or was changed since.
    Decryption,
    /// What was encrypted is no text.
    Encoding,
}

/// What is written for a text under a key and a nonce.
pub open spec fn encrypted(key: Seq<u8>, nonce: Seq<u8>, text: Seq<char>) -> Option<Seq<char>> {
    match sealed(key, nonce, encode_utf8(text)) {
        Some(data) => Some(base64_text(nonce + data)),
        None => None,
    }
}

/// The text that is read under a key, or why there is none.
pub open spec fn decrypted(key: Seq<u8>, text: Seq<char>) -> Result<Seq<char>, VaultFault> {
    match base64_bytes(text) {
        None => Err(VaultFault::Base64),
        Some(bytes) => if bytes.len() < 12 {
            Err(VaultFault::TooShort)
        } else {
            match opened(key, bytes.take(12), bytes.skip(12)) {
                None => Err(VaultFault::Decryption),
                Some(data) => if valid_utf8(data) {
                    Ok(decode_utf8(data))
                } else {
                    Err(VaultFault::Encoding)
                },
            }
        },
    }
}

/// A text can be encrypted, and what it becomes written as text.
pub open spec fn can_be_encrypted(text: Seq<char>) -> bool {
    encode_utf8(text).len() <= 0x10_0000_0000 && encode_utf8(text).len() <= usize::MAX / 4 - 28
}

impl Vault {
    /// The key.
    pub closed spec fn secret(self) -> Seq<u8> {
        self.key@
    }

    /// Where the files lie.
    pub closed spec fn place(self) -> Seq<char> {
        self.dir@
    }

    /// A vault with a key that was read.
    pub fn with_key(key: &Vec<u8>, dir: String) -> (r: Result<Vault, VaultFault>)
        ensures
            key@.len() == 32 ==> r is Ok && r->Ok_0.secret() == key@ && r->Ok_0.place()
                == dir@,
            key@.len() != 32 ==> r is Err && r->Err_0 == VaultFault::Key,
    {
        if key.len() != 32 {
            return Err(VaultFault::Key);
        }
        let mut own = [0u8; 32];
        let mut i: usize = 0;
        while i < 32
            invariant
                i <= 32,
                key@.len() == 32,
                forall|k: int| 0 <= k < i ==> own@[k] == key@[k],
            decreases 32 - i,
        {
            own[i] = key[i];
            i += 1;
        }
        assert(own@ =~= key@);
        Ok(Vault { key: own, dir })
    }

    /// Encrypts a text under a nonce, unless it is too long. What it gives is
    /// decrypted to the text again.
    pub fn encrypt_with(&self, nonce: &[u8; 12], text: &str) -> (r: Result<String, VaultFault>)
        ensures
            match r {
                Ok(s) => {
                    &&& encrypted(self.secret(), nonce@, text@) == Some(s@)
                    &&& decrypted(self.secret(), s@) == Ok::<Seq<char>, VaultFault>(text@)
                },
                Err(f) => f == VaultFault::Encryption,
            },
            r is Ok <==> can_be_encrypted(text@),
    {
        let plain = text.as_bytes();
        if plain.len() > usize::MAX / 4 - 28 {
            return Err(VaultFault::Encryption);
        }
        let mut data = match seal(&self.key, nonce, plain) {
            Some(d) => d,
            None => {
                return Err(VaultFault::Encryption);
            },
        };
        let ghost inner = data@;
        let mut all: Vec<u8> = Vec::new();
        let mut i: usize = 0;
        while i < 12
            invariant
                i <= 12,
                all@ == nonce@.take(i as int),
                nonce@.len() == 12,
            decreases 12 - i,
        {
            assert(nonce@.take(i + 1) =~= nonce@.take(i as int).push(nonce@[i as int]));
            all.push(nonce[i]);
            i += 1;
        }
        all.append(&mut data);
        proof {
            assert(nonce@.take(12) =~= nonce@);
            assert(all@ =~= nonce@ + inner);
            assert(all@.take(12) =~= nonce@);
            assert(all@.skip(12) =~= inner);
            vstd::utf8::encode_utf8_valid_utf8(text@);
            vstd::utf8::encode_utf8_decode_utf8(text@);
        }
        Ok(to_base64(all.as_slice()))
    }

    /// Encrypts a text under a nonce of chance, unless it is too long or the
    /// system has no chance to give.
    pub fn encrypt(&self, text: &str) -> (r: Result<String, VaultFault>)
        ensures
            match r {
                Ok(s) => {
                    &&& can_be_encrypted(text@)
                    &&& decrypted(self.secret(), s@) == Ok::<Seq<char>, VaultFault>(text@)
                },
                Err(f) => f == VaultFault::Chance || (f == VaultFault::Encryption
                    && !can_be_encrypted(text@)),
            },
    {
        match random_nonce() {
            Some(nonce) => self.encrypt_with(&nonce, text),
            None => Err(VaultFault::Chance),
        }
    }

    /// Decrypts what was encrypted here.
    pub fn decrypt(&self, text: &str) -> (r: Result<String, VaultFault>)
        ensures
            match decrypted(self.secret(), text@) {
                Ok(s) => r is Ok && r->Ok_0@ == s,
                Err(f) => r is Err && r->Err_0 == f,
            },
    {
        let bytes = match from_base64(text) {
            Some(b) => b,
            None => {
                return Err(VaultFault::Base64);
            },
        };
        if bytes.len() < 12 {
            return Err(VaultFault::TooShort);
        }
        let mut nonce = [0u8; 12];
        let mut i: usize = 0;
        while i < 12
            invariant
                i <= 12 <= bytes@.len(),
                forall|k: int| 0 <= k < i ==> nonce@[k] == bytes@[k],
            decreases 12 - i,
        {
            nonce[i] = bytes[i];
            i += 1;
        }
        assert(nonce@ =~= bytes@.take(12));
        let mut data: Vec<u8> = Vec::new();
        let mut k: usize = 12;
        while k < bytes.len()
            invariant
                12 <= k <= bytes@.len(),
                data@ == bytes@.subrange(12, k as int),
            decreases bytes@.len() - k,
        {
            assert(bytes@.subrange(12, k + 1) =~= bytes@.subrange(12, k as int).push(
                bytes@[k as int],
            ));
            data.push(bytes[k]);
            k += 1;
        }
        assert(data@ =~= bytes@.skip(12));
        match unseal(&self.key, &nonce, data.as_slice()) {
            None => Err(VaultFault::Decryption),
            Some(plain) => match utf8_text(plain) {
                Some(s) => Ok(s),
                None => Err(VaultFault::Encoding),
            },
        }
    }
}

} // verus!
