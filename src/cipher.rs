//! The fixed cipher configuration shared by packer and loader: AES-128 in CBC
//! mode with standard block padding, key and IV given as base64 literals.
use vstd::prelude::*;
use std::io::Read;
use std::io::Write;

verus! {

/// Base64 text of the 128-bit key.
pub const KEY_BASE64: &'static str = "kjtbxCPw3XPFThb3mKmzfg==";

/// Base64 text of the 128-bit initialisation vector.
pub const IV_BASE64: &'static str = "dB0Ej+7zWZWTS5JUCldWMg==";

/// Bytes that base64's standard alphabet decodes `s` to.
pub uninterp spec fn base64_decoded(s: Seq<char>) -> Seq<u8>;

/// Ciphertext that cryptostream's AES-128-CBC encryptor writes for `plain`.
pub uninterp spec fn cbc_encrypted(key: Seq<u8>, iv: Seq<u8>, plain: Seq<u8>) -> Seq<u8>;

/// Plaintext that cryptostream's AES-128-CBC decryptor reads out of `cipher`.
pub uninterp spec fn cbc_decrypted(key: Seq<u8>, iv: Seq<u8>, cipher: Seq<u8>) -> Seq<u8>;

/// A symbol of base64's standard alphabet.
pub open spec fn is_base64_symbol(c: char) -> bool {
    ('A' <= c && c <= 'Z') || ('a' <= c && c <= 'z') || ('0' <= c && c <= '9') || c == '+' || c == '/'
}

/// Canonical padded base64 text of 16 bytes: 21 symbols, a 22nd symbol
/// whose unused low four bits are zero, then `==`.
pub open spec fn is_base64_of_16(s: Seq<char>) -> bool {
    &&& s.len() == 24
    &&& forall|i: int| 0 <= i < 21 ==> is_base64_symbol(#[trigger] s[i])
    &&& (s[21] == 'A' || s[21] == 'Q' || s[21] == 'g' || s[21] == 'w')
    &&& s[22] == '='
    &&& s[23] == '='
}

/// Relies on base64::decode (standard alphabet, padding required, trailing
/// bits checked): `None` when the text is not valid base64; canonical text
/// of 16 bytes decodes to 16 bytes.
#[verifier::external_body]
fn decode_base64(s: &str) -> (r: Option<Vec<u8>>)
    ensures
        r matches Some(b) ==> b@ == base64_decoded(s@),
        is_base64_of_16(s@) ==> r is Some,
        r matches Some(b) ==> (is_base64_of_16(s@) ==> b@.len() == 16),
{
    base64::decode(s).ok()
}

/// Relies on cryptostream::write::Encryptor with openssl's aes_128_cbc and
/// padding on: all of `plain` is written, then the stream is finished. With a
/// 16-byte key and IV over an in-memory buffer this does not fail.
#[verifier::external_body]
fn cbc_encrypt(key: &[u8], iv: &[u8], plain: &[u8]) -> (r: Option<Vec<u8>>)
    requires
        key@.len() == 16,
        iv@.len() == 16,
    ensures
        r matches Some(c) ==> c@ == cbc_encrypted(key@, iv@, plain@),
        r is Some,
{
    let cipher = openssl::symm::Cipher::aes_128_cbc();
    let mut enc = cryptostream::write::Encryptor::new(Vec::new(), cipher, key, iv).ok()?;
    enc.write_all(plain).ok()?;
    enc.finish().ok()
}

/// Relies on cryptostream::read::Decryptor with openssl's aes_128_cbc and
/// padding on, read to the end: `None` on a padding failure. What the
/// encryptor wrote for some plaintext decrypts, back to that plaintext.
#[verifier::external_body]
fn cbc_decrypt(key: &[u8], iv: &[u8], cipher: &[u8]) -> (r: Option<Vec<u8>>)
    requires
        key@.len() == 16,
        iv@.len() == 16,
    ensures
        r matches Some(p) ==> p@ == cbc_decrypted(key@, iv@, cipher@),
        r matches Some(p) ==> forall|q: Seq<u8>|
            #[trigger] cbc_encrypted(key@, iv@, q) == cipher@ ==> p@ == q,
        forall|q: Seq<u8>| #[trigger] cbc_encrypted(key@, iv@, q) == cipher@ ==> r is Some,
{
    let aes = openssl::symm::Cipher::aes_128_cbc();
    let mut dec = cryptostream::read::Decryptor::new(cipher, aes, key, iv).ok()?;
    let mut plain = Vec::new();
    dec.read_to_end(&mut plain).ok()?;
    Some(plain)
}

/// Key and IV of the cipher, each 16 bytes long.
pub struct CipherContext {
    key: Vec<u8>,
    iv: Vec<u8>,
}

impl CipherContext {
    pub closed spec fn key_view(&self) -> Seq<u8> {
        self.key@
    }

    pub closed spec fn iv_view(&self) -> Seq<u8> {
        self.iv@
    }

    pub closed spec fn wf(&self) -> bool {
        self.key@.len() == 16 && self.iv@.len() == 16
    }

    /// A context from raw key and IV bytes; `None` unless both are 16 bytes.
    pub fn new(key: Vec<u8>, iv: Vec<u8>) -> (r: Option<CipherContext>)
        ensures
            r is Some <==> (key@.len() == 16 && iv@.len() == 16),
            r matches Some(c) ==> c.wf() && c.key_view() == key@ && c.iv_view() == iv@,
    {
        if key.len() == 16 && iv.len() == 16 {
            Some(CipherContext { key, iv })
        } else {
            None
        }
    }

    /// The build-time context: key and IV decoded from their base64 literals.
    pub fn fixed() -> (r: Option<CipherContext>)
        ensures
            r is Some,
            r matches Some(c) ==> c.wf() && c.key_view() == base64_decoded(KEY_BASE64@)
                && c.iv_view() == base64_decoded(IV_BASE64@),
    {
        proof {
            reveal_strlit("kjtbxCPw3XPFThb3mKmzfg==");
            reveal_strlit("dB0Ej+7zWZWTS5JUCldWMg==");
            assert(is_base64_of_16(KEY_BASE64@));
            assert(is_base64_of_16(IV_BASE64@));
        }
        let key = decode_base64(KEY_BASE64)?;
        let iv = decode_base64(IV_BASE64)?;
        CipherContext::new(key, iv)
    }

    /// Encrypts `plain` under this context; this always succeeds.
    pub fn encrypt(&self, plain: &[u8]) -> (r: Option<Vec<u8>>)
        requires
            self.wf(),
        ensures
            r is Some,
            r matches Some(c) ==> c@ == cbc_encrypted(self.key_view(), self.iv_view(), plain@),
    {
        cbc_encrypt(self.key.as_slice(), self.iv.as_slice(), plain)
    }

    /// Decrypts `cipher` under this context; `None` on a padding failure,
    /// which never happens to what `encrypt` produced.
    pub fn decrypt(&self, cipher: &[u8]) -> (r: Option<Vec<u8>>)
        requires
            self.wf(),
        ensures
            r matches Some(p) ==> p@ == cbc_decrypted(self.key_view(), self.iv_view(), cipher@),
            r matches Some(p) ==> forall|q: Seq<u8>|
                #[trigger] cbc_encrypted(self.key_view(), self.iv_view(), q) == cipher@ ==> p@ == q,
            forall|q: Seq<u8>| #[trigger] cbc_encrypted(self.key_view(), self.iv_view(), q) == cipher@ ==> r is Some,
    {
        cbc_decrypt(self.key.as_slice(), self.iv.as_slice(), cipher)
    }
}

} // verus!
