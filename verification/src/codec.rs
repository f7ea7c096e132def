//! The codec: symmetric encryption plus text encoding of opaque byte
//! payloads.
//!
//! `seal` applies AES-256-CBC with PKCS padding under a fixed, compiled-in
//! key and initialization vector, then maps the binary blob to base64 text.
//! `open_sealed` reverses both steps.  The fixed key/IV pair makes sealing
//! deterministic; that is a documented design trade-off of the format (the
//! gatekeeper passphrase gates operations, the codec key only protects the
//! file format), not a property to change here.

use vstd::prelude::*;
use vstd::utf8::{decode_utf8, encode_utf8, encode_utf8_decode_utf8, encode_utf8_valid_utf8,
    valid_utf8};

use crate::errs::{ErrKind, MyErr};

use crypto::buffer::{BufferResult, ReadBuffer, WriteBuffer};

verus! {

/// What AES-256-CBC encryption with PKCS padding produces for the given
/// plaintext under the given key and initialization vector.  The scheme is
/// deterministic: the ciphertext is a function of these arguments alone.
pub uninterp spec fn aes_sealed(data: Seq<u8>, key: Seq<u8>, iv: Seq<u8>) -> Seq<u8>;

/// What raw (unpadded) AES-256-CBC decryption yields for the given bytes
/// under the given key and initialization vector: the decrypted blocks, or
/// nothing when the input is no whole number of cipher blocks.  A function
/// of these arguments alone.
pub uninterp spec fn aes_raw_opened(data: Seq<u8>, key: Seq<u8>, iv: Seq<u8>) -> Option<Seq<u8>>;

/// The text that standard base64 encoding produces for the given bytes.
pub uninterp spec fn b64_text(data: Seq<u8>) -> Seq<char>;

/// What standard base64 decoding yields for the given text: the decoded
/// bytes, or nothing when the text is not valid encoded binary.  A function
/// of the text alone.
pub uninterp spec fn b64_opened(text: Seq<char>) -> Option<Seq<u8>>;

/// How many padding bytes PKCS block padding appends to a payload of `n`
/// bytes: always between 1 and 16, up to the next whole cipher block.
pub open spec fn pkcs_pad_len(n: nat) -> nat {
    (16 - n % 16) as nat
}

/// A payload with its PKCS block padding appended — the byte stream that
/// the cipher actually encrypts.  The empty payload is the one exception:
/// the cipher engine maps it to the empty stream without padding.
pub open spec fn pkcs_padded(p: Seq<u8>) -> Seq<u8> {
    if p.len() == 0 {
        p
    } else {
        p + Seq::new(pkcs_pad_len(p.len()), |i: int| pkcs_pad_len(p.len()) as u8)
    }
}

/// The payload under a decrypted byte stream: the stream must be empty, or
/// end in `v` bytes of value `v` for some `v` between 1 and 16; any other
/// shape does not conform to the expected padding.
pub open spec fn spec_strip_pkcs(d: Seq<u8>) -> Option<Seq<u8>> {
    if d.len() == 0 {
        Some(d)
    } else {
        let v = d.last() as int;
        if 1 <= v <= 16 && v <= d.len() && (forall|i: int|
            d.len() - v <= i < d.len() ==> #[trigger] d[i] == d.last()) {
            Some(d.take(d.len() - v))
        } else {
            None
        }
    }
}

/// What opening sealed text yields, by stage: text that is not valid
/// encoded binary fails with `DecodeError`; decoded bytes that are no whole
/// number of cipher blocks, or whose decryption does not conform to the
/// expected padding, fail with `CryptoError`; otherwise the payload.
pub open spec fn opened_of(text: Seq<char>) -> Result<Seq<u8>, ErrKind> {
    match b64_opened(text) {
        None => Err(ErrKind::DecodeError),
        Some(cipher) => match aes_raw_opened(cipher, spec_vault_key(), spec_vault_iv()) {
            None => Err(ErrKind::CryptoError),
            Some(raw) => match spec_strip_pkcs(raw) {
                None => Err(ErrKind::CryptoError),
                Some(p) => Ok(p),
            },
        },
    }
}

/// What opening sealed text as a string yields: as [`opened_of`], with a
/// payload that is not valid text also failing with `CryptoError`.
pub open spec fn text_opened_of(text: Seq<char>) -> Result<Seq<char>, ErrKind> {
    match opened_of(text) {
        Err(k) => Err(k),
        Ok(p) => if valid_utf8(p) {
            Ok(decode_utf8(p))
        } else {
            Err(ErrKind::CryptoError)
        },
    }
}

/// The fixed 256-bit vault key: the ASCII bytes of
/// `3ZmTfHY5pzgNN9m3+Y04/w==Yike5212`, compiled into every build.
pub open spec fn spec_vault_key() -> Seq<u8> {
    seq![
        51u8, 90u8, 109u8, 84u8, 102u8, 72u8, 89u8, 53u8, 112u8, 122u8, 103u8, 78u8, 78u8, 57u8,
        109u8, 51u8, 43u8, 89u8, 48u8, 52u8, 47u8, 119u8, 61u8, 61u8, 89u8, 105u8, 107u8, 101u8,
        53u8, 50u8, 49u8, 50u8,
    ]
}

/// The fixed 16-byte initialization vector: sixteen bytes of value 3.
pub open spec fn spec_vault_iv() -> Seq<u8> {
    seq![3u8, 3u8, 3u8, 3u8, 3u8, 3u8, 3u8, 3u8, 3u8, 3u8, 3u8, 3u8, 3u8, 3u8, 3u8, 3u8]
}

/// The sealed (encrypted, then base64-encoded) text of a byte payload.
pub open spec fn seal_of(data: Seq<u8>) -> Seq<char> {
    b64_text(aes_sealed(data, spec_vault_key(), spec_vault_iv()))
}

/// Builds the fixed vault key.
fn vault_key() -> (r: Vec<u8>)
    ensures
        r@ == spec_vault_key(),
{
    let mut v: Vec<u8> = Vec::new();
    v.push(51);
    v.push(90);
    v.push(109);
    v.push(84);
    v.push(102);
    v.push(72);
    v.push(89);
    v.push(53);
    v.push(112);
    v.push(122);
    v.push(103);
    v.push(78);
    v.push(78);
    v.push(57);
    v.push(109);
    v.push(51);
    v.push(43);
    v.push(89);
    v.push(48);
    v.push(52);
    v.push(47);
    v.push(119);
    v.push(61);
    v.push(61);
    v.push(89);
    v.push(105);
    v.push(107);
    v.push(101);
    v.push(53);
    v.push(50);
    v.push(49);
    v.push(50);
    proof {
        assert(v@ =~= spec_vault_key());
    }
    v
}

/// Builds the fixed initialization vector.
fn vault_iv() -> (r: Vec<u8>)
    ensures
        r@ == spec_vault_iv(),
{
    let mut v: Vec<u8> = Vec::new();
    let mut i: usize = 0;
    while i < 16
        invariant
            i <= 16,
            v@.len() == i,
            forall|k: int| 0 <= k < i ==> v@[k] == 3u8,
        decreases 16 - i,
    {
        v.push(3);
        i += 1;
    }
    proof {
        assert(v@ =~= spec_vault_iv());
    }
    v
}

/// Relies on crypto::aes::cbc_encryptor with crypto::blockmodes::PkcsPadding:
/// AES-256-CBC encryption never reports an error, and the ciphertext is a
/// function of data, key and IV alone.  The engine maps empty input to
/// empty output; everything else it pads to the next whole block (adding
/// one to sixteen bytes) and encrypts block for block.
#[verifier::external_body]
fn aes256_cbc_encrypt(data: &[u8], key: &[u8], iv: &[u8]) -> (r: Vec<u8>)
    requires
        key@.len() == 32,
        iv@.len() == 16,
    ensures
        r@ == aes_sealed(data@, key@, iv@),
        data@.len() == 0 ==> r@.len() == 0,
        data@.len() > 0 ==> r@.len() == (data@.len() / 16 + 1) * 16,
{
    let mut enc = crypto::aes::cbc_encryptor(crypto::aes::KeySize::KeySize256, key, iv, crypto::blockmodes::PkcsPadding);
    let mut out = Vec::<u8>::new();
    let mut buffer = [0u8; 4096];
    let mut read_buffer = crypto::buffer::RefReadBuffer::new(data);
    let mut write_buffer = crypto::buffer::RefWriteBuffer::new(&mut buffer);
    loop {
        let result = enc.encrypt(&mut read_buffer, &mut write_buffer, true).unwrap();
        out.extend(write_buffer.take_read_buffer().take_remaining().iter().map(|&i| i));
        if let BufferResult::BufferUnderflow = result { break; }
    }
    out
}

/// Relies on crypto::aes::cbc_decryptor with crypto::blockmodes::NoPadding:
/// raw block decryption succeeds exactly on a whole number of cipher
/// blocks, returns as many bytes as it was given, is a function of data,
/// key and IV alone, and inverts the sealing cipher (a genuine ciphertext
/// decrypts to the padded plaintext).  The padding itself is checked and
/// stripped by a verified function, not by the outside crate, whose padding
/// stripper can fail a bounds check on corrupted input.
#[verifier::external_body]
fn aes256_cbc_decrypt(data: &[u8], key: &[u8], iv: &[u8]) -> (r: Option<Vec<u8>>)
    requires
        key@.len() == 32,
        iv@.len() == 16,
    ensures
        r is Some <==> aes_raw_opened(data@, key@, iv@) is Some,
        r is Some ==> r->0@ == aes_raw_opened(data@, key@, iv@)->0,
        r is Some <==> data@.len() % 16 == 0,
        r matches Some(b) ==> b@.len() == data@.len(),
        forall|p: Seq<u8>|
            data@ == #[trigger] aes_sealed(p, key@, iv@) ==> r is Some && r->0@ == pkcs_padded(p),
{
    let mut dec = crypto::aes::cbc_decryptor(crypto::aes::KeySize::KeySize256, key, iv, crypto::blockmodes::NoPadding);
    let mut out = Vec::<u8>::new();
    let mut buffer = [0u8; 4096];
    let mut read_buffer = crypto::buffer::RefReadBuffer::new(data);
    let mut write_buffer = crypto::buffer::RefWriteBuffer::new(&mut buffer);
    loop {
        let result = match dec.decrypt(&mut read_buffer, &mut write_buffer, true) { Ok(res) => res, Err(_) => return None };
        out.extend(write_buffer.take_read_buffer().take_remaining().iter().map(|&i| i));
        if let BufferResult::BufferUnderflow = result { break; }
    }
    Some(out)
}

/// Strips the PKCS block padding from a decrypted byte stream, rejecting
/// every stream that does not conform to the expected padding.
fn strip_pkcs(data: Vec<u8>) -> (r: Option<Vec<u8>>)
    ensures
        match r {
            Some(p) => spec_strip_pkcs(data@) == Some(p@),
            None => spec_strip_pkcs(data@) is None,
        },
{
    let ghost d = data@;
    let n = data.len();
    if n == 0 {
        return Some(data);
    }
    let v = data[n - 1];
    let vu = v as usize;
    if vu == 0 || vu > 16 || vu > n {
        return None;
    }
    let start = n - vu;
    let mut i: usize = start;
    while i < n
        invariant
            n == data@.len(),
            start <= i <= n,
            start == n - vu,
            1 <= vu <= 16,
            vu <= n,
            v == data@[n - 1],
            vu == v as int,
            forall|t: int| start <= t < i ==> #[trigger] data@[t] == data@[n - 1],
        decreases n - i,
    {
        if data[i] != v {
            assert(data@[i as int] != data@.last());
            return None;
        }
        i += 1;
    }
    let mut out = data;
    out.truncate(start);
    proof {
        assert(out@ =~= d.take(start as int));
        assert(spec_strip_pkcs(d) == Some(d.take(start as int)));
    }
    Some(out)
}

/// Stripping inverts padding: for every payload, its padded form strips
/// back to exactly that payload.
pub proof fn lemma_strip_pkcs_padded(p: Seq<u8>)
    ensures
        spec_strip_pkcs(pkcs_padded(p)) == Some(p),
{
    if p.len() > 0 {
        let n = p.len();
        let v = pkcs_pad_len(n as nat);
        let d = pkcs_padded(p);
        assert(d.len() == n + v);
        assert(1 <= v <= 16);
        assert(d.last() == v as u8);
        assert forall|i: int| d.len() - v <= i < d.len() implies #[trigger] d[i] == d.last() by {
            assert(d[i] == v as u8);
        }
        assert(d.take(d.len() - v) =~= p);
    }
}

/// Relies on base64::encode: standard-alphabet base64 text of the bytes, a
/// function of the bytes alone, and valid encoded binary that decodes back
/// to exactly those bytes.
#[verifier::external_body]
fn b64_encode(data: &[u8]) -> (r: String)
    ensures
        r@ == b64_text(data@),
        b64_opened(r@) == Some(data@),
{
    base64::encode(data)
}

/// Relies on base64::decode: decoding is a function of the text alone,
/// accepts what base64::encode produced and then returns the original
/// bytes, and rejects everything that is not valid encoded binary.
#[verifier::external_body]
fn b64_decode(text: &str) -> (r: Option<Vec<u8>>)
    ensures
        r is Some <==> b64_opened(text@) is Some,
        r is Some ==> r->0@ == b64_opened(text@)->0,
        forall|b: Seq<u8>| text@ == b64_text(b) ==> r is Some && r->0@ == b,
{
    match base64::decode(text) {
        Ok(v) => Some(v),
        Err(_) => None,
    }
}

/// Relies on String::from_utf8: succeeds exactly on valid UTF-8 input and
/// then yields the string whose UTF-8 encoding is that input.
#[verifier::external_body]
pub(crate) fn bytes_to_string(data: Vec<u8>) -> (r: Option<String>)
    ensures
        r is Some <==> valid_utf8(data@),
        r is Some ==> r->0@ == decode_utf8(data@),
{
    match String::from_utf8(data) {
        Ok(s) => Some(s),
        Err(_) => None,
    }
}

/// Seals a byte payload: encrypts it under the fixed key/IV pair and encodes
/// the ciphertext as text safe for storage.  The sealed text is valid
/// encoded binary whose decoding is the ciphertext: one whole cipher block
/// per started block of payload, or empty for the empty payload.
pub fn seal(data: &[u8]) -> (r: String)
    ensures
        r@ == seal_of(data@),
        b64_opened(r@) == Some(aes_sealed(data@, spec_vault_key(), spec_vault_iv())),
        data@.len() == 0 ==> aes_sealed(data@, spec_vault_key(), spec_vault_iv()).len() == 0,
        data@.len() > 0 ==> aes_sealed(data@, spec_vault_key(), spec_vault_iv()).len() == (
        data@.len() / 16 + 1) * 16,
{
    let key = vault_key();
    let iv = vault_iv();
    let cipher = aes256_cbc_encrypt(data, key.as_slice(), iv.as_slice());
    b64_encode(cipher.as_slice())
}

/// Opens sealed text back into the byte payload it was made from.
///
/// The outcome is exactly [`opened_of`]: `DecodeError` when the text is not
/// valid encoded binary, `CryptoError` when the decoded bytes are no whole
/// number of cipher blocks or their decryption does not conform to the
/// expected padding, and on every text produced by `seal` exactly the
/// sealed payload.
pub fn open_sealed(text: &str) -> (r: Result<Vec<u8>, MyErr>)
    ensures
        match opened_of(text@) {
            Ok(p) => r is Ok && r->Ok_0@ == p,
            Err(k) => r is Err && r->Err_0.kind == k,
        },
        forall|p: Seq<u8>| text@ == seal_of(p) ==> r is Ok && r->Ok_0@ == p,
{
    let cipher = match b64_decode(text) {
        Some(c) => c,
        None => {
            return Err(MyErr { kind: ErrKind::DecodeError });
        },
    };
    let key = vault_key();
    let iv = vault_iv();
    let raw = match aes256_cbc_decrypt(cipher.as_slice(), key.as_slice(), iv.as_slice()) {
        Some(rw) => rw,
        None => {
            proof {
                assert forall|p: Seq<u8>| text@ != #[trigger] seal_of(p) by {
                    if text@ == seal_of(p) {
                        assert(cipher@ == aes_sealed(p, spec_vault_key(), spec_vault_iv()));
                        assert(false);
                    }
                }
            }
            return Err(MyErr { kind: ErrKind::CryptoError });
        },
    };
    proof {
        assert forall|p: Seq<u8>| text@ == seal_of(p) implies spec_strip_pkcs(raw@) == Some(p) by {
            assert(b64_opened(text@) == Some(aes_sealed(p, spec_vault_key(), spec_vault_iv())));
            assert(cipher@ == aes_sealed(p, spec_vault_key(), spec_vault_iv()));
            assert(raw@ == pkcs_padded(p));
            lemma_strip_pkcs_padded(p);
        }
    }
    match strip_pkcs(raw) {
        Some(p) => Ok(p),
        None => Err(MyErr { kind: ErrKind::CryptoError }),
    }
}

/// Seals or opens a text payload, depending on `crypt`: with `crypt` true
/// the UTF-8 bytes of `content` are sealed into valid encoded binary of one
/// whole cipher block per started block of payload; with `crypt` false the
/// sealed text `content` is opened and read back as a string, failing
/// exactly as [`text_opened_of`] classifies.
pub fn my_crypto(content: &str, crypt: bool) -> (r: Result<String, MyErr>)
    ensures
        crypt ==> {
            &&& r is Ok
            &&& r->Ok_0@ == seal_of(encode_utf8(content@))
            &&& b64_opened(r->Ok_0@) == Some(
                aes_sealed(encode_utf8(content@), spec_vault_key(), spec_vault_iv()),
            )
            &&& encode_utf8(content@).len() == 0 ==> aes_sealed(
                encode_utf8(content@),
                spec_vault_key(),
                spec_vault_iv(),
            ).len() == 0
            &&& encode_utf8(content@).len() > 0 ==> aes_sealed(
                encode_utf8(content@),
                spec_vault_key(),
                spec_vault_iv(),
            ).len() == (encode_utf8(content@).len() / 16 + 1) * 16
        },
        !crypt ==> match text_opened_of(content@) {
            Ok(t) => r is Ok && r->Ok_0@ == t,
            Err(k) => r is Err && r->Err_0.kind == k,
        },
        !crypt ==> forall|p: Seq<char>|
            content@ == seal_of(encode_utf8(p)) ==> r is Ok && r->Ok_0@ == p,
{
    if crypt {
        Ok(seal(content.as_bytes()))
    } else {
        let plain = match open_sealed(content) {
            Ok(b) => b,
            Err(e) => {
                return Err(e);
            },
        };
        proof {
            broadcast use encode_utf8_valid_utf8, encode_utf8_decode_utf8;

        }
        match bytes_to_string(plain) {
            Some(s) => Ok(s),
            None => Err(MyErr { kind: ErrKind::CryptoError }),
        }
    }
}

/// Sealing is deterministic: the sealed text is a function of the payload
/// alone, so sealing the same plaintext twice yields identical text.  This
/// is a documented limitation of the format (no per-call randomness), stated
/// here as a property.
pub proof fn lemma_seal_deterministic(p1: Seq<u8>, p2: Seq<u8>)
    requires
        p1 == p2,
    ensures
        seal_of(p1) == seal_of(p2),
{
}

} // verus!
