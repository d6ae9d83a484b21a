//! The save-file envelope: a fixed header, a varint length, the base64 text of
//! an AES-256-ECB ciphertext with PKCS#7 padding, and a terminator byte.
use vstd::prelude::*;
use crate::varint::{varint_bytes, varint_parse, lemma_varint_round_trip, read_varint, write_varint};
use aes::Aes256;
use aes::cipher::{BlockDecryptMut, BlockEncryptMut, KeyInit};
use aes::cipher::block_padding::Pkcs7;
use aes::cipher::generic_array::GenericArray;
use base64::Engine;

verus! {

/// Why an envelope could not be decoded.
#[derive(Debug, Clone, Copy, PartialEq, Eq, Structural)]
pub enum CodecError {
    /// The buffer is shorter than the header and the terminator.
    MalformedEnvelope,
    /// The varint is cut short, or the length it gives runs past the buffer.
    MalformedLength,
    /// The payload is not canonical base64 text.
    InvalidEncoding,
    /// The ciphertext is not whole blocks, or its padding is invalid.
    DecryptionError,
}

/// Length of the fixed header.
pub const HEADER_LEN: usize = 22;

/// The byte that ends every envelope.
pub const TERMINATOR: u8 = 0x0B;

/// The fixed header that starts every envelope.
pub open spec fn header_bytes() -> Seq<u8> {
    seq![
        0x00u8, 0x01, 0x00, 0x00, 0x00, 0xff, 0xff, 0xff, 0xff, 0x01, 0x00, 0x00, 0x00, 0x00,
        0x00, 0x00, 0x00, 0x06, 0x01, 0x00, 0x00, 0x00,
    ]
}

/// The 256-bit key of the cipher.
pub open spec fn key_bytes() -> Seq<u8> {
    seq![
        0x55u8, 0x4b, 0x75, 0x35, 0x32, 0x65, 0x50, 0x55, 0x42, 0x77, 0x65, 0x74, 0x5a, 0x39,
        0x77, 0x4e, 0x58, 0x38, 0x38, 0x6f, 0x35, 0x34, 0x64, 0x6e, 0x66, 0x4b, 0x52, 0x75,
        0x30, 0x54, 0x31, 0x6c,
    ]
}

/// The standard base64 text, with padding, of `data`.
pub uninterp spec fn base64_text(data: Seq<u8>) -> Seq<u8>;

/// The AES-256-ECB ciphertext under `key` of `plain` padded by PKCS#7.
pub uninterp spec fn ecb_ciphertext(key: Seq<u8>, plain: Seq<u8>) -> Seq<u8>;

/// Relies on base64's `STANDARD.encode`.
#[verifier::external_body]
fn base64_encode(data: &[u8]) -> (r: Vec<u8>)
    ensures
        r@ == base64_text(data@),
{
    base64::engine::general_purpose::STANDARD.encode(data).into_bytes()
}

/// Relies on base64's `STANDARD.decode`. That engine requires canonical
/// padding and rejects stray trailing bits, so it accepts exactly the texts
/// that `STANDARD.encode` produces and gives back the encoded bytes.
#[verifier::external_body]
fn base64_decode(text: &[u8]) -> (r: Option<Vec<u8>>)
    ensures
        r is Some ==> base64_text(r->0@) == text@,
        forall|data: Seq<u8>| #[trigger] base64_text(data) == text@ ==> (r is Some && r->0@ == data),
{
    base64::engine::general_purpose::STANDARD.decode(text).ok()
}

/// Relies on ecb's `Encryptor::<Aes256>::encrypt_padded_vec_mut::<Pkcs7>`.
#[verifier::external_body]
fn ecb_encrypt(key: &[u8], plain: &[u8]) -> (r: Vec<u8>)
    requires
        key@.len() == 32,
    ensures
        r@ == ecb_ciphertext(key@, plain@),
{
    ecb::Encryptor::<Aes256>::new(GenericArray::from_slice(key)).encrypt_padded_vec_mut::<Pkcs7>(plain)
}

/// Relies on ecb's `Decryptor::<Aes256>::decrypt_padded_vec_mut::<Pkcs7>`.
/// It fails unless the input is whole blocks whose strict PKCS#7 padding is
/// valid, so what it returns encrypts back to its input, and the encryption
/// of any plaintext decrypts back to that plaintext.
#[verifier::external_body]
fn ecb_decrypt(key: &[u8], cipher: &[u8]) -> (r: Option<Vec<u8>>)
    requires
        key@.len() == 32,
    ensures
        r is Some ==> ecb_ciphertext(key@, r->0@) == cipher@,
        forall|plain: Seq<u8>| #[trigger] ecb_ciphertext(key@, plain) == cipher@ ==> (r is Some
            && r->0@ == plain),
{
    ecb::Decryptor::<Aes256>::new(GenericArray::from_slice(key)).decrypt_padded_vec_mut::<Pkcs7>(
        cipher,
    ).ok()
}

fn from_array(a: &[u8]) -> (r: Vec<u8>)
    ensures
        r@ == a@,
{
    let mut v: Vec<u8> = Vec::new();
    let mut i: usize = 0;
    while i < a.len()
        invariant
            i <= a@.len(),
            v@ == a@.subrange(0, i as int),
        decreases a@.len() - i,
    {
        assert(a@.subrange(0, i + 1) =~= a@.subrange(0, i as int).push(a@[i as int]));
        v.push(a[i]);
        i = i + 1;
    }
    assert(a@.subrange(0, i as int) =~= a@);
    v
}

fn header() -> (r: Vec<u8>)
    ensures
        r@ == header_bytes(),
{
    let h: [u8; 22] = [
        0x00, 0x01, 0x00, 0x00, 0x00, 0xff, 0xff, 0xff, 0xff, 0x01, 0x00, 0x00, 0x00, 0x00, 0x00,
        0x00, 0x00, 0x06, 0x01, 0x00, 0x00, 0x00,
    ];
    let r = from_array(&h);
    assert(r@ =~= header_bytes());
    r
}

fn cipher_key() -> (r: Vec<u8>)
    ensures
        r@ == key_bytes(),
{
    let k: [u8; 32] = [
        0x55, 0x4b, 0x75, 0x35, 0x32, 0x65, 0x50, 0x55, 0x42, 0x77, 0x65, 0x74, 0x5a, 0x39, 0x77,
        0x4e, 0x58, 0x38, 0x38, 0x6f, 0x35, 0x34, 0x64, 0x6e, 0x66, 0x4b, 0x52, 0x75, 0x30, 0x54,
        0x31, 0x6c,
    ];
    let r = from_array(&k);
    assert(r@ =~= key_bytes());
    r
}

/// The base64 segment that encodes `text`.
pub open spec fn payload_text(text: Seq<u8>) -> Seq<u8> {
    base64_text(ecb_ciphertext(key_bytes(), text))
}

/// The envelope that holds the document `text`.
pub open spec fn envelope_of(text: Seq<u8>) -> Seq<u8> {
    let b = payload_text(text);
    header_bytes() + varint_bytes(b.len()) + b + seq![TERMINATOR]
}

/// The base64 segment that the layout of `raw` delimits, or why there is none.
pub open spec fn segment_of(raw: Seq<u8>) -> Result<Seq<u8>, CodecError> {
    if raw.len() < HEADER_LEN + 1 {
        Err(CodecError::MalformedEnvelope)
    } else {
        let body = raw.subrange(HEADER_LEN as int, raw.len() - 1);
        match varint_parse(body) {
            None => Err(CodecError::MalformedLength),
            Some((v, k)) => if v + k > body.len() {
                Err(CodecError::MalformedLength)
            } else {
                Ok(body.subrange(k as int, (k + v) as int))
            },
        }
    }
}

/// Every envelope starts with the header and ends with the terminator, and
/// its varint gives the length of the base64 segment between them.
pub proof fn lemma_envelope_shape(text: Seq<u8>)
    ensures
        ({
            let e = envelope_of(text);
            let b = payload_text(text);
            let k = varint_bytes(b.len()).len();
            &&& e.subrange(0, HEADER_LEN as int) == header_bytes()
            &&& e.last() == TERMINATOR
            &&& varint_parse(e.subrange(HEADER_LEN as int, e.len() - 1)) == Some((b.len(), k))
            &&& e.subrange(HEADER_LEN + k, e.len() - 1) == b
            &&& segment_of(e) == Ok::<Seq<u8>, CodecError>(b)
        }),
{
    let e = envelope_of(text);
    let b = payload_text(text);
    let vb = varint_bytes(b.len());
    let body = e.subrange(HEADER_LEN as int, e.len() - 1);
    assert(e.subrange(0, HEADER_LEN as int) =~= header_bytes());
    assert(body =~= vb + b);
    lemma_varint_round_trip(b.len(), b);
    assert(e.subrange(HEADER_LEN + vb.len(), e.len() - 1) =~= b);
    assert(body.subrange(vb.len() as int, (vb.len() + b.len()) as int) =~= b);
}

/// Wraps the document `text` in an envelope.
pub fn encode(text: &[u8]) -> (r: Vec<u8>)
    ensures
        r@ == envelope_of(text@),
{
    let key = cipher_key();
    let cipher = ecb_encrypt(key.as_slice(), text);
    let mut b = base64_encode(cipher.as_slice());
    let mut out = header();
    let mut len = write_varint(b.len());
    out.append(&mut len);
    out.append(&mut b);
    out.push(TERMINATOR);
    assert(out@ =~= envelope_of(text@));
    out
}

fn copy_range(buf: &[u8], from: usize, to: usize) -> (r: Vec<u8>)
    requires
        from <= to <= buf@.len(),
    ensures
        r@ == buf@.subrange(from as int, to as int),
{
    let mut v: Vec<u8> = Vec::new();
    let mut i: usize = from;
    while i < to
        invariant
            from <= i <= to <= buf@.len(),
            v@ == buf@.subrange(from as int, i as int),
        decreases to - i,
    {
        assert(buf@.subrange(from as int, i + 1) =~= buf@.subrange(from as int, i as int).push(
            buf@[i as int],
        ));
        v.push(buf[i]);
        i = i + 1;
    }
    v
}

/// Takes the document out of an envelope.
///
/// The header's bytes and the terminator's value are not checked: the layout
/// alone delimits the segment. A failure here means the file is not in this
/// format at all; callers treat it as fatal.
pub fn decode(raw: &[u8]) -> (r: Result<Vec<u8>, CodecError>)
    ensures
        segment_of(raw@) is Err ==> r == Err::<Vec<u8>, CodecError>(segment_of(raw@)->Err_0),
        segment_of(raw@) is Ok ==> {
            let seg = segment_of(raw@)->Ok_0;
            &&& r is Ok <==> exists|p: Seq<u8>| #[trigger] payload_text(p) == seg
            &&& r is Ok ==> payload_text(r->Ok_0@) == seg
            &&& r == Err::<Vec<u8>, CodecError>(CodecError::InvalidEncoding) <==> !exists|
                c: Seq<u8>,
            | #[trigger] base64_text(c) == seg
            &&& r == Err::<Vec<u8>, CodecError>(CodecError::DecryptionError) <==> (exists|
                c: Seq<u8>,
            | #[trigger] base64_text(c) == seg) && !exists|p: Seq<u8>| #[trigger] payload_text(p)
                == seg
        },
        forall|text: Seq<u8>| #[trigger] envelope_of(text) == raw@ ==> (r is Ok && r->Ok_0@ == text),
{
    proof {
        assert forall|text: Seq<u8>| #[trigger] envelope_of(text) == raw@ implies segment_of(raw@)
            == Ok::<Seq<u8>, CodecError>(payload_text(text)) by {
            lemma_envelope_shape(text);
        }
    }
    if raw.len() < HEADER_LEN + 1 {
        return Err(CodecError::MalformedEnvelope);
    }
    let end = raw.len() - 1;
    let (v, k) = match read_varint(raw, HEADER_LEN, end) {
        None => {
            return Err(CodecError::MalformedLength);
        },
        Some(p) => p,
    };
    let seg = copy_range(raw, HEADER_LEN + k, HEADER_LEN + k + v);
    proof {
        let body = raw@.subrange(HEADER_LEN as int, raw@.len() - 1);
        assert(seg@ =~= body.subrange(k as int, (k + v) as int));
    }
    let cipher = match base64_decode(seg.as_slice()) {
        None => {
            proof {
                assert forall|p: Seq<u8>| #[trigger] payload_text(p) != seg@ by {
                    if payload_text(p) == seg@ {
                        assert(base64_text(ecb_ciphertext(key_bytes(), p)) == seg@);
                    }
                }
            }
            return Err(CodecError::InvalidEncoding);
        },
        Some(c) => c,
    };
    assert(base64_text(cipher@) == seg@);
    let key = cipher_key();
    match ecb_decrypt(key.as_slice(), cipher.as_slice()) {
        None => {
            proof {
                assert forall|p: Seq<u8>| #[trigger] payload_text(p) != seg@ by {
                    if payload_text(p) == seg@ {
                        assert(base64_text(ecb_ciphertext(key_bytes(), p)) == seg@);
                    }
                }
            }
            Err(CodecError::DecryptionError)
        },
        Some(p) => {
            assert(payload_text(p@) == seg@);
            Ok(p)
        },
    }
}

} // verus!
