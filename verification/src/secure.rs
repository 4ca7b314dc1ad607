//! Secure key manager: a process-wide master key cached in a tri-state cell
//! (uninitialized / ready / error), fetched from a platform credential store,
//! and authenticated-encryption primitives keyed by a usage context.
//!
//! Ciphertext string format: `enc:v1:` + base64(12-byte nonce || ciphertext
//! with 16-byte tag). Each usage context binds its own associated data, so a
//! ciphertext for one context never authenticates under another.

use vstd::prelude::*;
use vstd::string::*;
use vstd::utf8::encode_utf8;
use base64::Engine;
use chacha20poly1305::aead::{Aead, KeyInit};
use chacha20poly1305::{ChaCha20Poly1305, Key, Nonce};
use rand_core::RngCore;
use crate::textutil::{
    chars_to_string, spec_trim, spec_trim_start, str_chars, trim_chars, trim_start_chars,
};

verus! {

/// Errors of the secure key manager, one variant per failure kind.
#[derive(Debug)]
pub enum SecureError {
    /// The credential store could not produce a usable key; carries the
    /// store's message.
    KeyUnavailable(String),
    /// The cipher rejected the encryption request.
    EncryptFailed,
    /// Authentication of a ciphertext failed; the value is inaccessible.
    DecryptAuth,
    /// The ciphertext authenticated but its plaintext is not valid UTF-8.
    DecryptUtf8,
}

/// The usage context that keys associated data: the persisted state file or
/// a session recording.
#[derive(Clone, Copy, PartialEq, Eq, Structural)]
pub enum SecretContext {
    State,
    Recording,
}

/// The textual marker that starts every ciphertext string.
pub open spec fn enc_prefix() -> Seq<char> {
    seq!['e', 'n', 'c', ':', 'v', '1', ':']
}

/// The marker as an owned string.
pub fn enc_prefix_str() -> (s: String)
    ensures
        s@ == enc_prefix(),
{
    let s = "enc:v1:";
    proof {
        reveal_strlit("enc:v1:");
        assert(s@ =~= enc_prefix());
    }
    s.to_owned()
}

/// True when `s` begins with `p`.
pub open spec fn spec_starts_with(s: Seq<char>, p: Seq<char>) -> bool {
    s.len() >= p.len() && s.take(p.len() as int) == p
}

/// The associated-data bytes for a context: `agents-ui/state/v1` or
/// `agents-ui/recording/v1`.
pub open spec fn aad_spec(ctx: SecretContext) -> Seq<u8> {
    match ctx {
        SecretContext::State => seq![
            0x61u8, 0x67, 0x65, 0x6e, 0x74, 0x73, 0x2d, 0x75, 0x69, 0x2f, 0x73, 0x74, 0x61, 0x74,
            0x65, 0x2f, 0x76, 0x31,
        ],
        SecretContext::Recording => seq![
            0x61u8, 0x67, 0x65, 0x6e, 0x74, 0x73, 0x2d, 0x75, 0x69, 0x2f, 0x72, 0x65, 0x63, 0x6f,
            0x72, 0x64, 0x69, 0x6e, 0x67, 0x2f, 0x76, 0x31,
        ],
    }
}

/// The two contexts never share associated data, so ciphertexts cannot be
/// replayed across contexts that check it.
pub proof fn lemma_aad_distinct()
    ensures
        aad_spec(SecretContext::State) != aad_spec(SecretContext::Recording),
{
    assert(aad_spec(SecretContext::State).len() == 18);
    assert(aad_spec(SecretContext::Recording).len() == 22);
}

impl SecretContext {
    /// The associated-data bytes of this context.
    pub fn aad(&self) -> (r: Vec<u8>)
        ensures
            r@ == aad_spec(*self),
    {
        let mut v: Vec<u8> = Vec::new();
        v.push(0x61);
        v.push(0x67);
        v.push(0x65);
        v.push(0x6e);
        v.push(0x74);
        v.push(0x73);
        v.push(0x2d);
        v.push(0x75);
        v.push(0x69);
        v.push(0x2f);
        match self {
            SecretContext::State => {
                v.push(0x73);
                v.push(0x74);
                v.push(0x61);
                v.push(0x74);
                v.push(0x65);
            },
            SecretContext::Recording => {
                v.push(0x72);
                v.push(0x65);
                v.push(0x63);
                v.push(0x6f);
                v.push(0x72);
                v.push(0x64);
                v.push(0x69);
                v.push(0x6e);
                v.push(0x67);
            },
        }
        v.push(0x2f);
        v.push(0x76);
        v.push(0x31);
        proof {
            assert(v@ =~= aad_spec(*self));
        }
        v
    }
}

/// The standard base64 (padded) encoding of a byte sequence.
pub uninterp spec fn b64_of(b: Seq<u8>) -> Seq<char>;

/// Relies on base64's STANDARD engine `encode`: the canonical padded base64
/// rendering of the input bytes, a pure function of them.
#[verifier::external_body]
fn b64_encode(b: &Vec<u8>) -> (r: String)
    ensures
        r@ == b64_of(b@),
{
    base64::engine::general_purpose::STANDARD.encode(b)
}

/// Relies on base64's STANDARD engine `decode`: it accepts exactly the
/// canonical padded encodings (canonical padding required, trailing bits
/// rejected), and inverts `encode` on them.
#[verifier::external_body]
fn b64_decode(s: &str) -> (r: Result<Vec<u8>, ()>)
    ensures
        r is Ok ==> s@ == b64_of(r->Ok_0@),
        forall|b: Seq<u8>| s@ == b64_of(b) ==> r is Ok && r->Ok_0@ == b,
{
    base64::engine::general_purpose::STANDARD.decode(s).map_err(|_| ())
}

/// The ChaCha20-Poly1305 sealing of `msg` under `key`, `nonce` and
/// associated data `aad`: ciphertext with the 16-byte tag appended. A pure
/// function of its arguments.
pub uninterp spec fn seal_of(key: Seq<u8>, nonce: Seq<u8>, aad: Seq<u8>, msg: Seq<u8>) -> Seq<u8>;

/// The longest message one sealing accepts: the cipher's 32-bit block
/// counter admits 2^32 - 1 blocks of 64 bytes.
pub open spec fn seal_msg_max() -> int {
    0x3fffffffc0
}

/// Relies on chacha20poly1305's `encrypt`: deterministic in key, nonce,
/// associated data and message; the result appends the 16-byte Poly1305 tag
/// to the equal-length ciphertext. It succeeds exactly on messages below
/// the block-counter limit.
#[verifier::external_body]
fn aead_seal(key: &Vec<u8>, nonce: &Vec<u8>, aad: &Vec<u8>, msg: &[u8]) -> (r: Result<Vec<u8>, ()>)
    requires
        key@.len() == 32,
        nonce@.len() == 12,
    ensures
        (r is Ok) == (msg@.len() < seal_msg_max()),
        r is Ok ==> r->Ok_0@ == seal_of(key@, nonce@, aad@, msg@) && r->Ok_0@.len() == msg@.len()
            + 16,
{
    let cipher = ChaCha20Poly1305::new(Key::from_slice(key.as_slice()));
    cipher
        .encrypt(
            Nonce::from_slice(nonce.as_slice()),
            chacha20poly1305::aead::Payload { msg, aad: aad.as_slice() },
        )
        .map_err(|_| ())
}

/// Relies on chacha20poly1305's `decrypt`: it succeeds exactly on authentic
/// sealings of messages below the block-counter limit, under the same key,
/// nonce and associated data, and then returns the sealed message, 16 tag
/// bytes shorter than the ciphertext.
#[verifier::external_body]
fn aead_open(key: &Vec<u8>, nonce: &Vec<u8>, aad: &Vec<u8>, ct: &[u8]) -> (r: Result<Vec<u8>, ()>)
    requires
        key@.len() == 32,
        nonce@.len() == 12,
    ensures
        r is Ok ==> ct@ == seal_of(key@, nonce@, aad@, r->Ok_0@) && ct@.len() == r->Ok_0@.len()
            + 16 && r->Ok_0@.len() < seal_msg_max(),
        forall|m: Seq<u8>|
            m.len() < seal_msg_max() && ct@ == seal_of(key@, nonce@, aad@, m) ==> r is Ok
                && r->Ok_0@ == m,
{
    let cipher = ChaCha20Poly1305::new(Key::from_slice(key.as_slice()));
    cipher
        .decrypt(
            Nonce::from_slice(nonce.as_slice()),
            chacha20poly1305::aead::Payload { msg: ct, aad: aad.as_slice() },
        )
        .map_err(|_| ())
}

/// Relies on rand_core's `OsRng::fill_bytes`: fills the buffer from the
/// operating system. Nothing is promised of the values.
#[verifier::external_body]
fn os_random_bytes(n: usize) -> (r: Vec<u8>)
    ensures
        r@.len() == n,
{
    let mut v = vec![0u8; n];
    rand_core::OsRng.fill_bytes(&mut v);
    v
}

/// Relies on `String::from_utf8`: succeeds exactly on valid UTF-8 and then
/// returns the string those bytes encode.
#[verifier::external_body]
fn bytes_to_string(v: Vec<u8>) -> (r: Result<String, ()>)
    ensures
        r is Ok ==> encode_utf8(r->Ok_0@) == v@,
        (exists|cs: Seq<char>| v@ == encode_utf8(cs)) ==> r is Ok,
{
    String::from_utf8(v).map_err(|_| ())
}

/// True when, after leading whitespace, the value starts with the
/// ciphertext marker.
pub fn is_encrypted_value(value: &str) -> (b: bool)
    ensures
        b == spec_starts_with(spec_trim_start(value@), enc_prefix()),
{
    let chars = str_chars(value);
    let t = trim_start_chars(&chars);
    let b = t.len() >= 7 && t[0] == 'e' && t[1] == 'n' && t[2] == 'c' && t[3] == ':' && t[4]
        == 'v' && t[5] == '1' && t[6] == ':';
    proof {
        if b {
            assert(t@.take(7) =~= enc_prefix());
        } else if t@.len() >= 7 && t@.take(7) == enc_prefix() {
            assert(t@[0] == 'e' && t@[1] == 'n' && t@[2] == 'c' && t@[3] == ':' && t@[4] == 'v'
                && t@[5] == '1' && t@[6] == ':');
        }
    }
    b
}

/// What `is_probably_encrypted_value` decides: the marker is present and the
/// remainder is canonical base64 of at least nonce + tag (12 + 16) bytes.
pub open spec fn spec_probably_encrypted(value: Seq<char>) -> bool {
    &&& spec_starts_with(spec_trim_start(value), enc_prefix())
    &&& exists|d: Seq<u8>|
        spec_trim_start(value).skip(7) == b64_of(d) && d.len() >= 28
}

/// True only if the value has the ciphertext marker and carries a
/// plausibly-sized base64 blob (nonce plus tag at minimum), so plain text
/// that merely starts with the marker does not trigger credential-store
/// reads.
pub fn is_probably_encrypted_value(value: &str) -> (b: bool)
    ensures
        b == spec_probably_encrypted(value@),
{
    let chars = str_chars(value);
    let t = trim_start_chars(&chars);
    if !(t.len() >= 7 && t[0] == 'e' && t[1] == 'n' && t[2] == 'c' && t[3] == ':' && t[4] == 'v'
        && t[5] == '1' && t[6] == ':') {
        proof {
            if t@.len() >= 7 && t@.take(7) == enc_prefix() {
                assert(t@[0] == 'e' && t@[1] == 'n' && t@[2] == 'c' && t@[3] == ':' && t@[4] == 'v'
                    && t@[5] == '1' && t@[6] == ':');
            }
        }
        return false;
    }
    proof {
        assert(t@.take(7) =~= enc_prefix());
    }
    let mut tail: Vec<char> = Vec::new();
    let mut i: usize = 7;
    while i < t.len()
        invariant
            7 <= i <= t@.len(),
            t@.len() >= 7,
            tail@ == t@.subrange(7, i as int),
        decreases t@.len() - i,
    {
        tail.push(t[i]);
        assert(tail@ == t@.subrange(7, i + 1));
        i = i + 1;
    }
    proof {
        assert(tail@ =~= t@.skip(7));
    }
    let encoded = chars_to_string(&tail);
    match b64_decode(encoded.as_str()) {
        Ok(decoded) => {
            let b = decoded.len() >= 28;
            proof {
                if b {
                    assert(spec_trim_start(value@).skip(7) == b64_of(decoded@) && decoded@.len()
                        >= 28);
                } else {
                    // Any witness would decode to the same bytes, which are
                    // too short.
                    assert forall|d: Seq<u8>|
                        spec_trim_start(value@).skip(7) == b64_of(d) implies !(d.len() >= 28) by {
                        assert(d == decoded@);
                    }
                }
            }
            b
        },
        Err(_) => {
            proof {
                assert forall|d: Seq<u8>|
                    spec_trim_start(value@).skip(7) == b64_of(d) implies false by {}
            }
            false
        },
    }
}

/// True when `s` is the ciphertext string for message `msg` under `key` and
/// associated data `aad`, sealed with some 12-byte nonce.
pub open spec fn enc_output(s: Seq<char>, key: Seq<u8>, aad: Seq<u8>, msg: Seq<char>) -> bool {
    exists|n: Seq<u8>|
        n.len() == 12 && s == enc_prefix() + b64_of(n + seal_of(key, n, aad, encode_utf8(msg)))
            && seal_of(key, n, aad, encode_utf8(msg)).len() == encode_utf8(msg).len() + 16
            && encode_utf8(msg).len() < seal_msg_max()
}

/// A string carrying an authentic ciphertext always passes the
/// plausibility heuristic: its blob holds at least a nonce and a tag.
pub proof fn lemma_enc_output_probably(value: Seq<char>, key: Seq<u8>, aad: Seq<u8>, m: Seq<char>)
    requires
        enc_output(spec_trim_start(value), key, aad, m),
    ensures
        spec_probably_encrypted(value),
{
    let t = spec_trim_start(value);
    let n = choose|n: Seq<u8>|
        n.len() == 12 && t == enc_prefix() + b64_of(n + seal_of(key, n, aad, encode_utf8(m)))
            && seal_of(key, n, aad, encode_utf8(m)).len() == encode_utf8(m).len() + 16
            && encode_utf8(m).len() < seal_msg_max();
    let blob = n + seal_of(key, n, aad, encode_utf8(m));
    assert(t.take(7) =~= enc_prefix());
    assert(t.skip(7) =~= b64_of(blob));
    assert(blob.len() >= 28);
}

/// Encrypts a string under the context's associated data: a fresh random
/// 12-byte nonce is prepended to the sealed bytes and the whole blob is
/// base64-encoded behind the `enc:v1:` marker.
pub fn encrypt_string_with_key(key: &Vec<u8>, context: SecretContext, plaintext: &str) -> (r:
    Result<String, SecureError>)
    requires
        key@.len() == 32,
    ensures
        (r is Ok) == (encode_utf8(plaintext@).len() < seal_msg_max()),
        r matches Ok(c) ==> enc_output(c@, key@, aad_spec(context), plaintext@)
            && spec_trim_start(c@) == c@ && spec_probably_encrypted(c@),
        r is Err ==> r->Err_0 is EncryptFailed,
{
    let nonce = os_random_bytes(12);
    let aad = context.aad();
    let sealed = match aead_seal(key, &nonce, &aad, plaintext.as_bytes()) {
        Ok(ct) => ct,
        Err(_) => {
            return Err(SecureError::EncryptFailed);
        },
    };
    let ghost sealed_len = sealed@.len() as int;
    let mut blob = nonce;
    let ghost nonce_seq = blob@;
    let mut sealed_moved = sealed;
    blob.append(&mut sealed_moved);
    let encoded = b64_encode(&blob);
    let mut out = enc_prefix_str();
    out.append(encoded.as_str());
    proof {
        assert(blob@ == nonce_seq + seal_of(key@, nonce_seq, aad_spec(context), encode_utf8(
            plaintext@,
        )));
        assert(out@ == enc_prefix() + b64_of(
            nonce_seq + seal_of(key@, nonce_seq, aad_spec(context), encode_utf8(plaintext@)),
        ));
        assert(enc_output(out@, key@, aad_spec(context), plaintext@));
        // The result is recognized as ciphertext: it starts with the
        // marker and its base64 holds at least nonce plus tag.
        assert(out@[0] == 'e');
        assert(!crate::textutil::is_space_char('e'));
        assert(spec_trim_start(out@) =~= out@);
        assert(out@.take(7) =~= enc_prefix());
        assert(out@.skip(7) =~= b64_of(blob@));
        assert(blob@.len() >= 28);
        assert(spec_probably_encrypted(out@));
    }
    Ok(out)
}

/// Decrypts a ciphertext string produced by [`encrypt_string_with_key`]
/// under the same key and context. Values that do not carry a decodable
/// ciphertext marker pass through unchanged; authentication failure is a
/// hard error and never returns partial data.
pub fn decrypt_string_with_key(key: &Vec<u8>, context: SecretContext, value: &str) -> (r: Result<
    String,
    SecureError,
>)
    requires
        key@.len() == 32,
    ensures
        forall|m: Seq<char>|
            enc_output(spec_trim_start(value@), key@, aad_spec(context), m) ==> r is Ok
                && r->Ok_0@ == m,
        !spec_starts_with(spec_trim_start(value@), enc_prefix()) ==> r is Ok && r->Ok_0@ == value@,
        r is Ok ==> r->Ok_0@ == value@ || enc_output(
            spec_trim_start(value@),
            key@,
            aad_spec(context),
            r->Ok_0@,
        ),
        r is Err ==> r->Err_0 is DecryptAuth || r->Err_0 is DecryptUtf8,
        // A marked value whose remainder is not canonical base64 passes
        // through unchanged, as does one whose blob is shorter than a
        // nonce: neither reaches the cipher.
        spec_starts_with(spec_trim_start(value@), enc_prefix()) && (forall|b: Seq<u8>|
            spec_trim_start(value@).skip(7) != b64_of(b)) ==> r is Ok && r->Ok_0@ == value@,
        (exists|b: Seq<u8>| spec_trim_start(value@).skip(7) == b64_of(b) && b.len() < 12) ==> r
            is Ok && r->Ok_0@ == value@,
{
    let chars = str_chars(value);
    let t = trim_start_chars(&chars);
    let prefixed = t.len() >= 7 && t[0] == 'e' && t[1] == 'n' && t[2] == 'c' && t[3] == ':'
        && t[4] == 'v' && t[5] == '1' && t[6] == ':';
    proof {
        if prefixed {
            assert(t@.take(7) =~= enc_prefix());
        } else if t@.len() >= 7 && t@.take(7) == enc_prefix() {
            assert(t@[0] == 'e' && t@[1] == 'n' && t@[2] == 'c' && t@[3] == ':' && t@[4] == 'v'
                && t@[5] == '1' && t@[6] == ':');
        }
        if !prefixed {
            assert forall|m: Seq<char>|
                enc_output(t@, key@, aad_spec(context), m) implies false by {
                let n = choose|n: Seq<u8>|
                    n.len() == 12 && t@ == enc_prefix() + b64_of(
                        n + seal_of(key@, n, aad_spec(context), encode_utf8(m)),
                    );
                assert(t@.take(7) =~= enc_prefix());
            }
        }
    }
    if !prefixed {
        return Ok(value.to_owned());
    }
    let mut tail: Vec<char> = Vec::new();
    let mut i: usize = 7;
    while i < t.len()
        invariant
            7 <= i <= t@.len(),
            t@.len() >= 7,
            tail@ == t@.subrange(7, i as int),
        decreases t@.len() - i,
    {
        tail.push(t[i]);
        assert(tail@ == t@.subrange(7, i + 1));
        i = i + 1;
    }
    proof {
        assert(tail@ =~= t@.skip(7));
        assert(t@ =~= enc_prefix() + t@.skip(7));
        // A well-formed ciphertext pins the blob behind the marker.
        assert forall|n: Seq<u8>, m: Seq<char>|
            n.len() == 12 && t@ == enc_prefix() + b64_of(
                n + seal_of(key@, n, aad_spec(context), encode_utf8(m)),
            ) implies tail@ == b64_of(n + seal_of(key@, n, aad_spec(context), encode_utf8(m))) by {
            assert(tail@ =~= (enc_prefix() + b64_of(
                n + seal_of(key@, n, aad_spec(context), encode_utf8(m)),
            )).skip(7));
            assert((enc_prefix() + b64_of(
                n + seal_of(key@, n, aad_spec(context), encode_utf8(m)),
            )).skip(7) =~= b64_of(n + seal_of(key@, n, aad_spec(context), encode_utf8(m))));
        }
    }
    let encoded = chars_to_string(&tail);
    let decoded = match b64_decode(encoded.as_str()) {
        Ok(d) => {
            proof {
                assert(tail@ == b64_of(d@));
                assert(t@.skip(7) =~= tail@);
                assert forall|b: Seq<u8>| t@.skip(7) == b64_of(b) implies b == d@ by {}
            }
            d
        },
        Err(_) => {
            proof {
                assert forall|m: Seq<char>|
                    enc_output(t@, key@, aad_spec(context), m) implies false by {
                    let n = choose|n: Seq<u8>|
                        n.len() == 12 && t@ == enc_prefix() + b64_of(
                            n + seal_of(key@, n, aad_spec(context), encode_utf8(m)),
                        );
                    assert(tail@ == b64_of(n + seal_of(key@, n, aad_spec(context), encode_utf8(m))));
                }
            }
            return Ok(value.to_owned());
        },
    };
    if decoded.len() < 12 {
        proof {
            assert forall|m: Seq<char>|
                enc_output(t@, key@, aad_spec(context), m) implies false by {
                let n = choose|n: Seq<u8>|
                    n.len() == 12 && t@ == enc_prefix() + b64_of(
                        n + seal_of(key@, n, aad_spec(context), encode_utf8(m)),
                    );
                assert(tail@ == b64_of(n + seal_of(key@, n, aad_spec(context), encode_utf8(m))));
                assert(decoded@ == n + seal_of(key@, n, aad_spec(context), encode_utf8(m)));
            }
        }
        return Ok(value.to_owned());
    }
    let ghost decoded0 = decoded@;
    let mut nonce = decoded;
    let ct = nonce.split_off(12);
    let ghost blob = nonce@ + ct@;
    proof {
        assert(blob =~= decoded0);
        assert(tail@ == b64_of(decoded0));
    }
    let aad = context.aad();
    let pt_bytes = match aead_open(key, &nonce, &aad, ct.as_slice()) {
        Ok(p) => p,
        Err(_) => {
            proof {
                assert forall|m: Seq<char>|
                    enc_output(t@, key@, aad_spec(context), m) implies false by {
                    let n = choose|n: Seq<u8>|
                        n.len() == 12 && t@ == enc_prefix() + b64_of(
                            n + seal_of(key@, n, aad_spec(context), encode_utf8(m)),
                        ) && seal_of(key@, n, aad_spec(context), encode_utf8(m)).len()
                            == encode_utf8(m).len() + 16 && encode_utf8(m).len() < seal_msg_max();
                    assert(tail@ == b64_of(n + seal_of(key@, n, aad_spec(context), encode_utf8(m))));
                    assert(blob == n + seal_of(key@, n, aad_spec(context), encode_utf8(m)));
                    assert(nonce@ =~= n);
                    assert(ct@ =~= seal_of(key@, n, aad_spec(context), encode_utf8(m)));
                }
            }
            return Err(SecureError::DecryptAuth);
        },
    };
    let ghost pt_seq = pt_bytes@;
    match bytes_to_string(pt_bytes) {
        Ok(s) => {
            proof {
                assert forall|m: Seq<char>|
                    enc_output(t@, key@, aad_spec(context), m) implies s@ == m by {
                    let n = choose|n: Seq<u8>|
                        n.len() == 12 && t@ == enc_prefix() + b64_of(
                            n + seal_of(key@, n, aad_spec(context), encode_utf8(m)),
                        ) && seal_of(key@, n, aad_spec(context), encode_utf8(m)).len()
                            == encode_utf8(m).len() + 16 && encode_utf8(m).len() < seal_msg_max();
                    assert(tail@ == b64_of(n + seal_of(key@, n, aad_spec(context), encode_utf8(m))));
                    assert(blob == n + seal_of(key@, n, aad_spec(context), encode_utf8(m)));
                    assert(nonce@ =~= n);
                    assert(ct@ =~= seal_of(key@, n, aad_spec(context), encode_utf8(m)));
                    assert(pt_seq == encode_utf8(m));
                    assert(encode_utf8(s@) == encode_utf8(m));
                    vstd::utf8::encode_utf8_decode_utf8(s@);
                    vstd::utf8::encode_utf8_decode_utf8(m);
                }
                // The Ok result is pinned: it came from an authentic blob.
                assert(t@ == enc_prefix() + tail@);
                assert(tail@ == b64_of(nonce@ + ct@));
                assert(ct@ == seal_of(key@, nonce@, aad_spec(context), pt_seq));
                assert(ct@.len() == pt_seq.len() + 16 && pt_seq.len() < seal_msg_max());
                assert(encode_utf8(s@) == pt_seq);
                assert(enc_output(t@, key@, aad_spec(context), s@));
            }
            Ok(s)
        },
        Err(_) => {
            proof {
                assert forall|m: Seq<char>|
                    enc_output(t@, key@, aad_spec(context), m) implies false by {
                    let n = choose|n: Seq<u8>|
                        n.len() == 12 && t@ == enc_prefix() + b64_of(
                            n + seal_of(key@, n, aad_spec(context), encode_utf8(m)),
                        ) && seal_of(key@, n, aad_spec(context), encode_utf8(m)).len()
                            == encode_utf8(m).len() + 16 && encode_utf8(m).len() < seal_msg_max();
                    assert(tail@ == b64_of(n + seal_of(key@, n, aad_spec(context), encode_utf8(m))));
                    assert(blob == n + seal_of(key@, n, aad_spec(context), encode_utf8(m)));
                    assert(nonce@ =~= n);
                    assert(ct@ =~= seal_of(key@, n, aad_spec(context), encode_utf8(m)));
                    assert(pt_seq == encode_utf8(m));
                }
            }
            Err(SecureError::DecryptUtf8)
        },
    }
}

/// The ciphertext round trip: encrypting and then decrypting a message
/// under the same key and context returns exactly the message. The result
/// is absent only when the cipher refused the encryption.
pub fn encrypt_decrypt_round_trip(key: &Vec<u8>, context: SecretContext, plaintext: &str) -> (r:
    Option<String>)
    requires
        key@.len() == 32,
    ensures
        r matches Some(p) ==> p@ == plaintext@,
        (r is Some) == (encode_utf8(plaintext@).len() < seal_msg_max()),
{
    let c = match encrypt_string_with_key(key, context, plaintext) {
        Ok(c) => c,
        Err(_) => {
            return None;
        },
    };
    match decrypt_string_with_key(key, context, c.as_str()) {
        Ok(p) => Some(p),
        Err(_) => {
            proof {
                assert(false);
            }
            None
        },
    }
}

/// What a credential-store read can come back with.
pub enum KeyringFetch {
    /// The stored password string.
    Found(String),
    /// No entry exists yet under the service/account pair.
    Missing,
    /// The store failed; carries its message.
    Failed(String),
}

/// Relies on keyring's `Entry::new` + `Entry::get_password`: reads the
/// password stored under the service/account pair. The outcome depends on
/// the platform store, so nothing is promised of it.
#[verifier::external_body]
fn keyring_fetch(service: &str, account: &str) -> (r: KeyringFetch) {
    match keyring::Entry::new(service, account) {
        Ok(entry) => match entry.get_password() {
            Ok(p) => KeyringFetch::Found(p),
            Err(keyring::Error::NoEntry) => KeyringFetch::Missing,
            Err(e) => KeyringFetch::Failed(format!("keychain read failed: {e}")),
        },
        Err(e) => KeyringFetch::Failed(format!("keychain init failed: {e}")),
    }
}

/// Relies on keyring's `Entry::new` + `Entry::set_password`: stores the
/// password under the service/account pair. The outcome depends on the
/// platform store, so nothing is promised of it.
#[verifier::external_body]
fn keyring_store(service: &str, account: &str, value: &str) -> (r: Result<(), String>) {
    match keyring::Entry::new(service, account) {
        Ok(entry) => entry
            .set_password(value)
            .map_err(|e| format!("keychain write failed: {e}")),
        Err(e) => Err(format!("keychain init failed: {e}")),
    }
}

/// The credential-store account under which the master key lives.
pub fn keychain_account() -> (r: &'static str)
    ensures
        r@ == "agents-ui-data-key-v1"@,
{
    "agents-ui-data-key-v1"
}

/// The in-process master-key cache: one of uninitialized, ready with the
/// 256-bit key, or a remembered failure. Once an attempt resolves, the
/// outcome is memoized until an explicit reset.
pub enum MasterKeyCacheState {
    Uninitialized,
    Ready(Vec<u8>),
    Error(String),
}

/// An injectable master-key cache cell.
pub struct MasterKeyCache {
    pub state: MasterKeyCacheState,
}

impl MasterKeyCache {
    /// A key held in the cache is always 256 bits.
    pub open spec fn wf(&self) -> bool {
        self.state matches MasterKeyCacheState::Ready(k) ==> k@.len() == 32
    }

    /// A fresh, unresolved cache.
    pub fn new() -> (r: MasterKeyCache)
        ensures
            r.state is Uninitialized,
            r.wf(),
    {
        MasterKeyCache { state: MasterKeyCacheState::Uninitialized }
    }
}

/// Fetches the master key, creating and storing a fresh random one when the
/// store has none, and memoizes the outcome — success or failure — in the
/// cache so repeated calls never re-prompt the credential store.
pub fn get_or_create_master_key(cache: &mut MasterKeyCache, service: &str) -> (r: Result<
    Vec<u8>,
    SecureError,
>)
    requires
        old(cache).wf(),
    ensures
        final(cache).wf(),
        old(cache).state matches MasterKeyCacheState::Ready(k) ==> r is Ok && r->Ok_0@ == k@
            && final(cache).state == old(cache).state,
        old(cache).state matches MasterKeyCacheState::Error(e) ==> r is Err && (
        r->Err_0 matches SecureError::KeyUnavailable(m) && m@ == e@) && final(cache).state == old(
            cache,
        ).state,
        r is Ok ==> r->Ok_0@.len() == 32 && (final(cache).state
            matches MasterKeyCacheState::Ready(k) && k@ == r->Ok_0@),
        r is Err ==> r->Err_0 is KeyUnavailable && (final(cache).state
            matches MasterKeyCacheState::Error(e) && (r->Err_0 matches SecureError::KeyUnavailable(
            m,
        ) && m@ == e@)),
{
    match &cache.state {
        MasterKeyCacheState::Ready(k) => {
            return Ok(k.clone());
        },
        MasterKeyCacheState::Error(e) => {
            return Err(SecureError::KeyUnavailable(e.clone()));
        },
        MasterKeyCacheState::Uninitialized => {},
    }
    let outcome = resolve_master_key(service);
    match outcome {
        Ok(key) => {
            cache.state = MasterKeyCacheState::Ready(key.clone());
            Ok(key)
        },
        Err(msg) => {
            cache.state = MasterKeyCacheState::Error(msg.clone());
            Err(SecureError::KeyUnavailable(msg))
        },
    }
}

/// Decodes a password fetched from the credential store into the master
/// key: the trimmed value must be canonical base64 of exactly 32 bytes,
/// which are returned; anything else is rejected (malformed encoding and
/// wrong length each with their own message).
pub fn master_key_from_stored(encoded: &str) -> (r: Result<Vec<u8>, String>)
    ensures
        (r is Ok) == (exists|b: Seq<u8>| spec_trim(encoded@) == b64_of(b) && b.len() == 32),
        r matches Ok(k) ==> spec_trim(encoded@) == b64_of(k@) && k@.len() == 32,
        forall|b: Seq<u8>|
            spec_trim(encoded@) == b64_of(b) && b.len() == 32 ==> r is Ok && r->Ok_0@ == b,
{
    let encoded_chars = str_chars(encoded);
    let trimmed = chars_to_string(&trim_chars(&encoded_chars));
    match b64_decode(trimmed.as_str()) {
        Ok(decoded) => {
            proof {
                assert(spec_trim(encoded@) == b64_of(decoded@));
                assert forall|b: Seq<u8>| spec_trim(encoded@) == b64_of(b) implies b
                    == decoded@ by {}
            }
            if decoded.len() != 32 {
                Err(invalid_key_length_msg())
            } else {
                Ok(decoded)
            }
        },
        Err(_) => Err(invalid_key_encoding_msg()),
    }
}

/// One uncached resolution attempt against the credential store: decode a
/// stored key through [`master_key_from_stored`], or generate a fresh
/// 32-byte key, store its base64 under the fixed account, and return it.
/// What comes back from the store is the platform's to decide; the
/// handling of each possible value is contracted on
/// [`master_key_from_stored`].
fn resolve_master_key(service: &str) -> (r: Result<Vec<u8>, String>)
    ensures
        r is Ok ==> r->Ok_0@.len() == 32,
{
    match keyring_fetch(service, keychain_account()) {
        KeyringFetch::Found(encoded) => master_key_from_stored(encoded.as_str()),
        KeyringFetch::Missing => {
            let key = os_random_bytes(32);
            let encoded = b64_encode(&key);
            match keyring_store(service, keychain_account(), encoded.as_str()) {
                Ok(_) => Ok(key),
                Err(msg) => Err(msg),
            }
        },
        KeyringFetch::Failed(msg) => Err(msg),
    }
}

fn invalid_key_length_msg() -> String {
    "invalid keychain key length".to_owned()
}

fn invalid_key_encoding_msg() -> String {
    "invalid keychain key encoding".to_owned()
}

/// Clears the memoized master-key outcome, returning the cache to
/// uninitialized; the intended path for a user-triggered retry after fixing
/// credential-store access.
pub fn reset_master_key_cache(cache: &mut MasterKeyCache)
    ensures
        final(cache).state is Uninitialized,
        final(cache).wf(),
{
    cache.state = MasterKeyCacheState::Uninitialized;
}

} // verus!
