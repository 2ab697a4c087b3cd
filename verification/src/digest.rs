//! Hashes, message authentication and keys, with their hexadecimal spelling.

use ed25519_dalek::SigningKey;
use hmac::{Hmac, Mac};
use sha2::{Digest, Sha256};
use vstd::prelude::*;
use vstd::string::*;
use vstd::utf8::*;

use crate::text::strip_prefix;

verus! {

// ---------------------------------------------------------------------------
// Hexadecimal
// ---------------------------------------------------------------------------

/// The lower-case hexadecimal digit of `n`.
pub open spec fn hex_digit(n: int) -> char {
    if n < 10 {
        (n + 48) as char
    } else {
        (n + 87) as char
    }
}

/// Two digits for each byte, the high half first.
pub open spec fn hex_of(bytes: Seq<u8>) -> Seq<char> {
    Seq::new(
        2 * bytes.len(),
        |i: int|
            hex_digit(
                if i % 2 == 0 {
                    bytes[i / 2] as int / 16
                } else {
                    bytes[i / 2] as int % 16
                },
            ),
    )
}

/// `hex::encode` writes each byte as two lower-case hexadecimal digits, the
/// high half first.
#[verifier::external_body]
fn hex_encode(bytes: &[u8]) -> (r: String)
    ensures
        r@ == hex_of(bytes@),
{
    hex::encode(bytes)
}

/// Different bytes have different spellings.
pub proof fn lemma_hex_injective(a: Seq<u8>, b: Seq<u8>)
    requires
        hex_of(a) == hex_of(b),
    ensures
        a == b,
{
    assert(hex_of(a).len() == 2 * a.len() && hex_of(b).len() == 2 * b.len());
    assert forall|i: int| 0 <= i < a.len() implies a[i] == b[i] by {
        assert(hex_of(a)[2 * i] == hex_of(b)[2 * i]);
        assert(hex_of(a)[2 * i + 1] == hex_of(b)[2 * i + 1]);
        assert((2 * i) / 2 == i && (2 * i + 1) / 2 == i);
        assert(hex_of(a)[2 * i] == hex_digit(a[i] as int / 16));
        assert(hex_of(b)[2 * i] == hex_digit(b[i] as int / 16));
        assert(hex_of(a)[2 * i + 1] == hex_digit(a[i] as int % 16));
        assert(hex_of(b)[2 * i + 1] == hex_digit(b[i] as int % 16));
        lemma_hex_digit_injective(a[i] as int / 16, b[i] as int / 16);
        lemma_hex_digit_injective(a[i] as int % 16, b[i] as int % 16);
    }
    assert(a =~= b);
}

proof fn lemma_hex_digit_injective(m: int, n: int)
    requires
        0 <= m < 16,
        0 <= n < 16,
        hex_digit(m) == hex_digit(n),
    ensures
        m == n,
{
    assert(hex_digit(m) as int == if m < 10 {
        m + 48
    } else {
        m + 87
    });
    assert(hex_digit(n) as int == if n < 10 {
        n + 48
    } else {
        n + 87
    });
}

/// The characters `0-9`, `a-f` and `A-F`.
pub open spec fn is_hex_digit(c: char) -> bool {
    ||| 48 <= c as int <= 57
    ||| 97 <= c as int <= 102
    ||| 65 <= c as int <= 70
}

/// Whether `c` is a hexadecimal digit, in either case.
pub fn hex_digit_char(c: char) -> (r: bool)
    ensures
        r == is_hex_digit(c),
{
    let code: u32 = c as u32;
    (48 <= code && code <= 57) || (97 <= code && code <= 102) || (65 <= code && code <= 70)
}

/// `count` hexadecimal digits and nothing else.
pub open spec fn is_hex_text(s: Seq<char>, count: int) -> bool {
    s.len() == count && forall|i: int| 0 <= i < s.len() ==> is_hex_digit(#[trigger] s[i])
}

/// Whether a text consists of `count` hexadecimal digits.
pub fn hex_text(s: &str, count: usize) -> (r: bool)
    ensures
        r == is_hex_text(s@, count as int),
{
    let chars = crate::text::chars_of(s);
    if chars.len() != count {
        return false;
    }
    let mut i: usize = 0;
    while i < chars.len()
        invariant
            chars@ == s@,
            i <= chars.len(),
            forall|j: int| 0 <= j < i ==> is_hex_digit(#[trigger] chars@[j]),
        decreases chars.len() - i,
    {
        if !hex_digit_char(chars[i]) {
            assert(!is_hex_digit(s@[i as int]));
            return false;
        }
        i += 1;
    }
    true
}

/// A spelled-out digest is made of hexadecimal digits.
pub proof fn lemma_hex_is_hex_text(bytes: Seq<u8>)
    ensures
        is_hex_text(hex_of(bytes), (2 * bytes.len()) as int),
{
    assert forall|i: int| 0 <= i < hex_of(bytes).len() implies is_hex_digit(
        #[trigger] hex_of(bytes)[i],
    ) by {
        let n = if i % 2 == 0 {
            bytes[i / 2] as int / 16
        } else {
            bytes[i / 2] as int % 16
        };
        assert(0 <= n < 16);
        assert(hex_of(bytes)[i] == hex_digit(n));
    }
}

/// A spelled-out digest has no capital letters.
pub proof fn lemma_hex_lower(bytes: Seq<u8>)
    ensures
        forall|i: int|
            0 <= i < hex_of(bytes).len() ==> !(65 <= (#[trigger] hex_of(bytes)[i]) as int <= 90),
{
    assert forall|i: int| 0 <= i < hex_of(bytes).len() implies !(65 <= (
    #[trigger] hex_of(bytes)[i]) as int <= 90) by {
        let n = if i % 2 == 0 {
            bytes[i / 2] as int / 16
        } else {
            bytes[i / 2] as int % 16
        };
        assert(0 <= n < 16);
        assert(hex_of(bytes)[i] == hex_digit(n));
    }
}

// ---------------------------------------------------------------------------
// SHA-256
// ---------------------------------------------------------------------------

/// The SHA-256 digest of `data`.
pub uninterp spec fn sha256_digest(data: Seq<u8>) -> Seq<u8>;

/// `sha2::Sha256::digest`: the SHA-256 digest, 32 bytes long.
#[verifier::external_body]
fn sha256(data: &[u8]) -> (r: Vec<u8>)
    ensures
        r@ == sha256_digest(data@),
        r@.len() == 32,
{
    Sha256::digest(data).to_vec()
}

/// The SHA-256 digest of `data`, in hexadecimal.
pub fn sha256_hex(data: &[u8]) -> (r: String)
    ensures
        r@ == hex_of(sha256_digest(data@)),
        is_hex_text(r@, 64),
{
    let digest = sha256(data);
    proof {
        lemma_hex_is_hex_text(digest@);
    }
    hex_encode(&digest)
}

/// The hasher of `sha2::Sha256`, which takes bytes piece by piece.
#[verifier::external_body]
pub struct Hasher {
    inner: Sha256,
}

/// The bytes that a hasher has collected.
pub uninterp spec fn fed(hasher: Hasher) -> Seq<u8>;

/// The most bytes that a hasher takes: it counts their bits in 64 bits.
pub const MAX_HASHED_BYTES: u64 = 2_305_843_009_213_693_951;

/// `sha2::Sha256::new`: a hasher that has collected nothing.
#[verifier::external_body]
fn start_hasher() -> (r: Hasher)
    ensures
        fed(r) == Seq::<u8>::empty(),
{
    Hasher { inner: Sha256::new() }
}

/// `sha2::Sha256::update`: the bytes come after those collected before. More
/// than the hasher can count are never handed to it.
#[verifier::external_body]
fn feed_hasher(hasher: &mut Hasher, data: &[u8])
    requires
        fed(*old(hasher)).len() + data@.len() <= MAX_HASHED_BYTES,
    ensures
        fed(*final(hasher)) == fed(*old(hasher)) + data@,
{
    hasher.inner.update(data)
}

/// `sha2::Sha256::finalize`: the digest of all that was collected, the same as
/// of the whole in one piece.
#[verifier::external_body]
fn end_hasher(hasher: Hasher) -> (r: Vec<u8>)
    requires
        fed(hasher).len() <= MAX_HASHED_BYTES,
    ensures
        r@ == sha256_digest(fed(hasher)),
        r@.len() == 32,
{
    hasher.inner.finalize().to_vec()
}

/// What has arrived so far of something too large to be held: its digest and
/// size are kept.
pub struct Intake {
    hasher: Hasher,
    size: u64,
}

impl Intake {
    /// All that has arrived.
    pub closed spec fn content(self) -> Seq<u8> {
        fed(self.hasher)
    }

    /// The size is that of what has arrived.
    pub closed spec fn counted(self) -> bool {
        self.size as nat == fed(self.hasher).len() && self.size <= MAX_HASHED_BYTES
    }

    /// Nothing has arrived.
    pub fn new() -> (r: Intake)
        ensures
            r.counted(),
            r.content() == Seq::<u8>::empty(),
    {
        Intake { hasher: start_hasher(), size: 0 }
    }

    /// Takes the next piece, unless there would be more than can be digested.
    /// The result tells whether it was taken.
    pub fn feed(&mut self, data: &[u8]) -> (r: bool)
        requires
            old(self).counted(),
        ensures
            final(self).counted(),
            r == (old(self).content().len() + data@.len() <= MAX_HASHED_BYTES),
            final(self).content() == if r {
                old(self).content() + data@
            } else {
                old(self).content()
            },
    {
        let more: u64 = data.len() as u64;
        if more > MAX_HASHED_BYTES - self.size {
            return false;
        }
        feed_hasher(&mut self.hasher, data);
        self.size = self.size + more;
        true
    }

    /// How many bytes have arrived.
    pub fn size(&self) -> (r: u64)
        requires
            self.counted(),
        ensures
            r as nat == self.content().len(),
    {
        self.size
    }

    /// The SHA-256 digest of what has arrived, in hexadecimal.
    pub fn finish(self) -> (r: String)
        requires
            self.counted(),
        ensures
            r@ == hex_of(sha256_digest(self.content())),
            is_hex_text(r@, 64),
    {
        let digest = end_hasher(self.hasher);
        proof {
            lemma_hex_is_hex_text(digest@);
        }
        hex_encode(&digest)
    }
}

/// The bytes in hexadecimal.
pub fn to_hex(data: &[u8]) -> (r: String)
    ensures
        r@ == hex_of(data@),
{
    hex_encode(data)
}

// ---------------------------------------------------------------------------
// HMAC-SHA-256
// ---------------------------------------------------------------------------

/// The HMAC-SHA-256 tag of `message` under `key`.
pub uninterp spec fn hmac_sha256_tag(key: Seq<u8>, message: Seq<u8>) -> Seq<u8>;

/// `hmac::Hmac::<Sha256>`: keyed with `key`, which may have any length, fed
/// with `message` and finalized, it yields the 32-byte tag.
#[verifier::external_body]
fn hmac_sha256(key: &[u8], message: &[u8]) -> (r: Option<Vec<u8>>)
    ensures
        r is Some,
        r->0@ == hmac_sha256_tag(key@, message@),
        r->0@.len() == 32,
{
    let mut mac = Hmac::<Sha256>::new_from_slice(key).ok()?;
    mac.update(message);
    Some(mac.finalize().into_bytes().to_vec())
}

/// Whether two byte strings are equal, looking at every byte whatever the
/// earlier ones held.
pub fn same_bytes(a: &[u8], b: &[u8]) -> (r: bool)
    ensures
        r == (a@ == b@),
{
    if a.len() != b.len() {
        return false;
    }
    let mut seen: u8 = 0;
    let mut i: usize = 0;
    while i < a.len()
        invariant
            a.len() == b.len(),
            i <= a.len(),
            seen == 0 <==> (forall|j: int| 0 <= j < i ==> a@[j] == b@[j]),
        decreases a.len() - i,
    {
        let x = a[i];
        let y = b[i];
        let ghost before = seen;
        seen = seen | (x ^ y);
        assert(seen == 0 <==> before == 0 && x == y) by (bit_vector)
            requires
                seen == before | (x ^ y),
        ;
        i += 1;
    }
    assert(seen == 0 ==> a@ =~= b@);
    seen == 0
}

/// Equal encodings come from equal texts.
pub proof fn lemma_bytes_injective(a: Seq<char>, b: Seq<char>)
    requires
        encode_utf8(a) == encode_utf8(b),
    ensures
        a == b,
{
    encode_utf8_decode_utf8(a);
    encode_utf8_decode_utf8(b);
}

/// The signature that a message deserves: `sha256=` and the tag in
/// hexadecimal.
pub open spec fn signature_of(secret: Seq<char>, body: Seq<u8>) -> Seq<char> {
    "sha256="@ + hex_of(hmac_sha256_tag(encode_utf8(secret), body))
}

/// Whether `tag` is the one that `hex_digest` spells.
pub fn tag_matches(tag: &[u8], hex_digest: &str) -> (r: bool)
    ensures
        r == (hex_digest@ == hex_of(tag@)),
{
    let expected = hex_encode(tag);
    let same = same_bytes(expected.as_str().as_bytes(), hex_digest.as_bytes());
    proof {
        if same {
            lemma_bytes_injective(expected@, hex_digest@);
        }
    }
    same
}

/// Whether `signature` is the one that `body` deserves under `secret`.
pub fn verify_hmac(secret: &str, signature: &str, body: &[u8]) -> (r: bool)
    ensures
        r == (signature@ == signature_of(secret@, body@)),
{
    let Some(hex_digest) = strip_prefix(signature, "sha256=") else {
        assert(signature@ == signature_of(secret@, body@) ==> "sha256="@.is_prefix_of(signature@));
        return false;
    };
    let Some(tag) = hmac_sha256(secret.as_bytes(), body) else {
        return false;
    };
    let ghost spelled = hex_of(tag@);
    proof {
        if signature@ == "sha256="@ + spelled {
            let n = "sha256="@.len() as int;
            assert(hex_digest@ =~= signature@.skip(n));
            assert(spelled =~= signature@.skip(n));
        }
    }
    tag_matches(&tag, hex_digest)
}

// ---------------------------------------------------------------------------
// Ed25519
// ---------------------------------------------------------------------------

/// The Ed25519 public key that belongs to a private key.
pub uninterp spec fn ed25519_public_key(private: Seq<u8>) -> Seq<u8>;

/// `ed25519_dalek::SigningKey`: the verifying key of the signing key made
/// from `private`, as 32 bytes.
#[verifier::external_body]
fn verifying_key(private: &[u8; 32]) -> (r: [u8; 32])
    ensures
        r@ == ed25519_public_key(private@),
{
    SigningKey::from_bytes(private).verifying_key().to_bytes()
}

/// The public key to publish for a private key.
pub fn public_key(private: &[u8; 32]) -> (r: [u8; 32])
    ensures
        r@ == ed25519_public_key(private@),
{
    verifying_key(private)
}

} // verus!
