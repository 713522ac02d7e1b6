//! Stable identification of URLs without giving them away.

use sha2::{Digest, Sha256};
use vstd::prelude::*;

verus! {

/// The SHA-256 digest of a byte sequence.
pub uninterp spec fn sha256(data: Seq<u8>) -> Seq<u8>;

/// The SHA-256 digest of `data`: `sha2::Sha256` made by `Digest::new`, fed the
/// data by `Digest::update` and closed by `Digest::finalize`. The digest has 32
/// bytes and depends on the data alone; which bytes is left to the name.
#[verifier::external_body]
fn sha256_digest(data: &[u8]) -> (res: Vec<u8>)
    ensures
        res@ == sha256(data@),
        res@.len() == 32,
{
    let mut hasher = Sha256::new();
    hasher.update(data);
    hasher.finalize().to_vec()
}

/// A hexadecimal digit in lower case.
pub open spec fn hex_digit(d: int) -> char {
    if d < 10 {
        ('0' as u8 + d) as char
    } else {
        ('a' as u8 + (d - 10)) as char
    }
}

/// Two hexadecimal digits for each byte.
pub open spec fn hex(bytes: Seq<u8>) -> Seq<char> {
    Seq::new(
        bytes.len() * 2,
        |i: int|
            if i % 2 == 0 {
                hex_digit(bytes[i / 2] as int / 16)
            } else {
                hex_digit(bytes[i / 2] as int % 16)
            },
    )
}

/// A hexadecimal digit in lower case.
fn hex_char(d: u8) -> (res: char)
    requires
        d < 16,
    ensures
        res == hex_digit(d as int),
{
    if d < 10 {
        ('0' as u8 + d) as char
    } else {
        ('a' as u8 + (d - 10)) as char
    }
}

/// Two hexadecimal digits for each byte.
pub fn hex_text(bytes: &[u8]) -> (res: String)
    ensures
        res@ == hex(bytes@),
{
    let mut res = String::new();
    let mut i: usize = 0;
    while i < bytes.len()
        invariant
            i <= bytes@.len(),
            res@ == hex(bytes@.take(i as int)),
        decreases bytes@.len() - i,
    {
        let ghost before = res@;
        res.push(hex_char(bytes[i] / 16));
        res.push(hex_char(bytes[i] % 16));
        assert(res@ =~= hex(bytes@.take(i + 1)));
        i += 1;
    }
    assert(bytes@.take(i as int) =~= bytes@);
    res
}

/// The hash under which a URL appears in traces: the SHA-256 digest of its
/// bytes in hexadecimal.
pub open spec fn url_digest(url: Seq<char>) -> Seq<char> {
    hex(sha256(vstd::utf8::encode_utf8(url)))
}

/// The hash under which a URL appears in traces.
pub fn url_hash(url: &str) -> (res: String)
    ensures
        res@ == url_digest(url@),
        res@.len() == 64,
{
    let digest = sha256_digest(url.as_bytes());
    hex_text(digest.as_slice())
}

/// The hash of the effective URL of a transfer, or of the requested one where
/// the effective one is not known.
pub fn effective_url_hash(effective_url: Option<&str>, requested_url: &str) -> (res: String)
    ensures
        res@ == url_digest(
            match effective_url {
                Some(url) => url@,
                None => requested_url@,
            },
        ),
{
    match effective_url {
        Some(url) => url_hash(url),
        None => url_hash(requested_url),
    }
}

proof fn lemma_hex_digit(c: int, d: int)
    requires
        0 <= c < 16,
        0 <= d < 16,
        hex_digit(c) == hex_digit(d),
    ensures
        c == d,
{
    assert(hex_digit(c) as int == if c < 10 {
        48 + c
    } else {
        87 + c
    });
    assert(hex_digit(d) as int == if d < 10 {
        48 + d
    } else {
        87 + d
    });
}

/// Different bytes have different hexadecimal texts.
pub proof fn hex_is_injective(a: Seq<u8>, b: Seq<u8>)
    requires
        hex(a) == hex(b),
    ensures
        a == b,
{
    assert(hex(a).len() == a.len() * 2);
    assert(hex(b).len() == b.len() * 2);
    assert forall|i: int| 0 <= i < a.len() implies a[i] == b[i] by {
        assert(hex(a)[2 * i] == hex_digit(a[i] as int / 16));
        assert(hex(b)[2 * i] == hex_digit(b[i] as int / 16));
        assert(hex(a)[2 * i + 1] == hex_digit(a[i] as int % 16));
        assert(hex(b)[2 * i + 1] == hex_digit(b[i] as int % 16));
        lemma_hex_digit(a[i] as int / 16, b[i] as int / 16);
        lemma_hex_digit(a[i] as int % 16, b[i] as int % 16);
    }
    assert(a =~= b);
}

/// A byte can be read back from its two digits, the upper half first. They are
/// `0` to `9` and `a` to `f`.
pub proof fn hex_can_be_read_back(bytes: Seq<u8>, i: int)
    requires
        0 <= i < bytes.len(),
    ensures
        hex(bytes).len() == 2 * bytes.len(),
        is_hex(hex(bytes)[2 * i]),
        is_hex(hex(bytes)[2 * i + 1]),
        bytes[i] == 16 * hex_value(hex(bytes)[2 * i]) + hex_value(hex(bytes)[2 * i + 1]),
{
    let high = bytes[i] as int / 16;
    let low = bytes[i] as int % 16;
    assert(hex(bytes)[2 * i] == hex_digit(high));
    assert(hex(bytes)[2 * i + 1] == hex_digit(low));
    assert(hex_digit(high) as int == if high < 10 {
        48 + high
    } else {
        87 + high
    });
    assert(hex_digit(low) as int == if low < 10 {
        48 + low
    } else {
        87 + low
    });
}

/// A character is a hexadecimal digit in lower case.
pub open spec fn is_hex(c: char) -> bool {
    48 <= c as int <= 57 || 97 <= c as int <= 102
}

/// What a hexadecimal digit stands for.
pub open spec fn hex_value(c: char) -> int {
    if c as int <= 57 {
        c as int - 48
    } else {
        c as int - 87
    }
}

/// The hash of a URL can be read back byte by byte as the digest of its text.
pub proof fn hash_is_of_the_whole_url(url: Seq<char>, i: int)
    requires
        0 <= i < sha256(vstd::utf8::encode_utf8(url)).len(),
    ensures
        url_digest(url).len() == 2 * sha256(vstd::utf8::encode_utf8(url)).len(),
        sha256(vstd::utf8::encode_utf8(url))[i] == 16 * hex_value(url_digest(url)[2 * i])
            + hex_value(url_digest(url)[2 * i + 1]),
{
    hex_can_be_read_back(sha256(vstd::utf8::encode_utf8(url)), i);
}

} // verus!
