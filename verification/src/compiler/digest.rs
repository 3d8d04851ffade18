//! SHA-256 digests in lowercase hexadecimal, as provider file names and
//! fingerprints use them.
use sha2::Digest;
use vstd::prelude::*;

verus! {

/// The SHA-256 digest of `data`, as computed by the `sha2` crate.
pub uninterp spec fn sha256_of(data: Seq<u8>) -> Seq<u8>;

/// Calls `sha2::Sha256::digest`. Trusted: the result is the digest of
/// `data`, named [`sha256_of`], and is 32 bytes long (the output size of
/// `Sha256` in the crate's source).
#[verifier::external_body]
fn sha256_digest(data: &[u8]) -> (r: Vec<u8>)
    ensures
        r@ == sha256_of(data@),
        r@.len() == 32,
{
    sha2::Sha256::digest(data).to_vec()
}

/// The lowercase hexadecimal digit of `n < 16`.
pub open spec fn hex_digit(n: u8) -> char {
    if n < 10 {
        (48 + n) as char
    } else {
        (87 + n) as char
    }
}

/// Two lowercase hexadecimal digits per byte, the `{:x}` form of a digest.
pub open spec fn hex_lower(b: Seq<u8>) -> Seq<char>
    decreases b.len(),
{
    if b.len() == 0 {
        seq![]
    } else {
        hex_lower(b.drop_last()) + seq![hex_digit(b.last() / 16), hex_digit(b.last() % 16)]
    }
}

fn hex_char(n: u8) -> (r: char)
    requires
        n < 16,
    ensures
        r == hex_digit(n),
{
    if n < 10 {
        (48 + n) as char
    } else {
        (87 + n) as char
    }
}

/// Lowercase hexadecimal text of `b`.
pub fn to_hex(b: &Vec<u8>) -> (r: String)
    ensures
        r@ == hex_lower(b@),
{
    let mut r = String::new();
    let mut i: usize = 0;
    while i < b.len()
        invariant
            0 <= i <= b.len(),
            r@ == hex_lower(b@.take(i as int)),
        decreases b.len() - i,
    {
        let x = b[i];
        crate::text::push_char(&mut r, hex_char(x / 16));
        crate::text::push_char(&mut r, hex_char(x % 16));
        proof {
            assert(b@.take(i + 1).drop_last() =~= b@.take(i as int));
        }
        i = i + 1;
    }
    assert(b@.take(b@.len() as int) =~= b@);
    r
}

/// The lowercase hexadecimal SHA-256 digest of `data`.
pub fn sha256_hex(data: &[u8]) -> (r: String)
    ensures
        r@ == hex_lower(sha256_of(data@)),
        r@.len() == 64,
{
    let d = sha256_digest(data);
    let r = to_hex(&d);
    proof {
        lemma_hex_len(d@);
    }
    r
}

/// Each byte gives two digits.
pub proof fn lemma_hex_len(b: Seq<u8>)
    ensures
        hex_lower(b).len() == 2 * b.len(),
    decreases b.len(),
{
    if b.len() > 0 {
        lemma_hex_len(b.drop_last());
    }
}

/// A lowercase hexadecimal digit: `0`-`9` or `a`-`f`.
pub open spec fn is_hex_char(c: char) -> bool {
    ('0' <= c && c <= '9') || ('a' <= c && c <= 'f')
}

/// The digits are lowercase hexadecimal digits.
pub proof fn lemma_hex_chars(b: Seq<u8>)
    ensures
        forall|i: int| 0 <= i < hex_lower(b).len() ==> is_hex_char(#[trigger] hex_lower(b)[i]),
    decreases b.len(),
{
    if b.len() > 0 {
        lemma_hex_chars(b.drop_last());
        let x = b.last();
        let h = hex_lower(b.drop_last());
        assert forall|n: u8| n < 16 implies is_hex_char(#[trigger] hex_digit(n)) by {
            if n < 10 {
                assert(48 <= (48 + n) as int <= 57);
            } else {
                assert(97 <= (87 + n) as int <= 102);
            }
        }
        assert(is_hex_char(hex_digit(x / 16)));
        assert(is_hex_char(hex_digit(x % 16)));
        let t = seq![hex_digit(x / 16), hex_digit(x % 16)];
        assert forall|i: int| 0 <= i < hex_lower(b).len() implies is_hex_char(#[trigger] hex_lower(b)[i]) by {
            if i < h.len() {
                assert(hex_lower(b)[i] == h[i]);
            } else {
                assert(hex_lower(b)[i] == t[i - h.len()]);
            }
        }
    }
}

} // verus!
