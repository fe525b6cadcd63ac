//! Credential hashing: a SHA-256 digest rendered as lower-case hex.
//!
//! The digest itself comes from the `sha2` crate; turning its bytes into hex
//! text is this crate's own verified code.
use vstd::prelude::*;
use vstd::string::*;

verus! {

/// The 32-byte SHA-256 digest of a credential's UTF-8 bytes. The digest is a
/// function of the input alone; its value is not stated here.
pub uninterp spec fn sha256_of(s: Seq<char>) -> Seq<u8>;

/// Relies on sha2's `Sha256`: the SHA-256 digest of the input bytes, which is
/// 32 bytes long and depends on the input alone.
#[verifier::external_body]
fn sha256_digest(s: &str) -> (r: Vec<u8>)
    ensures
        r@ == sha256_of(s@),
        r@.len() == 32,
{
    <sha2::Sha256 as sha2::Digest>::digest(s.as_bytes()).to_vec()
}

/// The hex character for one value in 0..16.
pub open spec fn hex_digit(n: int) -> char {
    "0123456789abcdef"@[n]
}

/// Lower-case hex rendering of a byte sequence, two characters per byte.
pub open spec fn hex_of(bs: Seq<u8>) -> Seq<char>
    decreases bs.len(),
{
    if bs.len() == 0 {
        Seq::empty()
    } else {
        hex_of(bs.drop_last()) + seq![
            hex_digit(bs.last() as int / 16),
            hex_digit(bs.last() as int % 16),
        ]
    }
}

/// The credential hash stored for a provider: the SHA-256 digest in hex.
pub open spec fn sha256_hex_of(s: Seq<char>) -> Seq<char> {
    hex_of(sha256_of(s))
}

/// Hex text is twice as long as the bytes it renders.
pub proof fn lemma_hex_len(bs: Seq<u8>)
    ensures
        hex_of(bs).len() == 2 * bs.len(),
    decreases bs.len(),
{
    if bs.len() > 0 {
        lemma_hex_len(bs.drop_last());
    }
}

/// Hex-encodes a byte vector, two lower-case digits per byte.
pub fn to_hex(bs: &Vec<u8>) -> (r: String)
    ensures
        r@ == hex_of(bs@),
{
    let alphabet: &str = "0123456789abcdef";
    proof {
        reveal_strlit("0123456789abcdef");
    }
    let mut out: String = String::new();
    let mut i: usize = 0;
    while i < bs.len()
        invariant
            i <= bs.len(),
            out@ == hex_of(bs@.take(i as int)),
        decreases bs.len() - i,
    {
        let b: u8 = bs[i];
        let hi: usize = (b / 16) as usize;
        let lo: usize = (b % 16) as usize;
        let hi_s: &str = alphabet.substring_ascii(hi, hi + 1);
        let lo_s: &str = alphabet.substring_ascii(lo, lo + 1);
        out.append(hi_s);
        out.append(lo_s);
        proof {
            let prefix = bs@.take(i + 1 as int);
            assert(prefix.drop_last() =~= bs@.take(i as int));
            assert(prefix.last() == b);
            assert(hi_s@ =~= seq![hex_digit(b as int / 16)]);
            assert(lo_s@ =~= seq![hex_digit(b as int % 16)]);
            assert(out@ =~= hex_of(bs@.take(i + 1 as int)));
        }
        i = i + 1;
    }
    proof {
        assert(bs@.take(bs@.len() as int) =~= bs@);
    }
    out
}

/// The stable anonymized identity of a raw credential: its SHA-256 digest in
/// lower-case hex. The raw credential itself is never stored.
pub fn credential_hash(s: &str) -> (r: String)
    ensures
        r@ == sha256_hex_of(s@),
        r@.len() == 64,
{
    let digest = sha256_digest(s);
    proof {
        lemma_hex_len(digest@);
    }
    to_hex(&digest)
}

} // verus!
