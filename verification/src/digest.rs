//! Content identity: the SHA-256 digest of a file's bytes, written as a
//! lower-case hexadecimal string.

use vstd::prelude::*;
use sha2::Digest;

verus! {

/// The SHA-256 digest of `data`, as the `sha2` crate computes it.
pub uninterp spec fn sha256_of(data: Seq<u8>) -> Seq<u8>;

/// Trusted: calls `sha2::Sha256::digest` (the `Digest` trait: a fresh hasher,
/// one `update` with `data`, then `finalize`).  Claims that the result is the
/// digest named `sha256_of(data)` and that it is 32 bytes long, the output
/// size that `sha2` gives `Sha256`.
#[verifier::external_body]
fn sha256_digest(data: &[u8]) -> (digest: Vec<u8>)
    ensures
        digest@ == sha256_of(data@),
        digest@.len() == 32,
{
    sha2::Sha256::digest(data).to_vec()
}

/// The ASCII code of the lower-case hexadecimal digit for `n` (`n < 16`).
pub open spec fn hex_digit(n: u8) -> u8
    recommends
        n < 16,
{
    if n < 10 {
        (48 + n) as u8
    } else {
        (87 + n) as u8
    }
}

/// Every byte of `bytes` as two lower-case hexadecimal digits, high nibble
/// first (the `{:x}` rendering of a byte array).
pub open spec fn lower_hex(bytes: Seq<u8>) -> Seq<u8>
    decreases bytes.len(),
{
    if bytes.len() == 0 {
        Seq::empty()
    } else {
        lower_hex(bytes.drop_last()) + seq![
            hex_digit(bytes.last() / 16),
            hex_digit(bytes.last() % 16),
        ]
    }
}

/// The key under which a content is recorded: the lower-case hex rendering
/// of its SHA-256 digest.
pub open spec fn content_key(contents: Seq<u8>) -> Seq<u8> {
    lower_hex(sha256_of(contents))
}

pub proof fn lemma_lower_hex_len(bytes: Seq<u8>)
    ensures
        lower_hex(bytes).len() == 2 * bytes.len(),
    decreases bytes.len(),
{
    if bytes.len() > 0 {
        lemma_lower_hex_len(bytes.drop_last());
    }
}

/// Hex rendering loses nothing: two byte strings with the same lower-case
/// hex rendering are equal, so two contents share a key exactly when their
/// SHA-256 digests are equal.
pub proof fn lemma_lower_hex_injective(a: Seq<u8>, b: Seq<u8>)
    requires
        lower_hex(a) == lower_hex(b),
    ensures
        a == b,
    decreases a.len(),
{
    lemma_lower_hex_len(a);
    lemma_lower_hex_len(b);
    if a.len() > 0 {
        let ha = lower_hex(a);
        let hb = lower_hex(b);
        let n = ha.len() - 2;
        lemma_lower_hex_len(a.drop_last());
        lemma_lower_hex_len(b.drop_last());
        assert(lower_hex(a.drop_last()) =~= ha.subrange(0, n));
        assert(lower_hex(b.drop_last()) =~= hb.subrange(0, n));
        lemma_lower_hex_injective(a.drop_last(), b.drop_last());
        assert(ha[n] == hex_digit(a.last() / 16));
        assert(hb[n] == hex_digit(b.last() / 16));
        assert(ha[n + 1] == hex_digit(a.last() % 16));
        assert(hb[n + 1] == hex_digit(b.last() % 16));
        assert(a.last() / 16 == b.last() / 16);
        assert(a.last() % 16 == b.last() % 16);
        assert(a.last() == b.last());
        assert(a =~= a.drop_last().push(a.last()));
        assert(b =~= b.drop_last().push(b.last()));
    }
}

/// The rendering spells each byte, in order, as its two lower-case hex
/// digits: at `2 * i` the digit of `b[i] / 16`, at `2 * i + 1` that of
/// `b[i] % 16`, the digits 0-9 being ASCII 48-57 and 10-15 ASCII 97-102.
pub proof fn lemma_lower_hex_spells_each_byte(b: Seq<u8>)
    ensures
        lower_hex(b).len() == 2 * b.len(),
        forall|i: int|
            #![trigger b[i]]
            0 <= i < b.len() ==> {
                let hi = (b[i] / 16) as int;
                let lo = (b[i] % 16) as int;
                &&& lower_hex(b)[2 * i] as int == if hi < 10 {
                    48 + hi
                } else {
                    87 + hi
                }
                &&& lower_hex(b)[2 * i + 1] as int == if lo < 10 {
                    48 + lo
                } else {
                    87 + lo
                }
            },
    decreases b.len(),
{
    lemma_lower_hex_len(b);
    if b.len() > 0 {
        let rest = b.drop_last();
        lemma_lower_hex_spells_each_byte(rest);
        lemma_lower_hex_len(rest);
        let h = lower_hex(b);
        let n = rest.len() as int;
        assert forall|i: int| #![trigger b[i]] 0 <= i < b.len() implies {
            let hi = (b[i] / 16) as int;
            let lo = (b[i] % 16) as int;
            &&& h[2 * i] as int == if hi < 10 {
                48 + hi
            } else {
                87 + hi
            }
            &&& h[2 * i + 1] as int == if lo < 10 {
                48 + lo
            } else {
                87 + lo
            }
        } by {
            if i < n {
                assert(rest[i] == b[i]);
                assert(h[2 * i] == lower_hex(rest)[2 * i]);
                assert(h[2 * i + 1] == lower_hex(rest)[2 * i + 1]);
            } else {
                assert(b[i] == b.last());
                assert(h[2 * i] == hex_digit(b.last() / 16));
                assert(h[2 * i + 1] == hex_digit(b.last() % 16));
            }
        }
    }
}

/// A content's key is the hex rendering of the SHA-256 digest of all of its
/// bytes, so two contents get the same key exactly when the digests of the
/// complete contents are equal: a difference anywhere, the last byte
/// included, gives a different key unless SHA-256 collides.
pub proof fn lemma_content_key_covers_all_bytes(a: Seq<u8>, b: Seq<u8>)
    ensures
        content_key(a) == lower_hex(sha256_of(a)),
        content_key(a).len() == 2 * sha256_of(a).len(),
        (content_key(a) == content_key(b)) <==> (sha256_of(a) == sha256_of(b)),
{
    lemma_lower_hex_len(sha256_of(a));
    if content_key(a) == content_key(b) {
        lemma_lower_hex_injective(sha256_of(a), sha256_of(b));
    }
}

fn hex_digit_exec(n: u8) -> (c: u8)
    requires
        n < 16,
    ensures
        c == hex_digit(n),
{
    if n < 10 {
        48 + n
    } else {
        87 + n
    }
}

/// Renders `bytes` in lower-case hexadecimal.
pub fn to_lower_hex(bytes: &[u8]) -> (hex: Vec<u8>)
    requires
        bytes@.len() <= usize::MAX / 2,
    ensures
        hex@ == lower_hex(bytes@),
{
    let mut hex: Vec<u8> = Vec::new();
    let mut i: usize = 0;
    while i < bytes.len()
        invariant
            i <= bytes@.len(),
            hex@ == lower_hex(bytes@.subrange(0, i as int)),
        decreases bytes@.len() - i,
    {
        let b = bytes[i];
        hex.push(hex_digit_exec(b / 16));
        hex.push(hex_digit_exec(b % 16));
        proof {
            let prefix = bytes@.subrange(0, i + 1);
            assert(prefix.drop_last() =~= bytes@.subrange(0, i as int));
            assert(prefix.last() == b);
        }
        i = i + 1;
    }
    assert(bytes@.subrange(0, bytes@.len() as int) =~= bytes@);
    hex
}

/// The key of a file's contents: the lower-case hex SHA-256 digest of
/// `contents`, 64 ASCII bytes long.
pub fn get_hash(contents: &[u8]) -> (hash: Vec<u8>)
    ensures
        hash@ == content_key(contents@),
        hash@.len() == 64,
{
    let digest = sha256_digest(contents);
    proof {
        lemma_lower_hex_len(digest@);
    }
    to_lower_hex(digest.as_slice())
}

} // verus!
