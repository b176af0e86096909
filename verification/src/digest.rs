//! SHA-256 digests of file bytes, and the two forms the store keeps of them:
//! lowercase hex (the write journal) and the first eight bytes read as a
//! little-endian integer (the transcript summary's change discriminator).

use vstd::prelude::*;

use crate::strings::push_char;

verus! {

/// The SHA-256 digest of `bytes`, as computed by the `sha2` crate.
pub uninterp spec fn sha256(bytes: Seq<u8>) -> Seq<u8>;

/// Calls `sha2::Sha256::digest`. Claimed: the result depends on the bytes
/// alone (named `sha256`) and is 32 bytes long, the output size `Sha256`
/// declares.
#[verifier::external_body]
fn sha256_digest(bytes: &[u8]) -> (r: Vec<u8>)
    ensures
        r@ == sha256(bytes@),
        r@.len() == 32,
{
    <sha2::Sha256 as sha2::Digest>::digest(bytes).to_vec()
}

/// The lowercase hex digit of a nibble.
pub open spec fn hex_digit(n: int) -> char {
    if n < 10 {
        (48 + n) as char
    } else {
        (87 + n) as char
    }
}

/// Two lowercase hex digits per byte, most significant nibble first.
pub open spec fn hex_lower(bytes: Seq<u8>) -> Seq<char>
    decreases bytes.len(),
{
    if bytes.len() == 0 {
        Seq::empty()
    } else {
        hex_lower(bytes.drop_last()).push(hex_digit(bytes.last() as int / 16)).push(
            hex_digit(bytes.last() as int % 16),
        )
    }
}

fn hex_digit_exec(n: u8) -> (c: char)
    requires
        n < 16,
    ensures
        c == hex_digit(n as int),
{
    if n < 10 {
        (48 + n) as char
    } else {
        (87 + n) as char
    }
}

/// Lowercase hex of a byte string.
pub fn hex_encode(bytes: &[u8]) -> (r: String)
    ensures
        r@ == hex_lower(bytes@),
{
    let mut out = String::new();
    let mut i: usize = 0;
    while i < bytes.len()
        invariant
            i <= bytes.len(),
            out@ == hex_lower(bytes@.subrange(0, i as int)),
        decreases bytes.len() - i,
    {
        proof {
            assert(bytes@.subrange(0, i + 1).drop_last() =~= bytes@.subrange(0, i as int));
        }
        let b = bytes[i];
        push_char(&mut out, hex_digit_exec(b / 16));
        push_char(&mut out, hex_digit_exec(b % 16));
        i = i + 1;
    }
    proof {
        assert(bytes@.subrange(0, bytes@.len() as int) =~= bytes@);
    }
    out
}

/// Lowercase hex of the SHA-256 digest of `bytes` (64 characters).
pub fn sha256_hex(bytes: &[u8]) -> (r: String)
    ensures
        r@ == hex_lower(sha256(bytes@)),
{
    let digest = sha256_digest(bytes);
    hex_encode(digest.as_slice())
}

/// The integer whose little-endian bytes are `bytes`.
pub open spec fn le_value(bytes: Seq<u8>) -> nat
    decreases bytes.len(),
{
    if bytes.len() == 0 {
        0
    } else {
        (bytes[0] + 256 * le_value(bytes.drop_first())) as nat
    }
}

/// 256 to the power `n`.
pub open spec fn pow256(n: nat) -> nat
    decreases n,
{
    if n == 0 {
        1
    } else {
        256 * pow256((n - 1) as nat)
    }
}

proof fn lemma_le_value_bound(bytes: Seq<u8>)
    ensures
        le_value(bytes) < pow256(bytes.len()),
    decreases bytes.len(),
{
    if bytes.len() > 0 {
        let rest = bytes.drop_first();
        lemma_le_value_bound(rest);
        let p = pow256(rest.len());
        let v = le_value(rest);
        assert(bytes[0] + 256 * v < 256 * p) by (nonlinear_arith)
            requires
                bytes[0] < 256,
                v < p,
                v >= 0,
        ;
    }
}

proof fn lemma_pow256_monotone(a: nat, b: nat)
    requires
        a <= b,
    ensures
        pow256(a) <= pow256(b),
    decreases b,
{
    if a < b {
        lemma_pow256_monotone(a, (b - 1) as nat);
    }
}

/// The first eight bytes of the SHA-256 digest of `bytes`, read as a
/// little-endian `u64`.
pub fn content_hash(bytes: &[u8]) -> (r: u64)
    ensures
        r == le_value(sha256(bytes@).subrange(0, 8)),
{
    let digest = sha256_digest(bytes);
    let ghost head = digest@.subrange(0, 8);
    let mut acc: u64 = 0;
    let mut i: usize = 8;
    while i > 0
        invariant
            i <= 8,
            digest@.len() == 32,
            head == digest@.subrange(0, 8),
            acc == le_value(head.subrange(i as int, 8)),
        decreases i,
    {
        let k = i - 1;
        proof {
            let rest = head.subrange(i as int, 8);
            let cur = head.subrange(k as int, 8);
            assert(cur.drop_first() =~= rest);
            assert(cur[0] == digest@[k as int]);
            lemma_le_value_bound(rest);
            lemma_pow256_monotone(rest.len(), 7);
            assert(pow256(7) == 0x100000000000000) by {
                reveal_with_fuel(pow256, 8);
            }
            assert(digest@[k as int] + 256 * acc <= 0xffff_ffff_ffff_ffff) by (nonlinear_arith)
                requires
                    acc < 0x100000000000000,
                    digest@[k as int] < 256,
            ;
        }
        acc = digest[k] as u64 + 256 * acc;
        i = k;
    }
    proof {
        assert(head.subrange(0, 8) =~= head);
    }
    acc
}

} // verus!
