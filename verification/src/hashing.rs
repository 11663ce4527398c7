//! Cost-iterated password hashing built on the block hash primitive.
//!
//! A password and a salt derive a digest by hashing the password bytes
//! followed by the raw salt bytes once, then feeding each digest back into
//! the primitive until it has run `2^cost` times in all.  Cost 0 therefore
//! performs exactly one invocation.

use vstd::prelude::*;
use vstd::string::*;
use rand_core::TryRngCore as _;

verus! {

use vstd::arithmetic::power2::pow2;
use crate::DEF_SALT_LEN;
use crate::HASH_VERSION;
use crate::MAX_HASH_INPUT;
use crate::b64::b64_of;
use crate::b64::b64_decode_of;
use crate::b64::base64_encode;
use crate::b64::base64_decode;
use crate::codec::spec_encode;
use crate::codec::spec_decode;
use crate::codec::encode_hash;
use crate::sha256::sha256;
use crate::sha256::spec_sha256;
use crate::text::sep_free;

/// `n` further applications of the block hash to a byte sequence.
pub open spec fn spec_iter_sha256(d: Seq<u8>, n: nat) -> Seq<u8>
    decreases n,
{
    if n == 0 {
        d
    } else {
        spec_iter_sha256(spec_sha256(d), (n - 1) as nat)
    }
}

/// The digest a password and a salt derive at a given cost: the block hash
/// applied `pow2(cost)` times in all, first to the password bytes followed
/// by the raw salt bytes, then to each previous digest.
pub open spec fn spec_derive(password: Seq<u8>, salt: Seq<u8>, cost: nat) -> Seq<u8> {
    spec_iter_sha256(password + salt, pow2(cost))
}

/// Applying the hash once more extends an iterated application at the end.
proof fn lemma_iter_step(d: Seq<u8>, n: nat)
    ensures
        spec_iter_sha256(d, n + 1) == spec_sha256(spec_iter_sha256(d, n)),
    decreases n,
{
    if n == 0 {
        assert(spec_iter_sha256(d, 1) == spec_iter_sha256(spec_sha256(d), 0));
    } else {
        lemma_iter_step(spec_sha256(d), (n - 1) as nat);
        assert(spec_iter_sha256(d, n + 1) == spec_iter_sha256(spec_sha256(d), n));
        assert(spec_iter_sha256(d, n) == spec_iter_sha256(spec_sha256(d), (n - 1) as nat));
    }
}

/// Iterated applications compose additively.
proof fn lemma_iter_add(d: Seq<u8>, m: nat, n: nat)
    ensures
        spec_iter_sha256(d, m + n) == spec_iter_sha256(spec_iter_sha256(d, m), n),
    decreases m,
{
    if m > 0 {
        lemma_iter_add(spec_sha256(d), (m - 1) as nat, n);
    }
}

/// Raising the cost by one exactly doubles the number of primitive
/// invocations: a derivation at cost `c + 1` performs the `pow2(c)`
/// invocations of a derivation at cost `c` and then `pow2(c)` further
/// applications of the block hash to its result.
pub proof fn lemma_cost_scaling(password: Seq<u8>, salt: Seq<u8>, c: nat)
    ensures
        pow2(c + 1) == 2 * pow2(c),
        spec_derive(password, salt, c + 1) == spec_iter_sha256(
            spec_derive(password, salt, c),
            pow2(c),
        ),
{
    vstd::arithmetic::power2::lemma_pow2_adds(c, 1);
    vstd::arithmetic::power2::lemma2_to64();
    lemma_iter_add(password + salt, pow2(c), pow2(c));
}

/// Derives the digest for a password and a raw salt at the given cost.
/// The cost bound keeps the iteration counter inside a 64-bit integer, and
/// the length bound keeps the primitive's bit-length counter sound; both are
/// machine limits, not tuning choices.
pub fn derive(password: &[u8], salt: &[u8], cost: u64) -> (digest: Vec<u8>)
    requires
        cost < 64,
        password@.len() + salt@.len() < 0x1000_0000_0000_0000,
    ensures
        digest@ == spec_derive(password@, salt@, cost as nat),
        digest@.len() == 32,
{
    let mut message: Vec<u8> = Vec::new();
    message.extend_from_slice(password);
    message.extend_from_slice(salt);
    assert(message@ == password@ + salt@);

    let total: u64 = 1u64 << cost;
    proof {
        vstd::arithmetic::power2::lemma_pow2_pos(cost as nat);
        vstd::arithmetic::power2::lemma_pow2_strictly_increases(cost as nat, 64);
        vstd::arithmetic::power2::lemma2_to64();
        vstd::bits::lemma_u64_shl_is_mul(1u64, cost);
        assert(total == pow2(cost as nat));
    }

    let ghost seed: Seq<u8> = message@;
    let mut hash = sha256(message);
    assert(hash@ == spec_iter_sha256(seed, 1)) by {
        lemma_iter_step(seed, 0);
    }
    let mut i: u64 = 1;
    while i < total
        invariant
            1 <= i <= total,
            total == pow2(cost as nat),
            hash@ == spec_iter_sha256(seed, i as nat),
            hash@.len() == 32,
        decreases total - i,
    {
        hash = sha256(hash);
        proof {
            lemma_iter_step(seed, i as nat);
        }
        i += 1;
    }
    hash
}

/// Relies on the operating system's secure random source, reached through
/// rand_core's `OsRng`: on success the buffer has the requested length;
/// nothing is assumed about its contents, and two calls may differ.  A
/// failing source is reported, never substituted by a weaker one.
#[verifier::external_body]
fn os_random_bytes(n: usize) -> (r: Option<Vec<u8>>)
    ensures
        r matches Some(v) ==> v@.len() == n,
{
    let mut buf: Vec<u8> = vec![0u8; n];
    match rand_core::OsRng.try_fill_bytes(&mut buf) {
        Ok(()) => Some(buf),
        Err(_) => None,
    }
}

/// Draws a fresh salt from the secure random source and returns it base64
/// encoded: the requested number of bytes, or the default length.  A
/// request beyond the derivation's machine limit always fails; otherwise
/// failure means the source failed, and no fallback is attempted.
pub fn get_salt(num_bytes: Option<usize>) -> (r: Option<String>)
    ensures
        (if num_bytes is Some {
            num_bytes.unwrap() as int
        } else {
            DEF_SALT_LEN as int
        }) > MAX_HASH_INPUT ==> r is None,
        r matches Some(s) ==> ({
            let n = if num_bytes is Some {
                num_bytes.unwrap() as int
            } else {
                DEF_SALT_LEN as int
            };
            exists|b: Seq<u8>|
                b.len() == n && s@ == #[trigger] b64_of(b) && b64_decode_of(s@) == Some(b)
        }),
{
    let n = match num_bytes {
        Some(v) => v,
        None => DEF_SALT_LEN,
    };
    if (n as u64) > MAX_HASH_INPUT {
        return None;
    }
    let bytes = match os_random_bytes(n) {
        Some(v) => v,
        None => {
            return None;
        },
    };
    let s = base64_encode(bytes.as_slice());
    Some(s)
}

/// Derives the digest for a password and a base64-encoded salt at the given
/// cost and serializes the result in the encoded hash format under this
/// library's tag.  Fails closed — returns nothing — when the salt is not
/// canonical base64, when the cost would overflow the 64-bit iteration
/// counter, or when an input exceeds the derivation's machine limits.
pub fn hash_password(password: &str, salt: &str, cost: u64) -> (r: Option<String>)
    ensures
        r is Some <==> (b64_decode_of(salt@) matches Some(sb) && cost < 64
            && password.spec_bytes().len() <= MAX_HASH_INPUT && sb.len() <= MAX_HASH_INPUT),
        r matches Some(h) ==> ({
            let sb = b64_decode_of(salt@).unwrap();
            let dg = spec_derive(password.spec_bytes(), sb, cost as nat);
            &&& h@ == spec_encode(HASH_VERSION@, cost, sb, dg)
            &&& spec_decode(h@) == Some((HASH_VERSION@, cost, sb, dg))
        }),
{
    let sbv = match base64_decode(salt) {
        Some(v) => v,
        None => {
            return None;
        },
    };
    if cost >= 64 {
        return None;
    }
    let pwb = password.as_bytes();
    if (pwb.len() as u64) > MAX_HASH_INPUT {
        return None;
    }
    if (sbv.len() as u64) > MAX_HASH_INPUT {
        return None;
    }
    let digest = derive(pwb, sbv.as_slice(), cost);
    proof {
        reveal_strlit("sha256iter-1");
        assert(sep_free(HASH_VERSION@, '$'));
    }
    let out = encode_hash(HASH_VERSION, cost, sbv.as_slice(), digest.as_slice());
    Some(out)
}

} // verus!
