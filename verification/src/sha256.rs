//! The block hash primitive: a from-scratch SHA-256 implementation.
//!
//! The specification functions below transcribe the standard compression
//! scheme (FIPS 180-4): padding to a multiple of 512 bits, a 64-word message
//! schedule per chunk, 64 compression rounds, and wraparound addition of the
//! working variables back into the running state.  The executable `sha256`
//! is proved to compute exactly `spec_sha256` of its input bytes.

use vstd::prelude::*;

verus! {

use vstd::wrapping::u32_specs;

/// First 32 bits of the fractional parts of the square roots of the first 8 primes.
pub const SHA_H0: [u32; 8] = [
    0x6a09e667, 0xbb67ae85, 0x3c6ef372, 0xa54ff53a, 0x510e527f, 0x9b05688c, 0x1f83d9ab, 0x5be0cd19,
];

/// First 32 bits of the fractional parts of the cube roots of the first 64 primes.
pub const SHA_K: [u32; 64] = [
    0x428a2f98, 0x71374491, 0xb5c0fbcf, 0xe9b5dba5, 0x3956c25b, 0x59f111f1, 0x923f82a4, 0xab1c5ed5,
    0xd807aa98, 0x12835b01, 0x243185be, 0x550c7dc3, 0x72be5d74, 0x80deb1fe, 0x9bdc06a7, 0xc19bf174,
    0xe49b69c1, 0xefbe4786, 0x0fc19dc6, 0x240ca1cc, 0x2de92c6f, 0x4a7484aa, 0x5cb0a9dc, 0x76f988da,
    0x983e5152, 0xa831c66d, 0xb00327c8, 0xbf597fc7, 0xc6e00bf3, 0xd5a79147, 0x06ca6351, 0x14292967,
    0x27b70a85, 0x2e1b2138, 0x4d2c6dfc, 0x53380d13, 0x650a7354, 0x766a0abb, 0x81c2c92e, 0x92722c85,
    0xa2bfe8a1, 0xa81a664b, 0xc24b8b70, 0xc76c51a3, 0xd192e819, 0xd6990624, 0xf40e3585, 0x106aa070,
    0x19a4c116, 0x1e376c08, 0x2748774c, 0x34b0bcb5, 0x391c0cb3, 0x4ed8aa4a, 0x5b9cca4f, 0x682e6ff3,
    0x748f82ee, 0x78a5636f, 0x84c87814, 0x8cc70208, 0x90befffa, 0xa4506ceb, 0xbef9a3f7, 0xc67178f2,
];

/// 32-bit addition with silent wraparound, as every addition in the scheme requires.
pub open spec fn wadd(a: u32, b: u32) -> u32 {
    u32_specs::wrapping_add(a, b)
}

/// Right rotation of a 32-bit word.
pub open spec fn rotr(x: u32, n: u32) -> u32
    recommends
        0 < n < 32,
{
    (x >> n) | (x << ((32 - n) as u32))
}

/// Mixing function for the message schedule (applied to word `i - 15`).
pub open spec fn ssig0(x: u32) -> u32 {
    rotr(x, 7) ^ rotr(x, 18) ^ (x >> 3)
}

/// Mixing function for the message schedule (applied to word `i - 2`).
pub open spec fn ssig1(x: u32) -> u32 {
    rotr(x, 17) ^ rotr(x, 19) ^ (x >> 10)
}

/// Rotation mix of the first working variable in a compression round.
pub open spec fn bsig0(x: u32) -> u32 {
    rotr(x, 2) ^ rotr(x, 13) ^ rotr(x, 22)
}

/// Rotation mix of the fifth working variable in a compression round.
pub open spec fn bsig1(x: u32) -> u32 {
    rotr(x, 6) ^ rotr(x, 11) ^ rotr(x, 25)
}

/// The choose function: bits of `f` where `e` is set, bits of `g` elsewhere.
pub open spec fn ch(e: u32, f: u32, g: u32) -> u32 {
    (e & f) ^ ((!e) & g)
}

/// The majority function over three words.
pub open spec fn maj(a: u32, b: u32, c: u32) -> u32 {
    (a & b) ^ (a & c) ^ (b & c)
}

/// A 32-bit word read big-endian from four bytes.
pub open spec fn be_word(b0: u8, b1: u8, b2: u8, b3: u8) -> u32 {
    ((b0 as u32) << 24) | ((b1 as u32) << 16) | ((b2 as u32) << 8) | (b3 as u32)
}

/// The sixteen 32-bit big-endian words of chunk `c` of a padded message.
pub open spec fn chunk_words(padded: Seq<u8>, c: int) -> Seq<u32>
    recommends
        0 <= c,
        64 * c + 64 <= padded.len(),
{
    Seq::new(
        16,
        |i: int|
            be_word(
                padded[64 * c + 4 * i],
                padded[64 * c + 4 * i + 1],
                padded[64 * c + 4 * i + 2],
                padded[64 * c + 4 * i + 3],
            ),
    )
}

/// Word `i` of the 64-word message schedule extended from the sixteen chunk words.
pub open spec fn sched(ws: Seq<u32>, i: int) -> u32
    recommends
        ws.len() == 16,
        0 <= i < 64,
    decreases i,
{
    if i < 16 {
        ws[i]
    } else {
        wadd(
            sched(ws, i - 16),
            wadd(ssig0(sched(ws, i - 15)), wadd(sched(ws, i - 7), ssig1(sched(ws, i - 2)))),
        )
    }
}

/// The eight working variables of the compression loop.
pub struct Working {
    pub a: u32,
    pub b: u32,
    pub c: u32,
    pub d: u32,
    pub e: u32,
    pub f: u32,
    pub g: u32,
    pub h: u32,
}

/// One compression round with round constant `ki` and schedule word `wi`.
pub open spec fn round(s: Working, ki: u32, wi: u32) -> Working {
    let t1 = wadd(s.h, wadd(bsig1(s.e), wadd(ch(s.e, s.f, s.g), wadd(ki, wi))));
    let t2 = wadd(bsig0(s.a), maj(s.a, s.b, s.c));
    Working {
        a: wadd(t1, t2),
        b: s.a,
        c: s.b,
        d: s.c,
        e: wadd(s.d, t1),
        f: s.e,
        g: s.f,
        h: s.g,
    }
}

/// The working variables after the first `n` compression rounds.
pub open spec fn rounds(ws: Seq<u32>, s0: Working, n: int) -> Working
    recommends
        ws.len() == 16,
        0 <= n <= 64,
    decreases n,
{
    if n <= 0 {
        s0
    } else {
        round(rounds(ws, s0, n - 1), SHA_K@[n - 1], sched(ws, n - 1))
    }
}

/// The running state after compressing one chunk into state `hs`.
pub open spec fn state_after(ws: Seq<u32>, hs: Seq<u32>) -> Seq<u32>
    recommends
        ws.len() == 16,
        hs.len() == 8,
{
    let s0 = Working {
        a: hs[0],
        b: hs[1],
        c: hs[2],
        d: hs[3],
        e: hs[4],
        f: hs[5],
        g: hs[6],
        h: hs[7],
    };
    let s = rounds(ws, s0, 64);
    seq![
        wadd(hs[0], s.a),
        wadd(hs[1], s.b),
        wadd(hs[2], s.c),
        wadd(hs[3], s.d),
        wadd(hs[4], s.e),
        wadd(hs[5], s.f),
        wadd(hs[6], s.g),
        wadd(hs[7], s.h),
    ]
}

/// The running state after the first `n` chunks of a padded message.
pub open spec fn process_chunks(padded: Seq<u8>, n: int) -> Seq<u32>
    recommends
        0 <= n,
        64 * n <= padded.len(),
    decreases n,
{
    if n <= 0 {
        SHA_H0@
    } else {
        state_after(chunk_words(padded, n - 1), process_chunks(padded, n - 1))
    }
}

/// How many zero bytes padding inserts so the message length lands on
/// 56 modulo 64 after the `0x80` marker byte.
pub open spec fn pad_zero_count(len: nat) -> nat {
    ((119 - (len % 64)) % 64) as nat
}

/// The eight bytes of a 64-bit word, big-endian.
pub open spec fn be64(x: u64) -> Seq<u8> {
    seq![
        (x >> 56) as u8,
        (x >> 48) as u8,
        (x >> 40) as u8,
        (x >> 32) as u8,
        (x >> 24) as u8,
        (x >> 16) as u8,
        (x >> 8) as u8,
        x as u8,
    ]
}

/// The four bytes of a 32-bit word, big-endian.
pub open spec fn be32(x: u32) -> Seq<u8> {
    seq![(x >> 24) as u8, (x >> 16) as u8, (x >> 8) as u8, x as u8]
}

/// A message padded for compression: a `0x80` marker, zeros up to 56 modulo
/// 64, then the original length in bits as a big-endian 64-bit word.
pub open spec fn spec_pad(msg: Seq<u8>) -> Seq<u8> {
    msg + seq![0x80u8] + Seq::new(pad_zero_count(msg.len()), |i: int| 0u8) + be64(
        (msg.len() * 8) as u64,
    )
}

/// The 32-byte digest of an arbitrary byte sequence.  Kept opaque so that
/// callers reason about digests only through the contract of `sha256`;
/// its own proof reveals it.
#[verifier::opaque]
pub open spec fn spec_sha256(msg: Seq<u8>) -> Seq<u8> {
    let padded = spec_pad(msg);
    let hs = process_chunks(padded, padded.len() as int / 64);
    be32(hs[0]) + be32(hs[1]) + be32(hs[2]) + be32(hs[3]) + be32(hs[4]) + be32(hs[5]) + be32(
        hs[6],
    ) + be32(hs[7])
}

/// Padding lands the total length on an exact multiple of 512 bits.
pub proof fn lemma_pad_len(msg: Seq<u8>)
    ensures
        spec_pad(msg).len() == msg.len() + 9 + pad_zero_count(msg.len()),
        spec_pad(msg).len() % 64 == 0,
        spec_pad(msg).len() >= 64,
{
    let len = msg.len();
    let r = len % 64;
    let z = pad_zero_count(len);
    vstd::arithmetic::div_mod::lemma_mod_bound(len as int, 64);
    if r <= 55 {
        assert((119 - r) % 64 == 55 - r);
    } else {
        assert((119 - r) % 64 == 119 - r);
    }
    vstd::arithmetic::div_mod::lemma_fundamental_div_mod(len as int, 64);
    assert((len + 9 + z) % 64 == 0) by (nonlinear_arith)
        requires
            len == 64 * (len as int / 64) + r,
            0 <= r < 64,
            z == if r <= 55 { 55 - r } else { 119 - r },
    ;
}

/// Right rotation of a 32-bit word, executable form.
fn rotr32(x: u32, n: u32) -> (r: u32)
    requires
        0 < n < 32,
    ensures
        r == rotr(x, n),
{
    (x >> n) | (x << (32 - n))
}

/// The block hash primitive: maps any byte sequence to its fixed 32-byte
/// digest, by the standard compression scheme the specification functions
/// above describe.  Pure and deterministic; the length bound only keeps the
/// bit-length computation inside a 64-bit counter.
#[verifier::rlimit(100)]
pub fn sha256(message: Vec<u8>) -> (digest: Vec<u8>)
    requires
        message@.len() < 0x1000_0000_0000_0000,
    ensures
        digest@ == spec_sha256(message@),
        digest@.len() == 32,
{
    let ghost orig: Seq<u8> = message@;
    let mut msg = message;
    let bitlen: u64 = (msg.len() as u64) * 8;

    proof {
        lemma_pad_len(orig);
    }
    let ghost zeros = pad_zero_count(orig.len());

    // Padding: the marker byte, then zeros until the length is 56 modulo 64.
    let zcount: usize = (119 - (msg.len() % 64)) % 64;
    assert(zcount == zeros);
    msg.push(0x80u8);
    assert(msg@ =~= orig + seq![0x80u8] + Seq::new(0, |i: int| 0u8));
    let mut zi: usize = 0;
    while zi < zcount
        invariant
            0 <= zi <= zcount,
            zcount == zeros,
            zeros == pad_zero_count(orig.len()),
            orig.len() < 0x1000_0000_0000_0000,
            msg@ == orig + seq![0x80u8] + Seq::new(zi as nat, |i: int| 0u8),
        decreases zcount - zi,
    {
        msg.push(0u8);
        zi += 1;
        proof {
            assert(msg@ =~= orig + seq![0x80u8] + Seq::new(zi as nat, |i: int| 0u8));
        }
    }

    // The original length in bits, as a big-endian 64-bit word.
    msg.push((bitlen >> 56) as u8);
    msg.push((bitlen >> 48) as u8);
    msg.push((bitlen >> 40) as u8);
    msg.push((bitlen >> 32) as u8);
    msg.push((bitlen >> 24) as u8);
    msg.push((bitlen >> 16) as u8);
    msg.push((bitlen >> 8) as u8);
    msg.push(bitlen as u8);
    assert(msg@ =~= spec_pad(orig));
    assert(msg@.len() % 64 == 0 && msg@.len() >= 64);

    let msglen: usize = msg.len();
    let n: usize = msglen / 64;
    assert(64 * n == msglen) by (nonlinear_arith)
        requires
            n == msglen as int / 64,
            msglen % 64 == 0,
    ;

    let mut h0: u32 = SHA_H0[0];
    let mut h1: u32 = SHA_H0[1];
    let mut h2: u32 = SHA_H0[2];
    let mut h3: u32 = SHA_H0[3];
    let mut h4: u32 = SHA_H0[4];
    let mut h5: u32 = SHA_H0[5];
    let mut h6: u32 = SHA_H0[6];
    let mut h7: u32 = SHA_H0[7];

    let mut c: usize = 0;
    while c < n
        invariant
            0 <= c <= n,
            msglen == msg@.len(),
            64 * n == msglen,
            msg@ == spec_pad(orig),
            seq![h0, h1, h2, h3, h4, h5, h6, h7] =~= process_chunks(msg@, c as int),
        decreases n - c,
    {
        let ghost ws = chunk_words(msg@, c as int);
        proof {
            assert(64 * c + 64 <= 64 * n) by (nonlinear_arith)
                requires
                    c < n,
            ;
        }
        let base: usize = 64 * c;

        // The sixteen big-endian words of this chunk.
        let mut w: Vec<u32> = Vec::new();
        let mut j: usize = 0;
        while j < 16
            invariant
                0 <= j <= 16,
                base == 64 * c,
                64 * c + 64 <= msg@.len(),
                w@.len() == j,
                ws == chunk_words(msg@, c as int),
                forall|t: int| 0 <= t < j ==> w@[t] == #[trigger] sched(ws, t),
            decreases 16 - j,
        {
            let b0 = msg[base + 4 * j];
            let b1 = msg[base + 4 * j + 1];
            let b2 = msg[base + 4 * j + 2];
            let b3 = msg[base + 4 * j + 3];
            let word: u32 = ((b0 as u32) << 24) | ((b1 as u32) << 16) | ((b2 as u32) << 8) | (
            b3 as u32);
            w.push(word);
            j += 1;
        }

        // Extend to the 64-word schedule.
        let mut i: usize = 16;
        while i < 64
            invariant
                16 <= i <= 64,
                w@.len() == i,
                forall|t: int| 0 <= t < i ==> w@[t] == #[trigger] sched(ws, t),
            decreases 64 - i,
        {
            let s0 = rotr32(w[i - 15], 7) ^ rotr32(w[i - 15], 18) ^ (w[i - 15] >> 3);
            let s1 = rotr32(w[i - 2], 17) ^ rotr32(w[i - 2], 19) ^ (w[i - 2] >> 10);
            let word = w[i - 16].wrapping_add(s0.wrapping_add(w[i - 7].wrapping_add(s1)));
            w.push(word);
            proof {
                assert(sched(ws, i as int) == wadd(
                    sched(ws, i - 16),
                    wadd(
                        ssig0(sched(ws, i - 15)),
                        wadd(sched(ws, i - 7), ssig1(sched(ws, i - 2))),
                    ),
                ));
                assert(wadd(s0, wadd(sched(ws, i - 7), s1)) == s0.wrapping_add(
                    w@[i - 7].wrapping_add(s1),
                ));
            }
            i += 1;
        }

        // The 64 compression rounds.
        let ghost sinit = Working { a: h0, b: h1, c: h2, d: h3, e: h4, f: h5, g: h6, h: h7 };
        let mut a = h0;
        let mut b = h1;
        let mut cc = h2;
        let mut d = h3;
        let mut e = h4;
        let mut f = h5;
        let mut g = h6;
        let mut h = h7;
        let mut i: usize = 0;
        while i < 64
            invariant
                0 <= i <= 64,
                w@.len() == 64,
                forall|t: int| 0 <= t < 64 ==> w@[t] == #[trigger] sched(ws, t),
                rounds(ws, sinit, i as int) == (Working { a, b, c: cc, d, e, f, g, h }),
            decreases 64 - i,
        {
            let s1 = rotr32(e, 6) ^ rotr32(e, 11) ^ rotr32(e, 25);
            let chv = (e & f) ^ ((!e) & g);
            let temp1 = h.wrapping_add(s1.wrapping_add(chv.wrapping_add(SHA_K[i].wrapping_add(w[i]))));
            let s0 = rotr32(a, 2) ^ rotr32(a, 13) ^ rotr32(a, 22);
            let majv = (a & b) ^ (a & cc) ^ (b & cc);
            let temp2 = s0.wrapping_add(majv);

            h = g;
            g = f;
            f = e;
            e = d.wrapping_add(temp1);
            d = cc;
            cc = b;
            b = a;
            a = temp1.wrapping_add(temp2);
            i += 1;
            proof {
                assert(rounds(ws, sinit, i as int) == round(
                    rounds(ws, sinit, i - 1),
                    SHA_K@[i - 1],
                    sched(ws, i - 1),
                ));
            }
        }

        // Fold the compressed chunk back into the running state.
        h0 = h0.wrapping_add(a);
        h1 = h1.wrapping_add(b);
        h2 = h2.wrapping_add(cc);
        h3 = h3.wrapping_add(d);
        h4 = h4.wrapping_add(e);
        h5 = h5.wrapping_add(f);
        h6 = h6.wrapping_add(g);
        h7 = h7.wrapping_add(h);
        c += 1;
        proof {
            assert(process_chunks(msg@, c as int) == state_after(
                chunk_words(msg@, c - 1),
                process_chunks(msg@, c - 1),
            ));
            assert(seq![h0, h1, h2, h3, h4, h5, h6, h7] =~= process_chunks(msg@, c as int));
        }
    }

    // Concatenate the eight state words, big-endian.
    let mut digest: Vec<u8> = Vec::new();
    digest.push((h0 >> 24) as u8);
    digest.push((h0 >> 16) as u8);
    digest.push((h0 >> 8) as u8);
    digest.push(h0 as u8);
    digest.push((h1 >> 24) as u8);
    digest.push((h1 >> 16) as u8);
    digest.push((h1 >> 8) as u8);
    digest.push(h1 as u8);
    digest.push((h2 >> 24) as u8);
    digest.push((h2 >> 16) as u8);
    digest.push((h2 >> 8) as u8);
    digest.push(h2 as u8);
    digest.push((h3 >> 24) as u8);
    digest.push((h3 >> 16) as u8);
    digest.push((h3 >> 8) as u8);
    digest.push(h3 as u8);
    digest.push((h4 >> 24) as u8);
    digest.push((h4 >> 16) as u8);
    digest.push((h4 >> 8) as u8);
    digest.push(h4 as u8);
    digest.push((h5 >> 24) as u8);
    digest.push((h5 >> 16) as u8);
    digest.push((h5 >> 8) as u8);
    digest.push(h5 as u8);
    digest.push((h6 >> 24) as u8);
    digest.push((h6 >> 16) as u8);
    digest.push((h6 >> 8) as u8);
    digest.push(h6 as u8);
    digest.push((h7 >> 24) as u8);
    digest.push((h7 >> 16) as u8);
    digest.push((h7 >> 8) as u8);
    digest.push(h7 as u8);
    proof {
        reveal(spec_sha256);
        let hs = process_chunks(msg@, msg@.len() as int / 64);
        assert(n as int == msg@.len() as int / 64);
        assert(digest@ =~= spec_sha256(orig));
    }
    digest
}

} // verus!
