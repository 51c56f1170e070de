//! SHA-256 (FIPS 180-4), used to keep visitors' identities out of the ledger.

use vstd::prelude::*;

use crate::text::push_char;

verus! {

/// Addition modulo 2^32.
pub open spec fn wadd(a: u32, b: u32) -> u32 {
    vstd::wrapping::u32_specs::wrapping_add(a, b)
}

/// The function Σ0 of FIPS 180-4.
pub open spec fn big_sigma0(x: u32) -> u32 {
    ((x >> 2u32) | (x << 30u32)) ^ ((x >> 13u32) | (x << 19u32)) ^ ((x >> 22u32) | (x << 10u32))
}

/// The function Σ1 of FIPS 180-4.
pub open spec fn big_sigma1(x: u32) -> u32 {
    ((x >> 6u32) | (x << 26u32)) ^ ((x >> 11u32) | (x << 21u32)) ^ ((x >> 25u32) | (x << 7u32))
}

/// The function σ0 of FIPS 180-4.
pub open spec fn small_sigma0(x: u32) -> u32 {
    ((x >> 7u32) | (x << 25u32)) ^ ((x >> 18u32) | (x << 14u32)) ^ (x >> 3u32)
}

/// The function σ1 of FIPS 180-4.
pub open spec fn small_sigma1(x: u32) -> u32 {
    ((x >> 17u32) | (x << 15u32)) ^ ((x >> 19u32) | (x << 13u32)) ^ (x >> 10u32)
}

/// The choice function: bits of `y` where `x` is set, of `z` elsewhere.
pub open spec fn ch(x: u32, y: u32, z: u32) -> u32 {
    (x & y) ^ (!x & z)
}

/// The majority function: each bit as two of the three have it.
pub open spec fn maj(x: u32, y: u32, z: u32) -> u32 {
    (x & y) ^ (x & z) ^ (y & z)
}

fn big_sigma0_of(x: u32) -> (r: u32)
    ensures
        r == big_sigma0(x),
{
    ((x >> 2u32) | (x << 30u32)) ^ ((x >> 13u32) | (x << 19u32)) ^ ((x >> 22u32) | (x << 10u32))
}

fn big_sigma1_of(x: u32) -> (r: u32)
    ensures
        r == big_sigma1(x),
{
    ((x >> 6u32) | (x << 26u32)) ^ ((x >> 11u32) | (x << 21u32)) ^ ((x >> 25u32) | (x << 7u32))
}

fn small_sigma0_of(x: u32) -> (r: u32)
    ensures
        r == small_sigma0(x),
{
    ((x >> 7u32) | (x << 25u32)) ^ ((x >> 18u32) | (x << 14u32)) ^ (x >> 3u32)
}

fn small_sigma1_of(x: u32) -> (r: u32)
    ensures
        r == small_sigma1(x),
{
    ((x >> 17u32) | (x << 15u32)) ^ ((x >> 19u32) | (x << 13u32)) ^ (x >> 10u32)
}

fn ch_of(x: u32, y: u32, z: u32) -> (r: u32)
    ensures
        r == ch(x, y, z),
{
    (x & y) ^ (!x & z)
}

fn maj_of(x: u32, y: u32, z: u32) -> (r: u32)
    ensures
        r == maj(x, y, z),
{
    (x & y) ^ (x & z) ^ (y & z)
}

/// The round constants.
pub open spec fn round_constant(t: int) -> u32 {
    if t == 0 { 0x428a2f98 } else if t == 1 { 0x71374491 } else if t == 2 { 0xb5c0fbcf }
    else if t == 3 { 0xe9b5dba5 } else if t == 4 { 0x3956c25b } else if t == 5 { 0x59f111f1 }
    else if t == 6 { 0x923f82a4 } else if t == 7 { 0xab1c5ed5 } else if t == 8 { 0xd807aa98 }
    else if t == 9 { 0x12835b01 } else if t == 10 { 0x243185be } else if t == 11 { 0x550c7dc3 }
    else if t == 12 { 0x72be5d74 } else if t == 13 { 0x80deb1fe } else if t == 14 { 0x9bdc06a7 }
    else if t == 15 { 0xc19bf174 } else if t == 16 { 0xe49b69c1 } else if t == 17 { 0xefbe4786 }
    else if t == 18 { 0x0fc19dc6 } else if t == 19 { 0x240ca1cc } else if t == 20 { 0x2de92c6f }
    else if t == 21 { 0x4a7484aa } else if t == 22 { 0x5cb0a9dc } else if t == 23 { 0x76f988da }
    else if t == 24 { 0x983e5152 } else if t == 25 { 0xa831c66d } else if t == 26 { 0xb00327c8 }
    else if t == 27 { 0xbf597fc7 } else if t == 28 { 0xc6e00bf3 } else if t == 29 { 0xd5a79147 }
    else if t == 30 { 0x06ca6351 } else if t == 31 { 0x14292967 } else if t == 32 { 0x27b70a85 }
    else if t == 33 { 0x2e1b2138 } else if t == 34 { 0x4d2c6dfc } else if t == 35 { 0x53380d13 }
    else if t == 36 { 0x650a7354 } else if t == 37 { 0x766a0abb } else if t == 38 { 0x81c2c92e }
    else if t == 39 { 0x92722c85 } else if t == 40 { 0xa2bfe8a1 } else if t == 41 { 0xa81a664b }
    else if t == 42 { 0xc24b8b70 } else if t == 43 { 0xc76c51a3 } else if t == 44 { 0xd192e819 }
    else if t == 45 { 0xd6990624 } else if t == 46 { 0xf40e3585 } else if t == 47 { 0x106aa070 }
    else if t == 48 { 0x19a4c116 } else if t == 49 { 0x1e376c08 } else if t == 50 { 0x2748774c }
    else if t == 51 { 0x34b0bcb5 } else if t == 52 { 0x391c0cb3 } else if t == 53 { 0x4ed8aa4a }
    else if t == 54 { 0x5b9cca4f } else if t == 55 { 0x682e6ff3 } else if t == 56 { 0x748f82ee }
    else if t == 57 { 0x78a5636f } else if t == 58 { 0x84c87814 } else if t == 59 { 0x8cc70208 }
    else if t == 60 { 0x90befffa } else if t == 61 { 0xa4506ceb } else if t == 62 { 0xbef9a3f7 }
    else { 0xc67178f2 }
}

fn round_constant_of(t: usize) -> (k: u32)
    requires
        t < 64,
    ensures
        k == round_constant(t as int),
{
    match t {
        0 => 0x428a2f98, 1 => 0x71374491, 2 => 0xb5c0fbcf, 3 => 0xe9b5dba5,
        4 => 0x3956c25b, 5 => 0x59f111f1, 6 => 0x923f82a4, 7 => 0xab1c5ed5,
        8 => 0xd807aa98, 9 => 0x12835b01, 10 => 0x243185be, 11 => 0x550c7dc3,
        12 => 0x72be5d74, 13 => 0x80deb1fe, 14 => 0x9bdc06a7, 15 => 0xc19bf174,
        16 => 0xe49b69c1, 17 => 0xefbe4786, 18 => 0x0fc19dc6, 19 => 0x240ca1cc,
        20 => 0x2de92c6f, 21 => 0x4a7484aa, 22 => 0x5cb0a9dc, 23 => 0x76f988da,
        24 => 0x983e5152, 25 => 0xa831c66d, 26 => 0xb00327c8, 27 => 0xbf597fc7,
        28 => 0xc6e00bf3, 29 => 0xd5a79147, 30 => 0x06ca6351, 31 => 0x14292967,
        32 => 0x27b70a85, 33 => 0x2e1b2138, 34 => 0x4d2c6dfc, 35 => 0x53380d13,
        36 => 0x650a7354, 37 => 0x766a0abb, 38 => 0x81c2c92e, 39 => 0x92722c85,
        40 => 0xa2bfe8a1, 41 => 0xa81a664b, 42 => 0xc24b8b70, 43 => 0xc76c51a3,
        44 => 0xd192e819, 45 => 0xd6990624, 46 => 0xf40e3585, 47 => 0x106aa070,
        48 => 0x19a4c116, 49 => 0x1e376c08, 50 => 0x2748774c, 51 => 0x34b0bcb5,
        52 => 0x391c0cb3, 53 => 0x4ed8aa4a, 54 => 0x5b9cca4f, 55 => 0x682e6ff3,
        56 => 0x748f82ee, 57 => 0x78a5636f, 58 => 0x84c87814, 59 => 0x8cc70208,
        60 => 0x90befffa, 61 => 0xa4506ceb, 62 => 0xbef9a3f7, _ => 0xc67178f2,
    }
}

/// The initial hash value.
pub open spec fn initial_hash() -> Seq<u32> {
    seq![
        0x6a09e667u32,
        0xbb67ae85u32,
        0x3c6ef372u32,
        0xa54ff53au32,
        0x510e527fu32,
        0x9b05688cu32,
        0x1f83d9abu32,
        0x5be0cd19u32,
    ]
}

/// The length of a message in bits, modulo 2^64.
pub open spec fn bit_length(len: nat) -> u64 {
    ((len * 8) % 0x1_0000_0000_0000_0000) as u64
}

/// Byte `i` (0 = most significant) of a 64-bit number.
pub open spec fn be64_byte(v: u64, i: int) -> u8 {
    ((v >> ((56 - 8 * i) as u64)) & 0xff) as u8
}

/// The message padded to a whole number of 64-byte blocks: `0x80`, zeros,
/// and the bit length in eight big-endian bytes.
pub open spec fn padded(m: Seq<u8>) -> Seq<u8> {
    let zeros = ((64 - (m.len() + 9) % 64) % 64) as nat;
    m + seq![0x80u8] + Seq::new(zeros, |i: int| 0u8) + Seq::new(
        8,
        |i: int| be64_byte(bit_length(m.len()), i),
    )
}

/// The big-endian word at byte `i`.
pub open spec fn be_word(p: Seq<u8>, i: int) -> u32 {
    ((p[i] as u32) << 24u32) | ((p[i + 1] as u32) << 16u32) | ((p[i + 2] as u32) << 8u32) | (p[i
        + 3] as u32)
}

/// The sixteen words of block `b`.
pub open spec fn block_words(p: Seq<u8>, b: int) -> Seq<u32> {
    Seq::new(16, |i: int| be_word(p, 64 * b + 4 * i))
}

/// Word `t` of the message schedule of a block.
pub open spec fn schedule(w: Seq<u32>, t: int) -> u32
    decreases t,
{
    if t < 16 {
        w[t]
    } else {
        wadd(
            wadd(wadd(small_sigma1(schedule(w, t - 2)), schedule(w, t - 7)), small_sigma0(schedule(w, t - 15))),
            schedule(w, t - 16),
        )
    }
}

/// One round of the compression function.
pub open spec fn round(s: Seq<u32>, k: u32, w: u32) -> Seq<u32> {
    let t1 = wadd(wadd(wadd(wadd(s[7], big_sigma1(s[4])), ch(s[4], s[5], s[6])), k), w);
    let t2 = wadd(big_sigma0(s[0]), maj(s[0], s[1], s[2]));
    seq![wadd(t1, t2), s[0], s[1], s[2], wadd(s[3], t1), s[4], s[5], s[6]]
}

/// The working variables after `n` rounds.
pub open spec fn rounds(s: Seq<u32>, w: Seq<u32>, n: int) -> Seq<u32>
    decreases n,
{
    if n <= 0 {
        s
    } else {
        round(rounds(s, w, n - 1), round_constant(n - 1), schedule(w, n - 1))
    }
}

/// The hash value after one more block.
pub open spec fn compress(h: Seq<u32>, w: Seq<u32>) -> Seq<u32> {
    let r = rounds(h, w, 64);
    Seq::new(8, |i: int| wadd(h[i], r[i]))
}

/// The hash value after the first `n` blocks.
pub open spec fn hash_blocks(p: Seq<u8>, n: int) -> Seq<u32>
    decreases n,
{
    if n <= 0 {
        initial_hash()
    } else {
        compress(hash_blocks(p, n - 1), block_words(p, n - 1))
    }
}

/// Byte `i` (0 = most significant) of a word.
pub open spec fn word_byte(v: u32, i: int) -> u8 {
    ((v >> ((24 - 8 * i) as u32)) & 0xff) as u8
}

/// The SHA-256 digest of a message.
pub open spec fn sha256_spec(m: Seq<u8>) -> Seq<u8> {
    let p = padded(m);
    let h = hash_blocks(p, (p.len() / 64) as int);
    Seq::new(32, |i: int| word_byte(h[i / 4], i % 4))
}

} // verus!

verus! {

fn push_bytes(out: &mut Vec<u8>, b: &[u8])
    ensures
        final(out)@ == old(out)@ + b@,
{
    let mut i: usize = 0;
    while i < b.len()
        invariant
            i <= b@.len(),
            out@ == old(out)@ + b@.take(i as int),
        decreases b@.len() - i,
    {
        out.push(b[i]);
        i = i + 1;
        proof {
            assert(out@ =~= old(out)@ + b@.take(i as int));
        }
    }
    proof {
        assert(b@.take(i as int) =~= b@);
    }
}

fn pad(data: &[u8]) -> (p: Vec<u8>)
    ensures
        p@ == padded(data@),
        p@.len() % 64 == 0,
{
    let mut p: Vec<u8> = Vec::new();
    push_bytes(&mut p, data);
    p.push(0x80u8);
    let len = data.len();
    let zeros = (64 - (len % 64 + 9) % 64) % 64;
    proof {
        assert(zeros == ((64 - (data@.len() + 9) % 64) % 64) as nat);
    }
    let mut i: usize = 0;
    while i < zeros
        invariant
            i <= zeros,
            p@ == data@ + seq![0x80u8] + Seq::new(i as nat, |j: int| 0u8),
        decreases zeros - i,
    {
        p.push(0u8);
        i = i + 1;
        proof {
            assert(p@ =~= data@ + seq![0x80u8] + Seq::new(i as nat, |j: int| 0u8));
        }
    }
    let bits = (len as u64).wrapping_mul(8);
    proof {
        assert(bits == bit_length(data@.len()));
    }
    let ghost head = p@;
    let mut k: u64 = 0;
    while k < 8
        invariant
            k <= 8,
            bits == bit_length(data@.len()),
            p@ == head + Seq::new(k as nat, |j: int| be64_byte(bits, j)),
        decreases 8 - k,
    {
        let sh: u64 = 56 - 8 * k;
        p.push(((bits >> sh) & 0xff) as u8);
        k = k + 1;
        proof {
            assert(p@ =~= head + Seq::new(k as nat, |j: int| be64_byte(bits, j)));
        }
    }
    proof {
        assert(p@ =~= padded(data@));
    }
    p
}

fn block_words_of(p: &Vec<u8>, b: usize) -> (w: Vec<u32>)
    requires
        64 * b + 64 <= p@.len(),
    ensures
        w@ == block_words(p@, b as int),
{
    let mut w: Vec<u32> = Vec::new();
    let plen = p.len();
    let mut i: usize = 0;
    while i < 16
        invariant
            64 * b + 64 <= plen,
            plen == p@.len(),
            i <= 16,
            w@ == Seq::new(i as nat, |j: int| be_word(p@, 64 * b + 4 * j)),
        decreases 16 - i,
    {
        let o = 64 * b + 4 * i;
        let x = ((p[o] as u32) << 24u32) | ((p[o + 1] as u32) << 16u32) | ((p[o + 2] as u32) << 8u32)
            | (p[o + 3] as u32);
        w.push(x);
        i = i + 1;
        proof {
            assert(w@ =~= Seq::new(i as nat, |j: int| be_word(p@, 64 * b + 4 * j)));
        }
    }
    proof {
        assert(w@ =~= block_words(p@, b as int));
    }
    w
}

fn schedule_of(m: &Vec<u32>) -> (w: Vec<u32>)
    requires
        m@.len() == 16,
    ensures
        w@.len() == 64,
        forall|t: int| 0 <= t < 64 ==> w@[t] == schedule(m@, t),
{
    let mut w: Vec<u32> = Vec::new();
    let mut t: usize = 0;
    while t < 64
        invariant
            m@.len() == 16,
            t <= 64,
            w@.len() == t,
            forall|j: int| 0 <= j < t ==> w@[j] == schedule(m@, j),
        decreases 64 - t,
    {
        if t < 16 {
            w.push(m[t]);
        } else {
            let x = small_sigma1_of(w[t - 2]).wrapping_add(w[t - 7]).wrapping_add(small_sigma0_of(w[t - 15])).wrapping_add(
                w[t - 16],
            );
            w.push(x);
        }
        t = t + 1;
    }
    w
}

fn compress_of(h: &Vec<u32>, m: &Vec<u32>) -> (r: Vec<u32>)
    requires
        h@.len() == 8,
        m@.len() == 16,
    ensures
        r@ == compress(h@, m@),
{
    let w = schedule_of(m);
    let mut a = h[0];
    let mut b = h[1];
    let mut c = h[2];
    let mut d = h[3];
    let mut e = h[4];
    let mut f = h[5];
    let mut g = h[6];
    let mut hh = h[7];
    proof {
        assert(seq![a, b, c, d, e, f, g, hh] =~= rounds(h@, m@, 0));
    }
    let mut t: usize = 0;
    while t < 64
        invariant
            h@.len() == 8,
            m@.len() == 16,
            w@.len() == 64,
            forall|j: int| 0 <= j < 64 ==> w@[j] == schedule(m@, j),
            t <= 64,
            seq![a, b, c, d, e, f, g, hh] == rounds(h@, m@, t as int),
        decreases 64 - t,
    {
        let ghost s = seq![a, b, c, d, e, f, g, hh];
        let t1 = hh.wrapping_add(big_sigma1_of(e)).wrapping_add(ch_of(e, f, g)).wrapping_add(
            round_constant_of(t),
        ).wrapping_add(w[t]);
        let t2 = big_sigma0_of(a).wrapping_add(maj_of(a, b, c));
        hh = g;
        g = f;
        f = e;
        e = d.wrapping_add(t1);
        d = c;
        c = b;
        b = a;
        a = t1.wrapping_add(t2);
        proof {
            assert(seq![a, b, c, d, e, f, g, hh] =~= round(s, round_constant(t as int), schedule(m@, t as int)));
        }
        t = t + 1;
    }
    let mut r: Vec<u32> = Vec::new();
    r.push(h[0].wrapping_add(a));
    r.push(h[1].wrapping_add(b));
    r.push(h[2].wrapping_add(c));
    r.push(h[3].wrapping_add(d));
    r.push(h[4].wrapping_add(e));
    r.push(h[5].wrapping_add(f));
    r.push(h[6].wrapping_add(g));
    r.push(h[7].wrapping_add(hh));
    proof {
        assert(r@ =~= compress(h@, m@));
    }
    r
}

/// The SHA-256 digest of `data`.
pub fn sha256(data: &[u8]) -> (digest: Vec<u8>)
    ensures
        digest@ == sha256_spec(data@),
{
    let p = pad(data);
    let n = p.len() / 64;
    let mut h: Vec<u32> = Vec::new();
    h.push(0x6a09e667u32);
    h.push(0xbb67ae85u32);
    h.push(0x3c6ef372u32);
    h.push(0xa54ff53au32);
    h.push(0x510e527fu32);
    h.push(0x9b05688cu32);
    h.push(0x1f83d9abu32);
    h.push(0x5be0cd19u32);
    proof {
        assert(h@ =~= hash_blocks(p@, 0));
    }
    let mut b: usize = 0;
    while b < n
        invariant
            p@.len() == 64 * n,
            b <= n,
            h@ == hash_blocks(p@, b as int),
            h@.len() == 8,
        decreases n - b,
    {
        let m = block_words_of(&p, b);
        h = compress_of(&h, &m);
        b = b + 1;
    }
    let mut digest: Vec<u8> = Vec::new();
    let mut i: usize = 0;
    while i < 32
        invariant
            i <= 32,
            h@ == hash_blocks(p@, n as int),
            h@.len() == 8,
            p@ == padded(data@),
            n == p@.len() / 64,
            digest@ == Seq::new(i as nat, |j: int| word_byte(h@[j / 4], j % 4)),
        decreases 32 - i,
    {
        let sh: u32 = 24 - 8 * ((i % 4) as u32);
        digest.push(((h[i / 4] >> sh) & 0xff) as u8);
        i = i + 1;
        proof {
            assert(digest@ =~= Seq::new(i as nat, |j: int| word_byte(h@[j / 4], j % 4)));
        }
    }
    proof {
        assert(digest@ =~= sha256_spec(data@));
    }
    digest
}

} // verus!

verus! {

/// The lower-case hexadecimal digit of `v` (0..15).
pub open spec fn hex_digit(v: int) -> char {
    if v < 10 {
        (48 + v) as char
    } else {
        (87 + v) as char
    }
}

/// Bytes in lower-case hexadecimal, two digits each.
pub open spec fn hex_text(b: Seq<u8>) -> Seq<char> {
    Seq::new(
        2 * b.len(),
        |i: int|
            if i % 2 == 0 {
                hex_digit((b[i / 2] / 16) as int)
            } else {
                hex_digit((b[i / 2] % 16) as int)
            },
    )
}

/// The first 16 hexadecimal digits of the SHA-256 of `data`.
pub open spec fn short_hex_text(data: Seq<u8>) -> Seq<char> {
    hex_text(sha256_spec(data).take(8))
}

fn hex_digit_of(v: u8) -> (c: char)
    requires
        v < 16,
    ensures
        c == hex_digit(v as int),
{
    if v < 10 {
        (48 + v) as char
    } else {
        (87 + v) as char
    }
}

/// The SHA-256 of `data`, cut to its first 16 hexadecimal digits.
pub fn short_hex(data: &[u8]) -> (s: String)
    ensures
        s@ == short_hex_text(data@),
{
    let digest = sha256(data);
    let mut s = String::new();
    let mut i: usize = 0;
    while i < 8
        invariant
            i <= 8,
            digest@ == sha256_spec(data@),
            digest@.len() == 32,
            s@ == hex_text(digest@.take(i as int)),
        decreases 8 - i,
    {
        let b = digest[i];
        push_char(&mut s, hex_digit_of(b / 16));
        push_char(&mut s, hex_digit_of(b % 16));
        i = i + 1;
        proof {
            assert(s@ =~= hex_text(digest@.take(i as int)));
        }
    }
    s
}

} // verus!
