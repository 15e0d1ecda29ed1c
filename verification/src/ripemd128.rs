//! RIPEMD-128, the pure 128-bit hash that keys the XOR stream used by
//! encrypted index and record blocks.

use vstd::prelude::*;

verus! {

/// Addition modulo 2^32.
pub open spec fn wadd(a: u32, b: u32) -> u32 {
    if a + b > u32::MAX {
        (a + b - 0x1_0000_0000) as u32
    } else {
        (a + b) as u32
    }
}

/// Left rotation of a 32-bit word.
pub open spec fn rotl_spec(x: u32, n: u32) -> u32
    recommends
        1 <= n <= 31,
{
    (x << n) | (x >> ((32 - n) as u32))
}

/// Round function of the first round group.
pub open spec fn f_spec(x: u32, y: u32, z: u32) -> u32 {
    x ^ y ^ z
}

/// Round function of the second round group.
pub open spec fn g_spec(x: u32, y: u32, z: u32) -> u32 {
    (x & y) | (!x & z)
}

/// Round function of the third round group.
pub open spec fn h_spec(x: u32, y: u32, z: u32) -> u32 {
    (x | !y) ^ z
}

/// Round function of the fourth round group.
pub open spec fn i_spec(x: u32, y: u32, z: u32) -> u32 {
    (x & z) | (y & !z)
}

/// The round function applied by the left line in round group `r`.
pub open spec fn left_f(r: int, x: u32, y: u32, z: u32) -> u32 {
    if r == 0 {
        f_spec(x, y, z)
    } else if r == 1 {
        g_spec(x, y, z)
    } else if r == 2 {
        h_spec(x, y, z)
    } else {
        i_spec(x, y, z)
    }
}

/// The round function applied by the right line in round group `r`.
pub open spec fn right_f(r: int, x: u32, y: u32, z: u32) -> u32 {
    if r == 0 {
        i_spec(x, y, z)
    } else if r == 1 {
        h_spec(x, y, z)
    } else if r == 2 {
        g_spec(x, y, z)
    } else {
        f_spec(x, y, z)
    }
}

/// The additive constant of the left line in round group `r`.
pub open spec fn left_k(r: int) -> u32 {
    if r == 0 {
        0
    } else if r == 1 {
        0x5a827999
    } else if r == 2 {
        0x6ed9eba1
    } else {
        0x8f1bbcdc
    }
}

/// The additive constant of the right line in round group `r`.
pub open spec fn right_k(r: int) -> u32 {
    if r == 0 {
        0x50a28be6
    } else if r == 1 {
        0x5c4dd124
    } else if r == 2 {
        0x6d703ef3
    } else {
        0
    }
}

/// Message word order of the left line, all 64 steps.
pub open spec fn left_order() -> Seq<u8> {
    seq![
        0u8, 1, 2, 3, 4, 5, 6, 7, 8, 9, 10, 11, 12, 13, 14, 15,
        7, 4, 13, 1, 10, 6, 15, 3, 12, 0, 9, 5, 2, 14, 11, 8,
        3, 10, 14, 4, 9, 15, 8, 1, 2, 7, 0, 6, 13, 11, 5, 12,
        1, 9, 11, 10, 0, 8, 12, 4, 13, 3, 7, 15, 14, 5, 6, 2,
    ]
}

/// Shift amounts of the left line, all 64 steps.
pub open spec fn left_shift() -> Seq<u8> {
    seq![
        11u8, 14, 15, 12, 5, 8, 7, 9, 11, 13, 14, 15, 6, 7, 9, 8,
        7, 6, 8, 13, 11, 9, 7, 15, 7, 12, 15, 9, 11, 7, 13, 12,
        11, 13, 6, 7, 14, 9, 13, 15, 14, 8, 13, 6, 5, 12, 7, 5,
        11, 12, 14, 15, 14, 15, 9, 8, 9, 14, 5, 6, 8, 6, 5, 12,
    ]
}

/// Message word order of the right line, all 64 steps.
pub open spec fn right_order() -> Seq<u8> {
    seq![
        5u8, 14, 7, 0, 9, 2, 11, 4, 13, 6, 15, 8, 1, 10, 3, 12,
        6, 11, 3, 7, 0, 13, 5, 10, 14, 15, 8, 12, 4, 9, 1, 2,
        15, 5, 1, 3, 7, 14, 6, 9, 11, 8, 12, 2, 10, 0, 4, 13,
        8, 6, 4, 1, 3, 11, 15, 0, 5, 12, 2, 13, 9, 7, 10, 14,
    ]
}

/// Shift amounts of the right line, all 64 steps.
pub open spec fn right_shift() -> Seq<u8> {
    seq![
        8u8, 9, 9, 11, 13, 15, 15, 5, 7, 7, 8, 11, 14, 14, 12, 6,
        9, 13, 15, 7, 12, 8, 9, 11, 7, 7, 12, 7, 6, 15, 13, 11,
        9, 7, 15, 11, 8, 6, 6, 14, 12, 13, 5, 14, 13, 13, 7, 5,
        15, 5, 8, 11, 14, 14, 6, 14, 6, 9, 12, 9, 12, 5, 15, 8,
    ]
}

/// One step of the left line on state `(a, b, c, d)`.
pub open spec fn left_step(st: (u32, u32, u32, u32), x: Seq<u32>, j: int) -> (u32, u32, u32, u32) {
    let t = wadd(
        wadd(wadd(st.0, left_f(j / 16, st.1, st.2, st.3)), x[left_order()[j] as int]),
        left_k(j / 16),
    );
    (st.3, rotl_spec(t, left_shift()[j] as u32), st.1, st.2)
}

/// One step of the right line on state `(a, b, c, d)`.
pub open spec fn right_step(st: (u32, u32, u32, u32), x: Seq<u32>, j: int) -> (u32, u32, u32, u32) {
    let t = wadd(
        wadd(wadd(st.0, right_f(j / 16, st.1, st.2, st.3)), x[right_order()[j] as int]),
        right_k(j / 16),
    );
    (st.3, rotl_spec(t, right_shift()[j] as u32), st.1, st.2)
}

/// The left line after its first `j` steps.
pub open spec fn left_rounds(st: (u32, u32, u32, u32), x: Seq<u32>, j: nat) -> (u32, u32, u32, u32)
    decreases j,
{
    if j == 0 {
        st
    } else {
        left_step(left_rounds(st, x, (j - 1) as nat), x, j - 1)
    }
}

/// The right line after its first `j` steps.
pub open spec fn right_rounds(st: (u32, u32, u32, u32), x: Seq<u32>, j: nat) -> (u32, u32, u32, u32)
    decreases j,
{
    if j == 0 {
        st
    } else {
        right_step(right_rounds(st, x, (j - 1) as nat), x, j - 1)
    }
}

/// The compression function: both 64-step lines over one 16-word block,
/// then the cross-line final addition.
pub open spec fn compress_spec(h: Seq<u32>, x: Seq<u32>) -> Seq<u32> {
    let init = (h[0], h[1], h[2], h[3]);
    let l = left_rounds(init, x, 64);
    let r = right_rounds(init, x, 64);
    seq![
        wadd(wadd(h[1], l.2), r.3),
        wadd(wadd(h[2], l.3), r.0),
        wadd(wadd(h[3], l.0), r.1),
        wadd(wadd(h[0], l.1), r.2),
    ]
}

/// The little-endian 64-bit encoding of `v`.
pub open spec fn le64_bytes(v: u64) -> Seq<u8> {
    seq![
        (v % 256) as u8,
        ((v / 0x100) % 256) as u8,
        ((v / 0x10000) % 256) as u8,
        ((v / 0x1000000) % 256) as u8,
        ((v / 0x100000000) % 256) as u8,
        ((v / 0x10000000000) % 256) as u8,
        ((v / 0x1000000000000) % 256) as u8,
        ((v / 0x100000000000000) % 256) as u8,
    ]
}

/// The little-endian 32-bit encoding of `v`.
pub open spec fn le32_bytes(v: u32) -> Seq<u8> {
    seq![(v % 256) as u8, ((v / 0x100) % 256) as u8, ((v / 0x10000) % 256) as u8, ((v
        / 0x1000000) % 256) as u8]
}

/// The 32-bit word read little-endian at offset `off`.
pub open spec fn le32_at(s: Seq<u8>, off: int) -> u32 {
    (s[off] + s[off + 1] * 0x100 + s[off + 2] * 0x10000 + s[off + 3] * 0x1000000) as u32
}

/// The message padded to a 64-byte boundary: a 0x80 byte, zeros up to 56 mod
/// 64, then the bit length as a little-endian 64-bit integer.
pub open spec fn pad_spec(data: Seq<u8>) -> Seq<u8> {
    let zeros = (56 - ((data.len() + 1) as int % 64)) % 64;
    data + seq![0x80u8] + Seq::new(zeros as nat, |i: int| 0u8) + le64_bytes((data.len() * 8) as u64)
}

/// The 16 message words of block `blk` of the padded message.
pub open spec fn block_words(padded: Seq<u8>, blk: int) -> Seq<u32> {
    Seq::new(16, |w: int| le32_at(padded, blk * 64 + w * 4))
}

/// The hash state after the first `n` blocks.
pub open spec fn process_blocks(h: Seq<u32>, padded: Seq<u8>, n: nat) -> Seq<u32>
    decreases n,
{
    if n == 0 {
        h
    } else {
        compress_spec(process_blocks(h, padded, (n - 1) as nat), block_words(padded, n - 1))
    }
}

/// The RIPEMD-128 digest of `data`: 16 bytes, the four state words encoded
/// little-endian.
pub open spec fn ripemd128_spec(data: Seq<u8>) -> Seq<u8> {
    let padded = pad_spec(data);
    let h = process_blocks(
        seq![0x67452301u32, 0xefcdab89u32, 0x98badcfeu32, 0x10325476u32],
        padded,
        (padded.len() / 64) as nat,
    );
    le32_bytes(h[0]) + le32_bytes(h[1]) + le32_bytes(h[2]) + le32_bytes(h[3])
}

/// Left rotation.
fn rotl(x: u32, n: u32) -> (r: u32)
    requires
        1 <= n <= 31,
    ensures
        r == rotl_spec(x, n),
{
    (x << n) | (x >> (32 - n))
}

/// The padded length is a multiple of 64.
proof fn lemma_pad_len_mod(n: nat)
    ensures
        (n + 1 + ((56 - ((n + 1) as int % 64)) % 64) + 8) % 64 == 0,
{
}

/// Pad message to a 64-byte boundary.
#[verifier::rlimit(100)]
fn pad_message(data: &[u8]) -> (r: Vec<u8>)
    requires
        data@.len() + 72 <= usize::MAX,
        data@.len() * 8 <= u64::MAX,
    ensures
        r@ == pad_spec(data@),
        r@.len() % 64 == 0,
{
    let n = data.len();
    let mut padded: Vec<u8> = vstd::slice::slice_to_vec(data);
    padded.push(0x80);
    let rem = (n + 1) % 64;
    let zeros = if rem <= 56 {
        56 - rem
    } else {
        56 + 64 - rem
    };
    proof {
        assert(zeros as int == (56 - ((data@.len() + 1) as int % 64)) % 64);
        assert(padded@ =~= data@ + seq![0x80u8] + Seq::new(0, |i: int| 0u8));
    }
    let mut k: usize = 0;
    while k < zeros
        invariant
            zeros <= 63,
            data@.len() + 72 <= usize::MAX,
            k <= zeros,
            padded@.len() == data@.len() + 1 + k,
            padded@ == data@ + seq![0x80u8] + Seq::new(k as nat, |i: int| 0u8),
        decreases zeros - k,
    {
        padded.push(0x00);
        proof {
            assert(data@ + seq![0x80u8] + Seq::new((k + 1) as nat, |i: int| 0u8) =~= (data@
                + seq![0x80u8] + Seq::new(k as nat, |i: int| 0u8)).push(0u8));
        }
        k = k + 1;
    }
    let bit_len: u64 = (n as u64) * 8;
    let ghost before = padded@;
    let mut tail: Vec<u8> = Vec::new();
    tail.push((bit_len % 256) as u8);
    tail.push(((bit_len / 0x100) % 256) as u8);
    tail.push(((bit_len / 0x10000) % 256) as u8);
    tail.push(((bit_len / 0x1000000) % 256) as u8);
    tail.push(((bit_len / 0x100000000) % 256) as u8);
    tail.push(((bit_len / 0x10000000000) % 256) as u8);
    tail.push(((bit_len / 0x1000000000000) % 256) as u8);
    tail.push(((bit_len / 0x100000000000000) % 256) as u8);
    proof {
        assert(tail@ =~= le64_bytes((data@.len() * 8) as u64));
    }
    padded.append(&mut tail);
    proof {
        assert(padded@ =~= pad_spec(data@));
        assert(padded@.len() % 64 == 0) by {
            assert(padded@.len() == data@.len() + 1 + zeros + 8);
            lemma_pad_len_mod(data@.len());
        }
    }
    padded
}

/// The compression function over one 16-word block.
fn compress(hash: &mut Vec<u32>, x: &Vec<u32>)
    requires
        old(hash)@.len() == 4,
        x@.len() == 16,
    ensures
        final(hash)@ == compress_spec(old(hash)@, x@),
        final(hash)@.len() == 4,
{
    let lo: [u8; 64] = [
        0, 1, 2, 3, 4, 5, 6, 7, 8, 9, 10, 11, 12, 13, 14, 15,
        7, 4, 13, 1, 10, 6, 15, 3, 12, 0, 9, 5, 2, 14, 11, 8,
        3, 10, 14, 4, 9, 15, 8, 1, 2, 7, 0, 6, 13, 11, 5, 12,
        1, 9, 11, 10, 0, 8, 12, 4, 13, 3, 7, 15, 14, 5, 6, 2,
    ];
    let ls: [u8; 64] = [
        11, 14, 15, 12, 5, 8, 7, 9, 11, 13, 14, 15, 6, 7, 9, 8,
        7, 6, 8, 13, 11, 9, 7, 15, 7, 12, 15, 9, 11, 7, 13, 12,
        11, 13, 6, 7, 14, 9, 13, 15, 14, 8, 13, 6, 5, 12, 7, 5,
        11, 12, 14, 15, 14, 15, 9, 8, 9, 14, 5, 6, 8, 6, 5, 12,
    ];
    let ro: [u8; 64] = [
        5, 14, 7, 0, 9, 2, 11, 4, 13, 6, 15, 8, 1, 10, 3, 12,
        6, 11, 3, 7, 0, 13, 5, 10, 14, 15, 8, 12, 4, 9, 1, 2,
        15, 5, 1, 3, 7, 14, 6, 9, 11, 8, 12, 2, 10, 0, 4, 13,
        8, 6, 4, 1, 3, 11, 15, 0, 5, 12, 2, 13, 9, 7, 10, 14,
    ];
    let rs: [u8; 64] = [
        8, 9, 9, 11, 13, 15, 15, 5, 7, 7, 8, 11, 14, 14, 12, 6,
        9, 13, 15, 7, 12, 8, 9, 11, 7, 7, 12, 7, 6, 15, 13, 11,
        9, 7, 15, 11, 8, 6, 6, 14, 12, 13, 5, 14, 13, 13, 7, 5,
        15, 5, 8, 11, 14, 14, 6, 14, 6, 9, 12, 9, 12, 5, 15, 8,
    ];
    proof {
        assert(lo@ =~= left_order());
        assert(ls@ =~= left_shift());
        assert(ro@ =~= right_order());
        assert(rs@ =~= right_shift());
    }
    let h0 = hash[0];
    let h1 = hash[1];
    let h2 = hash[2];
    let h3 = hash[3];
    let ghost init = (h0, h1, h2, h3);

    let mut a = h0;
    let mut b = h1;
    let mut c = h2;
    let mut d = h3;
    let mut j: usize = 0;
    while j < 64
        invariant
            x@.len() == 16,
            lo@ == left_order(),
            ls@ == left_shift(),
            j <= 64,
            (a, b, c, d) == left_rounds(init, x@, j as nat),
        decreases 64 - j,
    {
        let r = j / 16;
        let fv = if r == 0 {
            b ^ c ^ d
        } else if r == 1 {
            (b & c) | (!b & d)
        } else if r == 2 {
            (b | !c) ^ d
        } else {
            (b & d) | (c & !d)
        };
        let k = if r == 0 {
            0u32
        } else if r == 1 {
            0x5a827999
        } else if r == 2 {
            0x6ed9eba1
        } else {
            0x8f1bbcdc
        };
        proof {
            assert(0 <= left_order()[j as int] < 16 && 1 <= left_shift()[j as int] <= 31) by {
                assert(0 <= lo@[j as int] < 16 && 1 <= ls@[j as int] <= 31);
            }
        }
        let idx = lo[j] as usize;
        let t = a.wrapping_add(fv).wrapping_add(x[idx]).wrapping_add(k);
        let nb = rotl(t, ls[j] as u32);
        proof {
            assert(fv == left_f(j as int / 16, b, c, d));
            assert(k == left_k(j as int / 16));
            assert(t == wadd(wadd(wadd(a, fv), x@[idx as int]), k));
            assert((d, nb, b, c) == left_step((a, b, c, d), x@, j as int));
            assert(left_rounds(init, x@, (j + 1) as nat) == left_step(
                left_rounds(init, x@, j as nat),
                x@,
                j as int,
            ));
        }
        let na = d;
        let nc = b;
        let nd = c;
        a = na;
        b = nb;
        c = nc;
        d = nd;
        j = j + 1;
    }

    let mut aa = h0;
    let mut bb = h1;
    let mut cc = h2;
    let mut dd = h3;
    let mut j2: usize = 0;
    while j2 < 64
        invariant
            x@.len() == 16,
            ro@ == right_order(),
            rs@ == right_shift(),
            j2 <= 64,
            (aa, bb, cc, dd) == right_rounds(init, x@, j2 as nat),
        decreases 64 - j2,
    {
        let r = j2 / 16;
        let fv = if r == 0 {
            (bb & dd) | (cc & !dd)
        } else if r == 1 {
            (bb | !cc) ^ dd
        } else if r == 2 {
            (bb & cc) | (!bb & dd)
        } else {
            bb ^ cc ^ dd
        };
        let k = if r == 0 {
            0x50a28be6u32
        } else if r == 1 {
            0x5c4dd124
        } else if r == 2 {
            0x6d703ef3
        } else {
            0
        };
        proof {
            assert(0 <= right_order()[j2 as int] < 16 && 1 <= right_shift()[j2 as int] <= 31) by {
                assert(0 <= ro@[j2 as int] < 16 && 1 <= rs@[j2 as int] <= 31);
            }
        }
        let idx = ro[j2] as usize;
        let t = aa.wrapping_add(fv).wrapping_add(x[idx]).wrapping_add(k);
        let nb = rotl(t, rs[j2] as u32);
        proof {
            assert(fv == right_f(j2 as int / 16, bb, cc, dd));
            assert(k == right_k(j2 as int / 16));
            assert(t == wadd(wadd(wadd(aa, fv), x@[idx as int]), k));
            assert((dd, nb, bb, cc) == right_step((aa, bb, cc, dd), x@, j2 as int));
            assert(right_rounds(init, x@, (j2 + 1) as nat) == right_step(
                right_rounds(init, x@, j2 as nat),
                x@,
                j2 as int,
            ));
        }
        let na = dd;
        let nc = bb;
        let nd = cc;
        aa = na;
        bb = nb;
        cc = nc;
        dd = nd;
        j2 = j2 + 1;
    }

    let t = h1.wrapping_add(c).wrapping_add(dd);
    let n1 = h2.wrapping_add(d).wrapping_add(aa);
    let n2 = h3.wrapping_add(a).wrapping_add(bb);
    let n3 = h0.wrapping_add(b).wrapping_add(cc);
    let mut out: Vec<u32> = Vec::new();
    out.push(t);
    out.push(n1);
    out.push(n2);
    out.push(n3);
    proof {
        assert(out@ =~= compress_spec(old(hash)@, x@));
    }
    *hash = out;
}

/// RIPEMD-128 hash function.
#[verifier::rlimit(50)]
pub fn ripemd128(data: &[u8]) -> (r: Vec<u8>)
    requires
        data@.len() + 72 <= usize::MAX,
        data@.len() * 8 <= u64::MAX,
    ensures
        r@ == ripemd128_spec(data@),
        r@.len() == 16,
{
    let padded = pad_message(data);
    let ghost p = padded@;
    let mut hash: Vec<u32> = Vec::new();
    hash.push(0x67452301);
    hash.push(0xefcdab89);
    hash.push(0x98badcfe);
    hash.push(0x10325476);
    let ghost iv = hash@;
    proof {
        assert(iv =~= seq![0x67452301u32, 0xefcdab89u32, 0x98badcfeu32, 0x10325476u32]);
    }
    let n_blocks = padded.len() / 64;
    proof {
        assert(p.len() == n_blocks * 64);
    }
    let mut blk: usize = 0;
    while blk < n_blocks
        invariant
            p == padded@,
            p.len() == n_blocks * 64,
            n_blocks * 64 <= usize::MAX,
            blk <= n_blocks,
            hash@.len() == 4,
            hash@ == process_blocks(iv, p, blk as nat),
        decreases n_blocks - blk,
    {
        let mut x: Vec<u32> = Vec::new();
        let mut w: usize = 0;
        while w < 16
            invariant
                p == padded@,
                p.len() == n_blocks * 64,
                n_blocks * 64 <= usize::MAX,
                blk < n_blocks,
                w <= 16,
                x@.len() == w,
                forall|q: int| 0 <= q < w ==> x@[q] == le32_at(p, blk * 64 + q * 4),
            decreases 16 - w,
        {
            proof {
                assert(blk * 64 + 64 <= n_blocks * 64) by (nonlinear_arith)
                    requires
                        blk < n_blocks,
                ;
            }
            let base = blk * 64 + w * 4;
            let b0 = padded[base] as u32;
            let b1 = padded[base + 1] as u32;
            let b2 = padded[base + 2] as u32;
            let b3 = padded[base + 3] as u32;
            let word = b0 + b1 * 0x100 + b2 * 0x10000 + b3 * 0x1000000;
            x.push(word);
            w = w + 1;
        }
        proof {
            assert(x@ =~= block_words(p, blk as int));
            assert(process_blocks(iv, p, (blk + 1) as nat) == compress_spec(
                process_blocks(iv, p, blk as nat),
                block_words(p, blk as int),
            ));
        }
        compress(&mut hash, &x);
        blk = blk + 1;
    }
    let mut out: Vec<u8> = Vec::new();
    let mut i: usize = 0;
    while i < 4
        invariant
            hash@.len() == 4,
            i <= 4,
            out@.len() == i * 4,
            out@ =~= le_words_prefix(hash@, i as int),
        decreases 4 - i,
    {
        let v = hash[i];
        out.push((v % 256) as u8);
        out.push(((v / 0x100) % 256) as u8);
        out.push(((v / 0x10000) % 256) as u8);
        out.push(((v / 0x1000000) % 256) as u8);
        proof {
            assert(out@ =~= le_words_prefix(hash@, i as int) + le32_bytes(hash@[i as int]));
            assert(le_words_prefix(hash@, i + 1) =~= le_words_prefix(hash@, i as int)
                + le32_bytes(hash@[i as int]));
        }
        i = i + 1;
    }
    proof {
        reveal_with_fuel(le_words_prefix, 5);
        assert(n_blocks == p.len() / 64);
        assert(out@ =~= ripemd128_spec(data@));
    }
    out
}

/// The first `i` hash words encoded little-endian.
pub open spec fn le_words_prefix(h: Seq<u32>, i: int) -> Seq<u8>
    decreases i,
{
    if i <= 0 {
        Seq::<u8>::empty()
    } else {
        le_words_prefix(h, i - 1) + le32_bytes(h[i - 1])
    }
}

} // verus!
