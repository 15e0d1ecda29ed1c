//! LZO1X decompression: the canonical lead-byte state machine, decoding a
//! stream to a caller-declared output size.
//!
//! `decompress` first delegates to the minilzo port and falls back to the
//! in-tree decoder, whose behaviour is specified exactly by
//! `lzo_decompress_spec`.

use vstd::prelude::*;

use crate::error::MdictError;
use crate::shims;
use crate::utils::bytes_range;

verus! {

/// Length of the run of zero bytes starting at `i`.
pub open spec fn zrun(inp: Seq<u8>, i: int) -> nat
    decreases inp.len() - i,
    when 0 <= i <= inp.len()
{
    if i < inp.len() && inp[i] == 0 {
        1 + zrun(inp, i + 1)
    } else {
        0
    }
}

/// Byte-wise forward copy of `len` bytes from `offset` back in the output,
/// as the decoder performs it: the copy may overlap its own output, and an
/// offset of zero reads the zero bytes beyond the written region.
pub open spec fn lzo_copy_spec(out: Seq<u8>, offset: int, len: nat) -> Seq<u8>
    decreases len,
{
    if len == 0 {
        out
    } else {
        let b: u8 = if offset == 0 {
            0u8
        } else {
            out[out.len() - offset]
        };
        lzo_copy_spec(out.push(b), offset, (len - 1) as nat)
    }
}

/// A match or literal length after the extended-length escape: when the low
/// bits are zero, every zero byte adds 255 and the next byte closes the run.
/// The result pairs the length with the position after it.
pub open spec fn ext_len_spec(inp: Seq<u8>, ip: int, base: int, low: int) -> Option<(int, int)> {
    if low != 0 {
        Some((low, ip))
    } else {
        let z = zrun(inp, ip) as int;
        if ip + z >= inp.len() {
            None
        } else {
            Some((base + 255 * z + inp[ip + z], ip + z + 1))
        }
    }
}

/// One dispatch step of the decoder on lead byte `t`: the new input position
/// and output, or a failure (invalid offset, write past the declared size,
/// or truncated input).
pub open spec fn lzo_step_spec(inp: Seq<u8>, ip: int, out: Seq<u8>, cap: nat, t: u8) -> Option<
    (int, Seq<u8>),
> {
    if t >= 64 {
        // Short match: length and offset packed in the lead byte and one
        // more byte, then a trailing literal drawn from that byte's low bits.
        if ip >= inp.len() {
            None
        } else {
            let len = (t >> 5) as int + 3;
            let offset = ((t & 0x1f) as int) * 8 + ((inp[ip] >> 5) as int) + 1;
            let ip1 = ip + 1;
            if offset > out.len() || out.len() + len > cap {
                None
            } else {
                let out1 = lzo_copy_spec(out, offset, len as nat);
                let next = (inp[ip] & 0x1f) as int;
                if next > 0 {
                    if ip1 + next <= inp.len() && out1.len() + next <= cap {
                        Some((ip1 + next, out1 + inp.subrange(ip1, ip1 + next)))
                    } else {
                        None
                    }
                } else {
                    Some((ip1, out1))
                }
            }
        }
    } else if t >= 32 {
        // Variable-length match with a two-byte offset.
        match ext_len_spec(inp, ip, 31, (t & 0x1f) as int) {
            None => None,
            Some(lp) => {
                let len = lp.0;
                let ipa = lp.1;
                if ipa + 1 >= inp.len() {
                    None
                } else {
                    let offset = inp[ipa] + inp[ipa + 1] * 256 + 1;
                    if offset > out.len() || out.len() + len + 2 > cap {
                        None
                    } else {
                        Some((ipa + 2, lzo_copy_spec(out, offset as int, (len + 2) as nat)))
                    }
                }
            },
        }
    } else if t >= 16 {
        // Long match with a two-byte offset, 16K further when t >= 24.
        match ext_len_spec(inp, ip, 7, (t & 0x07) as int) {
            None => None,
            Some(lp) => {
                let len = lp.0;
                let ipa = lp.1;
                if ipa + 1 >= inp.len() {
                    None
                } else {
                    let offset0 = inp[ipa] + inp[ipa + 1] * 256;
                    let offset: int = if t >= 24 {
                        offset0 + 0x4000
                    } else {
                        offset0 as int
                    };
                    if offset > out.len() || out.len() + len + 2 > cap {
                        None
                    } else {
                        Some((ipa + 2, lzo_copy_spec(out, offset, (len + 2) as nat)))
                    }
                }
            },
        }
    } else {
        // Literal run.
        match ext_len_spec(inp, ip, 15, t as int) {
            None => None,
            Some(lp) => {
                let len = lp.0;
                let ipa = lp.1;
                let total = len + 3;
                if ipa + total <= inp.len() && out.len() + total <= cap {
                    Some((ipa + total, out + inp.subrange(ipa, ipa + total)))
                } else {
                    None
                }
            },
        }
    }
}

/// Every successful step consumes input and stays inside it.
pub proof fn lemma_lzo_step_advances(inp: Seq<u8>, ip: int, out: Seq<u8>, cap: nat, t: u8)
    requires
        0 <= ip <= inp.len(),
    ensures
        match lzo_step_spec(inp, ip, out, cap, t) {
            Some(st) => ip < st.0 <= inp.len(),
            None => true,
        },
{
}

/// The decoder's main loop: dispatch on `t`, then read the next lead byte,
/// until the input is exhausted.
pub open spec fn lzo_loop_spec(inp: Seq<u8>, ip: int, out: Seq<u8>, cap: nat, t: u8) -> Option<
    Seq<u8>,
>
    decreases inp.len() - ip,
    when 1 <= ip <= inp.len()
    via lzo_loop_decreases
{
    match lzo_step_spec(inp, ip, out, cap, t) {
        None => None,
        Some(st) => {
            if st.0 >= inp.len() {
                Some(st.1)
            } else {
                lzo_loop_spec(inp, st.0 + 1, st.1, cap, inp[st.0])
            }
        },
    }
}

#[via_fn]
proof fn lzo_loop_decreases(inp: Seq<u8>, ip: int, out: Seq<u8>, cap: nat, t: u8) {
    lemma_lzo_step_advances(inp, ip, out, cap, t);
}

/// The LZO1X decoding of `inp` to at most `cap` output bytes, exactly as the
/// in-tree decoder computes it: an optional first literal run (lead byte
/// above 17), then the loop.
pub open spec fn lzo_decompress_spec(inp: Seq<u8>, cap: nat) -> Option<Seq<u8>> {
    if inp.len() == 0 {
        Some(Seq::<u8>::empty())
    } else {
        let t0 = inp[0];
        if t0 > 17 {
            let lit = (t0 - 17) as int;
            if 1 + lit <= inp.len() && lit <= cap {
                let out = inp.subrange(1, 1 + lit);
                let ip = 1 + lit;
                if ip >= inp.len() {
                    None
                } else if inp[ip] < 16 {
                    None
                } else {
                    lzo_loop_spec(inp, ip + 1, out, cap, inp[ip])
                }
            } else {
                None
            }
        } else {
            lzo_loop_spec(inp, 1, Seq::<u8>::empty(), cap, t0)
        }
    }
}

/// What a successful `decompress` returns: either the minilzo port's result
/// or the in-tree decoder's.
pub open spec fn lzo_output_ok(inp: Seq<u8>, cap: nat, out: Seq<u8>) -> bool {
    Some(out) == shims::minilzo_of(inp, cap) || Some(out) == lzo_decompress_spec(inp, cap)
}

fn decompression_error(msg: &str) -> (r: MdictError)
    ensures
        r is DecompressionError,
{
    MdictError::DecompressionError(String::from_str(msg))
}

/// Forward byte-wise copy from `offset` back, appending to `out`.
fn lzo_copy_exec(out: &mut Vec<u8>, offset: usize, len: usize)
    requires
        offset <= old(out)@.len(),
        old(out)@.len() + len <= usize::MAX,
    ensures
        final(out)@ == lzo_copy_spec(old(out)@, offset as int, len as nat),
        final(out)@.len() == old(out)@.len() + len,
{
    let mut k: usize = 0;
    while k < len
        invariant
            k <= len,
            offset <= out@.len(),
            out@.len() == old(out)@.len() + k,
            lzo_copy_spec(old(out)@, offset as int, len as nat) == lzo_copy_spec(
                out@,
                offset as int,
                (len - k) as nat,
            ),
        decreases len - k,
    {
        let b: u8 = if offset == 0 {
            0u8
        } else {
            out[out.len() - offset]
        };
        out.push(b);
        k = k + 1;
    }
}

/// Read an extended length: `low` when it is non-zero, else 255 per zero
/// byte plus the closing byte, on top of `base`.  Fails on truncated input
/// and once the length provably exceeds the declared output size.
fn read_ext_len(inp: &[u8], ip: usize, base: usize, low: usize, cap: usize) -> (r: Result<
    (usize, usize),
    MdictError,
>)
    requires
        ip <= inp@.len(),
        base <= 31,
        low <= 31,
        cap <= usize::MAX - 1024,
    ensures
        match r {
            Ok(lp) => ext_len_spec(inp@, ip as int, base as int, low as int) == Some(
                (lp.0 as int, lp.1 as int),
            ) && lp.1 <= inp@.len() && lp.0 <= cap + 600,
            Err(e) => (ext_len_spec(inp@, ip as int, base as int, low as int) is None || (
            ext_len_spec(inp@, ip as int, base as int, low as int) matches Some(lp) && lp.0 > cap))
                && e is DecompressionError,
        },
{
    if low != 0 {
        return Ok((low, ip));
    }
    let n = inp.len();
    let mut j: usize = ip;
    let mut acc: usize = 0;
    loop
        invariant
            low == 0,
            base <= 31,
            ip <= j <= n,
            n == inp@.len(),
            cap <= usize::MAX - 1024,
            acc == 255 * (j - ip),
            acc <= cap + 255,
            zrun(inp@, ip as int) == (j - ip) + zrun(inp@, j as int),
        decreases n - j,
    {
        if j >= n {
            proof {
                assert(zrun(inp@, j as int) == 0);
            }
            return Err(decompression_error("unexpected end of input"));
        }
        if inp[j] == 0 {
            proof {
                assert(zrun(inp@, j as int) == 1 + zrun(inp@, j + 1));
            }
            if acc > cap {
                proof {
                    let z = zrun(inp@, ip as int) as int;
                    assert(z >= j - ip + 1);
                    if ip + z < inp@.len() {
                        assert(255 * z > cap) by (nonlinear_arith)
                            requires
                                z >= j - ip + 1,
                                acc == 255 * (j - ip),
                                acc > cap,
                        ;
                    }
                }
                return Err(decompression_error("length overflow"));
            }
            acc = acc + 255;
            j = j + 1;
        } else {
            proof {
                assert(zrun(inp@, j as int) == 0);
                assert(zrun(inp@, ip as int) == j - ip);
            }
            let l = base + acc + (inp[j] as usize);
            return Ok((l, j + 1));
        }
    }
}

/// Decompress an LZO1X stream with the in-tree decoder, to at most
/// `output_size` bytes.
pub fn lzo1x_decompress(input: &[u8], output_size: usize) -> (r: Result<Vec<u8>, MdictError>)
    requires
        output_size <= usize::MAX - 1024,
    ensures
        match r {
            Ok(v) => lzo_decompress_spec(input@, output_size as nat) == Some(v@) && v@.len()
                <= output_size,
            Err(e) => lzo_decompress_spec(input@, output_size as nat) is None && e
                is DecompressionError,
        },
{
    let n = input.len();
    let cap = output_size;
    if n == 0 {
        let empty_out: Vec<u8> = Vec::new();
        proof {
            assert(empty_out@ =~= Seq::<u8>::empty());
        }
        return Ok(empty_out);
    }
    let mut out: Vec<u8> = Vec::new();
    let mut ip: usize = 1;
    let mut t: u8 = input[0];
    if t > 17 {
        let lit = (t as usize) - 17;
        if lit > n - 1 || lit > cap {
            return Err(decompression_error("buffer overflow in literal copy"));
        }
        out = bytes_range(input, 1, 1 + lit);
        ip = 1 + lit;
        if ip >= n {
            return Err(decompression_error("unexpected end of input"));
        }
        t = input[ip];
        ip = ip + 1;
        if t < 16 {
            return Err(decompression_error("invalid lead byte"));
        }
    }
    proof {
        assert(lzo_decompress_spec(input@, cap as nat) == lzo_loop_spec(
            input@,
            ip as int,
            out@,
            cap as nat,
            t,
        ));
    }
    loop
        invariant
            1 <= ip <= n,
            n == input@.len(),
            cap == output_size,
            cap <= usize::MAX - 1024,
            out@.len() <= cap,
            lzo_decompress_spec(input@, cap as nat) == lzo_loop_spec(
                input@,
                ip as int,
                out@,
                cap as nat,
                t,
            ),
        decreases n - ip,
    {
        let ghost old_ip = ip as int;
        let ghost old_out = out@;
        if t >= 64 {
            if ip >= n {
                return Err(decompression_error("unexpected end of input"));
            }
            let byte = input[ip];
            proof {
                assert((t & 0x1f) < 32 && (byte >> 5) < 8 && (byte & 0x1f) < 32) by (bit_vector);
            }
            let len = ((t >> 5) as usize) + 3;
            let offset = ((t & 0x1f) as usize) * 8 + ((byte >> 5) as usize) + 1;
            ip = ip + 1;
            if offset > out.len() || len > cap - out.len() {
                return Err(decompression_error("invalid match offset"));
            }
            lzo_copy_exec(&mut out, offset, len);
            let next = (byte & 0x1f) as usize;
            if next > 0 {
                if next > n - ip || next > cap - out.len() {
                    return Err(decompression_error("buffer overflow in literal copy"));
                }
                let mut litv = bytes_range(input, ip, ip + next);
                out.append(&mut litv);
                ip = ip + next;
            }
            proof {
                assert(lzo_step_spec(input@, old_ip, old_out, cap as nat, t) == Some(
                    (ip as int, out@),
                ));
            }
        } else if t >= 32 {
            proof {
                assert((t & 0x1f) < 32) by (bit_vector);
            }
            let low = (t & 0x1f) as usize;
            let lenp = match read_ext_len(input, ip, 31, low, cap) {
                Ok(p) => p,
                Err(e) => {
                    return Err(e);
                },
            };
            let len = lenp.0;
            let ipa = lenp.1;
            if ipa >= n - 1 {
                return Err(decompression_error("unexpected end of input"));
            }
            let offset = (input[ipa] as usize) + (input[ipa + 1] as usize) * 256 + 1;
            let total = len + 2;
            if offset > out.len() || total > cap - out.len() {
                return Err(decompression_error("invalid match offset"));
            }
            lzo_copy_exec(&mut out, offset, total);
            ip = ipa + 2;
            proof {
                assert(lzo_step_spec(input@, old_ip, old_out, cap as nat, t) == Some(
                    (ip as int, out@),
                ));
            }
        } else if t >= 16 {
            proof {
                assert((t & 0x07) < 8) by (bit_vector);
            }
            let low = (t & 0x07) as usize;
            let lenp = match read_ext_len(input, ip, 7, low, cap) {
                Ok(p) => p,
                Err(e) => {
                    return Err(e);
                },
            };
            let len = lenp.0;
            let ipa = lenp.1;
            if ipa >= n - 1 {
                return Err(decompression_error("unexpected end of input"));
            }
            let offset0 = (input[ipa] as usize) + (input[ipa + 1] as usize) * 256;
            let offset = if t >= 24 {
                offset0 + 0x4000
            } else {
                offset0
            };
            let total = len + 2;
            if offset > out.len() || total > cap - out.len() {
                return Err(decompression_error("invalid match offset"));
            }
            lzo_copy_exec(&mut out, offset, total);
            ip = ipa + 2;
            proof {
                assert(lzo_step_spec(input@, old_ip, old_out, cap as nat, t) == Some(
                    (ip as int, out@),
                ));
            }
        } else {
            let low = t as usize;
            let lenp = match read_ext_len(input, ip, 15, low, cap) {
                Ok(p) => p,
                Err(e) => {
                    return Err(e);
                },
            };
            let len = lenp.0;
            let ipa = lenp.1;
            let total = len + 3;
            if total > n - ipa || total > cap - out.len() {
                return Err(decompression_error("buffer overflow in literal copy"));
            }
            let mut litv = bytes_range(input, ipa, ipa + total);
            out.append(&mut litv);
            ip = ipa + total;
            proof {
                assert(lzo_step_spec(input@, old_ip, old_out, cap as nat, t) == Some(
                    (ip as int, out@),
                ));
            }
        }
        if ip >= n {
            return Ok(out);
        }
        t = input[ip];
        ip = ip + 1;
    }
}

/// LZO1X decompressor state holder, for callers that keep one around.
pub struct Lzo1xDecompressor {}

impl Lzo1xDecompressor {
    /// Create a new decompressor.
    pub fn new() -> (r: Lzo1xDecompressor) {
        Lzo1xDecompressor {  }
    }

    /// Decompress LZO1X compressed data with the in-tree decoder.
    pub fn decompress(&mut self, input: &[u8], output_size: usize) -> (r: Result<
        Vec<u8>,
        MdictError,
    >)
        requires
            output_size <= usize::MAX - 1024,
        ensures
            match r {
                Ok(v) => lzo_decompress_spec(input@, output_size as nat) == Some(v@) && v@.len()
                    <= output_size,
                Err(e) => lzo_decompress_spec(input@, output_size as nat) is None && e
                    is DecompressionError,
            },
    {
        lzo1x_decompress(input, output_size)
    }
}

/// Decompress LZO1X data: first through the minilzo port, then, should that
/// fail, with the in-tree decoder.
pub fn decompress(input: &[u8], output_size: usize) -> (r: Result<Vec<u8>, MdictError>)
    requires
        output_size <= usize::MAX - 1024,
    ensures
        match r {
            Ok(v) => lzo_output_ok(input@, output_size as nat, v@) && v@.len() <= output_size,
            Err(e) => lzo_decompress_spec(input@, output_size as nat) is None && e
                is DecompressionError,
        },
{
    match shims::minilzo_decompress(input, output_size) {
        Some(v) => Ok(v),
        None => lzo1x_decompress(input, output_size),
    }
}

} // verus!
