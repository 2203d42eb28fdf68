//! A small, safe DEFLATE (RFC 1951) decompressor: stored, fixed-Huffman and
//! dynamic-Huffman blocks. It is needed to look inside `.tar.gz` members and
//! to decode zip symlink targets. Every output is capped by the caller (bomb
//! guard); malformed streams return typed errors.
use vstd::arithmetic::power2::*;
use vstd::prelude::*;
use vstd::slice::*;

use crate::bits;
use crate::bits::Bits;
use crate::huffman;
use crate::huffman::Huffman;

verus! {

#[derive(Debug, Clone, Copy, PartialEq, Eq)]
pub enum InflateError {
    /// Ran out of input mid-stream.
    UnexpectedEof,
    /// Reserved block type 3.
    InvalidBlockType,
    /// Stored block LEN/NLEN complement check failed.
    InvalidStoredLength,
    /// Huffman code description is over-subscribed or otherwise broken.
    InvalidCodeLengths,
    /// A decoded symbol has no assigned meaning.
    InvalidSymbol,
    /// Back-reference distance reaches before the start of the output.
    InvalidDistance,
    /// Output would exceed the caller's cap: likely a decompression bomb.
    OutputLimit,
}

impl InflateError {
    /// Human-readable description.
    pub fn message(&self) -> (r: &'static str)
        ensures
            r@ == inflate_message(*self),
    {
        match self {
            InflateError::UnexpectedEof => "unexpected end of compressed data",
            InflateError::InvalidBlockType => "reserved deflate block type",
            InflateError::InvalidStoredLength => "stored block length check failed",
            InflateError::InvalidCodeLengths => "invalid huffman code lengths",
            InflateError::InvalidSymbol => "invalid huffman symbol",
            InflateError::InvalidDistance => "back-reference before start of output",
            InflateError::OutputLimit => "output exceeds the configured unpack limit",
        }
    }
}

/// What [`InflateError::message`] says of each error.
pub open spec fn inflate_message(e: InflateError) -> Seq<char> {
    match e {
        InflateError::UnexpectedEof => "unexpected end of compressed data"@,
        InflateError::InvalidBlockType => "reserved deflate block type"@,
        InflateError::InvalidStoredLength => "stored block length check failed"@,
        InflateError::InvalidCodeLengths => "invalid huffman code lengths"@,
        InflateError::InvalidSymbol => "invalid huffman symbol"@,
        InflateError::InvalidDistance => "back-reference before start of output"@,
        InflateError::OutputLimit => "output exceeds the configured unpack limit"@,
    }
}

/// Shortest match length of each length symbol, from symbol 257 on.
pub const LENGTH_BASE: [u16; 29] = [
    3, 4, 5, 6, 7, 8, 9, 10, 11, 13, 15, 17, 19, 23, 27, 31, 35, 43, 51, 59, 67, 83, 99, 115, 131,
    163, 195, 227, 258,
];

/// Extra bits that follow each length symbol.
pub const LENGTH_EXTRA: [u32; 29] = [
    0, 0, 0, 0, 0, 0, 0, 0, 1, 1, 1, 1, 2, 2, 2, 2, 3, 3, 3, 3, 4, 4, 4, 4, 5, 5, 5, 5, 0,
];

/// Shortest distance of each distance symbol.
pub const DIST_BASE: [u16; 30] = [
    1, 2, 3, 4, 5, 7, 9, 13, 17, 25, 33, 49, 65, 97, 129, 193, 257, 385, 513, 769, 1025, 1537,
    2049, 3073, 4097, 6145, 8193, 12289, 16385, 24577,
];

/// Extra bits that follow each distance symbol.
pub const DIST_EXTRA: [u32; 30] = [
    0, 0, 0, 0, 1, 1, 2, 2, 3, 3, 4, 4, 5, 5, 6, 6, 7, 7, 8, 8, 9, 9, 10, 10, 11, 11, 12, 12, 13,
    13,
];

/// Order in which code-length code lengths are stored in dynamic blocks.
pub const CLEN_ORDER: [usize; 19] = [
    16, 17, 18, 0, 8, 7, 9, 6, 10, 5, 11, 4, 12, 3, 13, 2, 14, 1, 15,
];

/// What reading part of a stream yields: a value and the bit position after
/// it, or the error that stops the decoder.
pub type Read<T> = Result<(T, int), InflateError>;

/// The literal/length code of fixed-Huffman blocks.
pub open spec fn fixed_literals() -> Seq<u16> {
    Seq::new(
        288,
        |s: int|
            if s < 144 {
                8u16
            } else if s < 256 {
                9u16
            } else if s < 280 {
                7u16
            } else {
                8u16
            },
    )
}

/// The distance code of fixed-Huffman blocks.
pub open spec fn fixed_distances() -> Seq<u16> {
    Seq::new(30, |s: int| 5u16)
}

/// The code-length code after `k` of its 3-bit lengths were read from `p` on.
pub open spec fn clen_lengths(data: Seq<u8>, p: int, k: int) -> Seq<u16>
    decreases k,
{
    if k <= 0 {
        Seq::new(19, |s: int| 0u16)
    } else {
        clen_lengths(data, p, k - 1).update(
            CLEN_ORDER[k - 1] as int,
            bits::bits_value(data, p + 3 * (k - 1), 3) as u16,
        )
    }
}

/// The code lengths of a dynamic block: `acc` followed by what the
/// run-length coded symbols from `p` on append, until there are `total`.
pub open spec fn code_lengths(
    clen: Seq<u16>,
    data: Seq<u8>,
    p: int,
    acc: Seq<u16>,
    total: int,
) -> Read<Seq<u16>>
    decreases total - acc.len(),
{
    if acc.len() >= total {
        Ok((acc, p))
    } else {
        match huffman::symbol_at(clen, data, p) {
            Err(e) => Err(e),
            Ok((sym, q)) => {
                if sym <= 15 {
                    code_lengths(clen, data, q, acc.push(sym as u16), total)
                } else if sym == 16 && acc.len() == 0 {
                    Err(InflateError::InvalidCodeLengths)
                } else {
                    let extra: nat = if sym == 16 {
                        2
                    } else if sym == 17 {
                        3
                    } else {
                        7
                    };
                    let base: nat = if sym == 18 {
                        11
                    } else {
                        3
                    };
                    let value: u16 = if sym == 16 {
                        acc.last()
                    } else {
                        0
                    };
                    let run = base + bits::bits_value(data, q, extra);
                    if q + extra > bits::bit_len(data) {
                        Err(InflateError::UnexpectedEof)
                    } else if acc.len() + run > total {
                        Err(InflateError::InvalidCodeLengths)
                    } else {
                        code_lengths(
                            clen,
                            data,
                            q + extra,
                            acc + Seq::new(run, |i: int| value),
                            total,
                        )
                    }
                }
            },
        }
    }
}

/// The literal/length code and the distance code that a dynamic block
/// describes from `p` on.
#[verifier::opaque]
pub open spec fn dynamic_codes(data: Seq<u8>, p: int) -> Read<(Seq<u16>, Seq<u16>)> {
    let hlit = 257 + bits::bits_value(data, p, 5) as int;
    let hdist = 1 + bits::bits_value(data, p + 5, 5) as int;
    let hclen = 4 + bits::bits_value(data, p + 10, 4) as int;
    let clen = clen_lengths(data, p + 14, hclen);
    if p + 14 > bits::bit_len(data) {
        Err(InflateError::UnexpectedEof)
    } else if hlit > 286 || hdist > 30 {
        Err(InflateError::InvalidCodeLengths)
    } else if p + 14 + 3 * hclen > bits::bit_len(data) {
        Err(InflateError::UnexpectedEof)
    } else if huffman::over_subscribed(clen) {
        Err(InflateError::InvalidCodeLengths)
    } else {
        match code_lengths(clen, data, p + 14 + 3 * hclen, seq![], hlit + hdist) {
            Err(e) => Err(e),
            Ok((all, q)) => {
                // A block with no end-of-block code can never terminate.
                if all[256] == 0 || huffman::over_subscribed(all.take(hlit))
                    || huffman::over_subscribed(all.skip(hlit)) {
                    Err(InflateError::InvalidCodeLengths)
                } else {
                    Ok(((all.take(hlit), all.skip(hlit)), q))
                }
            },
        }
    }
}

/// The `len` bytes that a back-reference appends: the last `distance` bytes
/// of the output, repeated as often as needed.
pub open spec fn back_copy(out: Seq<u8>, distance: int, len: nat) -> Seq<u8> {
    Seq::new(len, |i: int| out[out.len() - distance + i % distance])
}

/// The output `out` extended by the compressed symbols from `p` on, up to
/// the end-of-block symbol.
pub open spec fn compressed(
    lit: Seq<u16>,
    dist: Seq<u16>,
    data: Seq<u8>,
    p: int,
    out: Seq<u8>,
    limit: int,
) -> Read<Seq<u8>>
    decreases bits::bit_len(data) - p,
{
    match huffman::symbol_at(lit, data, p) {
        Err(e) => Err(e),
        Ok((sym, q)) => {
            if sym < 256 {
                if out.len() >= limit {
                    Err(InflateError::OutputLimit)
                } else {
                    compressed(lit, dist, data, q, out.push(sym as u8), limit)
                }
            } else if sym == 256 {
                Ok((out, q))
            } else if sym <= 285 {
                match back_reference(dist, data, sym, q) {
                    Err(e) => Err(e),
                    Ok(((distance, len), r)) => {
                        if distance > out.len() {
                            Err(InflateError::InvalidDistance)
                        } else if out.len() + len > limit {
                            Err(InflateError::OutputLimit)
                        } else {
                            compressed(
                                lit,
                                dist,
                                data,
                                r,
                                out + back_copy(out, distance, len as nat),
                                limit,
                            )
                        }
                    },
                }
            } else {
                Err(InflateError::InvalidSymbol)
            }
        },
    }
}

/// The distance and length of the back-reference that length symbol `sym`
/// starts, its extra bits and its distance following from `p` on.
pub open spec fn back_reference(dist: Seq<u16>, data: Seq<u8>, sym: int, p: int) -> Read<
    (int, int),
> {
    let len_extra = LENGTH_EXTRA[sym - 257] as nat;
    let len = LENGTH_BASE[sym - 257] + bits::bits_value(data, p, len_extra);
    if p + len_extra > bits::bit_len(data) {
        Err(InflateError::UnexpectedEof)
    } else {
        match huffman::symbol_at(dist, data, p + len_extra) {
            Err(e) => Err(e),
            Ok((dsym, q)) => {
                let dist_extra = DIST_EXTRA[dsym] as nat;
                let distance = DIST_BASE[dsym] + bits::bits_value(data, q, dist_extra);
                if q + dist_extra > bits::bit_len(data) {
                    Err(InflateError::UnexpectedEof)
                } else {
                    Ok(((distance, len), q + dist_extra))
                }
            },
        }
    }
}

/// The output `out` extended by a stored block whose header bits end at `p`:
/// byte-aligned LEN, its one's complement NLEN, then LEN literal bytes.
pub open spec fn stored(data: Seq<u8>, p: int, out: Seq<u8>, limit: int) -> Read<Seq<u8>> {
    let start = bits::byte_after(p);
    let len = data[start] + 256 * data[start + 1];
    let nlen = data[start + 2] + 256 * data[start + 3];
    if start + 4 > data.len() {
        Err(InflateError::UnexpectedEof)
    } else if len + nlen != 0xFFFF {
        Err(InflateError::InvalidStoredLength)
    } else if start + 4 + len > data.len() {
        Err(InflateError::UnexpectedEof)
    } else if out.len() + len > limit {
        Err(InflateError::OutputLimit)
    } else {
        Ok((out + data.subrange(start + 4, start + 4 + len), 8 * (start + 4 + len)))
    }
}

/// The output `out` extended by the block of type `btype` whose header bits
/// end at `p`.
#[verifier::opaque]
pub open spec fn block(btype: nat, data: Seq<u8>, p: int, out: Seq<u8>, limit: int) -> Read<
    Seq<u8>,
> {
    if btype == 0 {
        stored(data, p, out, limit)
    } else if btype == 1 {
        compressed(fixed_literals(), fixed_distances(), data, p, out, limit)
    } else if btype == 2 {
        match dynamic_codes(data, p) {
            Err(e) => Err(e),
            Ok(((lit, dist), q)) => compressed(lit, dist, data, q, out, limit),
        }
    } else {
        Err(InflateError::InvalidBlockType)
    }
}

/// The output `out` extended by all blocks from `p` on, and the number of
/// input bytes up to the end of the last one.
pub open spec fn blocks(data: Seq<u8>, p: int, out: Seq<u8>, limit: int) -> Read<Seq<u8>>
    decreases bits::bit_len(data) - p,
    via blocks_decreases
{
    if p + 3 > bits::bit_len(data) {
        Err(InflateError::UnexpectedEof)
    } else {
        match block(bits::bits_value(data, p + 1, 2), data, p + 3, out, limit) {
            Err(e) => Err(e),
            Ok((more, q)) => {
                if bits::bit_at(data, p) == 1 {
                    Ok((more, bits::byte_after(q)))
                } else {
                    blocks(data, q, more, limit)
                }
            },
        }
    }
}

/// The decompressed bytes of the DEFLATE stream at the start of `data`, at
/// most `limit` of them, and how many bytes the stream takes up.
pub open spec fn inflated(data: Seq<u8>, limit: int) -> Read<Seq<u8>> {
    blocks(data, 0, seq![], limit)
}

pub proof fn lemma_code_lengths_advances(
    clen: Seq<u16>,
    data: Seq<u8>,
    p: int,
    acc: Seq<u16>,
    total: int,
)
    requires
        huffman::valid_lengths(acc),
        acc.len() <= total <= 0xFFFF,
    ensures
        code_lengths(clen, data, p, acc, total) matches Ok((all, q)) ==> {
            &&& p <= q
            &&& (p <= bits::bit_len(data) ==> q <= bits::bit_len(data))
            &&& all.len() == total
            &&& huffman::valid_lengths(all)
        },
    decreases total - acc.len(),
{
    if acc.len() < total {
        if let Ok((sym, q)) = huffman::symbol_at(clen, data, p) {
            if sym <= 15 {
                lemma_code_lengths_advances(clen, data, q, acc.push(sym as u16), total);
            } else if sym == 16 && acc.len() == 0 {
            } else {
                let extra: nat = if sym == 16 {
                    2
                } else if sym == 17 {
                    3
                } else {
                    7
                };
                let base: nat = if sym == 18 {
                    11
                } else {
                    3
                };
                let value: u16 = if sym == 16 {
                    acc.last()
                } else {
                    0
                };
                let run = base + bits::bits_value(data, q, extra);
                if q + extra <= bits::bit_len(data) && acc.len() + run <= total {
                    lemma_code_lengths_advances(
                        clen,
                        data,
                        q + extra,
                        acc + Seq::new(run, |i: int| value),
                        total,
                    );
                }
            }
        }
    }
}

pub proof fn lemma_compressed_advances(
    lit: Seq<u16>,
    dist: Seq<u16>,
    data: Seq<u8>,
    p: int,
    out: Seq<u8>,
    limit: int,
)
    ensures
        compressed(lit, dist, data, p, out, limit) matches Ok((more, q)) ==> {
            &&& p < q <= bits::bit_len(data)
            &&& (out.len() <= limit ==> more.len() <= limit)
            &&& out.is_prefix_of(more)
        },
    decreases bits::bit_len(data) - p,
{
    if let Ok((sym, q)) = huffman::symbol_at(lit, data, p) {
        if sym < 256 {
            if out.len() < limit {
                let next = out.push(sym as u8);
                lemma_compressed_advances(lit, dist, data, q, next, limit);
                assert(out.is_prefix_of(next));
            }
        } else if 256 < sym <= 285 {
            if let Ok(((distance, len), r)) = back_reference(dist, data, sym, q) {
                if distance <= out.len() && out.len() + len <= limit {
                    let next = out + back_copy(out, distance, len as nat);
                    lemma_compressed_advances(lit, dist, data, r, next, limit);
                    assert(out.is_prefix_of(next));
                }
            }
        }
    }
}

proof fn lemma_stored_advances(data: Seq<u8>, p: int, out: Seq<u8>, limit: int)
    ensures
        stored(data, p, out, limit) matches Ok((more, q)) ==> {
            &&& p <= q <= bits::bit_len(data)
            &&& (0 <= p ==> more.len() <= limit && out.is_prefix_of(more))
        },
{
}

pub proof fn lemma_block_advances(btype: nat, data: Seq<u8>, p: int, out: Seq<u8>, limit: int)
    requires
        p <= bits::bit_len(data),
    ensures
        block(btype, data, p, out, limit) matches Ok((more, q)) ==> {
            &&& p <= q <= bits::bit_len(data)
            &&& (0 <= p && out.len() <= limit ==> more.len() <= limit)
            &&& (0 <= p ==> out.is_prefix_of(more))
        },
{
    reveal(block);
    if btype == 0 {
        lemma_stored_advances(data, p, out, limit);
    } else if btype == 1 {
        lemma_compressed_advances(fixed_literals(), fixed_distances(), data, p, out, limit);
    } else if btype == 2 {
        if let Ok(((lit, dist), q)) = dynamic_codes(data, p) {
            lemma_dynamic_codes_advances(data, p);
            lemma_compressed_advances(lit, dist, data, q, out, limit);
        }
    }
}

pub proof fn lemma_dynamic_codes_advances(data: Seq<u8>, p: int)
    requires
        p <= bits::bit_len(data),
    ensures
        dynamic_codes(data, p) matches Ok(((lit, dist), q)) ==> {
            &&& p <= q <= bits::bit_len(data)
            &&& huffman::valid_lengths(lit)
            &&& huffman::valid_lengths(dist)
            &&& dist.len() <= 30
        },
{
    reveal(dynamic_codes);
    let hlit = 257 + bits::bits_value(data, p, 5) as int;
    let hdist = 1 + bits::bits_value(data, p + 5, 5) as int;
    let hclen = 4 + bits::bits_value(data, p + 10, 4) as int;
    let clen = clen_lengths(data, p + 14, hclen);
    let r = p + 14 + 3 * hclen;
    if hlit <= 286 && hdist <= 30 {
        lemma_code_lengths_advances(clen, data, r, seq![], hlit + hdist);
    }
}

#[via_fn]
proof fn blocks_decreases(data: Seq<u8>, p: int, out: Seq<u8>, limit: int) {
    if p + 3 <= bits::bit_len(data) {
        lemma_block_advances(bits::bits_value(data, p + 1, 2), data, p + 3, out, limit);
    }
}

/// How many of the first `n` fixed literal symbols have words of `len` bits.
pub proof fn lemma_fixed_rank(len: int, n: int)
    requires
        0 <= n <= 288,
    ensures
        huffman::rank(fixed_literals(), len, n) == (if len == 8 {
            (if n < 144 {
                n
            } else {
                144
            }) + (if n > 280 {
                n - 280
            } else {
                0
            })
        } else if len == 9 {
            if n < 144 {
                0
            } else if n < 256 {
                n - 144
            } else {
                112
            }
        } else if len == 7 {
            if n < 256 {
                0
            } else if n < 280 {
                n - 256
            } else {
                24
            }
        } else {
            0
        }),
    decreases n,
{
    if n > 0 {
        lemma_fixed_rank(len, n - 1);
    }
}

pub proof fn lemma_fixed_distance_rank(len: int, n: int)
    requires
        0 <= n <= 30,
    ensures
        huffman::rank(fixed_distances(), len, n) == (if len == 5 {
            n
        } else {
            0
        }),
    decreases n,
{
    if n > 0 {
        lemma_fixed_distance_rank(len, n - 1);
    }
}

/// The fixed codes are proper codes: neither is over-subscribed, and the
/// literal/length code leaves no bit string unassigned.
pub proof fn law_fixed_codes_are_valid()
    ensures
        huffman::valid_lengths(fixed_literals()),
        huffman::valid_lengths(fixed_distances()),
        !huffman::over_subscribed(fixed_literals()),
        !huffman::over_subscribed(fixed_distances()),
        huffman::kraft(fixed_literals(), 15) == pow2(15),
{
    lemma2_to64();
    assert forall|len: int| #[trigger]
        huffman::count(fixed_literals(), len) == (if len == 7 {
            24nat
        } else if len == 8 {
            152nat
        } else if len == 9 {
            112nat
        } else {
            0nat
        }) by {
        lemma_fixed_rank(len, 288);
    }
    assert forall|len: int| #[trigger]
        huffman::count(fixed_distances(), len) == (if len == 5 {
            30nat
        } else {
            0nat
        }) by {
        lemma_fixed_distance_rank(len, 30);
    }
    reveal_with_fuel(huffman::kraft, 16);
}

/// Append one byte unless the cap is reached.
fn push_byte(out: &mut Vec<u8>, byte: u8, limit: usize) -> (r: Result<(), InflateError>)
    ensures
        match r {
            Ok(()) => old(out)@.len() < limit && final(out)@ == old(out)@.push(byte),
            Err(e) => {
                &&& old(out)@.len() >= limit
                &&& e == InflateError::OutputLimit
                &&& final(out)@ == old(out)@
            },
        },
{
    if out.len() >= limit {
        return Err(InflateError::OutputLimit);
    }
    out.push(byte);
    Ok(())
}

/// Append a back-reference, byte by byte: the source may run into the bytes
/// that the copy itself appends.
fn copy_back(out: &mut Vec<u8>, distance: usize, len: usize, limit: usize) -> (r: Result<
    (),
    InflateError,
>)
    requires
        1 <= distance <= old(out)@.len(),
        old(out)@.len() <= limit,
    ensures
        match r {
            Ok(()) => {
                &&& old(out)@.len() + len <= limit
                &&& final(out)@ == old(out)@ + back_copy(old(out)@, distance as int, len as nat)
            },
            Err(e) => old(out)@.len() + len > limit && e == InflateError::OutputLimit,
        },
{
    let ghost start = out@;
    let mut done: usize = 0;
    assert(out@ =~= start + back_copy(start, distance as int, 0));
    while done < len
        invariant
            start == old(out)@,
            1 <= distance <= start.len(),
            done <= len,
            start.len() + done <= limit,
            out@ == start + back_copy(start, distance as int, done as nat),
        decreases len - done,
    {
        let byte: u8 = out[out.len() - distance];
        proof {
            let d = distance as int;
            let i = done as int;
            if i < d {
                assert(i % d == i) by (nonlinear_arith)
                    requires
                        0 <= i < d,
                ;
            } else {
                vstd::arithmetic::div_mod::lemma_mod_sub_multiples_vanish(i, d);
                assert(byte == back_copy(start, d, done as nat)[i - d]);
            }
            assert(byte == start[start.len() - d + i % d]);
            assert(back_copy(start, d, done as nat).push(byte) =~= back_copy(
                start,
                d,
                (done + 1) as nat,
            ));
        }
        push_byte(out, byte, limit)?;
        assert(out@ =~= start + back_copy(start, distance as int, (done + 1) as nat));
        done = done + 1;
    }
    Ok(())
}

/// Decode symbols up to the end of a compressed block.
fn decode_block(
    bits: &mut Bits<'_>,
    lit: &Huffman,
    dist: &Huffman,
    out: &mut Vec<u8>,
    limit: usize,
) -> (r: Result<(), InflateError>)
    requires
        old(bits).wf(),
        lit.wf(),
        dist.wf(),
        dist.lengths().len() <= 30,
        old(out)@.len() <= limit,
    ensures
        final(bits).bytes() == old(bits).bytes(),
        match r {
            Ok(()) => {
                &&& final(bits).wf()
                &&& final(out)@.len() <= limit
                &&& compressed(
                    lit.lengths(),
                    dist.lengths(),
                    old(bits).bytes(),
                    old(bits).at(),
                    old(out)@,
                    limit as int,
                ) == Ok::<(Seq<u8>, int), InflateError>((final(out)@, final(bits).at()))
            },
            Err(e) => compressed(
                lit.lengths(),
                dist.lengths(),
                old(bits).bytes(),
                old(bits).at(),
                old(out)@,
                limit as int,
            ) == Err::<(Seq<u8>, int), InflateError>(e),
        },
{
    let ghost ll = lit.lengths();
    let ghost dl = dist.lengths();
    let ghost data = bits.bytes();
    let ghost goal = compressed(ll, dl, data, bits.at(), out@, limit as int);
    loop
        invariant
            bits.wf(),
            bits.bytes() == data,
            data == old(bits).bytes(),
            lit.wf(),
            dist.wf(),
            ll == lit.lengths(),
            dl == dist.lengths(),
            dl.len() <= 30,
            out@.len() <= limit,
            goal == compressed(
                ll,
                dl,
                old(bits).bytes(),
                old(bits).at(),
                old(out)@,
                limit as int,
            ),
            goal == compressed(ll, dl, data, bits.at(), out@, limit as int),
        decreases bits::bit_len(data) - bits.at(),
    {
        let ghost p: int = bits.at();
        let sym: u16 = lit.decode(bits)?;
        proof {
            bits.lemma_at_bound();
            assert(bits.at() > p);
        }
        if sym <= 255 {
            push_byte(out, sym as u8, limit)?;
        } else if sym == 256 {
            return Ok(());
        } else if sym <= 285 {
            let idx: usize = (sym - 257) as usize;
            let extra: u32 = LENGTH_EXTRA[idx];
            proof {
                lemma_tables();
                bits::lemma_bits_value_bound(data, bits.at(), extra as nat);
                lemma_pow2_small(extra as nat);
            }
            let len: usize = LENGTH_BASE[idx] as usize + bits.take(extra)? as usize;
            let dsym: usize = dist.decode(bits)? as usize;
            let dextra: u32 = DIST_EXTRA[dsym];
            proof {
                bits::lemma_bits_value_bound(data, bits.at(), dextra as nat);
                lemma_pow2_small(dextra as nat);
            }
            let distance: usize = DIST_BASE[dsym] as usize + bits.take(dextra)? as usize;
            if distance > out.len() {
                return Err(InflateError::InvalidDistance);
            }
            copy_back(out, distance, len, limit)?;
        } else {
            return Err(InflateError::InvalidSymbol);
        }
    }
}

proof fn lemma_pow2_small(n: nat)
    requires
        n <= 16,
    ensures
        pow2(n) <= 0x10000,
{
    lemma2_to64();
    if n < 16 {
        lemma_pow2_strictly_increases(n, 16);
    }
}

proof fn lemma_tables()
    ensures
        forall|i: int| 0 <= i < 29 ==> #[trigger] LENGTH_EXTRA[i] <= 5,
        forall|i: int| 0 <= i < 29 ==> #[trigger] LENGTH_BASE[i] <= 258,
        forall|i: int| 0 <= i < 30 ==> #[trigger] DIST_EXTRA[i] <= 13,
        forall|i: int| 0 <= i < 30 ==> 1 <= #[trigger] DIST_BASE[i] <= 24577,
{
}

/// Decoding tables of the fixed codes.
fn fixed_tables() -> (r: (Huffman, Huffman))
    ensures
        r.0.wf(),
        r.0.lengths() == fixed_literals(),
        r.1.wf(),
        r.1.lengths() == fixed_distances(),
{
    let mut lit_lengths: Vec<u16> = Vec::new();
    let mut sym: usize = 0;
    while sym < 288
        invariant
            sym <= 288,
            lit_lengths@ == fixed_literals().take(sym as int),
        decreases 288 - sym,
    {
        let len: u16 = if sym < 144 {
            8
        } else if sym < 256 {
            9
        } else if sym < 280 {
            7
        } else {
            8
        };
        lit_lengths.push(len);
        sym = sym + 1;
        assert(lit_lengths@ =~= fixed_literals().take(sym as int));
    }
    let dist_lengths: Vec<u16> = vec![5u16; 30];
    proof {
        assert(lit_lengths@ =~= fixed_literals());
        assert(dist_lengths@ =~= fixed_distances());
        law_fixed_codes_are_valid();
    }
    let lit = Huffman::construct(lit_lengths.as_slice()).unwrap();
    let dist = Huffman::construct(dist_lengths.as_slice()).unwrap();
    (lit, dist)
}

/// Read the code-length code of a dynamic block.
fn read_clen(bits: &mut Bits<'_>, hclen: usize) -> (r: Result<Vec<u16>, InflateError>)
    requires
        old(bits).wf(),
        hclen <= 19,
    ensures
        final(bits).bytes() == old(bits).bytes(),
        match r {
            Ok(lengths) => {
                &&& final(bits).wf()
                &&& final(bits).at() == old(bits).at() + 3 * hclen
                &&& final(bits).at() <= bits::bit_len(old(bits).bytes())
                &&& lengths@ == clen_lengths(old(bits).bytes(), old(bits).at(), hclen as int)
                &&& lengths@.len() == 19
                &&& huffman::valid_lengths(lengths@)
            },
            Err(e) => {
                &&& e == InflateError::UnexpectedEof
                &&& old(bits).at() + 3 * hclen > bits::bit_len(old(bits).bytes())
            },
        },
{
    let ghost data = bits.bytes();
    let ghost p: int = bits.at();
    let mut lengths: Vec<u16> = vec![0u16; 19];
    let mut k: usize = 0;
    proof {
        bits.lemma_at_bound();
        assert(lengths@ =~= clen_lengths(data, p, 0));
    }
    while k < hclen
        invariant
            k <= hclen <= 19,
            bits.wf(),
            bits.bytes() == data,
            data == old(bits).bytes(),
            p == old(bits).at(),
            bits.at() == p + 3 * k,
            bits.at() <= bits::bit_len(data),
            lengths@ == clen_lengths(data, p, k as int),
            lengths@.len() == 19,
            huffman::valid_lengths(lengths@),
        decreases hclen - k,
    {
        let slot: usize = CLEN_ORDER[k];
        proof {
            assert(forall|j: int| 0 <= j < 19 ==> #[trigger] CLEN_ORDER[j] < 19);
            bits::lemma_bits_value_bound(data, bits.at(), 3);
            lemma2_to64();
        }
        let len: u16 = bits.take(3)? as u16;
        lengths[slot] = len;
        k = k + 1;
        proof {
            bits.lemma_at_bound();
        }
    }
    Ok(lengths)
}

/// Read the run-length coded code lengths of a dynamic block.
fn read_code_lengths(bits: &mut Bits<'_>, clen: &Huffman, total: usize) -> (r: Result<
    Vec<u16>,
    InflateError,
>)
    requires
        old(bits).wf(),
        clen.wf(),
        clen.lengths().len() == 19,
        total <= 0xFFFF,
    ensures
        final(bits).bytes() == old(bits).bytes(),
        match r {
            Ok(lengths) => {
                &&& final(bits).wf()
                &&& lengths@.len() == total
                &&& code_lengths(
                    clen.lengths(),
                    old(bits).bytes(),
                    old(bits).at(),
                    seq![],
                    total as int,
                ) == Ok::<(Seq<u16>, int), InflateError>((lengths@, final(bits).at()))
            },
            Err(e) => code_lengths(
                clen.lengths(),
                old(bits).bytes(),
                old(bits).at(),
                seq![],
                total as int,
            ) == Err::<(Seq<u16>, int), InflateError>(e),
        },
{
    let ghost data = bits.bytes();
    let ghost cl = clen.lengths();
    let ghost goal = code_lengths(cl, data, bits.at(), seq![], total as int);
    let mut lengths: Vec<u16> = Vec::new();
    assert(lengths@ =~= seq![]);
    while lengths.len() < total
        invariant
            bits.wf(),
            bits.bytes() == data,
            data == old(bits).bytes(),
            clen.wf(),
            cl == clen.lengths(),
            cl.len() == 19,
            lengths@.len() <= total <= 0xFFFF,
            goal == code_lengths(cl, old(bits).bytes(), old(bits).at(), seq![], total as int),
            goal == code_lengths(cl, data, bits.at(), lengths@, total as int),
        decreases total - lengths@.len(),
    {
        let sym: u16 = clen.decode(bits)?;
        if sym <= 15 {
            lengths.push(sym);
        } else {
            if sym == 16 && lengths.len() == 0 {
                return Err(InflateError::InvalidCodeLengths);
            }
            let value: u16 = if sym == 16 {
                lengths[lengths.len() - 1]
            } else {
                0
            };
            let extra: u32 = if sym == 16 {
                2
            } else if sym == 17 {
                3
            } else {
                7
            };
            let base: usize = if sym == 18 {
                11
            } else {
                3
            };
            proof {
                bits::lemma_bits_value_bound(data, bits.at(), extra as nat);
                lemma_pow2_small(extra as nat);
            }
            let repeat: usize = base + bits.take(extra)? as usize;
            if repeat > total - lengths.len() {
                return Err(InflateError::InvalidCodeLengths);
            }
            let ghost before = lengths@;
            let mut done: usize = 0;
            assert(lengths@ =~= before + Seq::new(0, |i: int| value));
            while done < repeat
                invariant
                    done <= repeat,
                    lengths@ == before + Seq::new(done as nat, |i: int| value),
                decreases repeat - done,
            {
                lengths.push(value);
                done = done + 1;
                assert(lengths@ =~= before + Seq::new(done as nat, |i: int| value));
            }
        }
    }
    Ok(lengths)
}

/// Read the two codes of a dynamic block.
fn dynamic_tables(bits: &mut Bits<'_>) -> (r: Result<(Huffman, Huffman), InflateError>)
    requires
        old(bits).wf(),
    ensures
        final(bits).bytes() == old(bits).bytes(),
        match r {
            Ok((lit, dist)) => {
                &&& final(bits).wf()
                &&& lit.wf()
                &&& dist.wf()
                &&& dist.lengths().len() <= 30
                &&& dynamic_codes(old(bits).bytes(), old(bits).at()) == Ok::<
                    ((Seq<u16>, Seq<u16>), int),
                    InflateError,
                >(((lit.lengths(), dist.lengths()), final(bits).at()))
            },
            Err(e) => dynamic_codes(old(bits).bytes(), old(bits).at()) == Err::<
                ((Seq<u16>, Seq<u16>), int),
                InflateError,
            >(e),
        },
{
    let ghost data = bits.bytes();
    let ghost p: int = bits.at();
    proof {
        reveal(dynamic_codes);
        lemma2_to64();
        bits::lemma_bits_value_bound(data, p, 5);
        bits::lemma_bits_value_bound(data, p + 5, 5);
        bits::lemma_bits_value_bound(data, p + 10, 4);
    }
    let hlit: usize = bits.take(5)? as usize + 257;
    let hdist: usize = bits.take(5)? as usize + 1;
    let hclen: usize = bits.take(4)? as usize + 4;
    if hlit > 286 || hdist > 30 {
        return Err(InflateError::InvalidCodeLengths);
    }
    let clen_lengths = read_clen(bits, hclen)?;
    let clen = Huffman::construct(clen_lengths.as_slice())?;
    let ghost r: int = bits.at();
    let lengths = read_code_lengths(bits, &clen, hlit + hdist)?;
    proof {
        lemma_code_lengths_advances(clen.lengths(), data, r, seq![], hlit + hdist);
    }
    if lengths[256] == 0 {
        // A block with no end-of-block code can never terminate.
        return Err(InflateError::InvalidCodeLengths);
    }
    assert(lengths@.take(hlit as int) =~= lengths@.subrange(0, hlit as int));
    assert(lengths@.skip(hlit as int) =~= lengths@.subrange(hlit as int, lengths@.len() as int));
    let lit = Huffman::construct(slice_subrange(lengths.as_slice(), 0, hlit))?;
    let dist = Huffman::construct(slice_subrange(lengths.as_slice(), hlit, lengths.len()))?;
    Ok((lit, dist))
}

/// Copy a stored block.
fn stored_block(bits: &mut Bits<'_>, data: &[u8], out: &mut Vec<u8>, limit: usize) -> (r: Result<
    (),
    InflateError,
>)
    requires
        old(bits).wf(),
        old(bits).bytes() == data@,
        old(out)@.len() <= limit,
    ensures
        final(bits).bytes() == old(bits).bytes(),
        match r {
            Ok(()) => {
                &&& final(bits).wf()
                &&& final(out)@.len() <= limit
                &&& stored(data@, old(bits).at(), old(out)@, limit as int) == Ok::<
                    (Seq<u8>, int),
                    InflateError,
                >((final(out)@, final(bits).at()))
            },
            Err(e) => stored(data@, old(bits).at(), old(out)@, limit as int) == Err::<
                (Seq<u8>, int),
                InflateError,
            >(e),
        },
{
    let start: usize = bits.byte_pos();
    if data.len() - start < 4 {
        return Err(InflateError::UnexpectedEof);
    }
    let len: usize = data[start] as usize + 256 * data[start + 1] as usize;
    let nlen: usize = data[start + 2] as usize + 256 * data[start + 3] as usize;
    if len + nlen != 0xFFFF {
        return Err(InflateError::InvalidStoredLength);
    }
    let body: usize = start + 4;
    if len > data.len() - body {
        return Err(InflateError::UnexpectedEof);
    }
    if len > limit - out.len() {
        return Err(InflateError::OutputLimit);
    }
    let ghost before = out@;
    out.extend_from_slice(slice_subrange(data, body, body + len));
    assert(out@ =~= before + data@.subrange(body as int, body + len));
    bits.seek(body + len);
    Ok(())
}

/// Decompress a raw DEFLATE stream. Returns the output and the number of
/// input bytes consumed (so gzip can find its trailer). `limit` caps the
/// output size; exceeding it yields [`InflateError::OutputLimit`].
pub fn inflate(data: &[u8], limit: usize) -> (r: Result<(Vec<u8>, usize), InflateError>)
    ensures
        match r {
            Ok((out, consumed)) => inflated(data@, limit as int) == Ok::<
                (Seq<u8>, int),
                InflateError,
            >((out@, consumed as int)),
            Err(e) => inflated(data@, limit as int) == Err::<(Seq<u8>, int), InflateError>(e),
        },
{
    let mut bits = Bits::new(data);
    let mut out: Vec<u8> = Vec::new();
    assert(out@ =~= seq![]);
    let ghost goal = inflated(data@, limit as int);
    loop
        invariant
            bits.wf(),
            bits.bytes() == data@,
            out@.len() <= limit,
            goal == inflated(data@, limit as int),
            goal == blocks(data@, bits.at(), out@, limit as int),
        decreases bits::bit_len(data@) - bits.at(),
    {
        let ghost p: int = bits.at();
        proof {
            reveal_with_fuel(bits::bits_value, 3);
            bits::lemma_bit_bound(data@, p);
            bits::lemma_bit_bound(data@, p + 1);
            bits::lemma_bit_bound(data@, p + 2);
        }
        let bfinal: u32 = bits.take(1)?;
        let btype: u32 = bits.take(2)?;
        assert(bfinal == bits::bit_at(data@, p));
        assert(btype == bits::bits_value(data@, p + 1, 2));
        proof {
            reveal(block);
            lemma_block_advances(btype as nat, data@, p + 3, out@, limit as int);
            bits.lemma_at_bound();
        }
        if btype == 0 {
            stored_block(&mut bits, data, &mut out, limit)?;
        } else if btype == 1 {
            let (lit, dist) = fixed_tables();
            decode_block(&mut bits, &lit, &dist, &mut out, limit)?;
        } else if btype == 2 {
            let (lit, dist) = dynamic_tables(&mut bits)?;
            decode_block(&mut bits, &lit, &dist, &mut out, limit)?;
        } else {
            return Err(InflateError::InvalidBlockType);
        }
        if bfinal == 1 {
            let consumed: usize = bits.byte_pos();
            return Ok((out, consumed));
        }
    }
}

} // verus!
