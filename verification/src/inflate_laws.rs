//! What holds of the decompressor as a whole: the output cap, truncated
//! streams, trailing bytes, and the round trip through a stored block.
use vstd::arithmetic::power2::*;
use vstd::prelude::*;

use crate::bits;
use crate::huffman;
use crate::inflate;
use crate::inflate::{InflateError, Read};

verus! {

/// Reading part of a stream after it was cut to `k` bytes: the result is the
/// same, or the end of the input is hit; it is the same wherever the read
/// ends before the cut.
spec fn cut<T>(full: Read<T>, part: Read<T>, k: int) -> bool {
    &&& part == full || part == Err::<(T, int), InflateError>(InflateError::UnexpectedEof)
    &&& (full matches Ok((_, q)) ==> (q <= 8 * k ==> part == full))
}

proof fn lemma_cut_bits(data: Seq<u8>, k: int, p: int, n: nat)
    requires
        0 <= k <= data.len(),
        0 <= p,
        p + n <= 8 * k,
    ensures
        bits::bits_value(data.take(k), p, n) == bits::bits_value(data, p, n),
    decreases n,
{
    if n > 0 {
        lemma_cut_bits(data, k, p + 1, (n - 1) as nat);
        assert(data.take(k)[p / 8] == data[p / 8]);
    }
}

proof fn lemma_cut_code(data: Seq<u8>, k: int, p: int, n: nat)
    requires
        0 <= k <= data.len(),
        0 <= p,
        p + n <= 8 * k,
    ensures
        bits::code_value(data.take(k), p, n) == bits::code_value(data, p, n),
    decreases n,
{
    if n > 0 {
        lemma_cut_code(data, k, p, (n - 1) as nat);
        let i = p + n - 1;
        assert(data.take(k)[i / 8] == data[i / 8]);
    }
}

proof fn lemma_cut_symbol(lengths: Seq<u16>, data: Seq<u8>, k: int, p: int)
    requires
        huffman::valid_lengths(lengths),
        0 <= k <= data.len(),
        0 <= p,
    ensures
        cut(
            huffman::symbol_at(lengths, data, p),
            huffman::symbol_at(lengths, data.take(k), p),
            k,
        ),
{
    let d = data.take(k);
    assert forall|s: int| #[trigger]
        huffman::word_at(lengths, d, p, s) implies huffman::word_at(lengths, data, p, s) by {
        lemma_cut_code(data, k, p, lengths[s] as nat);
    }
    if exists|s: int| huffman::word_at(lengths, d, p, s) {
        let s = choose|s: int| huffman::word_at(lengths, d, p, s);
        huffman::lemma_symbol_at(lengths, d, p, s);
        huffman::lemma_symbol_at(lengths, data, p, s);
    } else if exists|s: int| huffman::word_at(lengths, data, p, s) {
        let s = choose|s: int| huffman::word_at(lengths, data, p, s);
        huffman::lemma_symbol_at(lengths, data, p, s);
        if p + lengths[s] <= 8 * k {
            lemma_cut_code(data, k, p, lengths[s] as nat);
            assert(huffman::word_at(lengths, d, p, s));
        }
    }
}

proof fn lemma_cut_code_lengths(
    clen: Seq<u16>,
    data: Seq<u8>,
    k: int,
    p: int,
    acc: Seq<u16>,
    total: int,
)
    requires
        huffman::valid_lengths(clen),
        huffman::valid_lengths(acc),
        acc.len() <= total <= 0xFFFF,
        0 <= k <= data.len(),
        0 <= p,
    ensures
        cut(
            inflate::code_lengths(clen, data, p, acc, total),
            inflate::code_lengths(clen, data.take(k), p, acc, total),
            k,
        ),
    decreases total - acc.len(),
{
    let d = data.take(k);
    if acc.len() < total {
        lemma_cut_symbol(clen, data, k, p);
        inflate::lemma_code_lengths_advances(clen, data, p, acc, total);
        if let Ok((sym, q)) = huffman::symbol_at(clen, data, p) {
            if sym <= 15 {
                inflate::lemma_code_lengths_advances(clen, data, q, acc.push(sym as u16), total);
                lemma_cut_code_lengths(clen, data, k, q, acc.push(sym as u16), total);
            } else if sym == 16 && acc.len() == 0 {
            } else {
                let extra: nat = if sym == 16 {
                    2
                } else if sym == 17 {
                    3
                } else {
                    7
                };
                let base: nat = if sym == 18 {
                    11
                } else {
                    3
                };
                let value: u16 = if sym == 16 {
                    acc.last()
                } else {
                    0
                };
                let run = base + bits::bits_value(data, q, extra);
                let next = acc + Seq::new(run, |i: int| value);
                if q + extra <= 8 * k {
                    lemma_cut_bits(data, k, q, extra);
                }
                if q + extra <= bits::bit_len(data) && acc.len() + run <= total {
                    inflate::lemma_code_lengths_advances(clen, data, q + extra, next, total);
                    lemma_cut_code_lengths(clen, data, k, q + extra, next, total);
                }
            }
        }
    }
}

proof fn lemma_cut_clen(data: Seq<u8>, k: int, p: int, n: int)
    requires
        0 <= k <= data.len(),
        0 <= p,
        0 <= n <= 19,
        p + 3 * n <= 8 * k,
    ensures
        inflate::clen_lengths(data.take(k), p, n) == inflate::clen_lengths(data, p, n),
    decreases n,
{
    if n > 0 {
        lemma_cut_clen(data, k, p, n - 1);
        lemma_cut_bits(data, k, p + 3 * (n - 1), 3);
    }
}

proof fn lemma_clen_valid(data: Seq<u8>, p: int, n: int)
    requires
        0 <= n <= 19,
    ensures
        inflate::clen_lengths(data, p, n).len() == 19,
        huffman::valid_lengths(inflate::clen_lengths(data, p, n)),
    decreases n,
{
    if n > 0 {
        lemma_clen_valid(data, p, n - 1);
        bits::lemma_bits_value_bound(data, p + 3 * (n - 1), 3);
        lemma2_to64();
    }
}

proof fn lemma_cut_dynamic(data: Seq<u8>, k: int, p: int)
    requires
        0 <= k <= data.len(),
        0 <= p,
    ensures
        cut(inflate::dynamic_codes(data, p), inflate::dynamic_codes(data.take(k), p), k),
{
    reveal(inflate::dynamic_codes);
    lemma2_to64();
    let d = data.take(k);
    let hlit = 257 + bits::bits_value(data, p, 5) as int;
    let hdist = 1 + bits::bits_value(data, p + 5, 5) as int;
    let hclen = 4 + bits::bits_value(data, p + 10, 4) as int;
    let clen = inflate::clen_lengths(data, p + 14, hclen);
    let r = p + 14 + 3 * hclen;
    bits::lemma_bits_value_bound(data, p, 5);
    bits::lemma_bits_value_bound(data, p + 5, 5);
    bits::lemma_bits_value_bound(data, p + 10, 4);
    if p + 14 <= bits::bit_len(data) && hlit <= 286 && hdist <= 30 {
        lemma_clen_valid(data, p + 14, hclen);
        inflate::lemma_code_lengths_advances(clen, data, r, seq![], hlit + hdist);
        if p + 14 <= 8 * k {
            lemma_cut_bits(data, k, p, 5);
            lemma_cut_bits(data, k, p + 5, 5);
            lemma_cut_bits(data, k, p + 10, 4);
            if r <= 8 * k {
                lemma_cut_clen(data, k, p + 14, hclen);
                lemma_cut_code_lengths(clen, data, k, r, seq![], hlit + hdist);
            }
        }
    } else if p + 14 <= 8 * k {
        lemma_cut_bits(data, k, p, 5);
        lemma_cut_bits(data, k, p + 5, 5);
        lemma_cut_bits(data, k, p + 10, 4);
    }
}

proof fn lemma_cut_reference(dist: Seq<u16>, data: Seq<u8>, k: int, sym: int, p: int)
    requires
        huffman::valid_lengths(dist),
        257 <= sym <= 285,
        0 <= k <= data.len(),
        0 <= p,
    ensures
        cut(
            inflate::back_reference(dist, data, sym, p),
            inflate::back_reference(dist, data.take(k), sym, p),
            k,
        ),
{
    let len_extra = inflate::LENGTH_EXTRA[sym - 257] as nat;
    if p + len_extra <= 8 * k {
        lemma_cut_bits(data, k, p, len_extra);
        lemma_cut_symbol(dist, data, k, p + len_extra);
        if let Ok((dsym, q)) = huffman::symbol_at(dist, data, p + len_extra) {
            let dist_extra = inflate::DIST_EXTRA[dsym] as nat;
            if q + dist_extra <= 8 * k {
                lemma_cut_bits(data, k, q, dist_extra);
            }
        }
    }
}

proof fn lemma_cut_compressed(
    lit: Seq<u16>,
    dist: Seq<u16>,
    data: Seq<u8>,
    k: int,
    p: int,
    out: Seq<u8>,
    limit: int,
)
    requires
        huffman::valid_lengths(lit),
        huffman::valid_lengths(dist),
        0 <= k <= data.len(),
        0 <= p,
    ensures
        cut(
            inflate::compressed(lit, dist, data, p, out, limit),
            inflate::compressed(lit, dist, data.take(k), p, out, limit),
            k,
        ),
    decreases bits::bit_len(data) - p,
{
    let d = data.take(k);
    lemma_cut_symbol(lit, data, k, p);
    inflate::lemma_compressed_advances(lit, dist, data, p, out, limit);
    if let Ok((sym, q)) = huffman::symbol_at(lit, data, p) {
        if sym < 256 {
            if out.len() < limit {
                let next = out.push(sym as u8);
                inflate::lemma_compressed_advances(lit, dist, data, q, next, limit);
                lemma_cut_compressed(lit, dist, data, k, q, next, limit);
            }
        } else if 256 < sym <= 285 {
            lemma_cut_reference(dist, data, k, sym, q);
            if let Ok(((distance, len), r)) = inflate::back_reference(dist, data, sym, q) {
                if distance <= out.len() && out.len() + len <= limit {
                    let next = out + inflate::back_copy(out, distance, len as nat);
                    inflate::lemma_compressed_advances(lit, dist, data, r, next, limit);
                    lemma_cut_compressed(lit, dist, data, k, r, next, limit);
                }
            }
        }
    }
}

proof fn lemma_cut_stored(data: Seq<u8>, k: int, p: int, out: Seq<u8>, limit: int)
    requires
        0 <= k <= data.len(),
        0 <= p,
    ensures
        cut(inflate::stored(data, p, out, limit), inflate::stored(data.take(k), p, out, limit), k),
{
    let d = data.take(k);
    let start = bits::byte_after(p);
    if start + 4 <= k {
        assert(d[start] == data[start]);
        assert(d[start + 1] == data[start + 1]);
        assert(d[start + 2] == data[start + 2]);
        assert(d[start + 3] == data[start + 3]);
        let len = data[start] + 256 * data[start + 1];
        if start + 4 + len <= k {
            assert(d.subrange(start + 4, start + 4 + len) =~= data.subrange(
                start + 4,
                start + 4 + len,
            ));
        }
    }
}

proof fn lemma_cut_block(btype: nat, data: Seq<u8>, k: int, p: int, out: Seq<u8>, limit: int)
    requires
        0 <= k <= data.len(),
        0 <= p <= bits::bit_len(data),
    ensures
        cut(
            inflate::block(btype, data, p, out, limit),
            inflate::block(btype, data.take(k), p, out, limit),
            k,
        ),
{
    reveal(inflate::block);
    if btype == 0 {
        lemma_cut_stored(data, k, p, out, limit);
    } else if btype == 1 {
        inflate::law_fixed_codes_are_valid();
        lemma_cut_compressed(
            inflate::fixed_literals(),
            inflate::fixed_distances(),
            data,
            k,
            p,
            out,
            limit,
        );
    } else if btype == 2 {
        lemma_cut_dynamic(data, k, p);
        inflate::lemma_dynamic_codes_advances(data, p);
        if let Ok(((lit, dist), q)) = inflate::dynamic_codes(data, p) {
            inflate::lemma_compressed_advances(lit, dist, data, q, out, limit);
            lemma_cut_compressed(lit, dist, data, k, q, out, limit);
        }
    }
}

proof fn lemma_blocks_bound(data: Seq<u8>, p: int, out: Seq<u8>, limit: int)
    requires
        0 <= p <= bits::bit_len(data),
        out.len() <= limit,
    ensures
        inflate::blocks(data, p, out, limit) matches Ok((more, n)) ==> {
            &&& p + 3 <= 8 * n
            &&& n <= data.len()
            &&& more.len() <= limit
            &&& out.is_prefix_of(more)
        },
    decreases bits::bit_len(data) - p,
{
    if p + 3 <= bits::bit_len(data) {
        let btype = bits::bits_value(data, p + 1, 2);
        inflate::lemma_block_advances(btype, data, p + 3, out, limit);
        if let Ok((more, q)) = inflate::block(btype, data, p + 3, out, limit) {
            if bits::bit_at(data, p) != 1 {
                lemma_blocks_bound(data, q, more, limit);
            }
        }
    }
}

proof fn lemma_cut_blocks(data: Seq<u8>, k: int, p: int, out: Seq<u8>, limit: int)
    requires
        0 <= k <= data.len(),
        0 <= p <= bits::bit_len(data),
        out.len() <= limit,
    ensures
        ({
            let full = inflate::blocks(data, p, out, limit);
            let part = inflate::blocks(data.take(k), p, out, limit);
            &&& part == full || part == Err::<(Seq<u8>, int), InflateError>(
                InflateError::UnexpectedEof,
            )
            &&& (full matches Ok((_, n)) ==> (n <= k ==> part == full))
        }),
    decreases bits::bit_len(data) - p,
{
    let d = data.take(k);
    lemma_blocks_bound(data, p, out, limit);
    if p + 3 <= 8 * k {
        lemma_cut_bits(data, k, p + 1, 2);
        assert(d[p / 8] == data[p / 8]);
        let btype = bits::bits_value(data, p + 1, 2);
        lemma_cut_block(btype, data, k, p + 3, out, limit);
        inflate::lemma_block_advances(btype, data, p + 3, out, limit);
        if let Ok((more, q)) = inflate::block(btype, data, p + 3, out, limit) {
            if bits::bit_at(data, p) != 1 {
                lemma_blocks_bound(data, q, more, limit);
                lemma_cut_blocks(data, k, q, more, limit);
            }
        }
    }
}

/// Reading with the cap lowered: the result is the same, or the cap is
/// reported; from a cap that sufficed, it is the same where the output fits,
/// and the cap is reported where it does not.
spec fn capped(full: Read<Seq<u8>>, low: Read<Seq<u8>>, limit: int) -> bool {
    &&& low == full || low == Err::<(Seq<u8>, int), InflateError>(InflateError::OutputLimit)
    &&& full matches Ok((more, _)) ==> low == (if more.len() <= limit {
        full
    } else {
        Err::<(Seq<u8>, int), InflateError>(InflateError::OutputLimit)
    })
}

proof fn lemma_capped_compressed(
    lit: Seq<u16>,
    dist: Seq<u16>,
    data: Seq<u8>,
    p: int,
    out: Seq<u8>,
    low: int,
    high: int,
)
    requires
        huffman::valid_lengths(lit),
        huffman::valid_lengths(dist),
        0 <= p,
        out.len() <= low <= high,
    ensures
        capped(
            inflate::compressed(lit, dist, data, p, out, high),
            inflate::compressed(lit, dist, data, p, out, low),
            low,
        ),
    decreases bits::bit_len(data) - p,
{
    if let Ok((sym, q)) = huffman::symbol_at(lit, data, p) {
        if sym < 256 {
            if out.len() < high {
                let next = out.push(sym as u8);
                inflate::lemma_compressed_advances(lit, dist, data, q, next, high);
                if out.len() < low {
                    lemma_capped_compressed(lit, dist, data, q, next, low, high);
                }
            }
        } else if 256 < sym <= 285 {
            if let Ok(((distance, len), r)) = inflate::back_reference(dist, data, sym, q) {
                if distance <= out.len() && out.len() + len <= high {
                    let next = out + inflate::back_copy(out, distance, len as nat);
                    inflate::lemma_compressed_advances(lit, dist, data, r, next, high);
                    if out.len() + len <= low {
                        lemma_capped_compressed(lit, dist, data, r, next, low, high);
                    }
                }
            }
        }
    }
}

proof fn lemma_capped_block(btype: nat, data: Seq<u8>, p: int, out: Seq<u8>, low: int, high: int)
    requires
        0 <= p <= bits::bit_len(data),
        out.len() <= low <= high,
    ensures
        capped(
            inflate::block(btype, data, p, out, high),
            inflate::block(btype, data, p, out, low),
            low,
        ),
{
    reveal(inflate::block);
    if btype == 1 {
        inflate::law_fixed_codes_are_valid();
        lemma_capped_compressed(
            inflate::fixed_literals(),
            inflate::fixed_distances(),
            data,
            p,
            out,
            low,
            high,
        );
    } else if btype == 2 {
        inflate::lemma_dynamic_codes_advances(data, p);
        if let Ok(((lit, dist), q)) = inflate::dynamic_codes(data, p) {
            lemma_capped_compressed(lit, dist, data, q, out, low, high);
        }
    }
}

proof fn lemma_capped_blocks(data: Seq<u8>, p: int, out: Seq<u8>, low: int, high: int)
    requires
        0 <= p <= bits::bit_len(data),
        out.len() <= low <= high,
    ensures
        capped(
            inflate::blocks(data, p, out, high),
            inflate::blocks(data, p, out, low),
            low,
        ),
    decreases bits::bit_len(data) - p,
{
    if p + 3 <= bits::bit_len(data) {
        let btype = bits::bits_value(data, p + 1, 2);
        inflate::lemma_block_advances(btype, data, p + 3, out, high);
        lemma_capped_block(btype, data, p + 3, out, low, high);
        if let Ok((more, q)) = inflate::block(btype, data, p + 3, out, high) {
            if bits::bit_at(data, p) != 1 {
                lemma_blocks_bound(data, q, more, high);
                if more.len() <= low {
                    lemma_capped_blocks(data, q, more, low, high);
                }
            }
        }
    }
}

/// A stream that decompresses takes up at least one byte of the input.
pub proof fn lemma_consumed(data: Seq<u8>, limit: int)
    ensures
        inflate::inflated(data, limit) matches Ok((_, n)) ==> 1 <= n <= data.len(),
{
    lemma_blocks_consumed(data, 0, seq![], limit);
}

proof fn lemma_blocks_consumed(data: Seq<u8>, p: int, out: Seq<u8>, limit: int)
    requires
        0 <= p <= bits::bit_len(data),
    ensures
        inflate::blocks(data, p, out, limit) matches Ok((_, n)) ==> p < 8 * n && n <= data.len(),
    decreases bits::bit_len(data) - p,
{
    if p + 3 <= bits::bit_len(data) {
        let btype = bits::bits_value(data, p + 1, 2);
        inflate::lemma_block_advances(btype, data, p + 3, out, limit);
        if let Ok((more, q)) = inflate::block(btype, data, p + 3, out, limit) {
            if bits::bit_at(data, p) != 1 {
                lemma_blocks_consumed(data, q, more, limit);
            }
        }
    }
}

/// The bomb guard: whatever the stream holds, no more than `limit` bytes come
/// out, and the bytes consumed lie inside the input.
pub proof fn law_output_is_capped(data: Seq<u8>, limit: nat)
    ensures
        inflate::inflated(data, limit as int) matches Ok((out, n)) ==> {
            &&& out.len() <= limit
            &&& 1 <= n <= data.len()
        },
{
    lemma_blocks_bound(data, 0, seq![], limit as int);
}

/// A stream cut anywhere before its end is reported as cut short, never as a
/// shorter success or as some other error.
pub proof fn law_truncated_stream_is_eof(data: Seq<u8>, limit: nat, k: int)
    requires
        inflate::inflated(data, limit as int) matches Ok((_, n)) && 0 <= k < n,
    ensures
        inflate::inflated(data.take(k), limit as int) == Err::<(Seq<u8>, int), InflateError>(
            InflateError::UnexpectedEof,
        ),
{
    lemma_blocks_bound(data, 0, seq![], limit as int);
    lemma_cut_blocks(data, k, 0, seq![], limit as int);
    lemma_blocks_bound(data.take(k), 0, seq![], limit as int);
}

/// What follows a stream does not change its decompression: only the bytes
/// that are reported as consumed matter.
pub proof fn law_trailing_bytes_are_ignored(data: Seq<u8>, other: Seq<u8>, limit: nat)
    requires
        inflate::inflated(data, limit as int) matches Ok((_, n)) && n <= other.len() && other.take(
            n,
        ) == data.take(n),
    ensures
        inflate::inflated(other, limit as int) == inflate::inflated(data, limit as int),
{
    let n = inflate::inflated(data, limit as int)->Ok_0.1;
    lemma_blocks_bound(data, 0, seq![], limit as int);
    lemma_cut_blocks(data, n, 0, seq![], limit as int);
    lemma_cut_blocks(other, n, 0, seq![], limit as int);
}

/// The cap decides nothing but whether the output fits: a stream that
/// decompresses under some cap gives the same result under a lower one that
/// still holds its output, and [`InflateError::OutputLimit`] under any other.
pub proof fn law_limit_is_exact(data: Seq<u8>, low: nat, high: nat)
    requires
        low <= high,
        inflate::inflated(data, high as int) is Ok,
    ensures
        inflate::inflated(data, low as int) == (if inflate::inflated(
            data,
            high as int,
        )->Ok_0.0.len() <= low {
            inflate::inflated(data, high as int)
        } else {
            Err::<(Seq<u8>, int), InflateError>(InflateError::OutputLimit)
        }),
{
    lemma_capped_blocks(data, 0, seq![], low as int, high as int);
}

/// Raising the cap changes nothing but the cap's own error: whatever comes out
/// under some cap comes out under every higher one, and so does every error
/// other than [`InflateError::OutputLimit`].
pub proof fn law_higher_limit_keeps_the_result(data: Seq<u8>, low: nat, high: nat)
    requires
        low <= high,
    ensures
        inflate::inflated(data, low as int) is Ok ==> inflate::inflated(data, high as int)
            == inflate::inflated(data, low as int),
        inflate::inflated(data, low as int) != Err::<(Seq<u8>, int), InflateError>(
            InflateError::OutputLimit,
        ) ==> inflate::inflated(data, high as int) == inflate::inflated(data, low as int),
{
    lemma_capped_blocks(data, 0, seq![], low as int, high as int);
}

/// A stored block holding `body`, final or not.
pub open spec fn stored_part(last: bool, body: Seq<u8>) -> Seq<u8> {
    let len = body.len() as int;
    seq![
        if last {
            1u8
        } else {
            0u8
        },
        (len % 256) as u8,
        (len / 256) as u8,
        (255 - len % 256) as u8,
        (255 - len / 256) as u8,
    ] + body
}

/// `body` as stored blocks of at most 65535 bytes each.
pub open spec fn stored_stream(body: Seq<u8>) -> Seq<u8>
    decreases body.len(),
{
    if body.len() <= 0xFFFF {
        stored_part(true, body)
    } else {
        stored_part(false, body.take(0xFFFF)) + stored_stream(body.skip(0xFFFF))
    }
}

proof fn lemma_stored_part(
    data: Seq<u8>,
    at: int,
    last: bool,
    body: Seq<u8>,
    out: Seq<u8>,
    limit: int,
)
    requires
        0 <= at,
        body.len() <= 0xFFFF,
        out.len() + body.len() <= limit,
        at + 5 + body.len() <= data.len(),
        data.subrange(at, at + 5 + body.len()) == stored_part(last, body),
    ensures
        bits::bit_at(data, 8 * at) == (if last {
            1nat
        } else {
            0nat
        }),
        inflate::block(bits::bits_value(data, 8 * at + 1, 2), data, 8 * at + 3, out, limit) == Ok::<
            (Seq<u8>, int),
            InflateError,
        >((out + body, 8 * (at + 5 + body.len()))),
{
    let part = data.subrange(at, at + 5 + body.len());
    let len = body.len() as int;
    let first = data[at];
    reveal(inflate::block);
    reveal_with_fuel(bits::bits_value, 3);
    assert(part[0] == data[at] && part[1] == data[at + 1] && part[2] == data[at + 2]);
    assert(part[3] == data[at + 3] && part[4] == data[at + 4]);
    assert(first == 0 || first == 1);
    assert(first <= 1 ==> (first >> 0u8) & 1 == first && (first >> 1u8) & 1 == 0 && (first >> 2u8)
        & 1 == 0) by (bit_vector);
    assert((8 * at) / 8 == at && (8 * at) % 8 == 0);
    assert((8 * at + 1) / 8 == at && (8 * at + 1) % 8 == 1);
    assert((8 * at + 2) / 8 == at && (8 * at + 2) % 8 == 2);
    assert(data.subrange(at + 5, at + 5 + len) =~= body) by {
        assert forall|i: int| 0 <= i < len implies data[at + 5 + i] == body[i] by {
            assert(part[5 + i] == data[at + 5 + i]);
        }
    }
}

proof fn lemma_stored_stream(data: Seq<u8>, at: int, body: Seq<u8>, out: Seq<u8>, limit: int)
    requires
        0 <= at,
        out.len() + body.len() <= limit,
        at + stored_stream(body).len() <= data.len(),
        data.subrange(at, at + stored_stream(body).len()) == stored_stream(body),
    ensures
        inflate::blocks(data, 8 * at, out, limit) == Ok::<(Seq<u8>, int), InflateError>(
            (out + body, at + stored_stream(body).len()),
        ),
    decreases body.len(),
{
    let stream = stored_stream(body);
    if body.len() <= 0xFFFF {
        lemma_stored_part(data, at, true, body, out, limit);
    } else {
        let head = body.take(0xFFFF);
        let tail = body.skip(0xFFFF);
        let part = stored_part(false, head);
        let next = at + part.len();
        assert(data.subrange(at, at + part.len()) =~= part) by {
            assert forall|i: int| 0 <= i < part.len() implies data[at + i] == part[i] by {
                assert(data.subrange(at, at + stream.len())[i] == stream[i]);
            }
        }
        assert(data.subrange(next, next + stored_stream(tail).len()) =~= stored_stream(tail)) by {
            assert forall|i: int| 0 <= i < stored_stream(tail).len() implies data[next + i]
                == stored_stream(tail)[i] by {
                assert(data.subrange(at, at + stream.len())[part.len() + i] == stream[part.len()
                    + i]);
            }
        }
        lemma_stored_part(data, at, false, head, out, limit);
        lemma_stored_stream(data, next, tail, out + head, limit);
        assert(out + head + tail =~= out + body);
    }
}

/// Whatever is stored comes back: any bytes within the cap survive the round
/// trip through stored blocks, whatever follows them, and exactly the blocks
/// are consumed.
pub proof fn law_stored_round_trip(body: Seq<u8>, after: Seq<u8>, limit: nat)
    requires
        body.len() <= limit,
    ensures
        inflate::inflated(stored_stream(body) + after, limit as int) == Ok::<
            (Seq<u8>, int),
            InflateError,
        >((body, stored_stream(body).len() as int)),
{
    let data = stored_stream(body) + after;
    assert(data.subrange(0, stored_stream(body).len() as int) =~= stored_stream(body));
    lemma_stored_stream(data, 0, body, seq![], limit as int);
    assert(Seq::<u8>::empty() + body =~= body);
}

} // verus!
