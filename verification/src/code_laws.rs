//! What the numbers of DEFLATE mean: the tables of lengths and distances, the
//! fixed codes, repeated code lengths, and what a back-reference copies.
use vstd::prelude::*;

use crate::bits;
use crate::huffman;
use crate::inflate;
use crate::inflate::InflateError;

verus! {

/// `2` to the power of `n`.
pub open spec fn power(n: nat) -> nat
    decreases n,
{
    if n == 0 {
        1
    } else {
        2 * power((n - 1) as nat)
    }
}

proof fn lemma_powers()
    ensures
        power(0) == 1,
        power(1) == 2,
        power(2) == 4,
        power(3) == 8,
        power(4) == 16,
        power(5) == 32,
        power(6) == 64,
        power(7) == 128,
        power(8) == 256,
        power(9) == 512,
        power(10) == 1024,
        power(11) == 2048,
        power(12) == 4096,
        power(13) == 8192,
{
    reveal_with_fuel(power, 14);
}

/// The length symbols cover every length from 3 on without gap or overlap:
/// each starts where the extra bits of the one before it end. The extra bits
/// grow by one every four symbols from the eighth on. The last symbol alone
/// stands for the longest match, 258.
pub proof fn law_lengths_are_covered(i: int)
    requires
        0 <= i < 28,
    ensures
        inflate::LENGTH_BASE[0] == 3,
        i < 27 ==> inflate::LENGTH_BASE[i + 1] == inflate::LENGTH_BASE[i] + power(
            inflate::LENGTH_EXTRA[i] as nat,
        ),
        inflate::LENGTH_EXTRA[i] == (if i < 8 {
            0int
        } else {
            (i - 4) / 4
        }),
        inflate::LENGTH_BASE[28] == 258,
        inflate::LENGTH_EXTRA[28] == 0,
{
    lemma_powers();
}

/// The distance symbols cover every distance from 1 up to 32768 without gap
/// or overlap; the extra bits grow by one every two symbols from the fourth
/// on.
pub proof fn law_distances_are_covered(i: int)
    requires
        0 <= i < 30,
    ensures
        inflate::DIST_BASE[0] == 1,
        i < 29 ==> inflate::DIST_BASE[i + 1] == inflate::DIST_BASE[i] + power(
            inflate::DIST_EXTRA[i] as nat,
        ),
        inflate::DIST_EXTRA[i] == (if i < 2 {
            0int
        } else {
            i / 2 - 1
        }),
        inflate::DIST_BASE[29] + power(inflate::DIST_EXTRA[29] as nat) == 32769,
{
    lemma_powers();
}

/// The lengths of the code-length code come as 16, 17, 18, 0 and then from
/// the middle outwards: 8, 7, 9, 6, and so on to 1 and 15.
pub proof fn law_code_length_order(j: int)
    requires
        0 <= j < 8,
    ensures
        inflate::CLEN_ORDER[0] == 16,
        inflate::CLEN_ORDER[1] == 17,
        inflate::CLEN_ORDER[2] == 18,
        inflate::CLEN_ORDER[3] == 0,
        inflate::CLEN_ORDER[4 + 2 * j] == 8 + j,
        j < 7 ==> inflate::CLEN_ORDER[5 + 2 * j] == 7 - j,
{
}

/// A back-reference repeats what stands `distance` bytes back, byte by byte,
/// its own bytes included, and keeps what was there.
pub proof fn law_copies_repeat_what_is_behind(out: Seq<u8>, distance: int, len: nat, i: int)
    requires
        0 < distance <= out.len(),
        0 <= i < len,
    ensures
        ({
            let next = out + inflate::back_copy(out, distance, len);
            &&& next.len() == out.len() + len
            &&& next.take(out.len() as int) == out
            &&& next[out.len() + i] == next[out.len() + i - distance]
        }),
{
    let next = out + inflate::back_copy(out, distance, len);
    assert(next.take(out.len() as int) =~= out);
    if i >= distance {
        assert((i - distance) % distance == i % distance) by {
            vstd::arithmetic::div_mod::lemma_mod_sub_multiples_vanish(i, distance);
        }
    } else {
        assert(i % distance == i) by {
            vstd::arithmetic::div_mod::lemma_small_mod(i as nat, distance as nat);
        }
    }
}

/// A literal adds its byte; the end-of-block symbol ends the block there.
pub proof fn law_literals_are_added(
    lit: Seq<u16>,
    dist: Seq<u16>,
    data: Seq<u8>,
    p: int,
    out: Seq<u8>,
    limit: int,
    sym: int,
    q: int,
)
    requires
        huffman::symbol_at(lit, data, p) == Ok::<(int, int), InflateError>((sym, q)),
        0 <= sym <= 256,
        out.len() < limit,
    ensures
        inflate::compressed(lit, dist, data, p, out, limit) == (if sym == 256 {
            Ok::<(Seq<u8>, int), InflateError>((out, q))
        } else {
            inflate::compressed(lit, dist, data, q, out.push(sym as u8), limit)
        }),
{
    reveal_with_fuel(inflate::compressed, 2);
}

/// The extra bits that follow the `i`th length symbol.
pub open spec fn length_bits(i: int) -> nat {
    if i < 8 || i == 28 {
        0
    } else {
        ((i - 4) / 4) as nat
    }
}

/// The shortest length of the `i`th length symbol: right behind those of the
/// symbol before it, and 258 for the last one.
pub open spec fn length_from(i: int) -> nat
    decreases i,
{
    if i <= 0 {
        3
    } else if i == 28 {
        258
    } else {
        length_from(i - 1) + power(length_bits(i - 1))
    }
}

/// The extra bits that follow the `i`th distance symbol.
pub open spec fn distance_bits(i: int) -> nat {
    if i < 2 {
        0
    } else {
        (i / 2 - 1) as nat
    }
}

/// The shortest distance of the `i`th distance symbol: right behind those of
/// the symbol before it.
pub open spec fn distance_from(i: int) -> nat
    decreases i,
{
    if i <= 0 {
        1
    } else {
        distance_from(i - 1) + power(distance_bits(i - 1))
    }
}

proof fn lemma_length_table(i: int)
    requires
        0 <= i < 29,
    ensures
        inflate::LENGTH_BASE[i] == length_from(i),
        inflate::LENGTH_EXTRA[i] == length_bits(i),
    decreases i,
{
    if i == 28 {
        law_lengths_are_covered(0);
    } else if i > 0 {
        lemma_length_table(i - 1);
        law_lengths_are_covered(i - 1);
        law_lengths_are_covered(i);
    } else {
        law_lengths_are_covered(0);
    }
}

proof fn lemma_distance_table(i: int)
    requires
        0 <= i < 30,
    ensures
        inflate::DIST_BASE[i] == distance_from(i),
        inflate::DIST_EXTRA[i] == distance_bits(i),
    decreases i,
{
    if i > 0 {
        lemma_distance_table(i - 1);
        law_distances_are_covered(i - 1);
        law_distances_are_covered(i);
    } else {
        law_distances_are_covered(0);
    }
}

/// Is `next` what copying `len` bytes from `distance` back makes of `out`?
pub open spec fn copied(out: Seq<u8>, distance: int, len: nat, next: Seq<u8>) -> bool {
    &&& next.len() == out.len() + len
    &&& next.take(out.len() as int) == out
    &&& forall|j: int|
        out.len() <= j < next.len() ==> #[trigger] next[j] == next[j - distance]
}

/// A length symbol, its extra bits, a distance symbol and its extra bits make
/// a match: the output grows by that length, copied from that distance back,
/// and decoding goes on behind them. A distance that reaches back too far is
/// an error.
pub proof fn law_matches_are_copied(
    lit: Seq<u16>,
    dist: Seq<u16>,
    data: Seq<u8>,
    p: int,
    out: Seq<u8>,
    limit: int,
    i: int,
    q: int,
    d: int,
    r: int,
)
    requires
        0 <= i < 29,
        0 <= d < 30,
        huffman::symbol_at(lit, data, p) == Ok::<(int, int), InflateError>((257 + i, q)),
        q + length_bits(i) <= bits::bit_len(data),
        huffman::symbol_at(dist, data, q + length_bits(i)) == Ok::<(int, int), InflateError>(
            (d, r),
        ),
        r + distance_bits(d) <= bits::bit_len(data),
        out.len() + length_from(i) + bits::bits_value(data, q, length_bits(i)) <= limit,
    ensures
        ({
            let len = length_from(i) + bits::bits_value(data, q, length_bits(i));
            let distance = (distance_from(d) + bits::bits_value(
                data,
                r,
                distance_bits(d),
            )) as int;
            let all = inflate::compressed(lit, dist, data, p, out, limit);
            if distance > out.len() {
                all == Err::<(Seq<u8>, int), InflateError>(InflateError::InvalidDistance)
            } else {
                exists|next: Seq<u8>| #[trigger]
                    copied(out, distance, len, next) && all == inflate::compressed(
                        lit,
                        dist,
                        data,
                        r + distance_bits(d),
                        next,
                        limit,
                    )
            }
        }),
{
    lemma_length_table(i);
    lemma_distance_table(d);
    lemma_distance_positive(d);
    let len = length_from(i) + bits::bits_value(data, q, length_bits(i));
    let distance = (distance_from(d) + bits::bits_value(data, r, distance_bits(d))) as int;
    assert(inflate::back_reference(dist, data, 257 + i, q) == Ok::<
        ((int, int), int),
        InflateError,
    >(((distance, len as int), r + distance_bits(d))));
    if distance <= out.len() {
        let next = out + inflate::back_copy(out, distance, len);
        assert(copied(out, distance, len, next)) by {
            assert(next.take(out.len() as int) =~= out);
            assert forall|j: int| out.len() <= j < next.len() implies #[trigger] next[j]
                == next[j - distance] by {
                law_copies_repeat_what_is_behind(out, distance, len, j - out.len());
            }
        }
        reveal_with_fuel(inflate::compressed, 2);
    }
}

proof fn lemma_distance_positive(i: int)
    ensures
        distance_from(i) >= 1,
    decreases i,
{
    if i > 0 {
        lemma_distance_positive(i - 1);
    }
}

/// Code lengths up to 15 stand for themselves. 16 repeats the last one 3 to 6
/// times, 17 stands for 3 to 10 zeros, and 18 for 11 to 138, by the 2, 3 or 7
/// bits behind them; a repeat with nothing to repeat, and a run past the end,
/// are errors.
pub proof fn law_code_lengths_are_repeated(
    clen: Seq<u16>,
    data: Seq<u8>,
    p: int,
    acc: Seq<u16>,
    total: int,
    sym: int,
    q: int,
    width: nat,
    least: nat,
)
    requires
        acc.len() < total,
        huffman::symbol_at(clen, data, p) == Ok::<(int, int), InflateError>((sym, q)),
        (sym == 16 && width == 2 && least == 3) || (sym == 17 && width == 3 && least == 3) || (sym
            == 18 && width == 7 && least == 11),
        q + width <= bits::bit_len(data),
    ensures
        ({
            let n = least + bits::bits_value(data, q, width);
            let all = inflate::code_lengths(clen, data, p, acc, total);
            if (sym == 16 && acc.len() == 0) || acc.len() + n > total {
                all == Err::<(Seq<u16>, int), InflateError>(InflateError::InvalidCodeLengths)
            } else {
                exists|next: Seq<u16>| {
                    &&& next.len() == acc.len() + n
                    &&& next.take(acc.len() as int) == acc
                    &&& forall|j: int|
                        acc.len() <= j < next.len() ==> #[trigger] next[j] == (if sym == 16 {
                            acc.last()
                        } else {
                            0
                        })
                    &&& all == #[trigger] inflate::code_lengths(
                        clen,
                        data,
                        q + width,
                        next,
                        total,
                    )
                }
            }
        }),
{
    let n = least + bits::bits_value(data, q, width);
    let value: u16 = if sym == 16 {
        acc.last()
    } else {
        0
    };
    let next = acc + Seq::new(n, |i: int| value);
    assert(next.take(acc.len() as int) =~= acc);
    reveal_with_fuel(inflate::code_lengths, 2);
    if !((sym == 16 && acc.len() == 0) || acc.len() + n > total) {
        assert(inflate::code_lengths(clen, data, p, acc, total) == inflate::code_lengths(
            clen,
            data,
            q + width,
            next,
            total,
        ));
    }
}

/// The header of a dynamic block: 257 literal/length codes and those that five
/// bits add, one distance code and those that five more add, read as one run
/// of lengths behind the 3-bit lengths of the code-length code, of which there
/// are four and those that four bits add. The end-of-block symbol has a code,
/// and neither code is over-subscribed.
pub proof fn law_dynamic_header(data: Seq<u8>, p: int)
    ensures
        inflate::dynamic_codes(data, p) matches Ok(((lit, dist), q)) ==> {
            let hclen = 4 + bits::bits_value(data, p + 10, 4) as int;
            let clen = inflate::clen_lengths(data, p + 14, hclen);
            &&& lit.len() == 257 + bits::bits_value(data, p, 5)
            &&& dist.len() == 1 + bits::bits_value(data, p + 5, 5)
            &&& lit.len() <= 286
            &&& dist.len() <= 30
            &&& inflate::code_lengths(
                clen,
                data,
                p + 14 + 3 * hclen,
                seq![],
                (lit.len() + dist.len()) as int,
            ) == Ok::<(Seq<u16>, int), InflateError>((lit + dist, q))
            &&& lit[256] != 0
            &&& huffman::kraft_sum(lit, 15) <= 0x8000
            &&& huffman::kraft_sum(dist, 15) <= 0x8000
        },
{
    reveal(inflate::dynamic_codes);
    if let Ok(((lit, dist), q)) = inflate::dynamic_codes(data, p) {
        let hlit = 257 + bits::bits_value(data, p, 5) as int;
        let hdist = 1 + bits::bits_value(data, p + 5, 5) as int;
        let hclen = 4 + bits::bits_value(data, p + 10, 4) as int;
        let clen = inflate::clen_lengths(data, p + 14, hclen);
        inflate::lemma_code_lengths_advances(
            clen,
            data,
            p + 14 + 3 * hclen,
            seq![],
            hlit + hdist,
        );
        let all = lit + dist;
        let (read, _) = inflate::code_lengths(
            clen,
            data,
            p + 14 + 3 * hclen,
            seq![],
            hlit + hdist,
        )->Ok_0;
        assert(all =~= read);
        huffman::law_kraft_is_the_sum_over_symbols(lit, 15);
        huffman::law_kraft_is_the_sum_over_symbols(dist, 15);
    }
}

/// The words of the fixed code: eight bits from 0x30 on for the literals below
/// 144, nine bits from 0x190 on for the other literals, seven bits from 0 on
/// for the symbols from 256 on, and eight bits from 0xC0 on for the last
/// eight.
pub proof fn law_fixed_words(sym: int)
    requires
        0 <= sym < 288,
    ensures
        inflate::fixed_literals().len() == 288,
        inflate::fixed_literals()[sym] == (if sym < 144 {
            8int
        } else if sym < 256 {
            9
        } else if sym < 280 {
            7
        } else {
            8
        }),
        huffman::code(inflate::fixed_literals(), sym) == (if sym < 144 {
            0x30 + sym
        } else if sym < 256 {
            0x190 + (sym - 144)
        } else if sym < 280 {
            sym - 256
        } else {
            0xC0 + (sym - 280)
        }),
{
    let f = inflate::fixed_literals();
    assert forall|len: int| #[trigger]
        huffman::count(f, len) == (if len == 7 {
            24nat
        } else if len == 8 {
            152nat
        } else if len == 9 {
            112nat
        } else {
            0nat
        }) by {
        inflate::lemma_fixed_rank(len, 288);
    }
    inflate::lemma_fixed_rank(f[sym] as int, sym);
    reveal_with_fuel(huffman::first_code, 10);
}

/// The words of the fixed distance code: five bits that spell the symbol.
pub proof fn law_fixed_distance_words(sym: int)
    requires
        0 <= sym < 30,
    ensures
        inflate::fixed_distances().len() == 30,
        inflate::fixed_distances()[sym] == 5,
        huffman::code(inflate::fixed_distances(), sym) == sym,
{
    let f = inflate::fixed_distances();
    assert forall|len: int| #[trigger]
        huffman::count(f, len) == (if len == 5 {
            30nat
        } else {
            0nat
        }) by {
        inflate::lemma_fixed_distance_rank(len, 30);
    }
    inflate::lemma_fixed_distance_rank(5, sym);
    reveal_with_fuel(huffman::first_code, 6);
}

/// A block goes by its two type bits: stored, fixed codes, or codes of its
/// own; the fourth type is an error.
pub proof fn law_block_types(data: Seq<u8>, p: int, out: Seq<u8>, limit: int)
    ensures
        inflate::block(1, data, p, out, limit) == inflate::compressed(
            inflate::fixed_literals(),
            inflate::fixed_distances(),
            data,
            p,
            out,
            limit,
        ),
        inflate::dynamic_codes(data, p) matches Ok(((lit, dist), q)) ==> inflate::block(
            2,
            data,
            p,
            out,
            limit,
        ) == inflate::compressed(lit, dist, data, q, out, limit),
        inflate::block(3, data, p, out, limit) == Err::<(Seq<u8>, int), InflateError>(
            InflateError::InvalidBlockType,
        ),
{
    reveal(inflate::block);
}

proof fn lemma_rank_between(lengths: Seq<u16>, len: int, m: int, n: int)
    requires
        0 <= m <= n <= lengths.len(),
        forall|j: int| m <= j < n ==> #[trigger] lengths[j] != len,
    ensures
        huffman::rank(lengths, len, n) == huffman::rank(lengths, len, m),
    decreases n - m,
{
    if m < n {
        lemma_rank_between(lengths, len, m, n - 1);
        assert(lengths[n - 1] != len);
    }
}

/// Code words are handed out in order: the next symbol of the same length has
/// the next word.
pub proof fn law_words_of_one_length_are_consecutive(lengths: Seq<u16>, s: int, t: int)
    requires
        0 <= s < t < lengths.len(),
        lengths[s] == lengths[t],
        forall|j: int| s < j < t ==> #[trigger] lengths[j] != lengths[s],
    ensures
        huffman::code(lengths, t) == huffman::code(lengths, s) + 1,
{
    lemma_rank_between(lengths, lengths[s] as int, s + 1, t);
}

/// The first symbol of the shortest length has the word of zeros.
pub proof fn law_first_word_is_zero(lengths: Seq<u16>, s: int)
    requires
        0 <= s < lengths.len(),
        lengths[s] >= 1,
        forall|j: int| 0 <= j < lengths.len() ==> #[trigger] lengths[j] == 0 || lengths[j]
            >= lengths[s],
        forall|j: int| 0 <= j < s ==> #[trigger] lengths[j] != lengths[s],
    ensures
        huffman::code(lengths, s) == 0,
{
    let m = lengths[s] as int;
    lemma_rank_between(lengths, m, 0, s);
    lemma_first_code_zero(lengths, m);
}

proof fn lemma_first_code_zero(lengths: Seq<u16>, m: int)
    requires
        forall|j: int| 0 <= j < lengths.len() ==> #[trigger] lengths[j] == 0 || lengths[j] >= m,
    ensures
        huffman::first_code(lengths, m) == 0,
    decreases m,
{
    if m > 1 {
        lemma_first_code_zero(lengths, m - 1);
        assert forall|j: int| 0 <= j < lengths.len() implies #[trigger] lengths[j] != m - 1 by {
        }
        lemma_rank_between(lengths, m - 1, 0, lengths.len() as int);
    }
}

proof fn lemma_first_code_doubles(lengths: Seq<u16>, l: int, m: int)
    requires
        1 <= l < m,
        forall|j: int| 0 <= j < lengths.len() ==> !(l < #[trigger] lengths[j] < m),
    ensures
        huffman::first_code(lengths, m) == (huffman::first_code(lengths, l) + huffman::count(
            lengths,
            l,
        )) * power((m - l) as nat),
    decreases m,
{
    let base = huffman::first_code(lengths, l) + huffman::count(lengths, l);
    reveal_with_fuel(power, 2);
    if l + 1 < m {
        lemma_first_code_doubles(lengths, l, m - 1);
        assert forall|j: int| 0 <= j < lengths.len() implies #[trigger] lengths[j] != m - 1 by {
        }
        lemma_rank_between(lengths, m - 1, 0, lengths.len() as int);
        let w = power((m - 1 - l) as nat);
        assert(power((m - l) as nat) == 2 * w);
        assert(2 * (base * w) == base * (2 * w)) by (nonlinear_arith);
    } else {
        assert(power(1) == 2);
        assert(base * 2 == 2 * base);
    }
}

/// A longer length goes on where the shorter one stopped: its first word is
/// the one behind the last shorter word, with zeros appended.
pub proof fn law_longer_words_go_on(lengths: Seq<u16>, s: int, t: int)
    requires
        0 <= s < lengths.len(),
        0 <= t < lengths.len(),
        1 <= lengths[s] < lengths[t],
        forall|j: int| s < j < lengths.len() ==> #[trigger] lengths[j] != lengths[s],
        forall|j: int| 0 <= j < t ==> #[trigger] lengths[j] != lengths[t],
        forall|j: int| 0 <= j < lengths.len() ==> !(lengths[s] < #[trigger] lengths[j]
            < lengths[t]),
    ensures
        huffman::code(lengths, t) == (huffman::code(lengths, s) + 1) * power(
            (lengths[t] - lengths[s]) as nat,
        ),
{
    let l = lengths[s] as int;
    let m = lengths[t] as int;
    lemma_rank_between(lengths, m, 0, t);
    lemma_rank_between(lengths, l, s + 1, lengths.len() as int);
    lemma_first_code_doubles(lengths, l, m);
}

/// A symbol is decoded wherever its word stands, first bit of the word first;
/// decoding goes on right behind it.
pub proof fn law_words_are_decoded(lengths: Seq<u16>, data: Seq<u8>, p: int, sym: int)
    requires
        0 <= sym < lengths.len(),
        lengths[sym] >= 1,
        0 <= p,
        p + lengths[sym] <= 8 * data.len(),
        forall|i: int|
            0 <= i < lengths[sym] ==> #[trigger] stream_bit(data, p + i) == word_bit(
                huffman::code(lengths, sym),
                lengths[sym] as int,
                i,
            ),
        huffman::code(lengths, sym) < power(lengths[sym] as nat),
    ensures
        huffman::symbol_at(lengths, data, p) == Ok::<(int, int), InflateError>(
            (sym, p + lengths[sym]),
        ),
{
    let n = lengths[sym] as nat;
    let code = huffman::code(lengths, sym);
    lemma_code_bits(data, p, n, code, n);
    assert(power(0) == 1);
    assert(code / 1 == code);
    huffman::lemma_symbol_at(lengths, data, p, sym);
}

/// Bit `p` of a stream: the lowest bit of each byte comes first.
pub open spec fn stream_bit(data: Seq<u8>, p: int) -> int {
    data[p / 8] as int / power((p % 8) as nat) as int % 2
}

/// Bit `i` of a word of `n` bits: the highest bit comes first.
pub open spec fn word_bit(code: nat, n: int, i: int) -> int {
    code as int / power((n - 1 - i) as nat) as int % 2
}

proof fn lemma_stream_bit(data: Seq<u8>, p: int)
    requires
        0 <= p < 8 * data.len(),
    ensures
        bits::bit_at(data, p) == stream_bit(data, p),
{
    lemma_powers();
    let b = data[p / 8];
    let k = (p % 8) as u8;
    assert({
        &&& (b >> 0u8) & 1 == b / 1 % 2
        &&& (b >> 1u8) & 1 == b / 2 % 2
        &&& (b >> 2u8) & 1 == b / 4 % 2
        &&& (b >> 3u8) & 1 == b / 8 % 2
        &&& (b >> 4u8) & 1 == b / 16 % 2
        &&& (b >> 5u8) & 1 == b / 32 % 2
        &&& (b >> 6u8) & 1 == b / 64 % 2
        &&& (b >> 7u8) & 1 == b / 128 % 2
    }) by (bit_vector);
}

proof fn lemma_code_bits(data: Seq<u8>, p: int, n: nat, code: nat, k: nat)
    requires
        k <= n,
        0 <= p,
        p + n <= 8 * data.len(),
        code < power(n),
        forall|i: int|
            0 <= i < n ==> #[trigger] stream_bit(data, p + i) == word_bit(code, n as int, i),
    ensures
        bits::code_value(data, p, k) == code / power((n - k) as nat),
    decreases k,
{
    reveal_with_fuel(power, 2);
    lemma_power_positive(n);
    if k == 0 {
        assert(code / power(n) == 0) by (nonlinear_arith)
            requires
                0 <= code < power(n),
                power(n) > 0,
        ;
    } else {
        lemma_code_bits(data, p, n, code, (k - 1) as nat);
        lemma_stream_bit(data, p + k - 1);
        assert(stream_bit(data, p + (k - 1)) == word_bit(code, n as int, k - 1));
        let w = power((n - k) as nat);
        lemma_power_positive((n - k) as nat);
        assert(power((n - k + 1) as nat) == 2 * w);
        assert(code / (2 * w) == code / w / 2) by {
            vstd::arithmetic::div_mod::lemma_div_denominator(code as int, w as int, 2);
            assert(w * 2 == 2 * w);
        }
    }
}

proof fn lemma_power_positive(n: nat)
    ensures
        power(n) > 0,
    decreases n,
{
    if n > 0 {
        lemma_power_positive((n - 1) as nat);
    }
}

/// Numbers stand in the stream lowest bit first.
pub proof fn law_numbers_are_lowest_bit_first(data: Seq<u8>, p: int, n: nat)
    requires
        0 <= p,
        p + n <= 8 * data.len(),
        n > 0,
    ensures
        bits::bits_value(data, p, n) < power(n),
        bits::bits_value(data, p, n) as int % 2 == stream_bit(data, p),
        bits::bits_value(data, p, n) / 2 == bits::bits_value(data, p + 1, (n - 1) as nat),
    decreases n,
{
    lemma_stream_bit(data, p);
    reveal_with_fuel(power, 2);
    reveal_with_fuel(bits::bits_value, 2);
    if n > 1 {
        law_numbers_are_lowest_bit_first(data, p + 1, (n - 1) as nat);
    }
}

/// A stream takes up whole bytes: as many as its last block reaches into.
pub proof fn law_last_byte_counts_whole(
    data: Seq<u8>,
    p: int,
    out: Seq<u8>,
    limit: int,
    more: Seq<u8>,
    q: int,
)
    requires
        0 <= p,
        p + 3 <= 8 * data.len(),
        stream_bit(data, p) == 1,
        inflate::block(bits::bits_value(data, p + 1, 2), data, p + 3, out, limit) == Ok::<
            (Seq<u8>, int),
            InflateError,
        >((more, q)),
    ensures
        inflate::blocks(data, p, out, limit) matches Ok((all, n)) && all == more && 8 * (n - 1) < q
            && q <= 8 * n,
{
    lemma_stream_bit(data, p);
    reveal_with_fuel(inflate::blocks, 2);
}

/// A block that is not the last is followed by the next one, right behind its
/// last bit.
pub proof fn law_blocks_follow_each_other(
    data: Seq<u8>,
    p: int,
    out: Seq<u8>,
    limit: int,
    more: Seq<u8>,
    q: int,
)
    requires
        0 <= p,
        p + 3 <= 8 * data.len(),
        stream_bit(data, p) == 0,
        inflate::block(bits::bits_value(data, p + 1, 2), data, p + 3, out, limit) == Ok::<
            (Seq<u8>, int),
            InflateError,
        >((more, q)),
    ensures
        inflate::blocks(data, p, out, limit) == inflate::blocks(data, q, more, limit),
{
    lemma_stream_bit(data, p);
    reveal_with_fuel(inflate::blocks, 2);
    inflate::lemma_block_advances(bits::bits_value(data, p + 1, 2), data, p + 3, out, limit);
}

/// A stored block starts at the next byte boundary, wherever its header ended:
/// a length, its complement, and that many bytes.
pub proof fn law_stored_block_is_aligned(
    data: Seq<u8>,
    p: int,
    out: Seq<u8>,
    limit: int,
    s: int,
    body: Seq<u8>,
)
    requires
        0 <= s,
        8 * (s - 1) < p <= 8 * s,
        body.len() < 0x1_0000,
        s + 4 + body.len() <= data.len(),
        data[s] + 256 * data[s + 1] == body.len(),
        data.subrange(s + 4, s + 4 + body.len()) == body,
    ensures
        inflate::block(0, data, p, out, limit) == (if data[s + 2] + 256 * data[s + 3]
            + body.len() != 0xFFFF {
            Err::<(Seq<u8>, int), InflateError>(InflateError::InvalidStoredLength)
        } else if out.len() + body.len() > limit {
            Err(InflateError::OutputLimit)
        } else {
            Ok((out + body, 8 * (s + 4 + body.len())))
        }),
{
    reveal(inflate::block);
    assert(bits::byte_after(p) == s);
}

} // verus!
