//! Canonical Huffman codes (RFC 1951, section 3.2.2): a code is described by
//! the length of each symbol's code word alone. Words of one length are
//! consecutive numbers in symbol order, and every word of a shorter length
//! precedes, as a bit string, every word of a longer one.
use vstd::arithmetic::power2::*;
use vstd::prelude::*;

use crate::bits;
use crate::bits::Bits;
use crate::inflate::InflateError;

verus! {

/// How many of the first `n` symbols have code words of length `len`.
pub open spec fn rank(lengths: Seq<u16>, len: int, n: int) -> nat
    decreases n,
{
    if n <= 0 {
        0
    } else if lengths[n - 1] == len {
        rank(lengths, len, n - 1) + 1
    } else {
        rank(lengths, len, n - 1)
    }
}

/// How many symbols have code words of length `len`.
pub open spec fn count(lengths: Seq<u16>, len: int) -> nat {
    rank(lengths, len, lengths.len() as int)
}

/// The smallest code word of length `len`, as a number.
pub open spec fn first_code(lengths: Seq<u16>, len: int) -> nat
    decreases len,
{
    if len <= 1 {
        0
    } else {
        2 * (first_code(lengths, len - 1) + count(lengths, len - 1))
    }
}

/// The code word of symbol `sym`, as a number of `lengths[sym]` bits.
pub open spec fn code(lengths: Seq<u16>, sym: int) -> nat {
    first_code(lengths, lengths[sym] as int) + rank(lengths, lengths[sym] as int, sym)
}

/// The Kraft sum of the code words of at most `len` bits, in units of
/// `2^-len`.
pub open spec fn kraft(lengths: Seq<u16>, len: int) -> nat
    decreases len,
{
    if len <= 0 {
        0
    } else {
        2 * kraft(lengths, len - 1) + count(lengths, len)
    }
}

/// More code words are asked for than a prefix code of 15 bits has room for.
pub open spec fn over_subscribed(lengths: Seq<u16>) -> bool {
    kraft(lengths, 15) > pow2(15)
}

/// No code word is longer than 15 bits, and symbols fit their tables.
pub open spec fn valid_lengths(lengths: Seq<u16>) -> bool {
    &&& lengths.len() <= 0xFFFF
    &&& forall|i: int| 0 <= i < lengths.len() ==> #[trigger] lengths[i] <= 15
}

/// How many symbols have a code word.
pub open spec fn used(lengths: Seq<u16>) -> int {
    lengths.len() - count(lengths, 0)
}

/// Does symbol `s` come before `t` in the order by length, then symbol?
pub open spec fn comes_before(lengths: Seq<u16>, s: int, t: int) -> bool {
    lengths[s] < lengths[t] || (lengths[s] == lengths[t] && s < t)
}

/// `symbols` starts with all symbols that have a code word, each once, sorted
/// by length, then symbol. Behind them it is padded with zeros up to the
/// number of symbols; without any code word it is empty.
pub open spec fn sorted_symbols(lengths: Seq<u16>, symbols: Seq<u16>) -> bool {
    let n = used(lengths);
    &&& symbols.len() == (if n == 0 {
        0
    } else {
        lengths.len()
    })
    &&& 0 <= n <= symbols.len()
    &&& forall|i: int|
        0 <= i < n ==> (#[trigger] symbols[i]) < lengths.len() && lengths[symbols[i] as int] >= 1
    &&& forall|i: int, j: int|
        0 <= i < j < n ==> comes_before(
            lengths,
            #[trigger] symbols[i] as int,
            #[trigger] symbols[j] as int,
        )
    &&& forall|sym: int|
        0 <= sym < lengths.len() && #[trigger] lengths[sym] >= 1 ==> exists|i: int|
            0 <= i < n && #[trigger] symbols[i] == sym
    &&& forall|i: int| n <= i < symbols.len() ==> #[trigger] symbols[i] == 0
}

/// The Kraft sum over the symbols one by one: a code word of `l` bits takes
/// up `2^(len - l)` of the `2^len` words of `len` bits.
pub open spec fn kraft_sum(lengths: Seq<u16>, len: int) -> nat
    decreases lengths.len(),
{
    if lengths.len() == 0 {
        0
    } else {
        kraft_sum(lengths.drop_last(), len) + share(lengths.last(), len)
    }
}

/// What a code word of `l` bits takes up of the words of `len` bits.
pub open spec fn share(l: u16, len: int) -> nat {
    if 1 <= l <= len {
        pow2((len - l) as nat)
    } else {
        0
    }
}

/// The bits from position `p` on start with the code word of `sym`.
pub open spec fn word_at(lengths: Seq<u16>, data: Seq<u8>, p: int, sym: int) -> bool {
    &&& 0 <= sym < lengths.len()
    &&& lengths[sym] >= 1
    &&& p + lengths[sym] <= bits::bit_len(data)
    &&& bits::code_value(data, p, lengths[sym] as nat) == code(lengths, sym)
}

/// Decoding at bit position `p`: the symbol whose code word stands there and
/// the position after it. Where none does, the stream either ended before a
/// longest possible word or holds bits that no symbol was given.
pub open spec fn symbol_at(lengths: Seq<u16>, data: Seq<u8>, p: int) -> Result<
    (int, int),
    InflateError,
> {
    if exists|sym: int| word_at(lengths, data, p, sym) {
        let sym = choose|sym: int| word_at(lengths, data, p, sym);
        Ok((sym, p + lengths[sym]))
    } else if bits::bit_len(data) - p < 15 {
        Err(InflateError::UnexpectedEof)
    } else {
        Err(InflateError::InvalidSymbol)
    }
}

/// Number of code words that are shorter than `len`.
spec fn offset(lengths: Seq<u16>, len: int) -> nat
    decreases len,
{
    if len <= 1 {
        0
    } else {
        offset(lengths, len - 1) + count(lengths, len - 1)
    }
}

proof fn lemma_rank_monotone(lengths: Seq<u16>, len: int, m: int, n: int)
    requires
        m <= n,
    ensures
        rank(lengths, len, m) <= rank(lengths, len, n),
        n >= 0 ==> rank(lengths, len, n) <= n,
        n - m >= 0 && m >= 0 ==> rank(lengths, len, n) - rank(lengths, len, m) <= n - m,
    decreases n - m, n,
{
    if m < n {
        lemma_rank_monotone(lengths, len, m, n - 1);
    } else if n > 0 {
        lemma_rank_monotone(lengths, len, n - 1, n - 1);
    }
}

/// A symbol's rank among those of its length is below their number.
proof fn lemma_rank_below_count(lengths: Seq<u16>, sym: int)
    requires
        0 <= sym < lengths.len(),
    ensures
        rank(lengths, lengths[sym] as int, sym) < count(lengths, lengths[sym] as int),
{
    lemma_rank_monotone(lengths, lengths[sym] as int, sym + 1, lengths.len() as int);
}

/// Two symbols of one length and one rank are the same symbol.
proof fn lemma_rank_injective(lengths: Seq<u16>, s: int, t: int)
    requires
        0 <= s < lengths.len(),
        0 <= t < lengths.len(),
        lengths[s] == lengths[t],
        rank(lengths, lengths[s] as int, s) == rank(lengths, lengths[t] as int, t),
    ensures
        s == t,
{
    if s < t {
        lemma_rank_monotone(lengths, lengths[s] as int, s + 1, t);
    } else if t < s {
        lemma_rank_monotone(lengths, lengths[s] as int, t + 1, s);
    }
}

/// Every rank below `rank(lengths, len, n)` belongs to some symbol.
proof fn lemma_rank_surjective(lengths: Seq<u16>, len: int, r: int, n: int) -> (sym: int)
    requires
        0 <= n <= lengths.len(),
        0 <= r < rank(lengths, len, n),
    ensures
        0 <= sym < n,
        lengths[sym] == len,
        rank(lengths, len, sym) == r,
    decreases n,
{
    if lengths[n - 1] == len && rank(lengths, len, n - 1) == r {
        n - 1
    } else {
        lemma_rank_surjective(lengths, len, r, n - 1)
    }
}

proof fn lemma_offset_monotone(lengths: Seq<u16>, a: int, b: int)
    requires
        1 <= a <= b,
    ensures
        offset(lengths, a) <= offset(lengths, b),
        a < b ==> offset(lengths, a) + count(lengths, a) <= offset(lengths, b),
    decreases b - a,
{
    if a < b {
        lemma_offset_monotone(lengths, a, b - 1);
    }
}

/// The first `n` symbols spread over the lengths 0 to 15.
spec fn rank_sum(lengths: Seq<u16>, len: int, n: int) -> nat
    decreases len + 1,
{
    if len < 0 {
        0
    } else {
        rank_sum(lengths, len - 1, n) + rank(lengths, len, n)
    }
}

proof fn lemma_rank_sum_step(lengths: Seq<u16>, len: int, n: int)
    requires
        0 < n <= lengths.len(),
    ensures
        rank_sum(lengths, len, n) == rank_sum(lengths, len, n - 1) + (if 0 <= lengths[n - 1]
            <= len {
            1nat
        } else {
            0nat
        }),
    decreases len + 1,
{
    if len >= 0 {
        lemma_rank_sum_step(lengths, len - 1, n);
    }
}

proof fn lemma_rank_sum(lengths: Seq<u16>, n: int)
    requires
        valid_lengths(lengths),
        0 <= n <= lengths.len(),
    ensures
        rank_sum(lengths, 15, n) == n,
    decreases n,
{
    if n > 0 {
        lemma_rank_sum_step(lengths, 15, n);
        lemma_rank_sum(lengths, n - 1);
    } else {
        reveal_with_fuel(rank_sum, 17);
    }
}

/// All words together are as many as the symbols with a nonzero length.
proof fn lemma_offset_total(lengths: Seq<u16>)
    requires
        valid_lengths(lengths),
    ensures
        offset(lengths, 16) + count(lengths, 0) == lengths.len(),
{
    lemma_rank_sum(lengths, lengths.len() as int);
    reveal_with_fuel(rank_sum, 17);
    reveal_with_fuel(offset, 17);
}

/// The slot of a symbol in the table sorted by length, then symbol.
spec fn slot(lengths: Seq<u16>, sym: int) -> nat {
    offset(lengths, lengths[sym] as int) + rank(lengths, lengths[sym] as int, sym)
}

proof fn lemma_slot(lengths: Seq<u16>, sym: int)
    requires
        valid_lengths(lengths),
        0 <= sym < lengths.len(),
        lengths[sym] >= 1,
    ensures
        slot(lengths, sym) < offset(lengths, 16) <= lengths.len(),
{
    lemma_rank_below_count(lengths, sym);
    lemma_offset_monotone(lengths, lengths[sym] as int, 16);
    lemma_offset_total(lengths);
}

proof fn lemma_slot_injective(lengths: Seq<u16>, s: int, t: int)
    requires
        valid_lengths(lengths),
        0 <= s < lengths.len(),
        0 <= t < lengths.len(),
        lengths[s] >= 1,
        lengths[t] >= 1,
        slot(lengths, s) == slot(lengths, t),
    ensures
        s == t,
{
    lemma_rank_below_count(lengths, s);
    lemma_rank_below_count(lengths, t);
    if lengths[s] < lengths[t] {
        lemma_offset_monotone(lengths, lengths[s] as int, lengths[t] as int);
    } else if lengths[t] < lengths[s] {
        lemma_offset_monotone(lengths, lengths[t] as int, lengths[s] as int);
    } else {
        lemma_rank_injective(lengths, s, t);
    }
}

proof fn lemma_rank_of_front(lengths: Seq<u16>, len: int, n: int)
    requires
        n < lengths.len(),
    ensures
        rank(lengths.drop_last(), len, n) == rank(lengths, len, n),
    decreases n,
{
    if n > 0 {
        lemma_rank_of_front(lengths, len, n - 1);
    }
}

proof fn lemma_kraft_step(lengths: Seq<u16>, len: int)
    requires
        lengths.len() > 0,
        0 <= len,
    ensures
        kraft(lengths, len) == kraft(lengths.drop_last(), len) + share(lengths.last(), len),
    decreases len,
{
    if len > 0 {
        let l = lengths.last();
        lemma_kraft_step(lengths, len - 1);
        lemma_rank_of_front(lengths, len, lengths.len() - 1);
        lemma2_to64();
        if 1 <= l < len {
            lemma_pow2_unfold((len - l) as nat);
        }
    }
}

proof fn lemma_kraft_of_none(lengths: Seq<u16>, len: int)
    requires
        lengths.len() == 0,
    ensures
        kraft(lengths, len) == 0,
    decreases len,
{
    if len > 0 {
        lemma_kraft_of_none(lengths, len - 1);
    }
}

/// The Kraft sum by length is the sum over the symbols: a set of lengths is
/// over-subscribed exactly if the words of 15 bits that its symbols take up
/// are more than there are.
pub proof fn law_kraft_is_the_sum_over_symbols(lengths: Seq<u16>, len: int)
    requires
        0 <= len,
    ensures
        kraft(lengths, len) == kraft_sum(lengths, len),
        over_subscribed(lengths) <==> kraft_sum(lengths, 15) > 0x8000,
    decreases lengths.len(),
{
    lemma2_to64();
    if lengths.len() == 0 {
        lemma_kraft_of_none(lengths, len);
        lemma_kraft_of_none(lengths, 15);
    } else {
        law_kraft_is_the_sum_over_symbols(lengths.drop_last(), len);
        law_kraft_is_the_sum_over_symbols(lengths.drop_last(), 15);
        lemma_kraft_step(lengths, len);
        lemma_kraft_step(lengths, 15);
    }
}

/// Every slot below the number of code words belongs to some symbol.
proof fn lemma_slot_taken(lengths: Seq<u16>, i: int, len: int) -> (sym: int)
    requires
        1 <= len,
        0 <= i < offset(lengths, len),
    ensures
        0 <= sym < lengths.len(),
        1 <= lengths[sym] < len,
        slot(lengths, sym) == i,
    decreases len,
{
    if i >= offset(lengths, len - 1) {
        lemma_rank_surjective(
            lengths,
            len - 1,
            i - offset(lengths, len - 1),
            lengths.len() as int,
        )
    } else {
        lemma_slot_taken(lengths, i, len - 1)
    }
}

/// Slots are in order of length, then symbol.
proof fn lemma_slot_order(lengths: Seq<u16>, s: int, t: int)
    requires
        0 <= s < lengths.len(),
        0 <= t < lengths.len(),
        lengths[s] >= 1,
        lengths[t] >= 1,
        slot(lengths, s) < slot(lengths, t),
    ensures
        comes_before(lengths, s, t),
{
    if lengths[t] < lengths[s] {
        lemma_rank_below_count(lengths, t);
        lemma_offset_monotone(lengths, lengths[t] as int, lengths[s] as int);
    } else if lengths[s] == lengths[t] && t <= s {
        lemma_rank_monotone(lengths, lengths[s] as int, t, s);
    }
}

/// A table with every symbol in its slot is sorted.
proof fn lemma_slots_are_sorted(lengths: Seq<u16>, symbols: Seq<u16>)
    requires
        valid_lengths(lengths),
        symbols.len() == (if used(lengths) == 0 {
            0
        } else {
            lengths.len()
        }),
        forall|sym: int|
            0 <= sym < lengths.len() && #[trigger] lengths[sym] >= 1 ==> slot(lengths, sym)
                < symbols.len() && symbols[slot(lengths, sym) as int] == sym,
        forall|i: int| used(lengths) <= i < symbols.len() ==> #[trigger] symbols[i] == 0,
    ensures
        sorted_symbols(lengths, symbols),
{
    let n = used(lengths);
    lemma_offset_total(lengths);
    assert forall|i: int| 0 <= i < n implies (#[trigger] symbols[i]) < lengths.len()
        && lengths[symbols[i] as int] >= 1 by {
        let sym = lemma_slot_taken(lengths, i, 16);
        assert(lengths[sym] >= 1);
    }
    assert forall|i: int, j: int| 0 <= i < j < n implies comes_before(
        lengths,
        #[trigger] symbols[i] as int,
        #[trigger] symbols[j] as int,
    ) by {
        let s = lemma_slot_taken(lengths, i, 16);
        let t = lemma_slot_taken(lengths, j, 16);
        assert(lengths[s] >= 1 && lengths[t] >= 1);
        lemma_slot_order(lengths, s, t);
    }
    assert forall|sym: int|
        0 <= sym < lengths.len() && #[trigger] lengths[sym] >= 1 implies exists|i: int|
        0 <= i < n && #[trigger] symbols[i] == sym by {
        lemma_slot(lengths, sym);
        assert(symbols[slot(lengths, sym) as int] == sym);
    }
}

/// Once the words of at most `len` bits overflow, longer words cannot help.
proof fn lemma_kraft_overflow(lengths: Seq<u16>, len: int, end: int)
    requires
        0 <= len <= end,
        kraft(lengths, len) > pow2(len as nat),
    ensures
        kraft(lengths, end) > pow2(end as nat),
    decreases end - len,
{
    if len < end {
        lemma_pow2_unfold((len + 1) as nat);
        lemma_kraft_overflow(lengths, len + 1, end);
    }
}

/// The first code of a longer length starts after every word of a shorter
/// length, extended by any bits.
proof fn lemma_first_code_grows(lengths: Seq<u16>, a: int, b: int)
    requires
        1 <= a < b,
    ensures
        first_code(lengths, b) >= (first_code(lengths, a) + count(lengths, a)) * pow2(
            (b - a) as nat,
        ),
    decreases b - a,
{
    lemma2_to64();
    let base = first_code(lengths, a) + count(lengths, a);
    if b == a + 1 {
        assert(base * pow2(1) == 2 * base) by (nonlinear_arith)
            requires
                pow2(1) == 2,
        ;
    } else {
        lemma_first_code_grows(lengths, a, b - 1);
        lemma_pow2_unfold((b - a) as nat);
        let w = pow2((b - a - 1) as nat);
        assert(base * (2 * w) == 2 * (base * w)) by (nonlinear_arith);
    }
}

/// Reading `b` bits refines the number that the first `a` of them form.
proof fn lemma_code_value_extends(data: Seq<u8>, p: int, a: nat, b: nat)
    requires
        a <= b,
    ensures
        bits::code_value(data, p, b) < (bits::code_value(data, p, a) + 1) * pow2((b - a) as nat),
    decreases b,
{
    lemma2_to64();
    let x = bits::code_value(data, p, a);
    if a == b {
        assert((x + 1) * pow2(0) == x + 1) by (nonlinear_arith)
            requires
                pow2(0) == 1,
        ;
    } else {
        lemma_code_value_extends(data, p, a, (b - 1) as nat);
        bits::lemma_bit_bound(data, p + b - 1);
        lemma_pow2_unfold((b - a) as nat);
        let w = pow2((b - a - 1) as nat);
        assert((x + 1) * (2 * w) == 2 * ((x + 1) * w)) by (nonlinear_arith);
    }
}

/// A canonical code is a prefix code: at one position of a stream stands the
/// code word of at most one symbol.
pub proof fn law_prefix_code(lengths: Seq<u16>, data: Seq<u8>, p: int, s: int, t: int)
    requires
        word_at(lengths, data, p, s),
        word_at(lengths, data, p, t),
    ensures
        s == t,
{
    if lengths[s] == lengths[t] {
        lemma_rank_injective(lengths, s, t);
    } else if lengths[s] < lengths[t] {
        lemma_no_longer_word(lengths, data, p, s, t);
    } else {
        lemma_no_longer_word(lengths, data, p, t, s);
    }
}

/// A word at a position rules out every longer word there.
proof fn lemma_no_longer_word(lengths: Seq<u16>, data: Seq<u8>, p: int, s: int, t: int)
    requires
        word_at(lengths, data, p, s),
        0 <= t < lengths.len(),
        lengths[s] < lengths[t],
    ensures
        !word_at(lengths, data, p, t),
{
    let a = lengths[s] as int;
    let b = lengths[t] as int;
    lemma_rank_below_count(lengths, s);
    lemma_first_code_grows(lengths, a, b);
    lemma_code_value_extends(data, p, a as nat, b as nat);
    let w = pow2((b - a) as nat);
    let x = code(lengths, s) + 1;
    let y = first_code(lengths, a) + count(lengths, a);
    assert(x * w <= y * w) by (nonlinear_arith)
        requires
            x <= y,
    ;
}

/// The symbol decoded at a position is the one whose code word stands there.
pub proof fn lemma_symbol_at(lengths: Seq<u16>, data: Seq<u8>, p: int, sym: int)
    requires
        word_at(lengths, data, p, sym),
    ensures
        symbol_at(lengths, data, p) == Ok::<(int, int), InflateError>((sym, p + lengths[sym])),
{
    let other = choose|s: int| word_at(lengths, data, p, s);
    law_prefix_code(lengths, data, p, sym, other);
}

/// Canonical Huffman decoding table: how many codes of each length there
/// are, and the symbols sorted by (length, symbol order).
pub struct Huffman {
    count: [u16; 16],
    symbol: Vec<u16>,
    lengths: Ghost<Seq<u16>>,
}

impl Huffman {
    /// The code word lengths that the table decodes.
    pub closed spec fn lengths(self) -> Seq<u16> {
        self.lengths@
    }

    /// How many code words of each length the table holds.
    pub closed spec fn counts(self) -> Seq<u16> {
        self.count@
    }

    /// The symbols of the table.
    pub closed spec fn symbols(self) -> Seq<u16> {
        self.symbol@
    }

    /// The table describes the canonical code of its lengths.
    pub closed spec fn wf(self) -> bool {
        let lengths = self.lengths@;
        &&& valid_lengths(lengths)
        &&& forall|len: int| 0 <= len <= 15 ==> #[trigger] self.count@[len] == count(lengths, len)
        &&& sorted_symbols(lengths, self.symbol@)
        &&& forall|sym: int|
            0 <= sym < lengths.len() && #[trigger] lengths[sym] >= 1 ==> {
                &&& slot(lengths, sym) < self.symbol@.len()
                &&& self.symbol@[slot(lengths, sym) as int] == sym
            }
    }

    /// What a well-formed table holds: the number of code words of every
    /// length from 0 to 15, and the symbols in order.
    pub proof fn law_table_contents(self)
        requires
            self.wf(),
        ensures
            self.counts().len() == 16,
            forall|len: int|
                0 <= len <= 15 ==> #[trigger] self.counts()[len] == count(self.lengths(), len),
            sorted_symbols(self.lengths(), self.symbols()),
    {
    }

    /// Build the table of the code with the given word lengths.
    pub fn construct(lengths: &[u16]) -> (r: Result<Huffman, InflateError>)
        requires
            valid_lengths(lengths@),
        ensures
            match r {
                Ok(h) => {
                    &&& !over_subscribed(lengths@)
                    &&& kraft_sum(lengths@, 15) <= 0x8000
                    &&& h.wf()
                    &&& h.lengths() == lengths@
                    &&& h.counts().len() == 16
                    &&& forall|len: int|
                        0 <= len <= 15 ==> #[trigger] h.counts()[len] == count(lengths@, len)
                    &&& sorted_symbols(lengths@, h.symbols())
                },
                Err(e) => {
                    &&& over_subscribed(lengths@)
                    &&& kraft_sum(lengths@, 15) > 0x8000
                    &&& e == InflateError::InvalidCodeLengths
                },
            },
    {
        let ghost ls = lengths@;
        let total: usize = lengths.len();
        let mut counts: [u16; 16] = [0u16; 16];
        let mut i: usize = 0;
        while i < total
            invariant
                total == lengths@.len(),
                ls == lengths@,
                valid_lengths(ls),
                i <= total,
                forall|len: int|
                    0 <= len <= 15 ==> #[trigger] counts[len] == rank(ls, len, i as int),
            decreases total - i,
        {
            let len: usize = lengths[i] as usize;
            proof {
                lemma_rank_monotone(ls, len as int, i as int, i as int);
            }
            counts[len] = counts[len] + 1;
            i = i + 1;
        }
        // An incomplete set is legal; a gap simply becomes InvalidSymbol at
        // decode time.
        let mut left: i64 = 1;
        let mut len: usize = 1;
        proof {
            lemma2_to64();
        }
        while len < 16
            invariant
                1 <= len <= 16,
                ls == lengths@,
                forall|l: int| 0 <= l <= 15 ==> #[trigger] counts[l] == count(ls, l),
                left == pow2((len - 1) as nat) - kraft(ls, len - 1),
                0 <= left <= pow2((len - 1) as nat),
            decreases 16 - len,
        {
            proof {
                lemma2_to64();
                lemma_pow2_unfold(len as nat);
                if len < 16 {
                    lemma_pow2_strictly_increases((len - 1) as nat, 15);
                }
            }
            left = left * 2 - counts[len] as i64;
            if left < 0 {
                proof {
                    lemma_kraft_overflow(ls, len as int, 15);
                    law_kraft_is_the_sum_over_symbols(ls, 15);
                }
                return Err(InflateError::InvalidCodeLengths);
            }
            len = len + 1;
        }
        let mut offs: [u16; 16] = [0u16; 16];
        let mut at: usize = 1;
        while at < 15
            invariant
                1 <= at <= 15,
                valid_lengths(ls),
                forall|l: int| 0 <= l <= 15 ==> #[trigger] counts[l] == count(ls, l),
                forall|l: int| 1 <= l <= at ==> #[trigger] offs[l] == offset(ls, l),
            decreases 15 - at,
        {
            proof {
                lemma_offset_monotone(ls, at as int, 16);
                lemma_offset_total(ls);
            }
            offs[at + 1] = offs[at] + counts[at];
            at = at + 1;
        }
        // No codes at all: legal for an unused distance table.
        let mut symbol: Vec<u16> = if counts[0] as usize == total {
            Vec::new()
        } else {
            vec![0u16; total]
        };
        let mut sym: usize = 0;
        proof {
            lemma_offset_total(ls);
        }
        while sym < total
            invariant
                total == lengths@.len(),
                ls == lengths@,
                valid_lengths(ls),
                sym <= total,
                used(ls) == offset(ls, 16),
                symbol@.len() == (if used(ls) == 0 {
                    0
                } else {
                    total
                }),
                forall|l: int|
                    1 <= l <= 15 ==> #[trigger] offs[l] == offset(ls, l) + rank(ls, l, sym as int),
                forall|s: int|
                    0 <= s < sym && #[trigger] ls[s] >= 1 ==> slot(ls, s) < symbol@.len()
                        && symbol@[slot(ls, s) as int] == s,
                forall|i: int| used(ls) <= i < symbol@.len() ==> #[trigger] symbol@[i] == 0,
            decreases total - sym,
        {
            let l: usize = lengths[sym] as usize;
            if l != 0 {
                proof {
                    lemma_slot(ls, sym as int);
                    assert forall|s: int| 0 <= s < sym && #[trigger] ls[s] >= 1 implies slot(ls, s)
                        != slot(ls, sym as int) by {
                        if slot(ls, s) == slot(ls, sym as int) {
                            lemma_slot_injective(ls, s, sym as int);
                        }
                    }
                }
                let place: usize = offs[l] as usize;
                symbol[place] = sym as u16;
                offs[l] = offs[l] + 1;
            }
            sym = sym + 1;
        }
        proof {
            lemma_slots_are_sorted(ls, symbol@);
            law_kraft_is_the_sum_over_symbols(ls, 15);
        }
        Ok(Huffman { count: counts, symbol, lengths: Ghost(ls) })
    }

    /// Decode one symbol.
    pub fn decode(&self, bits: &mut Bits<'_>) -> (r: Result<u16, InflateError>)
        requires
            self.wf(),
            old(bits).wf(),
        ensures
            final(bits).bytes() == old(bits).bytes(),
            match r {
                Ok(sym) => {
                    &&& symbol_at(self.lengths(), old(bits).bytes(), old(bits).at()) == Ok::<
                        (int, int),
                        InflateError,
                    >((sym as int, final(bits).at()))
                    &&& sym < self.lengths().len()
                    &&& final(bits).wf()
                },
                Err(e) => symbol_at(self.lengths(), old(bits).bytes(), old(bits).at()) == Err::<
                    (int, int),
                    InflateError,
                >(e),
            },
    {
        let ghost ls = self.lengths@;
        let ghost data = bits.bytes();
        let ghost p: int = bits.at();
        let mut code: u32 = 0;
        let mut first: u32 = 0;
        let mut index: u32 = 0;
        let mut len: usize = 1;
        proof {
            bits.lemma_at_bound();
            lemma2_to64();
        }
        while len < 16
            invariant
                self.wf(),
                ls == self.lengths(),
                bits.wf(),
                data == bits.bytes(),
                data == old(bits).bytes(),
                p == old(bits).at(),
                1 <= len <= 16,
                bits.at() == p + len - 1,
                bits.at() <= bits::bit_len(data),
                code == bits::code_value(data, p, (len - 1) as nat),
                code < pow2((len - 1) as nat),
                first == first_code(ls, len as int),
                first <= 2 * code,
                index == offset(ls, len as int),
                forall|s: int| #[trigger] word_at(ls, data, p, s) ==> ls[s] >= len,
            decreases 16 - len,
        {
            proof {
                lemma2_to64();
                lemma_pow2_unfold(len as nat);
                if len < 15 {
                    lemma_pow2_strictly_increases(len as nat, 15);
                }
                bits::lemma_bit_bound(data, p + len - 1);
                reveal_with_fuel(bits::bits_value, 2);
                assert(bits::bits_value(data, p + len - 1, 1) == bits::bit_at(data, p + len - 1));
                lemma_offset_monotone(ls, len as int, 16);
                lemma_offset_total(ls);
            }
            let bit: u32 = match bits.take(1) {
                Ok(bit) => bit,
                Err(e) => {
                    assert(!exists|s: int| word_at(ls, data, p, s));
                    return Err(e);
                },
            };
            code = 2 * code + bit;
            let count: u32 = self.count[len] as u32;
            if code - first < count {
                let ghost s = lemma_rank_surjective(ls, len as int, code - first, ls.len() as int);
                proof {
                    assert(ls[s] >= 1);
                    assert(word_at(ls, data, p, s));
                    lemma_symbol_at(ls, data, p, s);
                }
                return Ok(self.symbol[(index + (code - first)) as usize]);
            }
            proof {
                assert forall|s: int| #[trigger] word_at(ls, data, p, s) implies ls[s] >= len + 1 by {
                    if ls[s] == len {
                        lemma_rank_below_count(ls, s);
                    }
                }
            }
            index = index + count;
            first = 2 * (first + count);
            len = len + 1;
        }
        assert(!exists|s: int| word_at(ls, data, p, s));
        Err(InflateError::InvalidSymbol)
    }
}

} // verus!
