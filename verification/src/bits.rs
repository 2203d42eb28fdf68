//! LSB-first bit reading over a byte slice, the way DEFLATE packs its
//! fields: bit 0 of a byte comes first, and multi-bit numbers start with
//! their least significant bit. Huffman codes are the exception; their most
//! significant bit comes first.
use vstd::arithmetic::div_mod::*;
use vstd::arithmetic::power2::*;
use vstd::bits::*;
use vstd::prelude::*;

use crate::inflate::InflateError;

verus! {

/// Number of bits in the stream.
pub open spec fn bit_len(data: Seq<u8>) -> int {
    8 * data.len() as int
}

/// Bit `k` of the stream: bit `k % 8` of byte `k / 8`.
pub open spec fn bit_at(data: Seq<u8>, k: int) -> nat {
    ((data[k / 8] >> ((k % 8) as u8)) & 1) as nat
}

/// The number formed by the `n` bits from position `p` on, least
/// significant bit first.
pub open spec fn bits_value(data: Seq<u8>, p: int, n: nat) -> nat
    decreases n,
{
    if n == 0 {
        0
    } else {
        bit_at(data, p) + 2 * bits_value(data, p + 1, (n - 1) as nat)
    }
}

/// The number formed by the `n` bits from position `p` on, most
/// significant bit first, as Huffman codes are written.
pub open spec fn code_value(data: Seq<u8>, p: int, n: nat) -> nat
    decreases n,
{
    if n == 0 {
        0
    } else {
        2 * code_value(data, p, (n - 1) as nat) + bit_at(data, p + n - 1)
    }
}

/// The first byte boundary at or after bit position `p`.
pub open spec fn byte_after(p: int) -> int {
    (p + 7) / 8
}

pub proof fn lemma_bit_bound(data: Seq<u8>, k: int)
    ensures
        bit_at(data, k) <= 1,
{
    let b = data[k / 8];
    let i = (k % 8) as u8;
    assert((b >> i) & 1 <= 1) by (bit_vector);
}

pub proof fn lemma_bits_value_bound(data: Seq<u8>, p: int, n: nat)
    ensures
        bits_value(data, p, n) < pow2(n),
    decreases n,
{
    lemma2_to64();
    if n > 0 {
        lemma_bits_value_bound(data, p + 1, (n - 1) as nat);
        lemma_bit_bound(data, p);
        lemma_pow2_unfold(n);
    }
}

/// A run of `m + n` bits is its first `m` bits plus the next `n` bits
/// shifted up by `m`.
pub proof fn lemma_bits_value_split(data: Seq<u8>, p: int, m: nat, n: nat)
    ensures
        bits_value(data, p, m + n) == bits_value(data, p, m) + pow2(m) * bits_value(
            data,
            p + m,
            n,
        ),
    decreases m,
{
    lemma2_to64();
    if m > 0 {
        lemma_bits_value_split(data, p + 1, (m - 1) as nat, n);
        lemma_pow2_unfold(m);
        let hi = bits_value(data, p + m, n);
        assert(2 * (pow2((m - 1) as nat) * hi) == (2 * pow2((m - 1) as nat)) * hi)
            by (nonlinear_arith);
        assert(p + 1 + (m - 1) == p + m);
        assert((m - 1) as nat + n == (m + n - 1) as nat);
        assert(bits_value(data, p, m + n) == bit_at(data, p) + 2 * bits_value(
            data,
            p + 1,
            ((m - 1) as nat + n) as nat,
        ));
    } else {
        assert(pow2(0) * bits_value(data, p, n) == bits_value(data, p, n)) by (nonlinear_arith)
            requires
                pow2(0) == 1,
        ;
    }
}

/// The eight bits of a byte-aligned position are the byte itself.
pub proof fn lemma_byte_value(data: Seq<u8>, i: int)
    requires
        0 <= i < data.len(),
    ensures
        bits_value(data, 8 * i, 8) == data[i],
{
    let b = data[i];
    reveal_with_fuel(bits_value, 9);
    assert forall|j: int| 0 <= j < 8 implies #[trigger] bit_at(data, 8 * i + j) == ((b >> (
    j as u8)) & 1) as nat by {
        assert((8 * i + j) / 8 == i);
        assert((8 * i + j) % 8 == j);
    }
    let p = 8 * i;
    assert(bits_value(data, p, 8) == bit_at(data, p + 0) + 2 * (bit_at(data, p + 1) + 2 * (bit_at(
        data,
        p + 2,
    ) + 2 * (bit_at(data, p + 3) + 2 * (bit_at(data, p + 4) + 2 * (bit_at(data, p + 5) + 2 * (
    bit_at(data, p + 6) + 2 * bit_at(data, p + 7))))))));
    assert(((b >> 0u8) & 1) + 2 * (((b >> 1u8) & 1) + 2 * (((b >> 2u8) & 1) + 2 * (((b >> 3u8) & 1)
        + 2 * (((b >> 4u8) & 1) + 2 * (((b >> 5u8) & 1) + 2 * (((b >> 6u8) & 1) + 2 * ((b >> 7u8)
        & 1))))))) == b) by (bit_vector);
}

/// LSB-first bit reader over a byte slice.
pub struct Bits<'a> {
    data: &'a [u8],
    /// Next byte to load into the buffer.
    pos: usize,
    /// Loaded bits that were not consumed yet.
    buf: u32,
    /// How many bits `buf` holds.
    cnt: u32,
}

impl<'a> Bits<'a> {
    /// The buffer holds exactly the unread bits of the last loaded byte.
    pub closed spec fn wf(self) -> bool {
        &&& self.pos <= self.data@.len()
        &&& self.cnt < 8
        &&& self.cnt <= 8 * self.pos
        &&& self.buf == bits_value(self.data@, 8 * self.pos - self.cnt, self.cnt as nat)
    }

    /// The bytes being read.
    pub closed spec fn bytes(self) -> Seq<u8> {
        self.data@
    }

    /// Position of the next unread bit.
    pub closed spec fn at(self) -> int {
        8 * self.pos - self.cnt
    }

    pub proof fn lemma_at_bound(self)
        requires
            self.wf(),
        ensures
            0 <= self.at() <= bit_len(self.bytes()),
    {
    }

    pub fn new(data: &'a [u8]) -> (r: Bits<'a>)
        ensures
            r.wf(),
            r.bytes() == data@,
            r.at() == 0,
    {
        Bits { data, pos: 0, buf: 0, cnt: 0 }
    }

    /// Consume `n` bits.
    pub fn take(&mut self, n: u32) -> (r: Result<u32, InflateError>)
        requires
            old(self).wf(),
            n <= 16,
        ensures
            final(self).bytes() == old(self).bytes(),
            match r {
                Ok(v) => {
                    &&& old(self).at() + n <= bit_len(old(self).bytes())
                    &&& v == bits_value(old(self).bytes(), old(self).at(), n as nat)
                    &&& final(self).wf()
                    &&& final(self).at() == old(self).at() + n
                },
                Err(e) => {
                    &&& e == InflateError::UnexpectedEof
                    &&& old(self).at() + n > bit_len(old(self).bytes())
                },
            },
    {
        let ghost data = self.data@;
        let ghost p: int = self.at();
        while self.cnt < n
            invariant
                data == old(self).bytes(),
                p == old(self).at(),
                self.data@ == data,
                self.pos <= data.len(),
                n <= 16,
                self.cnt < n + 8 || self.cnt < 8,
                p == 8 * self.pos - self.cnt,
                p >= 0,
                self.buf == bits_value(data, p, self.cnt as nat),
            decreases data.len() - self.pos,
        {
            if self.pos >= self.data.len() {
                return Err(InflateError::UnexpectedEof);
            }
            let byte: u32 = self.data[self.pos] as u32;
            proof {
                let cnt = self.cnt;
                let buf = self.buf;
                lemma_bits_value_bound(data, p, cnt as nat);
                lemma_bits_value_split(data, p, cnt as nat, 8);
                lemma_byte_value(data, self.pos as int);
                lemma2_to64();
                if cnt < 15 {
                    lemma_pow2_strictly_increases(cnt as nat, 15);
                }
                assert(1 * pow2(cnt as nat) <= 0x8000);
                lemma_u32_shl_is_mul(1, cnt);
                let w = pow2(cnt as nat);
                assert(byte * w <= 0xff * 0x8000) by (nonlinear_arith)
                    requires
                        byte <= 0xff,
                        w <= 0x8000,
                ;
                lemma_u32_shl_is_mul(byte, cnt);
                assert(buf < (1u32 << cnt));
                assert(buf | (byte << cnt) == buf + (byte << cnt)) by (bit_vector)
                    requires
                        buf < (1u32 << cnt),
                        cnt < 16,
                        byte <= 0xff,
                ;
                assert(byte * w == w * byte) by (nonlinear_arith);
            }
            self.buf = self.buf | (byte << self.cnt);
            self.cnt = self.cnt + 8;
            self.pos = self.pos + 1;
        }
        proof {
            let cnt = self.cnt;
            let buf = self.buf;
            lemma2_to64();
            if n < 16 {
                lemma_pow2_strictly_increases(n as nat, 16);
            }
            assert(1 * pow2(n as nat) <= 0x10000);
            lemma_u32_shl_is_mul(1, n);
            lemma_u32_low_bits_mask_is_mod(buf, n as nat);
            lemma_u32_shr_is_div(buf, n);
            lemma_bits_value_bound(data, p, n as nat);
            lemma_bits_value_split(data, p, n as nat, (cnt - n) as nat);
            let lo = bits_value(data, p, n as nat);
            let hi = bits_value(data, p + n, (cnt - n) as nat);
            let w = pow2(n as nat) as int;
            assert(w * hi == hi * w) by (nonlinear_arith);
            lemma_fundamental_div_mod_converse(buf as int, w, hi as int, lo as int);
        }
        let out: u32 = self.buf & ((1u32 << n) - 1);
        self.buf = self.buf >> n;
        self.cnt = self.cnt - n;
        Ok(out)
    }

    /// Position of the next unconsumed byte, discarding partial bits.
    pub fn byte_pos(&mut self) -> (r: usize)
        requires
            old(self).wf(),
        ensures
            final(self).wf(),
            final(self).bytes() == old(self).bytes(),
            final(self).at() == 8 * r,
            r == byte_after(old(self).at()),
            r <= old(self).bytes().len(),
    {
        self.buf = 0;
        self.cnt = 0;
        self.pos
    }

    /// Jump to an absolute byte position (after a stored block copy).
    pub fn seek(&mut self, pos: usize)
        requires
            pos <= old(self).bytes().len(),
        ensures
            final(self).wf(),
            final(self).bytes() == old(self).bytes(),
            final(self).at() == 8 * pos,
    {
        self.pos = pos;
        self.buf = 0;
        self.cnt = 0;
    }
}

} // verus!
