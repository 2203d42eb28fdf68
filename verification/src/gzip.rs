//! Minimal gzip (RFC 1952) container reader on top of [`crate::inflate`]:
//! header flags (FEXTRA/FNAME/FCOMMENT/FHCRC), CRC-32 and ISIZE trailer
//! verification, and multi-member streams (pigz and `cat a.gz b.gz`
//! both produce them).
use vstd::prelude::*;
use vstd::slice::*;
use vstd::string::*;

use crate::bytes;
use crate::inflate;
use crate::inflate::InflateError;
use crate::text;

verus! {

/// Why a gzip stream could not be decompressed.
#[derive(Debug, Clone, PartialEq, Eq)]
pub enum GzipError {
    /// Missing the 0x1f 0x8b magic.
    BadMagic,
    /// Compression method other than deflate.
    UnsupportedMethod(u8),
    /// Header or trailer cut short; the field names what was expected.
    Truncated(&'static str),
    /// The compressed data is broken or too large.
    Inflate(InflateError),
    /// Trailer CRC-32 does not match the decompressed data.
    CrcMismatch,
    /// Trailer ISIZE does not match the decompressed length (mod 2^32).
    SizeMismatch,
}

/// What [`GzipError::message`] says of each error.
pub open spec fn gzip_message(e: GzipError) -> Seq<char> {
    match e {
        GzipError::BadMagic => "not a gzip stream (bad magic)"@,
        GzipError::UnsupportedMethod(m) => "unsupported gzip method "@ + text::decimal(m as nat),
        GzipError::Truncated(what) => "gzip stream truncated at "@ + what@,
        GzipError::Inflate(e) => "deflate error: "@ + inflate::inflate_message(e),
        GzipError::CrcMismatch => "gzip CRC-32 mismatch (corrupt data)"@,
        GzipError::SizeMismatch => "gzip ISIZE mismatch (corrupt data)"@,
    }
}

impl GzipError {
    /// Human-readable description.
    pub fn message(&self) -> (r: String)
        ensures
            r@ == gzip_message(*self),
    {
        match self {
            GzipError::BadMagic => "not a gzip stream (bad magic)".to_owned(),
            GzipError::UnsupportedMethod(m) => {
                let mut s = "unsupported gzip method ".to_owned();
                text::push_decimal(&mut s, *m as u128);
                s
            },
            GzipError::Truncated(what) => {
                let mut s = "gzip stream truncated at ".to_owned();
                s.append(what);
                s
            },
            GzipError::Inflate(e) => {
                let mut s = "deflate error: ".to_owned();
                s.append(e.message());
                s
            },
            GzipError::CrcMismatch => "gzip CRC-32 mismatch (corrupt data)".to_owned(),
            GzipError::SizeMismatch => "gzip ISIZE mismatch (corrupt data)".to_owned(),
        }
    }
}

const FHCRC: u8 = 0x02;

const FEXTRA: u8 = 0x04;

const FNAME: u8 = 0x08;

const FCOMMENT: u8 = 0x10;

/// One step of the CRC-32 shift register (reflected polynomial).
pub open spec fn crc_shift(c: u32) -> u32 {
    if c & 1 == 1 {
        0xEDB8_8320u32 ^ (c >> 1)
    } else {
        c >> 1
    }
}

/// `n` steps of the shift register.
pub open spec fn crc_shifts(c: u32, n: nat) -> u32
    decreases n,
{
    if n == 0 {
        c
    } else {
        crc_shifts(crc_shift(c), (n - 1) as nat)
    }
}

/// The register after `data`, started from all ones.
pub open spec fn crc_register(data: Seq<u8>) -> u32
    decreases data.len(),
{
    if data.len() == 0 {
        0xFFFF_FFFF
    } else {
        crc_shifts(crc_register(data.drop_last()) ^ data.last() as u32, 8)
    }
}

/// The CRC-32 of `data`: the register's complement.
pub open spec fn crc_value(data: Seq<u8>) -> u32 {
    !crc_register(data)
}

proof fn lemma_shift_linear(a: u32, b: u32)
    ensures
        crc_shift(a ^ b) == crc_shift(a) ^ crc_shift(b),
{
    assert(crc_shift(a ^ b) == crc_shift(a) ^ crc_shift(b)) by (bit_vector);
}

proof fn lemma_shifts_linear(a: u32, b: u32, n: nat)
    ensures
        crc_shifts(a ^ b, n) == crc_shifts(a, n) ^ crc_shifts(b, n),
    decreases n,
{
    if n > 0 {
        lemma_shift_linear(a, b);
        lemma_shifts_linear(crc_shift(a), crc_shift(b), (n - 1) as nat);
    }
}

/// Eight steps at once: the low byte goes through the table, the rest is
/// shifted down.
proof fn lemma_table_step(x: u32)
    ensures
        crc_shifts(x, 8) == crc_shifts(x & 0xFF, 8) ^ (x >> 8),
{
    let low = x & 0xFF;
    let high = x & 0xFFFF_FF00;
    assert(x == (x & 0xFF) ^ (x & 0xFFFF_FF00)) by (bit_vector);
    lemma_shifts_linear(low, high, 8);
    assert(crc_shifts(high, 8) == x >> 8) by {
        reveal_with_fuel(crc_shifts, 9);
        assert(crc_shift(x & 0xFFFF_FF00) == (x & 0xFFFF_FF00) >> 1) by (bit_vector);
        assert(crc_shift((x & 0xFFFF_FF00) >> 1) == (x & 0xFFFF_FF00) >> 2) by (bit_vector);
        assert(crc_shift((x & 0xFFFF_FF00) >> 2) == (x & 0xFFFF_FF00) >> 3) by (bit_vector);
        assert(crc_shift((x & 0xFFFF_FF00) >> 3) == (x & 0xFFFF_FF00) >> 4) by (bit_vector);
        assert(crc_shift((x & 0xFFFF_FF00) >> 4) == (x & 0xFFFF_FF00) >> 5) by (bit_vector);
        assert(crc_shift((x & 0xFFFF_FF00) >> 5) == (x & 0xFFFF_FF00) >> 6) by (bit_vector);
        assert(crc_shift((x & 0xFFFF_FF00) >> 6) == (x & 0xFFFF_FF00) >> 7) by (bit_vector);
        assert(crc_shift((x & 0xFFFF_FF00) >> 7) == x >> 8) by (bit_vector);
    }
}

/// Eight shifts of every byte value.
fn build_crc_table() -> (table: [u32; 256])
    ensures
        forall|n: int| 0 <= n < 256 ==> #[trigger] table[n] == crc_shifts(n as u32, 8),
{
    let mut table = [0u32; 256];
    let mut n: usize = 0;
    while n < 256
        invariant
            n <= 256,
            forall|j: int| 0 <= j < n ==> #[trigger] table[j] == crc_shifts(j as u32, 8),
        decreases 256 - n,
    {
        let mut c: u32 = n as u32;
        let mut k: usize = 0;
        while k < 8
            invariant
                k <= 8,
                n < 256,
                crc_shifts(c, (8 - k) as nat) == crc_shifts(n as u32, 8),
            decreases 8 - k,
        {
            c = if c & 1 == 1 {
                0xEDB8_8320 ^ (c >> 1)
            } else {
                c >> 1
            };
            k = k + 1;
        }
        table[n] = c;
        n = n + 1;
    }
    table
}

/// Standard CRC-32 (IEEE 802.3), as used by gzip and zip.
pub fn crc32(data: &[u8]) -> (r: u32)
    ensures
        r == crc_value(data@),
{
    let table = build_crc_table();
    let mut c: u32 = 0xFFFF_FFFF;
    let mut i: usize = 0;
    assert(data@.take(0) =~= seq![]);
    while i < data.len()
        invariant
            i <= data@.len(),
            c == crc_register(data@.take(i as int)),
            forall|n: int| 0 <= n < 256 ==> #[trigger] table[n] == crc_shifts(n as u32, 8),
        decreases data@.len() - i,
    {
        let byte: u32 = data[i] as u32;
        let slot: u32 = (c ^ byte) & 0xFF;
        proof {
            let x = c ^ byte;
            assert((c ^ byte) & 0xFF < 256) by (bit_vector);
            assert((c ^ byte) >> 8 == c >> 8) by (bit_vector)
                requires
                    byte < 256,
            ;
            lemma_table_step(x);
            let longer = data@.take(i + 1);
            assert(longer.drop_last() =~= data@.take(i as int));
            assert(longer.last() == data@[i as int]);
        }
        c = table[slot as usize] ^ (c >> 8);
        i = i + 1;
    }
    assert(data@.take(i as int) =~= data@);
    !c
}

/// Where the NUL-terminated field at `pos` ends, its NUL included.
pub open spec fn cstr_end(data: Seq<u8>, pos: int) -> Option<int>
    decreases data.len() - pos,
{
    if pos < 0 || pos >= data.len() {
        None
    } else if data[pos] == 0 {
        Some(pos + 1)
    } else {
        cstr_end(data, pos + 1)
    }
}

/// Skip the NUL-terminated field at `pos`, if it is `present`; `what` names it.
pub open spec fn skip_named(
    data: Seq<u8>,
    pos: Result<int, GzipError>,
    present: bool,
    what: &'static str,
) -> Result<int, GzipError> {
    match pos {
        Err(e) => Err(e),
        Ok(p) => if !present {
            Ok(p)
        } else {
            match cstr_end(data, p) {
                Some(q) => Ok(q),
                None => Err(GzipError::Truncated(what)),
            }
        },
    }
}

/// Where the compressed data of the member at `pos` starts.
pub open spec fn member_body(data: Seq<u8>, pos: int) -> Result<int, GzipError> {
    if pos + 10 > data.len() {
        Err(GzipError::Truncated("header"))
    } else if data[pos] != 0x1F || data[pos + 1] != 0x8B {
        Err(GzipError::BadMagic)
    } else if data[pos + 2] != 8 {
        Err(GzipError::UnsupportedMethod(data[pos + 2]))
    } else {
        let flags = data[pos + 3];
        let after_extra = if flags & 0x04 == 0 {
            Ok(pos + 10)
        } else {
            match bytes::field(data, pos + 10, 2) {
                None => Err(GzipError::Truncated("FEXTRA length")),
                Some(len) => if pos + 12 + len > data.len() {
                    Err(GzipError::Truncated("FEXTRA field"))
                } else {
                    Ok(pos + 12 + len)
                },
            }
        };
        let after_name = skip_named(data, after_extra, flags & 0x08 != 0, "FNAME field");
        let after_comment = skip_named(data, after_name, flags & 0x10 != 0, "FCOMMENT field");
        match after_comment {
            Err(e) => Err(e),
            Ok(p) => if flags & 0x02 == 0 {
                Ok(p)
            } else if p + 2 > data.len() {
                Err(GzipError::Truncated("FHCRC field"))
            } else {
                Ok(p + 2)
            },
        }
    }
}

/// The decompressed bytes of the member at `pos`, at most `budget` of them,
/// and where its trailer ends.
pub open spec fn member(data: Seq<u8>, pos: int, budget: int) -> Result<
    (Seq<u8>, int),
    GzipError,
> {
    match member_body(data, pos) {
        Err(e) => Err(e),
        Ok(p) => match inflate::inflated(data.skip(p), budget) {
            Err(e) => Err(GzipError::Inflate(e)),
            Ok((out, consumed)) => {
                let at = p + consumed;
                if at + 8 > data.len() {
                    Err(GzipError::Truncated("CRC/ISIZE trailer"))
                } else if bytes::le_value(data, at, 4) != crc_value(out) {
                    Err(GzipError::CrcMismatch)
                } else if bytes::le_value(data, at + 4, 4) != out.len() % 0x1_0000_0000 {
                    Err(GzipError::SizeMismatch)
                } else {
                    Ok((out, at + 8))
                }
            },
        },
    }
}

/// `out` followed by all members from `pos` on; anything but the gzip magic
/// ends the stream.
pub open spec fn members(data: Seq<u8>, pos: int, out: Seq<u8>, limit: int) -> Result<
    Seq<u8>,
    GzipError,
>
    decreases data.len() - pos,
    via members_decreases
{
    if 0 <= pos && pos + 2 <= data.len() && data[pos] == 0x1F && data[pos + 1] == 0x8B {
        match member(data, pos, limit - out.len()) {
            Err(e) => Err(e),
            Ok((more, next)) => members(data, next, out + more, limit),
        }
    } else {
        Ok(out)
    }
}

/// The decompressed bytes of a whole gzip file, all members together at most
/// `limit`.
pub open spec fn decompressed(data: Seq<u8>, limit: int) -> Result<Seq<u8>, GzipError> {
    match member(data, 0, limit) {
        Err(e) => Err(e),
        Ok((out, next)) => members(data, next, out, limit),
    }
}

pub proof fn lemma_cstr_end(data: Seq<u8>, pos: int)
    ensures
        cstr_end(data, pos) matches Some(q) ==> pos < q <= data.len(),
    decreases data.len() - pos,
{
    if 0 <= pos < data.len() && data[pos] != 0 {
        lemma_cstr_end(data, pos + 1);
    }
}

pub proof fn lemma_member_body(data: Seq<u8>, pos: int)
    ensures
        member_body(data, pos) matches Ok(p) ==> pos + 10 <= p <= data.len(),
{
    if pos + 10 <= data.len() {
        let flags = data[pos + 3];
        let after_extra: int = if flags & 0x04 == 0 {
            pos + 10
        } else {
            pos + 12 + bytes::le_value(data, pos + 10, 2)
        };
        lemma_cstr_end(data, after_extra);
        let after_name: int = if flags & 0x08 == 0 {
            after_extra
        } else {
            cstr_end(data, after_extra)->0
        };
        lemma_cstr_end(data, after_name);
    }
}

/// A member ends inside the data, behind where it starts, and holds no more
/// than its budget.
pub proof fn lemma_member(data: Seq<u8>, pos: int, budget: int)
    requires
        0 <= pos,
        0 <= budget,
    ensures
        member(data, pos, budget) matches Ok((out, next)) ==> {
            &&& pos + 18 < next <= data.len()
            &&& out.len() <= budget
        },
{
    lemma_member_body(data, pos);
    if let Ok(p) = member_body(data, pos) {
        crate::inflate_laws::law_output_is_capped(data.skip(p), budget as nat);
    }
}

#[via_fn]
proof fn members_decreases(data: Seq<u8>, pos: int, out: Seq<u8>, limit: int) {
    lemma_member_body(data, pos);
    if 0 <= pos {
        if let Ok(p) = member_body(data, pos) {
            crate::inflate_laws::lemma_consumed(data.skip(p), limit - out.len());
        }
    }
}

/// Skip a NUL-terminated latin-1 field; returns the position after the NUL.
fn skip_cstr(data: &[u8], start: usize, what: &'static str) -> (r: Result<usize, GzipError>)
    ensures
        match cstr_end(data@, start as int) {
            Some(q) => r matches Ok(p) && p == q && q <= data@.len(),
            None => r == Err::<usize, GzipError>(GzipError::Truncated(what)),
        },
{
    let mut pos: usize = start;
    while pos < data.len()
        invariant
            cstr_end(data@, pos as int) == cstr_end(data@, start as int),
        decreases data@.len() - pos,
    {
        if data[pos] == 0 {
            return Ok(pos + 1);
        }
        pos = pos + 1;
    }
    Err(GzipError::Truncated(what))
}

/// Check one member's header; returns where its compressed data starts.
fn read_header(data: &[u8], pos: usize) -> (r: Result<usize, GzipError>)
    requires
        pos <= data@.len(),
    ensures
        match r {
            Ok(p) => member_body(data@, pos as int) == Ok::<int, GzipError>(p as int),
            Err(e) => member_body(data@, pos as int) == Err::<int, GzipError>(e),
        },
{
    if data.len() - pos < 10 {
        return Err(GzipError::Truncated("header"));
    }
    if data[pos] != 0x1F || data[pos + 1] != 0x8B {
        return Err(GzipError::BadMagic);
    }
    if data[pos + 2] != 8 {
        return Err(GzipError::UnsupportedMethod(data[pos + 2]));
    }
    let flags: u8 = data[pos + 3];
    let mut p: usize = pos + 10;
    if flags & FEXTRA != 0 {
        let len: usize = match bytes::u16_at(data, p) {
            Some(len) => len as usize,
            None => return Err(GzipError::Truncated("FEXTRA length")),
        };
        p = p + 2;
        if len > data.len() - p {
            return Err(GzipError::Truncated("FEXTRA field"));
        }
        p = p + len;
    }
    if flags & FNAME != 0 {
        p = skip_cstr(data, p, "FNAME field")?;
    }
    if flags & FCOMMENT != 0 {
        p = skip_cstr(data, p, "FCOMMENT field")?;
    }
    if flags & FHCRC != 0 {
        if data.len() - p < 2 {
            return Err(GzipError::Truncated("FHCRC field"));
        }
        p = p + 2;
    }
    Ok(p)
}

/// Parse one member starting at `pos`; returns (decompressed bytes,
/// position after the member's trailer). `budget` caps the output.
fn read_member(data: &[u8], pos: usize, budget: usize) -> (r: Result<(Vec<u8>, usize), GzipError>)
    requires
        pos <= data@.len(),
    ensures
        match r {
            Ok((out, next)) => member(data@, pos as int, budget as int) == Ok::<
                (Seq<u8>, int),
                GzipError,
            >((out@, next as int)),
            Err(e) => member(data@, pos as int, budget as int) == Err::<(Seq<u8>, int), GzipError>(
                e,
            ),
        },
{
    proof {
        lemma_member_body(data@, pos as int);
    }
    let p: usize = read_header(data, pos)?;
    let body = slice_subrange(data, p, data.len());
    proof {
        assert(body@ =~= data@.skip(p as int));
        crate::inflate_laws::law_output_is_capped(body@, budget as nat);
    }
    let (out, consumed) = match inflate::inflate(body, budget) {
        Ok(done) => done,
        Err(e) => return Err(GzipError::Inflate(e)),
    };
    let at: usize = p + consumed;
    if data.len() - at < 8 {
        return Err(GzipError::Truncated("CRC/ISIZE trailer"));
    }
    let crc: Option<u32> = bytes::u32_at(data, at);
    let size: Option<u32> = bytes::u32_at(data, at + 4);
    if crc != Some(crc32(out.as_slice())) {
        return Err(GzipError::CrcMismatch);
    }
    if size != Some((out.len() as u64 % 0x1_0000_0000) as u32) {
        return Err(GzipError::SizeMismatch);
    }
    Ok((out, at + 8))
}

/// Decompress an entire gzip file (all members). `limit` caps the total
/// decompressed size across members — the bomb guard.
pub fn decompress(data: &[u8], limit: usize) -> (r: Result<Vec<u8>, GzipError>)
    ensures
        match r {
            Ok(out) => decompressed(data@, limit as int) == Ok::<Seq<u8>, GzipError>(out@),
            Err(e) => decompressed(data@, limit as int) == Err::<Seq<u8>, GzipError>(e),
        },
{
    proof {
        lemma_member(data@, 0, limit as int);
    }
    let (first, next) = read_member(data, 0, limit)?;
    let mut out: Vec<u8> = first;
    let mut pos: usize = next;
    // Follow additional members; stop quietly at trailing non-gzip bytes
    // (some tools pad archives with zeros).
    while data.len() - pos >= 2 && data[pos] == 0x1F && data[pos + 1] == 0x8B
        invariant
            pos <= data@.len(),
            out@.len() <= limit,
            decompressed(data@, limit as int) == members(data@, pos as int, out@, limit as int),
        decreases data@.len() - pos,
    {
        let budget: usize = limit - out.len();
        proof {
            lemma_member(data@, pos as int, budget as int);
        }
        let (more, next) = read_member(data, pos, budget)?;
        let ghost before = out@;
        out.extend_from_slice(more.as_slice());
        assert(out@ =~= before + more@);
        pos = next;
    }
    Ok(out)
}

} // verus!
