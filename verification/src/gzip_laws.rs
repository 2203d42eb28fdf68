//! What holds of the gzip reader as a whole: the cap, truncation, members in
//! sequence, padding, and the checksum.
use vstd::prelude::*;

use crate::bytes;
use crate::gzip;
use crate::gzip::GzipError;
use crate::inflate;
use crate::inflate::InflateError;
use crate::inflate_laws;

verus! {

proof fn lemma_le_cut(data: Seq<u8>, k: int, pos: int, n: nat)
    requires
        0 <= k <= data.len(),
        0 <= pos,
        pos + n <= k,
    ensures
        bytes::le_value(data.take(k), pos, n) == bytes::le_value(data, pos, n),
    decreases n,
{
    if n > 0 {
        lemma_le_cut(data, k, pos + 1, (n - 1) as nat);
    }
}

proof fn lemma_cstr_cut(data: Seq<u8>, k: int, pos: int)
    requires
        0 <= k <= data.len(),
        0 <= pos,
    ensures
        gzip::cstr_end(data, pos) matches Some(q) ==> gzip::cstr_end(data.take(k), pos) == (if q
            <= k {
            Some(q)
        } else {
            None
        }),
    decreases data.len() - pos,
{
    if pos < data.len() {
        if data[pos] != 0 {
            lemma_cstr_cut(data, k, pos + 1);
            gzip::lemma_cstr_end(data, pos + 1);
        }
    }
}

proof fn lemma_body_cut(data: Seq<u8>, k: int, pos: int)
    requires
        0 <= k <= data.len(),
        0 <= pos,
        gzip::member_body(data, pos) is Ok,
    ensures
        ({
            let p = gzip::member_body(data, pos)->Ok_0;
            let part = gzip::member_body(data.take(k), pos);
            if p <= k {
                part == Ok::<int, GzipError>(p)
            } else {
                part is Err
            }
        }),
{
    let d = data.take(k);
    gzip::lemma_member_body(data, pos);
    let p = gzip::member_body(data, pos)->Ok_0;
    let flags = data[pos + 3];
    let after_extra: int = if flags & 0x04 == 0 {
        pos + 10
    } else {
        pos + 12 + bytes::le_value(data, pos + 10, 2)
    };
    let after_name: int = if flags & 0x08 == 0 {
        after_extra
    } else {
        gzip::cstr_end(data, after_extra)->0
    };
    let after_comment: int = if flags & 0x10 == 0 {
        after_name
    } else {
        gzip::cstr_end(data, after_name)->0
    };
    gzip::lemma_cstr_end(data, after_extra);
    gzip::lemma_cstr_end(data, after_name);
    if pos + 10 <= k {
        assert(d[pos] == data[pos] && d[pos + 1] == data[pos + 1]);
        assert(d[pos + 2] == data[pos + 2] && d[pos + 3] == data[pos + 3]);
        if flags & 0x04 != 0 && pos + 12 <= k {
            lemma_le_cut(data, k, pos + 10, 2);
        }
        lemma_cstr_cut(data, k, after_extra);
        lemma_cstr_cut(data, k, after_name);
    }
}

proof fn lemma_member_cut(data: Seq<u8>, k: int, pos: int, budget: nat)
    requires
        0 <= k <= data.len(),
        0 <= pos,
        gzip::member(data, pos, budget as int) is Ok,
    ensures
        ({
            let full = gzip::member(data, pos, budget as int);
            let part = gzip::member(data.take(k), pos, budget as int);
            if full->Ok_0.1 <= k {
                part == full
            } else {
                part is Err
            }
        }),
{
    let d = data.take(k);
    let p = gzip::member_body(data, pos)->Ok_0;
    gzip::lemma_member_body(data, pos);
    lemma_body_cut(data, k, pos);
    let body = data.skip(p);
    let (out, consumed) = inflate::inflated(body, budget as int)->Ok_0;
    inflate_laws::law_output_is_capped(body, budget);
    if p <= k {
        assert(d.skip(p) =~= body.take(k - p));
        if consumed <= k - p {
            assert(body.take(k - p).take(consumed) =~= body.take(consumed));
            inflate_laws::law_trailing_bytes_are_ignored(body, body.take(k - p), budget);
            if p + consumed + 8 <= k {
                lemma_le_cut(data, k, p + consumed, 4);
                lemma_le_cut(data, k, p + consumed + 4, 4);
            }
        } else {
            inflate_laws::law_truncated_stream_is_eof(body, budget, k - p);
        }
    }
}

/// Cutting a file anywhere inside its first member is an error: a shorter
/// success is never reported.
pub proof fn law_truncation_is_an_error(data: Seq<u8>, limit: nat, cut: int)
    requires
        gzip::member(data, 0, limit as int) matches Ok((_, n)) && 0 <= cut < n,
    ensures
        gzip::decompressed(data.take(cut), limit as int) is Err,
{
    gzip::lemma_member(data, 0, limit as int);
    lemma_member_cut(data, cut, 0, limit);
}

proof fn lemma_members_grow(data: Seq<u8>, pos: int, out: Seq<u8>, limit: nat)
    requires
        0 <= pos,
        out.len() <= limit,
    ensures
        gzip::members(data, pos, out, limit as int) matches Ok(all) ==> out.is_prefix_of(all),
    decreases data.len() - pos,
{
    if pos + 2 <= data.len() && data[pos] == 0x1F && data[pos + 1] == 0x8B {
        gzip::lemma_member(data, pos, limit - out.len());
        if let Ok((more, next)) = gzip::member(data, pos, limit - out.len()) {
            lemma_members_grow(data, next, out + more, limit);
        }
    }
}

proof fn lemma_members_cut(data: Seq<u8>, k: int, pos: int, out: Seq<u8>, limit: nat)
    requires
        0 <= pos <= k <= data.len(),
        out.len() <= limit,
        gzip::members(data, pos, out, limit as int) is Ok,
    ensures
        gzip::members(data.take(k), pos, out, limit as int) matches Ok(part) ==> part.is_prefix_of(
            gzip::members(data, pos, out, limit as int)->Ok_0,
        ),
    decreases data.len() - pos,
{
    let d = data.take(k);
    lemma_members_grow(data, pos, out, limit);
    if pos + 2 <= k {
        assert(d[pos] == data[pos] && d[pos + 1] == data[pos + 1]);
        if data[pos] == 0x1F && data[pos + 1] == 0x8B {
            let budget = (limit - out.len()) as nat;
            lemma_member_cut(data, k, pos, budget);
            gzip::lemma_member(data, pos, budget as int);
            let (more, next) = gzip::member(data, pos, budget as int)->Ok_0;
            if next <= k {
                lemma_members_cut(data, k, next, out + more, limit);
            }
        }
    }
}

/// Cutting a readable file anywhere, between later members too, is an error
/// or leaves a leading part of its bytes: never a byte that was not there.
pub proof fn law_truncation_adds_nothing(data: Seq<u8>, limit: nat, cut: int)
    requires
        gzip::decompressed(data, limit as int) is Ok,
        0 <= cut <= data.len(),
    ensures
        gzip::decompressed(data.take(cut), limit as int) matches Ok(part) ==> part.is_prefix_of(
            gzip::decompressed(data, limit as int)->Ok_0,
        ),
{
    lemma_member_cut(data, cut, 0, limit);
    gzip::lemma_member(data, 0, limit as int);
    let (out, next) = gzip::member(data, 0, limit as int)->Ok_0;
    if next <= cut {
        lemma_members_cut(data, cut, next, out, limit);
    }
}

proof fn lemma_le_shift(a: Seq<u8>, b: Seq<u8>, pos: int, n: nat)
    requires
        0 <= pos,
        pos + n <= b.len(),
    ensures
        bytes::le_value(a + b, a.len() + pos, n) == bytes::le_value(b, pos, n),
    decreases n,
{
    if n > 0 {
        lemma_le_shift(a, b, pos + 1, (n - 1) as nat);
    }
}

spec fn moved(r: Result<int, GzipError>, by: int) -> Result<int, GzipError> {
    match r {
        Ok(p) => Ok(p + by),
        Err(e) => Err(e),
    }
}

proof fn lemma_cstr_shift(a: Seq<u8>, b: Seq<u8>, pos: int)
    requires
        0 <= pos,
    ensures
        gzip::cstr_end(a + b, a.len() + pos) == (match gzip::cstr_end(b, pos) {
            Some(q) => Some(a.len() + q),
            None => None,
        }),
    decreases b.len() - pos,
{
    if pos < b.len() {
        assert((a + b)[a.len() + pos] == b[pos]);
        if b[pos] != 0 {
            lemma_cstr_shift(a, b, pos + 1);
        }
    }
}

proof fn lemma_body_shift(a: Seq<u8>, b: Seq<u8>, pos: int)
    requires
        0 <= pos,
    ensures
        gzip::member_body(a + b, a.len() + pos) == moved(
            gzip::member_body(b, pos),
            a.len() as int,
        ),
{
    let ab = a + b;
    let n = a.len() as int;
    if pos + 10 <= b.len() {
        assert(ab[n + pos] == b[pos] && ab[n + pos + 1] == b[pos + 1]);
        assert(ab[n + pos + 2] == b[pos + 2] && ab[n + pos + 3] == b[pos + 3]);
        let flags = b[pos + 3];
        if pos + 12 <= b.len() {
            lemma_le_shift(a, b, pos + 10, 2);
        }
        let after_extra: int = if flags & 0x04 == 0 {
            pos + 10
        } else {
            pos + 12 + bytes::le_value(b, pos + 10, 2)
        };
        let after_name: int = if flags & 0x08 == 0 {
            after_extra
        } else {
            gzip::cstr_end(b, after_extra)->0
        };
        lemma_cstr_shift(a, b, after_extra);
        gzip::lemma_cstr_end(b, after_extra);
        if after_name >= 0 {
            lemma_cstr_shift(a, b, after_name);
        }
    }
}

proof fn lemma_member_shift(a: Seq<u8>, b: Seq<u8>, pos: int, budget: nat)
    requires
        0 <= pos,
    ensures
        gzip::member(a + b, a.len() + pos, budget as int) == (match gzip::member(
            b,
            pos,
            budget as int,
        ) {
            Ok((out, next)) => Ok((out, a.len() + next)),
            Err(e) => Err(e),
        }),
{
    lemma_body_shift(a, b, pos);
    gzip::lemma_member_body(b, pos);
    if let Ok(p) = gzip::member_body(b, pos) {
        assert((a + b).skip(a.len() + p) =~= b.skip(p));
        inflate_laws::law_output_is_capped(b.skip(p), budget);
        if let Ok((out, consumed)) = inflate::inflated(b.skip(p), budget as int) {
            if p + consumed + 8 <= b.len() {
                lemma_le_shift(a, b, p + consumed, 4);
                lemma_le_shift(a, b, p + consumed + 4, 4);
            }
        }
    }
}

spec fn behind(x: Seq<u8>, r: Result<Seq<u8>, GzipError>) -> Result<Seq<u8>, GzipError> {
    match r {
        Ok(y) => Ok(x + y),
        Err(e) => Err(e),
    }
}

proof fn lemma_members_shift(a: Seq<u8>, x: Seq<u8>, b: Seq<u8>, pos: int, y: Seq<u8>, limit: nat)
    requires
        0 <= pos,
        x.len() + y.len() <= limit,
    ensures
        gzip::members(a + b, a.len() + pos, x + y, limit as int) == behind(
            x,
            gzip::members(b, pos, y, limit - x.len()),
        ),
    decreases b.len() - pos,
{
    let budget = (limit - x.len() - y.len()) as nat;
    if pos + 2 <= b.len() {
        assert((a + b)[a.len() + pos] == b[pos]);
        assert((a + b)[a.len() + pos + 1] == b[pos + 1]);
        if b[pos] == 0x1F && b[pos + 1] == 0x8B {
            lemma_member_shift(a, b, pos, budget);
            gzip::lemma_member(b, pos, budget as int);
            assert(limit - (x + y).len() == budget);
            if let Ok((more, next)) = gzip::member(b, pos, budget as int) {
                assert((x + y) + more =~= x + (y + more));
                lemma_members_shift(a, x, b, next, y + more, limit);
            }
        }
    }
}

/// Does `data` start with the gzip magic?
pub open spec fn has_magic(data: Seq<u8>) -> bool {
    data.len() >= 2 && data[0] == 0x1F && data[1] == 0x8B
}

/// Members concatenate: behind one whole member `a`, a further gzip file `b`
/// adds its bytes (or its error), under what the first left of the cap.
pub proof fn law_members_concatenate(a: Seq<u8>, b: Seq<u8>, limit: nat)
    requires
        gzip::member(a, 0, limit as int) matches Ok((_, n)) && n == a.len(),
        has_magic(b),
    ensures
        ({
            let x = gzip::member(a, 0, limit as int)->Ok_0.0;
            gzip::decompressed(a + b, limit as int) == (match gzip::decompressed(
                b,
                limit - x.len(),
            ) {
                Ok(y) => Ok(x + y),
                Err(e) => Err(e),
            })
        }),
{
    let x = gzip::member(a, 0, limit as int)->Ok_0.0;
    lemma_member_extends(a, b, limit);
    gzip::lemma_member(a, 0, limit as int);
    lemma_members_shift(a, x, b, 0, seq![], limit);
    assert(x + Seq::<u8>::empty() =~= x);
    let rest = (limit - x.len()) as nat;
    assert(gzip::members(b, 0, seq![], rest as int) == gzip::decompressed(b, rest as int)) by {
        if let Ok((more, next)) = gzip::member(b, 0, rest as int) {
            assert(Seq::<u8>::empty() + more =~= more);
        }
    }
}

proof fn lemma_member_extends(a: Seq<u8>, b: Seq<u8>, limit: nat)
    requires
        gzip::member(a, 0, limit as int) matches Ok((_, n)) && n == a.len(),
    ensures
        gzip::member(a + b, 0, limit as int) == gzip::member(a, 0, limit as int),
{
    let ab = a + b;
    gzip::lemma_member_body(a, 0);
    let p = gzip::member_body(a, 0)->Ok_0;
    lemma_body_extends(a, b);
    let body = a.skip(p);
    inflate_laws::law_output_is_capped(body, limit);
    let (out, consumed) = inflate::inflated(body, limit as int)->Ok_0;
    assert(ab.skip(p).take(consumed) =~= body.take(consumed));
    inflate_laws::law_trailing_bytes_are_ignored(body, ab.skip(p), limit);
    assert(ab.take(a.len() as int) =~= a);
    lemma_le_cut(ab, a.len() as int, p + consumed, 4);
    lemma_le_cut(ab, a.len() as int, p + consumed + 4, 4);
}

proof fn lemma_cstr_extends(a: Seq<u8>, b: Seq<u8>, pos: int)
    requires
        0 <= pos,
        gzip::cstr_end(a, pos) is Some,
    ensures
        gzip::cstr_end(a + b, pos) == gzip::cstr_end(a, pos),
    decreases a.len() - pos,
{
    assert((a + b)[pos] == a[pos]);
    if a[pos] != 0 {
        lemma_cstr_extends(a, b, pos + 1);
    }
}

proof fn lemma_body_extends(a: Seq<u8>, b: Seq<u8>)
    requires
        gzip::member_body(a, 0) is Ok,
    ensures
        gzip::member_body(a + b, 0) == gzip::member_body(a, 0),
{
    let ab = a + b;
    assert(ab[0] == a[0] && ab[1] == a[1] && ab[2] == a[2] && ab[3] == a[3]);
    let flags = a[3];
    assert(ab.take(a.len() as int) =~= a);
    if a.len() >= 12 {
        lemma_le_cut(ab, a.len() as int, 10, 2);
    }
    let after_extra: int = if flags & 0x04 == 0 {
        10
    } else {
        12 + bytes::le_value(a, 10, 2) as int
    };
    gzip::lemma_cstr_end(a, after_extra);
    if flags & 0x08 != 0 {
        lemma_cstr_extends(a, b, after_extra);
    }
    let after_name: int = if flags & 0x08 == 0 {
        after_extra
    } else {
        gzip::cstr_end(a, after_extra)->0
    };
    if flags & 0x10 != 0 {
        lemma_cstr_extends(a, b, after_name);
    }
}

/// Whatever follows a whole member without the gzip magic, such as zero
/// padding, is ignored.
pub proof fn law_trailing_padding_is_ignored(a: Seq<u8>, padding: Seq<u8>, limit: nat)
    requires
        gzip::member(a, 0, limit as int) matches Ok((_, n)) && n == a.len(),
        !has_magic(padding),
    ensures
        gzip::decompressed(a + padding, limit as int) == Ok::<Seq<u8>, GzipError>(
            gzip::member(a, 0, limit as int)->Ok_0.0,
        ),
{
    lemma_member_extends(a, padding, limit);
    let n = a.len() as int;
    if padding.len() >= 2 {
        assert((a + padding)[n] == padding[0] && (a + padding)[n + 1] == padding[1]);
    }
}

proof fn lemma_members_capped(data: Seq<u8>, pos: int, out: Seq<u8>, limit: nat)
    requires
        0 <= pos,
        out.len() <= limit,
    ensures
        gzip::members(data, pos, out, limit as int) matches Ok(all) ==> out.len() <= all.len()
            <= limit,
    decreases data.len() - pos,
{
    if has_magic(data.skip(pos)) && pos + 2 <= data.len() {
        gzip::lemma_member(data, pos, limit - out.len());
        if let Ok((more, next)) = gzip::member(data, pos, limit - out.len()) {
            lemma_members_capped(data, next, out + more, limit);
        }
    }
}

/// The bomb guard: all members together never decompress past the cap.
pub proof fn law_output_is_capped(data: Seq<u8>, limit: nat)
    ensures
        gzip::decompressed(data, limit as int) matches Ok(out) ==> out.len() <= limit,
{
    gzip::lemma_member(data, 0, limit as int);
    if let Ok((out, next)) = gzip::member(data, 0, limit as int) {
        lemma_members_capped(data, next, out, limit);
    }
}

proof fn lemma_member_limit(data: Seq<u8>, pos: int, low: nat, high: nat)
    requires
        low <= high,
        gzip::member(data, pos, high as int) is Ok,
    ensures
        gzip::member(data, pos, low as int) == (if gzip::member(
            data,
            pos,
            high as int,
        )->Ok_0.0.len() <= low {
            gzip::member(data, pos, high as int)
        } else {
            Err::<(Seq<u8>, int), GzipError>(GzipError::Inflate(InflateError::OutputLimit))
        }),
{
    let p = gzip::member_body(data, pos)->Ok_0;
    inflate_laws::law_limit_is_exact(data.skip(p), low, high);
}

proof fn lemma_members_limit(data: Seq<u8>, pos: int, out: Seq<u8>, low: nat, high: nat)
    requires
        0 <= pos,
        out.len() <= low <= high,
        gzip::members(data, pos, out, high as int) is Ok,
    ensures
        gzip::members(data, pos, out, low as int) == (if gzip::members(
            data,
            pos,
            out,
            high as int,
        )->Ok_0.len() <= low {
            gzip::members(data, pos, out, high as int)
        } else {
            Err::<Seq<u8>, GzipError>(GzipError::Inflate(InflateError::OutputLimit))
        }),
    decreases data.len() - pos,
{
    if pos + 2 <= data.len() && data[pos] == 0x1F && data[pos + 1] == 0x8B {
        let l = (low - out.len()) as nat;
        let h = (high - out.len()) as nat;
        lemma_member_limit(data, pos, l, h);
        gzip::lemma_member(data, pos, h as int);
        let (more, next) = gzip::member(data, pos, h as int)->Ok_0;
        lemma_members_capped(data, next, out + more, high);
        if more.len() <= l {
            lemma_members_limit(data, next, out + more, low, high);
        }
    }
}

/// The cap decides nothing but whether the output fits: a file that
/// decompresses under some cap gives the same bytes under a lower one that
/// still holds them, and the output-limit error under any other.
pub proof fn law_limit_is_exact(data: Seq<u8>, low: nat, high: nat)
    requires
        low <= high,
        gzip::decompressed(data, high as int) is Ok,
    ensures
        gzip::decompressed(data, low as int) == (if gzip::decompressed(
            data,
            high as int,
        )->Ok_0.len() <= low {
            gzip::decompressed(data, high as int)
        } else {
            Err::<Seq<u8>, GzipError>(GzipError::Inflate(InflateError::OutputLimit))
        }),
{
    lemma_member_limit(data, 0, low, high);
    gzip::lemma_member(data, 0, high as int);
    let (out, next) = gzip::member(data, 0, high as int)->Ok_0;
    lemma_members_capped(data, next, out, high);
    if out.len() <= low {
        lemma_members_limit(data, next, out, low, high);
    }
}

proof fn lemma_member_raised(data: Seq<u8>, pos: int, low: nat, high: nat)
    requires
        low <= high,
        gzip::member(data, pos, low as int) != Err::<(Seq<u8>, int), GzipError>(
            GzipError::Inflate(InflateError::OutputLimit),
        ),
    ensures
        gzip::member(data, pos, high as int) == gzip::member(data, pos, low as int),
{
    if let Ok(p) = gzip::member_body(data, pos) {
        inflate_laws::law_higher_limit_keeps_the_result(data.skip(p), low, high);
    }
}

proof fn lemma_members_raised(data: Seq<u8>, pos: int, out: Seq<u8>, low: nat, high: nat)
    requires
        0 <= pos,
        out.len() <= low <= high,
        gzip::members(data, pos, out, low as int) != Err::<Seq<u8>, GzipError>(
            GzipError::Inflate(InflateError::OutputLimit),
        ),
    ensures
        gzip::members(data, pos, out, high as int) == gzip::members(data, pos, out, low as int),
    decreases data.len() - pos,
{
    if pos + 2 <= data.len() && data[pos] == 0x1F && data[pos + 1] == 0x8B {
        let l = (low - out.len()) as nat;
        let h = (high - out.len()) as nat;
        lemma_member_raised(data, pos, l, h);
        gzip::lemma_member(data, pos, l as int);
        if let Ok((more, next)) = gzip::member(data, pos, l as int) {
            lemma_members_raised(data, next, out + more, low, high);
        }
    }
}

/// Raising the cap changes nothing but the cap's own error: whatever comes out
/// under some cap comes out under every higher one, and so does every error
/// other than the output limit.
pub proof fn law_higher_limit_keeps_the_result(data: Seq<u8>, low: nat, high: nat)
    requires
        low <= high,
    ensures
        gzip::decompressed(data, low as int) is Ok ==> gzip::decompressed(data, high as int)
            == gzip::decompressed(data, low as int),
        gzip::decompressed(data, low as int) != Err::<Seq<u8>, GzipError>(
            GzipError::Inflate(InflateError::OutputLimit),
        ) ==> gzip::decompressed(data, high as int) == gzip::decompressed(data, low as int),
{
    if gzip::decompressed(data, low as int) != Err::<Seq<u8>, GzipError>(
        GzipError::Inflate(InflateError::OutputLimit),
    ) {
        lemma_member_raised(data, 0, low, high);
        gzip::lemma_member(data, 0, low as int);
        if let Ok((out, next)) = gzip::member(data, 0, low as int) {
            lemma_members_raised(data, next, out, low, high);
        }
    }
}

proof fn lemma_shifts_injective(a: u32, b: u32, n: nat)
    requires
        gzip::crc_shifts(a, n) == gzip::crc_shifts(b, n),
    ensures
        a == b,
    decreases n,
{
    if n > 0 {
        let sa = gzip::crc_shift(a);
        let sb = gzip::crc_shift(b);
        lemma_shifts_injective(sa, sb, (n - 1) as nat);
        assert(gzip::crc_shift(a) == gzip::crc_shift(b) ==> a == b) by (bit_vector);
    }
}

/// The checksum tells any two buffers apart that differ in one byte alone.
pub proof fn law_crc_detects_a_changed_byte(data: Seq<u8>, i: int, byte: u8)
    requires
        0 <= i < data.len(),
        byte != data[i],
    ensures
        gzip::crc_value(data.update(i, byte)) != gzip::crc_value(data),
{
    lemma_register_differs(data, i, byte);
    let a = gzip::crc_register(data.update(i, byte));
    let b = gzip::crc_register(data);
    assert(a != b ==> !a != !b) by (bit_vector);
}

proof fn lemma_register_differs(data: Seq<u8>, i: int, byte: u8)
    requires
        0 <= i < data.len(),
        byte != data[i],
    ensures
        gzip::crc_register(data.update(i, byte)) != gzip::crc_register(data),
    decreases data.len(),
{
    let other = data.update(i, byte);
    let c = gzip::crc_register(data.drop_last());
    let d = gzip::crc_register(other.drop_last());
    let x = data.last() as u32;
    let y = other.last() as u32;
    if i == data.len() - 1 {
        assert(other.drop_last() =~= data.drop_last());
        assert(x != y ==> c ^ x != c ^ y) by (bit_vector);
    } else {
        assert(other.drop_last() =~= data.drop_last().update(i, byte));
        lemma_register_differs(data.drop_last(), i, byte);
        assert(c != d ==> c ^ x != d ^ x) by (bit_vector);
    }
    if gzip::crc_register(other) == gzip::crc_register(data) {
        lemma_shifts_injective(c ^ x, d ^ y, 8);
    }
}

/// A gzip member without optional header fields that holds `body` in stored
/// blocks.
pub open spec fn gzip_stream(body: Seq<u8>) -> Seq<u8> {
    seq![0x1Fu8, 0x8B, 8, 0, 0, 0, 0, 0, 0, 0xFF] + inflate_laws::stored_stream(body)
        + bytes::le_bytes(gzip::crc_value(body) as nat, 4) + bytes::le_bytes(
        body.len() % 0x1_0000_0000,
        4,
    )
}

/// Whatever is wrapped comes back: any bytes within the cap survive the round
/// trip through a gzip member.
pub proof fn law_gzip_round_trip(body: Seq<u8>, limit: nat)
    requires
        body.len() <= limit,
    ensures
        gzip::member(gzip_stream(body), 0, limit as int) == Ok::<(Seq<u8>, int), GzipError>(
            (body, gzip_stream(body).len() as int),
        ),
        gzip::decompressed(gzip_stream(body), limit as int) == Ok::<Seq<u8>, GzipError>(body),
{
    let data = gzip_stream(body);
    let head = seq![0x1Fu8, 0x8B, 8, 0, 0, 0, 0, 0, 0, 0xFF];
    let stream = inflate_laws::stored_stream(body);
    let crc = bytes::le_bytes(gzip::crc_value(body) as nat, 4);
    let size = bytes::le_bytes(body.len() % 0x1_0000_0000, 4);
    let at = 10 + stream.len() as int;
    bytes::lemma_le_bytes_len(gzip::crc_value(body) as nat, 4);
    bytes::lemma_le_bytes_len(body.len() % 0x1_0000_0000, 4);
    assert(data =~= head + stream + crc + size);
    assert(data[0] == 0x1F && data[1] == 0x8B && data[2] == 8 && data[3] == 0);
    assert(0u8 & 0x04 == 0 && 0u8 & 0x08 == 0 && 0u8 & 0x10 == 0 && 0u8 & 0x02 == 0)
        by (bit_vector);
    assert(gzip::member_body(data, 0) == Ok::<int, GzipError>(10));
    assert(data.skip(10) =~= stream + (crc + size));
    inflate_laws::law_stored_round_trip(body, crc + size, limit);
    reveal_with_fuel(bytes::values_of, 5);
    assert(data.subrange(at, at + 4) =~= crc);
    assert(data.subrange(at + 4, at + 8) =~= size);
    bytes::law_le_round_trip(data, at, gzip::crc_value(body) as nat, 4);
    bytes::law_le_round_trip(data, at + 4, body.len() % 0x1_0000_0000, 4);
}

/// Every success was checked: the eight bytes behind the compressed data are
/// the checksum and the length of what came out.
pub proof fn law_success_is_checked(data: Seq<u8>, pos: int, limit: int)
    ensures
        gzip::member(data, pos, limit) matches Ok((out, next)) ==> {
            &&& next <= data.len()
            &&& bytes::le_value(data, next - 8, 4) == gzip::crc_value(out)
            &&& bytes::le_value(data, next - 4, 4) == out.len() % 0x1_0000_0000
        },
{
}

/// The optional fields of a member header.
pub struct Options {
    /// The extra field.
    pub extra: Option<Seq<u8>>,
    /// The file name.
    pub name: Option<Seq<u8>>,
    /// The comment.
    pub comment: Option<Seq<u8>>,
    /// The header checksum.
    pub check: Option<Seq<u8>>,
    /// Is the text flag set?
    pub ascii: bool,
}

/// One bit of the flags, if `present`.
pub open spec fn flag<T>(present: Option<T>, bit: int) -> int {
    if present is Some {
        bit
    } else {
        0
    }
}

/// The flags that say which fields are there.
pub open spec fn flags_of(o: Options) -> u8 {
    ((if o.ascii {
        1int
    } else {
        0
    }) + flag(o.check, 2) + flag(o.extra, 4) + flag(o.name, 8) + flag(o.comment, 16)) as u8
}

/// A text field: NUL-terminated, where there is one.
pub open spec fn named_bytes(s: Option<Seq<u8>>) -> Seq<u8> {
    match s {
        Some(b) => b + seq![0u8],
        None => seq![],
    }
}

/// The optional fields in their order: extra field with its length, name,
/// comment, header checksum.
pub open spec fn options_bytes(o: Options) -> Seq<u8> {
    (match o.extra {
        Some(x) => bytes::le_bytes(x.len(), 2) + x,
        None => seq![],
    }) + named_bytes(o.name) + named_bytes(o.comment) + (match o.check {
        Some(c) => c,
        None => seq![],
    })
}

/// Does no byte of `s` end it early?
pub open spec fn no_nul(s: Option<Seq<u8>>) -> bool {
    s matches Some(b) ==> forall|i: int| 0 <= i < b.len() ==> #[trigger] b[i] != 0
}

/// Does everything fit its field?
pub open spec fn options_writable(o: Options) -> bool {
    &&& (o.extra matches Some(x) ==> x.len() < 0x1_0000)
    &&& no_nul(o.name)
    &&& no_nul(o.comment)
    &&& (o.check matches Some(c) ==> c.len() == 2)
}

/// A member: header with its optional fields, compressed data, checksum and
/// length.
pub open spec fn member_bytes(stamp: Seq<u8>, o: Options, stream: Seq<u8>, body: Seq<u8>) -> Seq<
    u8,
> {
    seq![0x1Fu8, 0x8B, 8, flags_of(o)] + stamp + options_bytes(o) + stream + bytes::le_bytes(
        gzip::crc_value(body) as nat,
        4,
    ) + bytes::le_bytes(body.len() % 0x1_0000_0000, 4)
}

proof fn lemma_flags(o: Options)
    ensures
        ({
            let f = flags_of(o);
            &&& (f & 0x02 != 0) == (o.check is Some)
            &&& (f & 0x04 != 0) == (o.extra is Some)
            &&& (f & 0x08 != 0) == (o.name is Some)
            &&& (f & 0x10 != 0) == (o.comment is Some)
        }),
{
    let a: u8 = if o.ascii {
        1
    } else {
        0
    };
    let b: u8 = if o.check is Some {
        2
    } else {
        0
    };
    let c: u8 = if o.extra is Some {
        4
    } else {
        0
    };
    let d: u8 = if o.name is Some {
        8
    } else {
        0
    };
    let e: u8 = if o.comment is Some {
        16
    } else {
        0
    };
    let f = flags_of(o);
    assert(f == a + b + c + d + e);
    assert({
        &&& ((f & 0x02 != 0) == (b == 2))
        &&& ((f & 0x04 != 0) == (c == 4))
        &&& ((f & 0x08 != 0) == (d == 8))
        &&& ((f & 0x10 != 0) == (e == 16))
    }) by (bit_vector)
        requires
            f == a + b + c + d + e,
            a == 0 || a == 1,
            b == 0 || b == 2,
            c == 0 || c == 4,
            d == 0 || d == 8,
            e == 0 || e == 16,
    ;
}

proof fn lemma_named(front: Seq<u8>, s: Seq<u8>, back: Seq<u8>, i: int)
    requires
        forall|j: int| 0 <= j < s.len() ==> #[trigger] s[j] != 0,
        0 <= i <= s.len(),
    ensures
        gzip::cstr_end(front + (s + seq![0u8]) + back, front.len() + i) == Some(
            (front.len() + s.len() + 1) as int,
        ),
    decreases s.len() - i,
{
    let data = front + (s + seq![0u8]) + back;
    if i < s.len() {
        assert(data[front.len() + i] == s[i]);
        lemma_named(front, s, back, i + 1);
    } else {
        assert(data[front.len() + i] == 0);
    }
}

/// Do the optional fields end at these places?
#[verifier::opaque]
spec fn ends_at(data: Seq<u8>, len: nat, e1: int, e2: int, e3: int) -> bool {
    &&& data.len() >= 10
    &&& data[0] == 0x1F
    &&& data[1] == 0x8B
    &&& data[2] == 8
    &&& if data[3] & 0x04 != 0 {
        bytes::field(data, 10, 2) == Some(len) && e1 == 12 + len && e1 <= data.len()
    } else {
        e1 == 10
    }
    &&& if data[3] & 0x08 != 0 {
        gzip::cstr_end(data, e1) == Some(e2)
    } else {
        e2 == e1
    }
    &&& if data[3] & 0x10 != 0 {
        gzip::cstr_end(data, e2) == Some(e3)
    } else {
        e3 == e2
    }
    &&& data[3] & 0x02 != 0 ==> e3 + 2 <= data.len()
}

/// Where the compressed data starts, by where each field ends.
proof fn lemma_field_ends(data: Seq<u8>, len: nat, e1: int, e2: int, e3: int)
    requires
        ends_at(data, len, e1, e2, e3),
    ensures
        gzip::member_body(data, 0) == Ok::<int, GzipError>(
            e3 + (if data[3] & 0x02 != 0 {
                2int
            } else {
                0int
            }),
        ),
{
    reveal(ends_at);
}

proof fn lemma_regroup(
    a: Seq<u8>,
    b: Seq<u8>,
    c: Seq<u8>,
    d: Seq<u8>,
    e: Seq<u8>,
    f: Seq<u8>,
)
    ensures
        a + (b + c + d + e) + f == a + b + (c + d + e + f),
        a + (b + c + d + e) + f == a + b + c + (d + e + f),
        a + (b + c + d + e) + f == a + b + c + d + (e + f),
{
    assert(a + (b + c + d + e) + f =~= a + b + (c + d + e + f));
    assert(a + (b + c + d + e) + f =~= a + b + c + (d + e + f));
    assert(a + (b + c + d + e) + f =~= a + b + c + d + (e + f));
}

/// The bytes of the extra field.
spec fn extra_part(o: Options) -> Seq<u8> {
    match o.extra {
        Some(x) => bytes::le_bytes(x.len(), 2) + x,
        None => seq![],
    }
}

/// The bytes of the header checksum.
spec fn check_part(o: Options) -> Seq<u8> {
    match o.check {
        Some(c) => c,
        None => seq![],
    }
}

proof fn lemma_ends(head: Seq<u8>, o: Options, rest: Seq<u8>)
    requires
        head.len() == 10,
        head[0] == 0x1F,
        head[1] == 0x8B,
        head[2] == 8,
        head[3] == flags_of(o),
        options_writable(o),
    ensures
        ({
            let x = extra_part(o);
            let n = named_bytes(o.name);
            let c = named_bytes(o.comment);
            let len: nat = match o.extra {
                Some(x) => x.len(),
                None => 0,
            };
            ends_at(
                head + (x + n + c + check_part(o)) + rest,
                len,
                10int + x.len(),
                10int + x.len() + n.len(),
                10int + x.len() + n.len() + c.len(),
            )
        }),
{
    reveal(ends_at);
    let x = extra_part(o);
    let n = named_bytes(o.name);
    let c = named_bytes(o.comment);
    let h = check_part(o);
    let data = head + (x + n + c + h) + rest;
    lemma_flags(o);
    lemma_regroup(head, x, n, c, h, rest);
    assert(data[0] == head[0] && data[1] == head[1] && data[2] == head[2] && data[3] == head[3]);
    if let Some(b) = o.extra {
        bytes::lemma_le_bytes_len(b.len(), 2);
        lemma_extra_len(head, b, n + c + h + rest);
    }
    if let Some(b) = o.name {
        lemma_named(head + x, b, c + h + rest, 0);
    }
    if let Some(b) = o.comment {
        lemma_named(head + x + n, b, h + rest, 0);
    }
}

/// Where the compressed data starts: behind the fields that are there.
proof fn lemma_options(head: Seq<u8>, o: Options, rest: Seq<u8>)
    requires
        head.len() == 10,
        head[0] == 0x1F,
        head[1] == 0x8B,
        head[2] == 8,
        head[3] == flags_of(o),
        options_writable(o),
    ensures
        gzip::member_body(head + options_bytes(o) + rest, 0) == Ok::<int, GzipError>(
            (10 + options_bytes(o).len()) as int,
        ),
{
    let x = extra_part(o);
    let n = named_bytes(o.name);
    let c = named_bytes(o.comment);
    let len: nat = match o.extra {
        Some(x) => x.len(),
        None => 0,
    };
    lemma_ends(head, o, rest);
    lemma_flags(o);
    let data = head + options_bytes(o) + rest;
    assert(data == head + (x + n + c + check_part(o)) + rest);
    assert(data[3] == head[3]);
    lemma_field_ends(
        data,
        len,
        10 + x.len() as int,
        10 + x.len() + n.len() as int,
        10 + x.len() + n.len() + c.len() as int,
    );
}

proof fn lemma_extra_len(head: Seq<u8>, b: Seq<u8>, rest: Seq<u8>)
    requires
        head.len() == 10,
        b.len() < 0x1_0000,
    ensures
        bytes::field(head + (bytes::le_bytes(b.len(), 2) + b) + rest, 10, 2) == Some(b.len()),
{
    let data = head + (bytes::le_bytes(b.len(), 2) + b) + rest;
    bytes::lemma_le_bytes_len(b.len(), 2);
    reveal_with_fuel(bytes::values_of, 3);
    assert(data.subrange(10, 12) =~= bytes::le_bytes(b.len(), 2));
    bytes::law_le_round_trip(data, 10, b.len(), 2);
}

/// A member comes back whatever optional fields its header carries: extra
/// field, name, comment and header checksum are skipped, each where its flag
/// says it is, and what the compressed data holds is what comes out.
pub proof fn law_optional_fields_are_skipped(
    stamp: Seq<u8>,
    o: Options,
    stream: Seq<u8>,
    body: Seq<u8>,
    limit: nat,
)
    requires
        stamp.len() == 6,
        options_writable(o),
        inflate::inflated(stream, limit as int) == Ok::<(Seq<u8>, int), InflateError>(
            (body, stream.len() as int),
        ),
    ensures
        gzip::member(member_bytes(stamp, o, stream, body), 0, limit as int) == Ok::<
            (Seq<u8>, int),
            GzipError,
        >((body, member_bytes(stamp, o, stream, body).len() as int)),
        gzip::decompressed(member_bytes(stamp, o, stream, body), limit as int) == Ok::<
            Seq<u8>,
            GzipError,
        >(body),
{
    let data = member_bytes(stamp, o, stream, body);
    let head = seq![0x1Fu8, 0x8B, 8, flags_of(o)] + stamp;
    let opts = options_bytes(o);
    let crc = bytes::le_bytes(gzip::crc_value(body) as nat, 4);
    let size = bytes::le_bytes(body.len() % 0x1_0000_0000, 4);
    bytes::lemma_le_bytes_len(gzip::crc_value(body) as nat, 4);
    bytes::lemma_le_bytes_len(body.len() % 0x1_0000_0000, 4);
    lemma_options(head, o, stream + crc + size);
    assert(data =~= head + opts + (stream + crc + size));
    let p = (10 + opts.len()) as int;
    let at = p + stream.len();
    assert(data.skip(p) =~= stream + crc + size);
    assert((stream + crc + size).take(stream.len() as int) =~= stream);
    assert(stream.take(stream.len() as int) =~= stream);
    inflate_laws::law_trailing_bytes_are_ignored(stream, stream + crc + size, limit);
    reveal_with_fuel(bytes::values_of, 5);
    assert(data.subrange(at, at + 4) =~= crc);
    assert(data.subrange(at + 4, at + 8) =~= size);
    bytes::law_le_round_trip(data, at, gzip::crc_value(body) as nat, 4);
    bytes::law_le_round_trip(data, at + 4, body.len() % 0x1_0000_0000, 4);
}

} // verus!
