//! What holds of the tar reader as a whole: truncated archives, corrupt
//! headers, and what overrides what.
use vstd::prelude::*;

use crate::bytes;
use crate::entry::EntryView;
use crate::tar;
use crate::tar::{Progress, Record, TarError};
use crate::text;

verus! {

proof fn lemma_step(data: Seq<u8>, offset: int, p: Progress)
    requires
        0 <= offset,
    ensures
        tar::step(data, offset, p) matches Ok((more, next)) ==> {
            &&& offset + 512 <= next <= data.len()
            &&& p.entries.is_prefix_of(more.entries)
            &&& more.entries.len() <= p.entries.len() + 1
        },
{
}

proof fn lemma_entries_grow(data: Seq<u8>, offset: int, p: Progress)
    requires
        0 <= offset,
    ensures
        tar::entries_from(data, offset, p) matches Ok(all) ==> p.entries.is_prefix_of(all),
    decreases data.len() - offset,
{
    if offset + 512 <= data.len() {
        lemma_step(data, offset, p);
        if let Ok((more, next)) = tar::step(data, offset, p) {
            lemma_entries_grow(data, next, more);
        }
    }
}

proof fn lemma_step_cut(data: Seq<u8>, k: int, offset: int, p: Progress)
    requires
        0 <= offset,
        offset + 512 <= k <= data.len(),
        tar::step(data, offset, p) is Ok,
    ensures
        tar::step(data.take(k), offset, p) == (if tar::step(data, offset, p)->Ok_0.1 <= k {
            tar::step(data, offset, p)
        } else {
            Err::<(Progress, int), TarError>(TarError::Truncated { offset: offset as usize })
        }),
{
    let d = data.take(k);
    assert(d.subrange(offset, offset + 512) =~= data.subrange(offset, offset + 512));
    let block = data.subrange(offset, offset + 512);
    let size = tar::payload_size(block, offset as usize, p)->Ok_0;
    if tar::step(data, offset, p)->Ok_0.1 <= k {
        assert(d.subrange(offset + 512, offset + 512 + size) =~= data.subrange(
            offset + 512,
            offset + 512 + size,
        ));
    }
}

proof fn lemma_entries_cut(data: Seq<u8>, k: int, offset: int, p: Progress)
    requires
        0 <= offset <= k <= data.len(),
        tar::entries_from(data, offset, p) is Ok,
    ensures
        ({
            let full = tar::entries_from(data, offset, p)->Ok_0;
            match tar::entries_from(data.take(k), offset, p) {
                Ok(part) => part.is_prefix_of(full),
                Err(e) => e is Truncated,
            }
        }),
    decreases data.len() - offset,
{
    let d = data.take(k);
    lemma_entries_grow(data, offset, p);
    if offset + 512 <= k {
        assert(d.subrange(offset, offset + 512) =~= data.subrange(offset, offset + 512));
        if !bytes::all_zero(data.subrange(offset, offset + 512)) {
            lemma_step_cut(data, k, offset, p);
            lemma_step(data, offset, p);
            let (more, next) = tar::step(data, offset, p)->Ok_0;
            if next <= k {
                lemma_entries_cut(data, k, next, more);
            }
        }
    }
}

/// Cutting a readable archive anywhere leaves its leading entries or the
/// truncation error: never an entry that was not there, never another error.
pub proof fn law_truncation_is_safe(data: Seq<u8>, cut: int)
    requires
        tar::tar_entries(data) is Ok,
        0 <= cut <= data.len(),
    ensures
        match tar::tar_entries(data.take(cut)) {
            Ok(part) => part.is_prefix_of(tar::tar_entries(data)->Ok_0),
            Err(e) => e is Truncated,
        },
{
    lemma_entries_cut(data, cut, 0, tar::fresh());
}

proof fn lemma_entry_count(data: Seq<u8>, offset: int, p: Progress)
    requires
        0 <= offset <= data.len(),
        512 * p.entries.len() <= offset,
    ensures
        tar::entries_from(data, offset, p) matches Ok(all) ==> 512 * all.len() <= data.len(),
    decreases data.len() - offset,
{
    if offset + 512 <= data.len() {
        lemma_step(data, offset, p);
        if let Ok((more, next)) = tar::step(data, offset, p) {
            lemma_entry_count(data, next, more);
        }
    }
}

/// Every entry is backed by a header of its own: there are no more entries
/// than blocks in the input.
pub proof fn law_entry_count_is_bounded(data: Seq<u8>)
    ensures
        tar::tar_entries(data) matches Ok(all) ==> 512 * all.len() <= data.len(),
{
    lemma_entry_count(data, 0, tar::fresh());
}

spec fn modes_masked(entries: Seq<EntryView>) -> bool {
    forall|i: int|
        0 <= i < entries.len() ==> (#[trigger] entries[i].mode matches Some(m) && m < 4096)
}

proof fn lemma_modes(data: Seq<u8>, offset: int, p: Progress)
    requires
        0 <= offset,
        modes_masked(p.entries),
    ensures
        tar::entries_from(data, offset, p) matches Ok(all) ==> modes_masked(all),
    decreases data.len() - offset,
{
    if offset + 512 <= data.len() {
        lemma_step(data, offset, p);
        if let Ok((more, next)) = tar::step(data, offset, p) {
            assert(modes_masked(more.entries)) by {
                assert forall|i: int| 0 <= i < more.entries.len() implies (
                #[trigger] more.entries[i].mode matches Some(m) && m < 4096) by {
                    if i < p.entries.len() {
                        assert(more.entries[i] == p.entries[i]);
                    }
                }
            }
            lemma_modes(data, next, more);
        }
    }
}

/// Every tar entry has a mode, and it holds permission bits alone.
pub proof fn law_modes_are_masked(data: Seq<u8>, i: int)
    requires
        tar::tar_entries(data) is Ok,
        0 <= i < tar::tar_entries(data)->Ok_0.len(),
    ensures
        tar::tar_entries(data)->Ok_0[i].mode matches Some(m) && m < 4096,
{
    lemma_modes(data, 0, tar::fresh());
}

/// Long-name, long-link and PAX headers never surface as entries; any other
/// header adds exactly one, and uses up what was pending.
pub proof fn law_only_entries_surface(data: Seq<u8>, offset: int, p: Progress)
    requires
        0 <= offset,
        tar::step(data, offset, p) is Ok,
    ensures
        ({
            let more = tar::step(data, offset, p)->Ok_0.0;
            if tar::is_meta(data[offset + 156]) {
                more.entries == p.entries
            } else {
                &&& more.entries.len() == p.entries.len() + 1
                &&& more.entries.drop_last() == p.entries
                &&& more == (Progress { entries: more.entries, ..tar::fresh() })
            }
        }),
{
    let more = tar::step(data, offset, p)->Ok_0.0;
    if !tar::is_meta(data[offset + 156]) {
        assert(more.entries.drop_last() =~= p.entries);
    }
}

/// A pending PAX path names the next entry, whatever its header says; failing
/// that, a pending GNU long name does.
pub proof fn law_pending_name_wins(data: Seq<u8>, offset: int, p: Progress)
    requires
        0 <= offset,
        tar::step(data, offset, p) is Ok,
        !tar::is_meta(data[offset + 156]),
    ensures
        ({
            let path = tar::step(data, offset, p)->Ok_0.0.entries.last().path;
            match tar::last_value(p.pax, "path"@) {
                Some(v) => path == v,
                None => p.long_name matches Some(long) ==> path == long,
            }
        }),
{
}

spec fn high_bytes(block: Seq<u8>, n: nat) -> nat
    decreases n,
{
    if n == 0 {
        0
    } else {
        high_bytes(block, (n - 1) as nat) + (if tar::summed_byte(block, n - 1) >= 128 {
            1nat
        } else {
            0nat
        })
    }
}

proof fn lemma_sums_differ(block: Seq<u8>, n: nat)
    ensures
        tar::unsigned_sum(block, n) == tar::signed_sum(block, n) + 256 * high_bytes(block, n),
    decreases n,
{
    if n > 0 {
        lemma_sums_differ(block, (n - 1) as nat);
    }
}

proof fn lemma_changed_sums(block: Seq<u8>, i: int, byte: u8, n: nat)
    requires
        0 <= i < block.len(),
        n <= block.len(),
        !(148 <= i < 156),
    ensures
        tar::unsigned_sum(block.update(i, byte), n) == tar::unsigned_sum(block, n) + (if i < n {
            byte - block[i]
        } else {
            0
        }),
    decreases n,
{
    if n > 0 {
        lemma_changed_sums(block, i, byte, (n - 1) as nat);
    }
}

proof fn lemma_changed_signed_sum(block: Seq<u8>, i: int, byte: u8, n: nat)
    requires
        0 <= i < block.len(),
        n <= block.len(),
        !(148 <= i < 156),
        byte != block[i],
    ensures
        ({
            let d = tar::signed_sum(block.update(i, byte), n) - tar::signed_sum(block, n);
            if i < n {
                d != 0 && -255 <= d <= 255
            } else {
                d == 0
            }
        }),
    decreases n,
{
    if n > 0 {
        lemma_changed_signed_sum(block, i, byte, (n - 1) as nat);
    }
}

/// Changing any one byte of a good header outside the checksum field makes
/// the checksum fail, in both conventions.
pub proof fn law_changed_header_byte_is_detected(block: Seq<u8>, i: int, byte: u8, stored: nat)
    requires
        block.len() == 512,
        0 <= i < 512,
        !(148 <= i < 156),
        byte != block[i],
        tar::checksum_matches(block, stored),
    ensures
        !tar::checksum_matches(block.update(i, byte), stored),
{
    let other = block.update(i, byte);
    lemma_sums_differ(block, 512);
    lemma_sums_differ(other, 512);
    lemma_changed_sums(block, i, byte, 512);
    lemma_changed_signed_sum(block, i, byte, 512);
}

proof fn lemma_octal_run_end(run: Seq<u8>, tail: Seq<u8>, i: int)
    requires
        tar::all_octal(run),
        0 <= i <= run.len(),
        tail.len() > 0,
        tar::blank(tail[0]),
    ensures
        tar::run_end(run + tail, i) == run.len(),
    decreases run.len() - i,
{
    let field = run + tail;
    if i < run.len() {
        assert(field[i] == run[i]);
        assert(tar::is_octal(run[i]));
        lemma_octal_run_end(run, tail, i + 1);
    } else {
        assert(field[i] == tail[0]);
    }
}

/// An octal field reads as its digits, up to the NUL or space behind them,
/// whatever stands there after.
pub proof fn law_octal_field_is_read(run: Seq<u8>, tail: Seq<u8>)
    requires
        run.len() > 0,
        tar::all_octal(run),
        tail.len() > 0,
        tar::blank(tail[0]),
    ensures
        tar::numeric(run + tail) == tar::fits(tar::octal_value(run)),
{
    let field = run + tail;
    assert(tar::is_octal(run[0]));
    assert(field[0] == run[0]);
    lemma_octal_run_end(run, tail, 0);
    assert(field.subrange(0, run.len() as int) =~= run);
}

/// `v` in `width` octal digits.
pub open spec fn octal_bytes(v: nat, width: nat) -> Seq<u8>
    decreases width,
{
    if width == 0 {
        seq![]
    } else {
        octal_bytes(v / 8, (width - 1) as nat).push((48 + v % 8) as u8)
    }
}

/// `8` to the power of `width`.
pub open spec fn octal_limit(width: nat) -> nat
    decreases width,
{
    if width == 0 {
        1
    } else {
        8 * octal_limit((width - 1) as nat)
    }
}

/// A number that fits comes back from a zero-padded octal field.
pub proof fn law_octal_round_trip(v: nat, width: nat)
    requires
        v < octal_limit(width),
    ensures
        octal_bytes(v, width).len() == width,
        tar::all_octal(octal_bytes(v, width)),
        tar::octal_value(octal_bytes(v, width)) == v,
    decreases width,
{
    if width > 0 {
        law_octal_round_trip(v / 8, (width - 1) as nat);
        let front = octal_bytes(v / 8, (width - 1) as nat);
        let all = octal_bytes(v, width);
        assert(all.drop_last() =~= front);
        assert forall|i: int| 0 <= i < all.len() implies tar::is_octal(#[trigger] all[i]) by {
            if i < front.len() {
                assert(all[i] == front[i]);
            }
        }
    }
}

proof fn lemma_leading_zero(data: Seq<u8>)
    ensures
        tar::be_value(seq![0u8] + data) == tar::be_value(data),
    decreases data.len(),
{
    let wide = seq![0u8] + data;
    if data.len() == 0 {
        reveal_with_fuel(tar::be_value, 2);
        assert(wide.drop_last() =~= seq![]);
    } else {
        lemma_leading_zero(data.drop_last());
        assert(wide.drop_last() =~= seq![0u8] + data.drop_last());
        assert(wide.last() == data.last());
    }
}

/// A GNU base-256 field reads as the big-endian number behind its marker
/// byte, and is unreadable where that exceeds 64 bits.
pub proof fn law_base256_field_is_read(data: Seq<u8>)
    ensures
        tar::numeric(seq![0x80u8] + data) == tar::fits(tar::be_value(data)),
{
    let field = seq![0x80u8] + data;
    assert(field.update(0, 0u8) =~= seq![0u8] + data);
    lemma_leading_zero(data);
}

proof fn lemma_scalar_bytes(c: u32, b: u8, j: int)
    requires
        vstd::utf8::is_scalar(c),
        b < 128,
        c != b,
        0 <= j < vstd::utf8::encode_scalar(c).len(),
    ensures
        vstd::utf8::encode_scalar(c)[j] != b,
{
    assert(c <= 0x7F && c != b ==> (c & 0x7F) as u8 != b) by (bit_vector);
    assert((0xC0u8 | ((c >> 6) & 0x1F) as u8) >= 128) by (bit_vector);
    assert((0xE0u8 | ((c >> 12) & 0x0F) as u8) >= 128) by (bit_vector);
    assert((0xF0u8 | ((c >> 18) & 0x7) as u8) >= 128) by (bit_vector);
    assert((0x80u8 | (c & 0x3F) as u8) >= 128) by (bit_vector);
    assert((0x80u8 | ((c >> 6) & 0x3F) as u8) >= 128) by (bit_vector);
    assert((0x80u8 | ((c >> 12) & 0x3F) as u8) >= 128) by (bit_vector);
}

/// Does the ASCII character with code `b` not occur in `chars`?
pub open spec fn lacks(chars: Seq<char>, b: u8) -> bool {
    forall|i: int| 0 <= i < chars.len() ==> (#[trigger] chars[i]) as u32 != b as u32
}

proof fn lemma_encoding_lacks(chars: Seq<char>, b: u8, j: int)
    requires
        b < 128,
        lacks(chars, b),
        0 <= j < vstd::utf8::encode_utf8(chars).len(),
    ensures
        vstd::utf8::encode_utf8(chars)[j] != b,
    decreases chars.len(),
{
    if chars.len() > 0 {
        let first = vstd::utf8::encode_scalar(chars[0] as u32);
        let rest = chars.drop_first();
        vstd::utf8::char_is_scalar(chars[0]);
        if j < first.len() {
            lemma_scalar_bytes(chars[0] as u32, b, j);
        } else {
            assert(lacks(rest, b)) by {
                assert forall|i: int| 0 <= i < rest.len() implies (#[trigger] rest[i]) as u32
                    != b as u32 by {
                    assert(rest[i] == chars[i + 1]);
                }
            }
            lemma_encoding_lacks(rest, b, j - first.len());
        }
    }
}

proof fn lemma_find_behind(head: Seq<u8>, tail: Seq<u8>, b: u8, pos: int)
    requires
        0 <= pos <= head.len(),
        forall|j: int| 0 <= j < head.len() ==> #[trigger] head[j] != b,
        tail.len() > 0,
        tail[0] == b,
    ensures
        bytes::find(head + tail, pos, b) == head.len(),
    decreases head.len() - pos,
{
    let all = head + tail;
    if pos < head.len() {
        assert(all[pos] == head[pos]);
        lemma_find_behind(head, tail, b, pos + 1);
    } else {
        assert(all[pos] == tail[0]);
    }
}

/// A name comes back from its field: any text without NULs, NUL-terminated,
/// whatever stands behind the NUL.
pub proof fn law_text_field_is_read(name: Seq<char>, tail: Seq<u8>)
    requires
        lacks(name, 0),
        tail.len() > 0,
        tail[0] == 0,
    ensures
        tar::cstr(vstd::utf8::encode_utf8(name) + tail) == name,
{
    let head = vstd::utf8::encode_utf8(name);
    assert forall|j: int| 0 <= j < head.len() implies #[trigger] head[j] != 0u8 by {
        lemma_encoding_lacks(name, 0, j);
    }
    lemma_find_behind(head, tail, 0, 0);
    assert((head + tail).take(head.len() as int) =~= head);
    text::law_text_round_trips(name);
}

/// A name that fills its field has no NUL behind it, and needs none.
pub proof fn lemma_no_terminator(name: Seq<char>)
    requires
        lacks(name, 0),
    ensures
        bytes::find(vstd::utf8::encode_utf8(name), 0, 0) == vstd::utf8::encode_utf8(name).len(),
{
    let head = vstd::utf8::encode_utf8(name);
    assert forall|j: int| 0 <= j < head.len() implies #[trigger] head[j] != 0u8 by {
        lemma_encoding_lacks(name, 0, j);
    }
    lemma_find_nothing(head, 0, 0);
}

proof fn lemma_find_nothing(data: Seq<u8>, b: u8, pos: int)
    requires
        0 <= pos <= data.len(),
        forall|j: int| 0 <= j < data.len() ==> #[trigger] data[j] != b,
    ensures
        bytes::find(data, pos, b) == data.len(),
    decreases data.len() - pos,
{
    if pos < data.len() {
        lemma_find_nothing(data, b, pos + 1);
    }
}

/// The decimal digits of `n` as bytes.
pub open spec fn decimal_bytes(n: nat) -> Seq<u8> {
    text::decimal(n).map_values(|c: char| c as u8)
}

/// The PAX record that sets `key` to `value` and says it is `len` bytes long.
pub open spec fn pax_bytes(len: nat, key: Seq<char>, value: Seq<char>) -> Seq<u8> {
    decimal_bytes(len) + seq![32u8] + vstd::utf8::encode_utf8(key) + seq![61u8]
        + vstd::utf8::encode_utf8(value) + seq![10u8]
}

proof fn lemma_find_from(data: Seq<u8>, b: u8, pos: int, stop: int)
    requires
        0 <= pos <= stop < data.len(),
        forall|j: int| pos <= j < stop ==> #[trigger] data[j] != b,
        data[stop] == b,
    ensures
        bytes::find(data, pos, b) == stop,
    decreases stop - pos,
{
    if pos < stop {
        lemma_find_from(data, b, pos + 1, stop);
    }
}

/// A record comes back from its bytes, wherever they stand: key and value as
/// they were, for any value, and any key without an equals sign.
pub proof fn law_pax_record_is_read(
    before: Seq<u8>,
    len: nat,
    key: Seq<char>,
    value: Seq<char>,
    after: Seq<u8>,
)
    requires
        pax_bytes(len, key, value).len() == len,
        lacks(key, 61),
    ensures
        tar::pax_record(before + pax_bytes(len, key, value) + after, before.len() as int) == Ok::<
            (Record, int),
            &'static str,
        >(((key, value), (before.len() + len) as int)),
{
    let number = decimal_bytes(len);
    let k = vstd::utf8::encode_utf8(key);
    let v = vstd::utf8::encode_utf8(value);
    let record = pax_bytes(len, key, value);
    let data = before + record + after;
    let p = before.len() as int;
    let n = number.len() as int;
    text::law_decimal_round_trips(len);
    text::lemma_digits_are_decimal(len);
    let behind = seq![32u8] + k + seq![61u8] + v + seq![10u8] + after;
    assert(data =~= before + number + behind);
    assert forall|j: int| p <= j < p + n implies #[trigger] data[j] != 32u8 by {
        assert(text::is_digit(text::decimal(len)[j - p]));
        assert(data[j] == number[j - p]);
    }
    assert(data[p + n] == 32u8);
    lemma_find_from(data, 32, p, p + n);
    let digits = data.subrange(p, p + n);
    assert(tar::latin1(digits) =~= text::decimal(len)) by {
        assert forall|j: int| 0 <= j < n implies #[trigger] tar::latin1(digits)[j]
            == text::decimal(len)[j] by {
            assert(text::is_digit(text::decimal(len)[j]));
            assert(data[p + j] == number[j]);
        }
    }
    let body = data.subrange(p + n + 1, p + len - 1);
    assert(body =~= k + (seq![61u8] + v));
    assert forall|j: int| 0 <= j < k.len() implies #[trigger] k[j] != 61u8 by {
        lemma_encoding_lacks(key, 61, j);
    }
    lemma_find_behind(k, seq![61u8] + v, 61, 0);
    assert(body.take(k.len() as int) =~= k);
    assert(body.skip(k.len() as int + 1) =~= v);
    assert(data[p + len - 1] == 10);
    text::law_text_round_trips(key);
    text::law_text_round_trips(value);
}

/// The bytes of a list of PAX records, where record `i` says it is `lens[i]`
/// bytes long.
pub open spec fn pax_stream(lens: Seq<nat>, records: Seq<Record>) -> Seq<u8>
    decreases records.len(),
{
    if records.len() == 0 {
        seq![]
    } else {
        let (key, value) = records[0];
        pax_bytes(lens[0], key, value) + pax_stream(lens.drop_first(), records.drop_first())
    }
}

/// Every record says how long it is, and no key holds an equals sign.
pub open spec fn pax_writable(lens: Seq<nat>, records: Seq<Record>) -> bool {
    &&& lens.len() == records.len()
    &&& forall|i: int|
        0 <= i < records.len() ==> {
            let (key, value) = #[trigger] records[i];
            pax_bytes(lens[i], key, value).len() == lens[i] && lacks(key, 61)
        }
}

proof fn lemma_pax_stream(
    before: Seq<u8>,
    lens: Seq<nat>,
    records: Seq<Record>,
    after: Seq<u8>,
    acc: Seq<Record>,
)
    requires
        pax_writable(lens, records),
        after.len() == 0 || after[0] == 0,
    ensures
        tar::pax_records(
            before + pax_stream(lens, records) + after,
            before.len() as int,
            acc,
        ) == Ok::<Seq<Record>, &'static str>(acc + records),
    decreases records.len(),
{
    let data = before + pax_stream(lens, records) + after;
    let p = before.len() as int;
    if records.len() == 0 {
        assert(acc + records =~= acc);
    } else {
        let (key, value) = records[0];
        let record = pax_bytes(lens[0], key, value);
        let lens_left = lens.drop_first();
        let left = records.drop_first();
        let rest = pax_stream(lens_left, left);
        assert(data =~= before + record + (rest + after));
        law_pax_record_is_read(before, lens[0], key, value, rest + after);
        assert(data[p] != 0) by {
            text::law_decimal_round_trips(lens[0]);
            text::lemma_digits_are_decimal(lens[0]);
            assert(text::is_digit(text::decimal(lens[0])[0]));
            assert(data[p] == decimal_bytes(lens[0])[0]);
        }
        assert(pax_writable(lens_left, left)) by {
            assert forall|i: int| 0 <= i < left.len() implies {
                let (key, value) = #[trigger] left[i];
                pax_bytes(lens_left[i], key, value).len() == lens_left[i] && lacks(key, 61)
            } by {
                assert(left[i] == records[i + 1]);
            }
        }
        lemma_pax_stream(before + record, lens_left, left, after, acc.push(records[0]));
        assert(data =~= before + record + rest + after);
        assert(acc.push(records[0]) + left =~= acc + records);
    }
}

/// A list of records comes back from its bytes, in order, with every
/// duplicate, behind what was there before; the bytes end with the input or
/// at a NUL.
pub proof fn law_pax_records_are_read(
    lens: Seq<nat>,
    records: Seq<Record>,
    after: Seq<u8>,
    acc: Seq<Record>,
)
    requires
        pax_writable(lens, records),
        after.len() == 0 || after[0] == 0,
    ensures
        tar::pax_records(pax_stream(lens, records) + after, 0, acc) == Ok::<
            Seq<Record>,
            &'static str,
        >(acc + records),
{
    lemma_pax_stream(seq![], lens, records, after, acc);
    assert(seq![] + pax_stream(lens, records) + after =~= pax_stream(lens, records) + after);
}

} // verus!
