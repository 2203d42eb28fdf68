//! How a tar archive is written, field by field, and that the reader gives
//! back what was written.
use vstd::prelude::*;

use crate::bytes;
use crate::entry::{EntryKind, EntryView};
use crate::tar;
use crate::tar::{Progress, Record, TarError};
use crate::tar_laws;
use crate::text;

verus! {

/// `n` NULs.
pub open spec fn zeros(n: nat) -> Seq<u8> {
    Seq::new(n, |i: int| 0u8)
}

/// What a writer puts in a header. The checksum follows from the rest.
pub struct Header {
    /// The name field.
    pub name: Seq<char>,
    /// The mode field.
    pub mode: u32,
    /// The numeric owner and group fields.
    pub owner: Seq<u8>,
    /// The size field.
    pub size: nat,
    /// The time field.
    pub time: Seq<u8>,
    /// The type flag.
    pub typeflag: u8,
    /// The link field.
    pub link: Seq<char>,
    /// Magic and version.
    pub magic: Seq<u8>,
    /// Owner and group names, and device numbers.
    pub origin: Seq<u8>,
    /// The prefix field.
    pub prefix: Seq<char>,
    /// The rest of the block.
    pub pad: Seq<u8>,
}

/// `s`, NUL-padded to `width` bytes.
pub open spec fn text_field(s: Seq<char>, width: nat) -> Seq<u8> {
    let b = vstd::utf8::encode_utf8(s);
    b + zeros((width - b.len()) as nat)
}

/// `v` in `width` bytes: octal digits and a NUL.
pub open spec fn number_field(v: nat, width: nat) -> Seq<u8> {
    tar_laws::octal_bytes(v, (width - 1) as nat) + seq![0u8]
}

/// Can the field hold `s`?
pub open spec fn fits_field(s: Seq<char>, width: nat) -> bool {
    vstd::utf8::encode_utf8(s).len() <= width && tar_laws::lacks(s, 0)
}

/// Does everything fit its field?
pub open spec fn writable(h: Header) -> bool {
    &&& fits_field(h.name, 100)
    &&& h.mode < 0o10000000
    &&& h.owner.len() == 16
    &&& h.size < 0o100000000000
    &&& h.time.len() == 12
    &&& fits_field(h.link, 100)
    &&& h.magic.len() == 8
    &&& h.origin.len() == 80
    &&& fits_field(h.prefix, 155)
    &&& h.pad.len() == 12
}

/// The header up to the checksum.
pub open spec fn front_bytes(h: Header) -> Seq<u8> {
    text_field(h.name, 100) + number_field(h.mode as nat, 8) + h.owner + number_field(h.size, 12)
        + h.time
}

/// The header behind the checksum.
pub open spec fn back_bytes(h: Header) -> Seq<u8> {
    seq![h.typeflag] + text_field(h.link, 100) + h.magic + h.origin + text_field(h.prefix, 155)
        + h.pad
}

/// The bytes of `data` added up.
pub open spec fn byte_sum(data: Seq<u8>) -> nat
    decreases data.len(),
{
    if data.len() == 0 {
        0
    } else {
        byte_sum(data.drop_last()) + data.last() as nat
    }
}

/// The header: the checksum adds up all bytes, with eight spaces in its own
/// place.
pub open spec fn header_bytes(h: Header) -> Seq<u8> {
    let sum = byte_sum(front_bytes(h)) + 8 * 32 + byte_sum(back_bytes(h));
    front_bytes(h) + (tar_laws::octal_bytes(sum, 6) + seq![0u8, 32u8]) + back_bytes(h)
}

/// A header, its payload, and NULs up to the next block.
pub open spec fn member_bytes(h: Header, payload: Seq<u8>) -> Seq<u8> {
    header_bytes(h) + payload + zeros(((512 - payload.len() % 512) % 512) as nat)
}

proof fn lemma_octal_limits()
    ensures
        tar_laws::octal_limit(6) == 0o1000000,
        tar_laws::octal_limit(7) == 0o10000000,
        tar_laws::octal_limit(11) == 0o100000000000,
{
    reveal_with_fuel(tar_laws::octal_limit, 12);
}

proof fn lemma_lengths(h: Header)
    requires
        writable(h),
    ensures
        text_field(h.name, 100).len() == 100,
        number_field(h.mode as nat, 8).len() == 8,
        number_field(h.size, 12).len() == 12,
        text_field(h.link, 100).len() == 100,
        text_field(h.prefix, 155).len() == 155,
        front_bytes(h).len() == 148,
        back_bytes(h).len() == 356,
{
    lemma_octal_limits();
    tar_laws::law_octal_round_trip(h.mode as nat, 7);
    tar_laws::law_octal_round_trip(h.size, 11);
}

proof fn lemma_byte_sum_bound(data: Seq<u8>)
    ensures
        byte_sum(data) <= 255 * data.len(),
    decreases data.len(),
{
    if data.len() > 0 {
        lemma_byte_sum_bound(data.drop_last());
    }
}

/// The sum that the reader forms, part by part.
proof fn lemma_sum(front: Seq<u8>, field: Seq<u8>, back: Seq<u8>, n: nat)
    requires
        front.len() == 148,
        field.len() == 8,
        n <= 156 + back.len(),
    ensures
        tar::unsigned_sum(front + field + back, n) == (if n <= 148 {
            byte_sum(front.take(n as int)) as int
        } else if n <= 156 {
            byte_sum(front) + 32 * (n - 148)
        } else {
            (byte_sum(front) + 256 + byte_sum(back.take(n - 156))) as int
        }),
    decreases n,
{
    let block = front + field + back;
    if n == 0 {
        assert(front.take(0) =~= seq![]);
    } else {
        lemma_sum(front, field, back, (n - 1) as nat);
        if n <= 148 {
            let part = front.take(n as int);
            assert(part.drop_last() =~= front.take(n - 1));
            assert(block[n - 1] == front[n - 1]);
            if n == 148 {
                assert(part =~= front);
            }
        } else if n == 149 {
            assert(front.take(148) =~= front);
        } else if n > 156 {
            let part = back.take(n - 156);
            assert(part.drop_last() =~= back.take(n - 157));
            assert(block[n - 1] == back[n - 157]);
            if n == 157 {
                assert(back.take(0) =~= seq![]);
                assert(part.drop_last() =~= seq![]);
            }
        }
    }
}

proof fn lemma_text_field(s: Seq<char>, width: nat)
    requires
        fits_field(s, width),
    ensures
        tar::cstr(text_field(s, width)) == s,
{
    let b = vstd::utf8::encode_utf8(s);
    let tail = zeros((width - b.len()) as nat);
    if tail.len() > 0 {
        tar_laws::law_text_field_is_read(s, tail);
    } else {
        assert(text_field(s, width) =~= b);
        tar_laws::lemma_no_terminator(s);
        assert(b.take(b.len() as int) =~= b);
        text::law_text_round_trips(s);
    }
}

proof fn lemma_number_field(v: nat, width: nat)
    requires
        width > 1,
        v < tar_laws::octal_limit((width - 1) as nat),
        v <= u64::MAX,
    ensures
        tar::numeric(number_field(v, width)) == Some(v),
{
    let run = tar_laws::octal_bytes(v, (width - 1) as nat);
    tar_laws::law_octal_round_trip(v, (width - 1) as nat);
    tar_laws::law_octal_field_is_read(run, seq![0u8]);
}

/// Where the fields of a written header stand.
proof fn lemma_fields(h: Header)
    requires
        writable(h),
    ensures
        ({
            let block = header_bytes(h);
            &&& block.len() == 512
            &&& block.subrange(0, 100) == text_field(h.name, 100)
            &&& block.subrange(100, 108) == number_field(h.mode as nat, 8)
            &&& block.subrange(124, 136) == number_field(h.size, 12)
            &&& block[156] == h.typeflag
            &&& block.subrange(157, 257) == text_field(h.link, 100)
            &&& block.subrange(257, 265) == h.magic
            &&& block.subrange(345, 500) == text_field(h.prefix, 155)
        }),
{
    let front = front_bytes(h);
    let back = back_bytes(h);
    let sum = byte_sum(front) + 8 * 32 + byte_sum(back);
    lemma_lengths(h);
    lemma_byte_sum_bound(front);
    lemma_byte_sum_bound(back);
    lemma_octal_limits();
    tar_laws::law_octal_round_trip(sum, 6);
    let block = header_bytes(h);
    assert(block.subrange(0, 148) =~= front);
    assert(block.subrange(156, 512) =~= back);
    assert(block.subrange(0, 100) =~= text_field(h.name, 100));
    assert(block.subrange(100, 108) =~= number_field(h.mode as nat, 8));
    assert(block.subrange(124, 136) =~= number_field(h.size, 12));
    assert(block.subrange(157, 257) =~= text_field(h.link, 100));
    assert(block.subrange(257, 265) =~= h.magic);
    assert(block.subrange(345, 500) =~= text_field(h.prefix, 155));
}

/// A written header passes the checksum, and is not an end marker.
proof fn lemma_checksum(h: Header)
    requires
        writable(h),
    ensures
        ({
            let block = header_bytes(h);
            &&& block.len() == 512
            &&& tar::numeric(block.subrange(148, 156)) matches Some(stored)
            &&& tar::checksum_matches(block, stored)
            &&& stored == tar::unsigned_sum(block, 512)
            &&& 48 <= block[148] <= 55
            &&& !bytes::all_zero(block)
        }),
{
    let front = front_bytes(h);
    let back = back_bytes(h);
    let sum = byte_sum(front) + 8 * 32 + byte_sum(back);
    let digits = tar_laws::octal_bytes(sum, 6);
    let field = digits + seq![0u8, 32u8];
    lemma_lengths(h);
    lemma_byte_sum_bound(front);
    lemma_byte_sum_bound(back);
    lemma_octal_limits();
    tar_laws::law_octal_round_trip(sum, 6);
    let block = header_bytes(h);
    assert(block == front + field + back);
    assert(block.subrange(148, 156) =~= field);
    tar_laws::law_octal_field_is_read(digits, seq![0u8, 32u8]);
    lemma_sum(front, field, back, 512);
    assert(back.take(356) =~= back);
    assert(block[148] == digits[0]);
    assert(tar::is_octal(digits[0]));
}

/// What a type flag creates: 0, NUL and 7 are regular files, unless the name
/// ends in a slash.
pub open spec fn flag_kind(typeflag: u8, path: Seq<char>) -> EntryKind {
    let c = typeflag as char;
    if c == '0' || c == '\0' || c == '7' {
        if path.len() > 0 && path.last() == '/' {
            EntryKind::Dir
        } else {
            EntryKind::File
        }
    } else if c == '1' {
        EntryKind::Hardlink
    } else if c == '2' {
        EntryKind::Symlink
    } else if c == '3' {
        EntryKind::CharDevice
    } else if c == '4' {
        EntryKind::BlockDevice
    } else if c == '5' {
        EntryKind::Dir
    } else if c == '6' {
        EntryKind::Fifo
    } else {
        EntryKind::Other(c)
    }
}

/// The name that a header itself gives: behind its prefix, where the magic is
/// that of POSIX.
pub open spec fn own_name(h: Header) -> Seq<char> {
    if h.magic.take(6) == seq![117u8, 115, 116, 97, 114, 0] && h.prefix.len() > 0 {
        h.prefix + seq!['/'] + h.name
    } else {
        h.name
    }
}

/// Is `value` what `records` say last of `key`, or `None` where they say
/// nothing?
pub open spec fn says(records: Seq<Record>, key: Seq<char>, value: Option<Seq<char>>) -> bool {
    match value {
        Some(v) => exists|i: int|
            0 <= i < records.len() && #[trigger] records[i] == (key, v) && forall|j: int|
                i < j < records.len() ==> (#[trigger] records[j]).0 != key,
        None => forall|j: int| 0 <= j < records.len() ==> (#[trigger] records[j]).0 != key,
    }
}

proof fn lemma_says(records: Seq<Record>, key: Seq<char>, value: Option<Seq<char>>)
    requires
        says(records, key, value),
    ensures
        tar::last_value(records, key) == value,
    decreases records.len(),
{
    if records.len() > 0 {
        let n = records.len() - 1;
        let front = records.drop_last();
        if records.last().0 == key {
            assert(records[n].0 == key);
            if let Some(v) = value {
                let i = choose|i: int|
                    0 <= i < records.len() && #[trigger] records[i] == (key, v) && forall|j: int|
                        i < j < records.len() ==> (#[trigger] records[j]).0 != key;
                assert(i == n);
            }
        } else {
            assert(says(front, key, value)) by {
                if let Some(v) = value {
                    let i = choose|i: int|
                        0 <= i < records.len() && #[trigger] records[i] == (key, v) && forall|
                            j: int,
                        | i < j < records.len() ==> (#[trigger] records[j]).0 != key;
                    assert(i < n);
                    assert(front[i] == (key, v));
                    assert forall|j: int| i < j < front.len() implies (#[trigger] front[j]).0
                        != key by {
                        assert(records[j].0 != key);
                    }
                } else {
                    assert forall|j: int| 0 <= j < front.len() implies (#[trigger] front[j]).0
                        != key by {
                        assert(records[j].0 != key);
                    }
                }
            }
            lemma_says(front, key, value);
        }
    }
}

/// What the records and long names in front of a header say of the next
/// entry.
pub struct Override {
    /// The PAX path.
    pub path: Option<Seq<char>>,
    /// The PAX link path.
    pub linkpath: Option<Seq<char>>,
    /// The PAX size.
    pub size: Option<nat>,
}

/// Do the pending records say this?
pub open spec fn pending(p: Progress, o: Override) -> bool {
    &&& says(p.pax, "path"@, o.path)
    &&& says(p.pax, "linkpath"@, o.linkpath)
    &&& says(
        p.pax,
        "size"@,
        match o.size {
            Some(n) => Some(text::decimal(n)),
            None => None,
        },
    )
}

/// `a`, or `b` where there is none, or `c` where there is neither.
pub open spec fn first_of(
    a: Option<Seq<char>>,
    b: Option<Seq<char>>,
    c: Seq<char>,
) -> Seq<char> {
    match (a, b) {
        (Some(x), _) => x,
        (None, Some(x)) => x,
        (None, None) => c,
    }
}

/// The entry that a written header and what came before it stand for.
pub open spec fn described(h: Header, p: Progress, o: Override, size: nat) -> EntryView {
    let path = first_of(o.path, p.long_name, own_name(h));
    let link = first_of(o.linkpath, p.long_link, h.link);
    let kind = flag_kind(h.typeflag, path);
    EntryView {
        path,
        kind,
        mode: Some(h.mode & 0o7777),
        link_target: if kind == EntryKind::Symlink || kind == EntryKind::Hardlink || link.len()
            > 0 {
            Some(link)
        } else {
            None
        },
        size: size as u64,
    }
}

/// Where the next header stands: behind whole blocks.
proof fn lemma_member_len(h: Header, payload: Seq<u8>)
    requires
        writable(h),
    ensures
        member_bytes(h, payload).len() == 512 + tar::padded(payload.len()),
        tar::padded(payload.len()) >= payload.len(),
{
    lemma_fields(h);
}

/// An entry comes back from its header: name, kind, all twelve mode bits,
/// link target and size, with what the records and long names in front of it
/// say of them. The next header stands behind the padded payload, and nothing
/// is pending any more.
pub proof fn law_written_entry_is_read(
    before: Seq<u8>,
    h: Header,
    payload: Seq<u8>,
    after: Seq<u8>,
    p: Progress,
    o: Override,
)
    requires
        writable(h),
        !(h.typeflag as char == 'L' || h.typeflag as char == 'K' || h.typeflag as char == 'x'
            || h.typeflag as char == 'g'),
        pending(p, o),
        payload.len() == (match o.size {
            Some(n) => n,
            None => h.size,
        }),
        payload.len() + 511 <= u64::MAX,
    ensures
        tar::step(before + member_bytes(h, payload) + after, before.len() as int, p) == Ok::<
            (Progress, int),
            TarError,
        >(
            (
                Progress {
                    entries: p.entries.push(described(h, p, o, payload.len())),
                    long_name: None,
                    long_link: None,
                    pax: seq![],
                },
                (before.len() + member_bytes(h, payload).len()) as int,
            ),
        ),
{
    let data = before + member_bytes(h, payload) + after;
    let at = before.len() as int;
    let block = data.subrange(at, at + 512);
    lemma_fields(h);
    lemma_checksum(h);
    lemma_member_len(h, payload);
    lemma_octal_limits();
    assert(block =~= header_bytes(h));
    lemma_number_field(h.mode as nat, 8);
    lemma_number_field(h.size, 12);
    lemma_text_field(h.name, 100);
    lemma_text_field(h.link, 100);
    lemma_text_field(h.prefix, 155);
    lemma_says(p.pax, "path"@, o.path);
    lemma_says(p.pax, "linkpath"@, o.linkpath);
    lemma_says(
        p.pax,
        "size"@,
        match o.size {
            Some(n) => Some(text::decimal(n)),
            None => None,
        },
    );
    if let Some(n) = o.size {
        text::law_decimal_round_trips(n);
    }
    assert(block.subrange(257, 263) =~= h.magic.take(6)) by {
        assert(block.subrange(257, 265) == h.magic);
        assert forall|i: int| 0 <= i < 6 implies block.subrange(257, 263)[i] == h.magic[i] by {
            assert(block.subrange(257, 265)[i] == block[257 + i]);
        }
    }
    reveal_strlit("/");
    assert("/"@ =~= seq!['/']);
    let m = h.mode;
    assert(m & 0o7777 == m % 4096) by (bit_vector);
    assert(tar::name_of(block, p) == first_of(o.path, p.long_name, own_name(h)));
    assert(tar::link_of(block, p) == first_of(o.linkpath, p.long_link, h.link));
}

/// The start of every step on a written header: it is found, its checksum
/// holds, and it says how long its payload is.
proof fn lemma_meta_step(
    before: Seq<u8>,
    h: Header,
    payload: Seq<u8>,
    after: Seq<u8>,
    p: Progress,
)
    requires
        writable(h),
        h.typeflag as char == 'L' || h.typeflag as char == 'K' || h.typeflag as char == 'x'
            || h.typeflag as char == 'g',
        payload.len() == h.size,
    ensures
        ({
            let data = before + member_bytes(h, payload) + after;
            let at = before.len() as int;
            let next = (before.len() + member_bytes(h, payload).len()) as int;
            let block = data.subrange(at, at + 512);
            &&& tar::numeric(block.subrange(148, 156)) matches Some(stored)
            &&& tar::checksum_matches(block, stored)
            &&& block[156] == h.typeflag
            &&& tar::payload_size(block, at as usize, p) == Ok::<nat, TarError>(h.size)
            &&& at + 512 + tar::padded(h.size) == next
            &&& next <= data.len()
            &&& data.subrange(at + 512, at + 512 + h.size) == payload
        }),
{
    let data = before + member_bytes(h, payload) + after;
    let at = before.len() as int;
    let block = data.subrange(at, at + 512);
    lemma_fields(h);
    lemma_checksum(h);
    lemma_member_len(h, payload);
    lemma_octal_limits();
    assert(block =~= header_bytes(h));
    lemma_number_field(h.size, 12);
    assert(data.subrange(at + 512, at + 512 + h.size) =~= payload);
}

/// A GNU long name or long link is kept for the next entry, and adds no entry
/// of its own.
pub proof fn law_long_text_is_kept(
    before: Seq<u8>,
    h: Header,
    name: Seq<char>,
    tail: Seq<u8>,
    after: Seq<u8>,
    p: Progress,
)
    requires
        writable(h),
        h.typeflag as char == 'L' || h.typeflag as char == 'K',
        tar_laws::lacks(name, 0),
        tail.len() == 0 || tail[0] == 0,
        vstd::utf8::encode_utf8(name).len() + tail.len() == h.size,
    ensures
        ({
            let member = member_bytes(h, vstd::utf8::encode_utf8(name) + tail);
            let next = (before.len() + member.len()) as int;
            tar::step(before + member + after, before.len() as int, p) == Ok::<
                (Progress, int),
                TarError,
            >(
                (
                    if h.typeflag as char == 'L' {
                        Progress { long_name: Some(name), ..p }
                    } else {
                        Progress { long_link: Some(name), ..p }
                    },
                    next,
                ),
            )
        }),
{
    let b = vstd::utf8::encode_utf8(name);
    lemma_meta_step(before, h, b + tail, after, p);
    if tail.len() > 0 {
        tar_laws::law_text_field_is_read(name, tail);
    } else {
        assert(b + tail =~= b);
        tar_laws::lemma_no_terminator(name);
        assert(b.take(b.len() as int) =~= b);
        text::law_text_round_trips(name);
    }
}

proof fn lemma_pax_step(
    before: Seq<u8>,
    h: Header,
    payload: Seq<u8>,
    after: Seq<u8>,
    p: Progress,
    all: Seq<Record>,
)
    requires
        writable(h),
        h.typeflag as char == 'x' || h.typeflag as char == 'g',
        payload.len() == h.size,
        tar::pax_records(payload, 0, p.pax) == Ok::<Seq<Record>, &'static str>(all),
    ensures
        tar::step(before + member_bytes(h, payload) + after, before.len() as int, p) == Ok::<
            (Progress, int),
            TarError,
        >((Progress { pax: all, ..p }, (before.len() + member_bytes(h, payload).len()) as int)),
{
    lemma_meta_step(before, h, payload, after, p);
}

/// The records of a PAX header, its own or a global one, are kept for the next
/// entry, behind those already pending, and add no entry of their own.
pub proof fn law_pax_records_are_kept(
    before: Seq<u8>,
    h: Header,
    lens: Seq<nat>,
    records: Seq<Record>,
    tail: Seq<u8>,
    after: Seq<u8>,
    p: Progress,
)
    requires
        writable(h),
        h.typeflag as char == 'x' || h.typeflag as char == 'g',
        tar_laws::pax_writable(lens, records),
        tail.len() == 0 || tail[0] == 0,
        tar_laws::pax_stream(lens, records).len() + tail.len() == h.size,
    ensures
        ({
            let member = member_bytes(h, tar_laws::pax_stream(lens, records) + tail);
            let next = (before.len() + member.len()) as int;
            tar::step(before + member + after, before.len() as int, p) == Ok::<
                (Progress, int),
                TarError,
            >((Progress { pax: p.pax + records, ..p }, next))
        }),
{
    let payload = tar_laws::pax_stream(lens, records) + tail;
    tar_laws::law_pax_records_are_read(lens, records, tail, p.pax);
    lemma_pax_step(before, h, payload, after, p, p.pax + records);
}

/// Members one after another.
pub open spec fn members_bytes(members: Seq<(Header, Seq<u8>)>) -> Seq<u8>
    decreases members.len(),
{
    if members.len() == 0 {
        seq![]
    } else {
        member_bytes(members[0].0, members[0].1) + members_bytes(members.drop_first())
    }
}

/// Can every member be written, as an entry of its own?
pub open spec fn members_writable(members: Seq<(Header, Seq<u8>)>) -> bool {
    forall|i: int|
        0 <= i < members.len() ==> {
            let (h, payload) = #[trigger] members[i];
            let c = h.typeflag as char;
            writable(h) && payload.len() == h.size && !(c == 'L' || c == 'K' || c == 'x' || c
                == 'g')
        }
}

/// The entries that members stand for.
pub open spec fn entries_of(members: Seq<(Header, Seq<u8>)>) -> Seq<EntryView> {
    members.map_values(
        |m: (Header, Seq<u8>)|
            described(
                m.0,
                tar::fresh(),
                Override { path: None, linkpath: None, size: None },
                m.0.size,
            ),
    )
}

/// Reading from `offset` on, taken as a whole.
#[verifier::opaque]
spec fn read_from(data: Seq<u8>, offset: int, p: Progress) -> Result<Seq<EntryView>, TarError> {
    tar::entries_from(data, offset, p)
}

/// Reading goes on behind a member, with its entry added.
proof fn lemma_member_is_read(
    before: Seq<u8>,
    h: Header,
    payload: Seq<u8>,
    after: Seq<u8>,
    p: Progress,
)
    requires
        writable(h),
        payload.len() == h.size,
        !(h.typeflag as char == 'L' || h.typeflag as char == 'K' || h.typeflag as char == 'x'
            || h.typeflag as char == 'g'),
        p == (Progress { entries: p.entries, ..tar::fresh() }),
    ensures
        ({
            let data = before + member_bytes(h, payload) + after;
            let none = Override { path: None, linkpath: None, size: None };
            let e = described(h, tar::fresh(), none, h.size);
            read_from(data, before.len() as int, p) == read_from(
                data,
                (before.len() + member_bytes(h, payload).len()) as int,
                Progress { entries: p.entries.push(e), ..tar::fresh() },
            )
        }),
{
    let data = before + member_bytes(h, payload) + after;
    let at = before.len() as int;
    let none = Override { path: None, linkpath: None, size: None };
    reveal(read_from);
    lemma_octal_limits();
    law_written_entry_is_read(before, h, payload, after, p, none);
    lemma_member_len(h, payload);
    lemma_checksum(h);
    assert(data.subrange(at, at + 512) =~= header_bytes(h));
}

proof fn lemma_end_is_read(before: Seq<u8>, trailer: nat, p: Progress)
    ensures
        tar::entries_from(before + zeros(trailer), before.len() as int, p) == Ok::<
            Seq<EntryView>,
            TarError,
        >(p.entries),
{
    let data = before + zeros(trailer);
    let at = before.len() as int;
    assert(bytes::all_zero(data.skip(at)));
    if at + 512 <= data.len() {
        assert(bytes::all_zero(data.subrange(at, at + 512)));
    }
}

proof fn lemma_prefix_is_read(
    before: Seq<u8>,
    members: Seq<(Header, Seq<u8>)>,
    after: Seq<u8>,
    p: Progress,
)
    requires
        members_writable(members),
        p == (Progress { entries: p.entries, ..tar::fresh() }),
    ensures
        ({
            let data = before + members_bytes(members) + after;
            read_from(data, before.len() as int, p) == read_from(
                data,
                (before.len() + members_bytes(members).len()) as int,
                Progress { entries: p.entries + entries_of(members), ..tar::fresh() },
            )
        }),
    decreases members.len(),
{
    if members.len() == 0 {
        assert(p.entries + entries_of(members) =~= p.entries);
    } else {
        let (h, payload) = members[0];
        let left = members.drop_first();
        let member = member_bytes(h, payload);
        let rest = members_bytes(left);
        let none = Override { path: None, linkpath: None, size: None };
        let e = described(h, tar::fresh(), none, h.size);
        let q = Progress { entries: p.entries.push(e), ..tar::fresh() };
        lemma_member_is_read(before, h, payload, rest + after, p);
        assert(members_writable(left)) by {
            assert forall|i: int| 0 <= i < left.len() implies {
                let (h, payload) = #[trigger] left[i];
                let c = h.typeflag as char;
                writable(h) && payload.len() == h.size && !(c == 'L' || c == 'K' || c == 'x' || c
                    == 'g')
            } by {
                assert(left[i] == members[i + 1]);
            }
        }
        lemma_prefix_is_read(before + member, left, after, q);
        assert(before + (member + rest) + after =~= before + member + (rest + after));
        assert(before + (member + rest) + after =~= before + member + rest + after);
        assert(entries_of(members)[0] == e);
        assert(q.entries + entries_of(left) =~= p.entries + entries_of(members));
    }
}

/// An archive comes back from its members: every one of them, in order, with
/// what its header says, up to the NULs at the end.
pub proof fn law_archive_is_read(members: Seq<(Header, Seq<u8>)>, trailer: nat)
    requires
        members_writable(members),
    ensures
        tar::tar_entries(members_bytes(members) + zeros(trailer)) == Ok::<
            Seq<EntryView>,
            TarError,
        >(entries_of(members)),
{
    let end = zeros(trailer);
    let all = members_bytes(members);
    reveal(read_from);
    lemma_prefix_is_read(seq![], members, end, tar::fresh());
    lemma_end_is_read(
        all,
        trailer,
        Progress { entries: tar::fresh().entries + entries_of(members), ..tar::fresh() },
    );
    assert(seq![] + members_bytes(members) + zeros(trailer) =~= members_bytes(members) + zeros(
        trailer,
    ));
    assert(tar::fresh().entries + entries_of(members) =~= entries_of(members));
}

/// The mode of an entry holds all twelve permission bits of the mode field,
/// and nothing else: each of them is set in the entry exactly if it is set in
/// the field.
pub proof fn law_mode_bits_come_through(block: Seq<u8>, v: u64, size: nat, p: Progress)
    requires
        tar::numeric(block.subrange(100, 108)) == Some(v as nat),
    ensures
        tar::entry_of(block, size, p) matches Some(e) && e.mode matches Some(m) && {
            &&& m == v & 0o7777
            &&& m as u64 & 0o4000 == v & 0o4000
            &&& m as u64 & 0o2000 == v & 0o2000
            &&& m as u64 & 0o002 == v & 0o002
        },
{
    assert(v & 0o7777 == v % 4096) by (bit_vector);
    assert((v & 0o7777) & 0o4000 == v & 0o4000 && (v & 0o7777) & 0o2000 == v & 0o2000 && (v
        & 0o7777) & 0o002 == v & 0o002) by (bit_vector);
}

proof fn lemma_blanks(lead: Seq<u8>, rest: Seq<u8>, i: int)
    requires
        forall|j: int| 0 <= j < lead.len() ==> tar::blank(#[trigger] lead[j]),
        0 <= i <= lead.len(),
        rest.len() == 0 || !tar::blank(rest[0]),
    ensures
        tar::run_start(lead + rest, i) == lead.len(),
    decreases lead.len() - i,
{
    let all = lead + rest;
    if i < lead.len() {
        assert(tar::blank(lead[i]));
        assert(all[i] == lead[i]);
        lemma_blanks(lead, rest, i + 1);
    } else if rest.len() > 0 {
        assert(all[i] == rest[0]);
    }
}

proof fn lemma_run_shifts(lead: Seq<u8>, rest: Seq<u8>, i: int)
    requires
        0 <= i <= rest.len(),
    ensures
        tar::run_end(lead + rest, lead.len() + i) == lead.len() + tar::run_end(rest, i),
    decreases rest.len() - i,
{
    if i < rest.len() {
        assert((lead + rest)[lead.len() + i] == rest[i]);
        lemma_run_shifts(lead, rest, i + 1);
    }
}

proof fn lemma_run_end_bound(rest: Seq<u8>, i: int)
    requires
        0 <= i <= rest.len(),
    ensures
        i <= tar::run_end(rest, i) <= rest.len(),
    decreases rest.len() - i,
{
    if i < rest.len() {
        lemma_run_end_bound(rest, i + 1);
    }
}

/// Spaces and NULs in front of a number are skipped; a field of nothing else
/// reads as zero.
pub proof fn law_leading_blanks_are_skipped(lead: Seq<u8>, rest: Seq<u8>)
    requires
        lead.len() > 0,
        forall|j: int| 0 <= j < lead.len() ==> (#[trigger] lead[j] == 32 || lead[j] == 0),
        rest.len() == 0 || (rest[0] != 32 && rest[0] != 0 && rest[0] < 128),
    ensures
        tar::numeric(lead + rest) == (if rest.len() == 0 {
            Some(0nat)
        } else {
            tar::numeric(rest)
        }),
{
    let all = lead + rest;
    let n = lead.len() as int;
    assert(all[0] == lead[0]);
    lemma_blanks(lead, rest, 0);
    lemma_run_shifts(lead, rest, 0);
    lemma_run_end_bound(rest, 0);
    let end = tar::run_end(rest, 0);
    assert(all.subrange(n, n + end) =~= rest.subrange(0, end));
    if rest.len() == 0 {
        assert(rest.subrange(0, end) =~= seq![]);
    }
}

/// A number with anything but octal digits in it is not read.
pub proof fn law_bad_digit_is_unreadable(run: Seq<u8>, tail: Seq<u8>, i: int)
    requires
        0 <= i < run.len(),
        run[0] < 128,
        forall|j: int| 0 <= j < run.len() ==> #[trigger] run[j] != 32 && run[j] != 0,
        !(48 <= run[i] <= 55),
        tail.len() == 0 || tail[0] == 32 || tail[0] == 0,
    ensures
        tar::numeric(run + tail) is None,
{
    let all = run + tail;
    assert(all[0] == run[0]);
    lemma_run_to_end(run, tail, 0);
    assert(all.subrange(0, run.len() as int) =~= run);
    assert(!tar::is_octal(run[i]));
}

proof fn lemma_run_to_end(run: Seq<u8>, tail: Seq<u8>, i: int)
    requires
        forall|j: int| 0 <= j < run.len() ==> #[trigger] run[j] != 32 && run[j] != 0,
        0 <= i <= run.len(),
        tail.len() == 0 || tail[0] == 32 || tail[0] == 0,
    ensures
        tar::run_end(run + tail, i) == run.len(),
    decreases run.len() - i,
{
    let all = run + tail;
    if i < run.len() {
        assert(all[i] == run[i]);
        lemma_run_to_end(run, tail, i + 1);
    } else if tail.len() > 0 {
        assert(all[i] == tail[0]);
    }
}

/// A written archive is detected as tar, unless its first name spells the
/// magic of another format.
pub proof fn law_written_archive_is_detected(h: Header, rest: Seq<u8>)
    requires
        writable(h),
        ({
            let b = vstd::utf8::encode_utf8(h.name);
            b.len() < 2 || !((b[0] == 0x1F && b[1] == 0x8B) || (b[0] == 0x50 && b[1] == 0x4B))
        }),
    ensures
        crate::format::detected(header_bytes(h) + rest) == Some(crate::format::Format::Tar),
{
    let data = header_bytes(h) + rest;
    let b = vstd::utf8::encode_utf8(h.name);
    lemma_checksum(h);
    lemma_fields(h);
    assert(data.take(512) =~= header_bytes(h));
    let block = header_bytes(h);
    let field = text_field(h.name, 100);
    assert(block.subrange(0, 100)[0] == block[0] && block.subrange(0, 100)[1] == block[1]);
    assert(data[0] == field[0] && data[1] == field[1]);
    crate::format::law_magic_decides(data);
    if b.len() >= 2 {
        assert(field[0] == b[0] && field[1] == b[1]);
    } else {
        assert(field[1] == 0);
    }
    assert(data[148] == block[148]);
    crate::format::law_readable_first_header_is_detected(data);
}

/// An archive that is cut inside a member is refused as truncated, at the
/// offset of that member: neither a header that is cut short nor a payload
/// that is passes for the end of the archive.
pub proof fn law_cut_members_are_refused(
    members: Seq<(Header, Seq<u8>)>,
    h: Header,
    payload: Seq<u8>,
    cut: int,
)
    requires
        members_writable(members),
        members_writable(seq![(h, payload)]),
        0 < cut < member_bytes(h, payload).len(),
        !bytes::all_zero(member_bytes(h, payload).take(cut)),
        members_bytes(members).len() <= usize::MAX,
    ensures
        tar::tar_entries(members_bytes(members) + member_bytes(h, payload).take(cut)) == Err::<
            Seq<EntryView>,
            TarError,
        >(TarError::Truncated { offset: members_bytes(members).len() as usize }),
{
    let part = member_bytes(h, payload).take(cut);
    assert(seq![(h, payload)][0] == (h, payload));
    reveal(read_from);
    lemma_prefix_is_read(seq![], members, part, tar::fresh());
    assert(seq![] + members_bytes(members) + part =~= members_bytes(members) + part);
    let q = Progress {
        entries: tar::fresh().entries + entries_of(members),
        ..tar::fresh()
    };
    lemma_cut_step(members_bytes(members), h, payload, cut, q);
}

proof fn lemma_cut_step(before: Seq<u8>, h: Header, payload: Seq<u8>, cut: int, p: Progress)
    requires
        writable(h),
        payload.len() == h.size,
        !(h.typeflag as char == 'L' || h.typeflag as char == 'K' || h.typeflag as char == 'x'
            || h.typeflag as char == 'g'),
        0 < cut < member_bytes(h, payload).len(),
        !bytes::all_zero(member_bytes(h, payload).take(cut)),
        p.pax.len() == 0,
    ensures
        tar::entries_from(
            before + member_bytes(h, payload).take(cut),
            before.len() as int,
            p,
        ) == Err::<Seq<EntryView>, TarError>(
            TarError::Truncated { offset: before.len() as int as usize },
        ),
{
    let part = member_bytes(h, payload).take(cut);
    let data = before + part;
    let at = before.len() as int;
    lemma_fields(h);
    lemma_checksum(h);
    lemma_member_len(h, payload);
    lemma_octal_limits();
    assert(data.skip(at) =~= part);
    if cut >= 512 {
        let block = data.subrange(at, at + 512);
        assert(block =~= header_bytes(h));
        lemma_number_field(h.size, 12);
        assert(tar::last_value(p.pax, "size"@) is None);
        assert(tar::payload_size(block, at as usize, p) == Ok::<nat, TarError>(h.size));
        assert(tar::step(data, at, p) == Err::<(Progress, int), TarError>(
            TarError::Truncated { offset: at as usize },
        ));
    }
}

/// A header with any one byte changed, outside the checksum field, makes the
/// whole archive refused, at the offset of that header.
pub proof fn law_corrupt_header_is_refused(
    members: Seq<(Header, Seq<u8>)>,
    h: Header,
    i: int,
    byte: u8,
    after: Seq<u8>,
)
    requires
        members_writable(members),
        writable(h),
        0 <= i < 512,
        !(148 <= i < 156),
        byte != header_bytes(h)[i],
        members_bytes(members).len() <= usize::MAX,
    ensures
        tar::tar_entries(members_bytes(members) + (header_bytes(h).update(i, byte) + after))
            == Err::<Seq<EntryView>, TarError>(
            TarError::BadChecksum { offset: members_bytes(members).len() as usize },
        ),
{
    let front = members_bytes(members);
    let bad = header_bytes(h).update(i, byte);
    reveal(read_from);
    lemma_prefix_is_read(seq![], members, bad + after, tar::fresh());
    assert(seq![] + front + (bad + after) =~= front + (bad + after));
    lemma_bad_step(
        front,
        h,
        i,
        byte,
        after,
        Progress { entries: tar::fresh().entries + entries_of(members), ..tar::fresh() },
    );
}

proof fn lemma_bad_step(
    before: Seq<u8>,
    h: Header,
    i: int,
    byte: u8,
    after: Seq<u8>,
    p: Progress,
)
    requires
        writable(h),
        0 <= i < 512,
        !(148 <= i < 156),
        byte != header_bytes(h)[i],
    ensures
        tar::entries_from(
            before + (header_bytes(h).update(i, byte) + after),
            before.len() as int,
            p,
        ) == Err::<Seq<EntryView>, TarError>(
            TarError::BadChecksum { offset: before.len() as int as usize },
        ),
{
    let good = header_bytes(h);
    let bad = good.update(i, byte);
    let data = before + (bad + after);
    let at = before.len() as int;
    lemma_checksum(h);
    assert(data.subrange(at, at + 512) =~= bad);
    assert(bad.subrange(148, 156) =~= good.subrange(148, 156));
    let stored = tar::numeric(good.subrange(148, 156))->0;
    tar_laws::law_changed_header_byte_is_detected(good, i, byte, stored);
    assert(bad[148] == good[148]);
    assert(tar::step(data, at, p) == Err::<(Progress, int), TarError>(
        TarError::BadChecksum { offset: at as usize },
    ));
}

} // verus!
