//! How a zip archive is written, field by field, and that the reader gives
//! back what was written.
use vstd::prelude::*;

use crate::bytes;
use crate::entry::{EntryKind, EntryView};
use crate::findings::{Check, FindingView, Severity};
use crate::inflate;
use crate::text;
use crate::zip;
use crate::zip::{Central, Directory, Extents, ZipError};

verus! {

/// `s` in UTF-8.
pub open spec fn utf8(s: Seq<char>) -> Seq<u8> {
    vstd::utf8::encode_utf8(s)
}

/// How many bytes, in two bytes.
pub open spec fn len16(data: Seq<u8>) -> Seq<u8> {
    bytes::le_bytes(data.len(), 2)
}

proof fn lemma_values()
    ensures
        bytes::values_of(2) == 0x1_0000,
        bytes::values_of(4) == 0x1_0000_0000,
        bytes::values_of(8) == 0x1_0000_0000_0000_0000,
{
    reveal_with_fuel(bytes::values_of, 9);
}

/// A number stands in `data` where its bytes were put.
proof fn lemma_number(front: Seq<u8>, v: nat, n: nat, back: Seq<u8>)
    requires
        v < bytes::values_of(n),
    ensures
        bytes::le_bytes(v, n).len() == n,
        bytes::le_value(front + bytes::le_bytes(v, n) + back, front.len() as int, n) == v,
        bytes::field(front + bytes::le_bytes(v, n) + back, front.len() as int, n) == Some(v),
{
    let data = front + bytes::le_bytes(v, n) + back;
    let at = front.len() as int;
    bytes::lemma_le_bytes_len(v, n);
    assert(data.subrange(at, at + n) =~= bytes::le_bytes(v, n));
    bytes::law_le_round_trip(data, at, v, n);
}

/// Four bytes as a signature.
proof fn lemma_signature(data: Seq<u8>, pos: int, a: u8, b: u8, c: u8, d: u8, sig: u32)
    requires
        0 <= pos,
        pos + 4 <= data.len(),
        data[pos] == a,
        data[pos + 1] == b,
        data[pos + 2] == c,
        data[pos + 3] == d,
        sig == a + 0x100 * b + 0x1_0000 * c + 0x100_0000 * d,
    ensures
        zip::signed(data, pos, sig),
{
    reveal_with_fuel(bytes::le_value, 5);
}

/// A local header: the signature, what it says of the payload, the name and
/// an extra field, with their lengths.
pub open spec fn local_bytes(fixed: Seq<u8>, name: Seq<char>, extra: Seq<u8>) -> Seq<u8> {
    seq![0x50u8, 0x4B, 3, 4] + fixed + len16(utf8(name)) + len16(extra) + utf8(name) + extra
}

/// Does the local header fit its length fields?
pub open spec fn local_writable(fixed: Seq<u8>, name: Seq<char>, extra: Seq<u8>) -> bool {
    fixed.len() == 22 && utf8(name).len() < 0x1_0000 && extra.len() < 0x1_0000
}

/// A local header comes back: its name, and the payload right behind the
/// extra field, whatever that field holds.
pub proof fn law_local_header_is_read(
    before: Seq<u8>,
    fixed: Seq<u8>,
    name: Seq<char>,
    extra: Seq<u8>,
    after: Seq<u8>,
)
    requires
        local_writable(fixed, name, extra),
    ensures
        local_bytes(fixed, name, extra).len() == 30 + utf8(name).len() + extra.len(),
        zip::local_at(
            before + local_bytes(fixed, name, extra) + after,
            before.len() as int,
        ) == Some((name, (before.len() + local_bytes(fixed, name, extra).len()) as int)),
{
    let data = before + local_bytes(fixed, name, extra) + after;
    let sig = seq![0x50u8, 0x4B, 3, 4];
    let at = before.len() as int;
    let n = utf8(name);
    lemma_values();
    bytes::lemma_le_bytes_len(n.len(), 2);
    bytes::lemma_le_bytes_len(extra.len(), 2);
    let a = before + sig + fixed;
    assert(data =~= a + len16(n) + (len16(extra) + n + extra + after));
    lemma_number(a, n.len(), 2, len16(extra) + n + extra + after);
    let b = a + len16(n);
    assert(data =~= b + len16(extra) + (n + extra + after));
    lemma_number(b, extra.len(), 2, n + extra + after);
    lemma_signature(data, at, 0x50, 0x4B, 3, 4, zip::LOCAL_SIG);
    assert(data.subrange(at + 30, at + 30 + n.len()) =~= n);
    text::law_text_round_trips(name);
}

/// One field of an extra area: an id other than that of ZIP64, and its bytes.
pub type ExtraField = (nat, Seq<u8>);

/// A field of an extra area: id, length and body.
pub open spec fn field_bytes(id: nat, body: Seq<u8>) -> Seq<u8> {
    bytes::le_bytes(id, 2) + len16(body) + body
}

/// Fields one after another.
pub open spec fn fields_bytes(fields: Seq<ExtraField>) -> Seq<u8>
    decreases fields.len(),
{
    if fields.len() == 0 {
        seq![]
    } else {
        field_bytes(fields[0].0, fields[0].1) + fields_bytes(fields.drop_first())
    }
}

/// Fits every field its length, and is none of them a ZIP64 field?
pub open spec fn fields_writable(fields: Seq<ExtraField>) -> bool {
    forall|i: int|
        0 <= i < fields.len() ==> {
            let (id, body) = #[trigger] fields[i];
            id != 1 && id < 0x1_0000 && body.len() < 0x1_0000
        }
}

/// What one field says of its own length.
proof fn lemma_field(front: Seq<u8>, id: nat, body: Seq<u8>, back: Seq<u8>)
    requires
        id < 0x1_0000,
        body.len() < 0x1_0000,
    ensures
        ({
            let extra = front + field_bytes(id, body) + back;
            let at = front.len() as int;
            &&& field_bytes(id, body).len() == 4 + body.len()
            &&& bytes::le_value(extra, at, 2) == id
            &&& bytes::le_value(extra, at + 2, 2) == body.len()
            &&& extra.subrange(at + 4, at + 4 + body.len()) == body
        }),
{
    let extra = front + field_bytes(id, body) + back;
    let at = front.len() as int;
    lemma_values();
    bytes::lemma_le_bytes_len(id, 2);
    bytes::lemma_le_bytes_len(body.len(), 2);
    assert(extra =~= front + bytes::le_bytes(id, 2) + (len16(body) + body + back));
    lemma_number(front, id, 2, len16(body) + body + back);
    let b = front + bytes::le_bytes(id, 2);
    assert(extra =~= b + len16(body) + (body + back));
    lemma_number(b, body.len(), 2, body + back);
    assert(extra.subrange(at + 4, at + 4 + body.len()) =~= body);
}

proof fn lemma_fields_pass(
    front: Seq<u8>,
    fields: Seq<ExtraField>,
    back: Seq<u8>,
    maxed: bool,
    e: Extents,
)
    requires
        fields_writable(fields),
    ensures
        ({
            let extra = front + fields_bytes(fields) + back;
            zip::apply_extra(extra, front.len() as int, maxed, e) == zip::apply_extra(
                extra,
                (front.len() + fields_bytes(fields).len()) as int,
                maxed,
                e,
            )
        }),
    decreases fields.len(),
{
    if fields.len() > 0 {
        let (id, body) = fields[0];
        let left = fields.drop_first();
        let one = field_bytes(id, body);
        let rest = fields_bytes(left);
        lemma_field(front, id, body, rest + back);
        assert(fields_writable(left)) by {
            assert forall|i: int| 0 <= i < left.len() implies {
                let (id, body) = #[trigger] left[i];
                id != 1 && id < 0x1_0000 && body.len() < 0x1_0000
            } by {
                assert(left[i] == fields[i + 1]);
            }
        }
        lemma_fields_pass(front + one, left, back, maxed, e);
        assert(front + (one + rest) + back =~= front + one + (rest + back));
        assert(front + (one + rest) + back =~= front + one + rest + back);
    }
}

/// `v` in four bytes, or all ones where it does not fit below them.
pub open spec fn classic(v: nat) -> nat {
    if v >= 0xFFFF_FFFF {
        0xFFFF_FFFF
    } else {
        v
    }
}

/// `v` in eight bytes, where the classic field does not hold it.
pub open spec fn wide(v: nat) -> Seq<u8> {
    if v >= 0xFFFF_FFFF {
        bytes::le_bytes(v, 8)
    } else {
        seq![]
    }
}

/// What a writer puts in a central header.
pub struct CentralHeader {
    /// The name.
    pub name: Seq<char>,
    /// Version and host that made it.
    pub made_by: u8,
    /// The host system.
    pub host: u8,
    /// Version needed.
    pub needed: Seq<u8>,
    /// General-purpose flags.
    pub flags: nat,
    /// Compression method.
    pub method: nat,
    /// Time, date and checksum.
    pub stamp: Seq<u8>,
    /// Compressed size.
    pub csize: nat,
    /// Uncompressed size.
    pub size: nat,
    /// Disk number and internal attributes.
    pub internal: Seq<u8>,
    /// External attributes.
    pub external: u32,
    /// Where the local header stands.
    pub offset: nat,
    /// Extra fields in front of the ZIP64 one.
    pub fields: Seq<ExtraField>,
    /// Extra fields behind it.
    pub more: Seq<ExtraField>,
    /// The comment.
    pub comment: Seq<u8>,
}

/// The ZIP64 field: what does not fit the classic fields, in the order size,
/// compressed size, offset; none where everything fits.
pub open spec fn zip64_field(h: CentralHeader) -> Seq<u8> {
    let body = wide(h.size) + wide(h.csize) + wide(h.offset);
    if body.len() == 0 {
        seq![]
    } else {
        field_bytes(1, body)
    }
}

/// The extra area.
pub open spec fn extra_bytes(h: CentralHeader) -> Seq<u8> {
    fields_bytes(h.fields) + zip64_field(h) + fields_bytes(h.more)
}

/// The central header up to the lengths.
pub open spec fn central_front(h: CentralHeader) -> Seq<u8> {
    seq![0x50u8, 0x4B, 1, 2, h.made_by, h.host] + h.needed + bytes::le_bytes(h.flags, 2)
        + bytes::le_bytes(h.method, 2) + h.stamp + bytes::le_bytes(classic(h.csize), 4)
        + bytes::le_bytes(classic(h.size), 4)
}

/// The lengths, and the rest of the fixed part.
pub open spec fn central_back(h: CentralHeader) -> Seq<u8> {
    len16(utf8(h.name)) + len16(extra_bytes(h)) + len16(h.comment) + h.internal + bytes::le_bytes(
        h.external as nat,
        4,
    ) + bytes::le_bytes(classic(h.offset), 4)
}

/// A central header.
pub open spec fn central_bytes(h: CentralHeader) -> Seq<u8> {
    central_front(h) + central_back(h) + utf8(h.name) + extra_bytes(h) + h.comment
}

/// Does everything fit its field?
pub open spec fn central_writable(h: CentralHeader) -> bool {
    &&& utf8(h.name).len() < 0x1_0000
    &&& h.needed.len() == 2
    &&& h.flags < 0x1_0000
    &&& h.method < 0x1_0000
    &&& h.stamp.len() == 8
    &&& h.csize < 0x1_0000_0000_0000_0000
    &&& h.size < 0x1_0000_0000_0000_0000
    &&& h.offset < 0x1_0000_0000_0000_0000
    &&& h.internal.len() == 4
    &&& fields_writable(h.fields)
    &&& fields_writable(h.more)
    &&& extra_bytes(h).len() < 0x1_0000
    &&& h.comment.len() < 0x1_0000
}

/// The sizes and the offset come back from the extra area, whichever of them
/// are in the ZIP64 field, and whatever other fields stand around it.
proof fn lemma_extents(h: CentralHeader)
    requires
        central_writable(h),
    ensures
        zip::apply_extra(
            extra_bytes(h),
            0,
            classic(h.size) == 0xFFFF_FFFF,
            Extents {
                size: classic(h.size),
                csize: classic(h.csize),
                local_offset: classic(h.offset),
            },
        ) == Ok::<Extents, ZipError>(
            Extents { size: h.size, csize: h.csize, local_offset: h.offset },
        ),
{
    let narrow = Extents {
        size: classic(h.size),
        csize: classic(h.csize),
        local_offset: classic(h.offset),
    };
    let full = Extents { size: h.size, csize: h.csize, local_offset: h.offset };
    let maxed = classic(h.size) == 0xFFFF_FFFF;
    let extra = extra_bytes(h);
    let a = fields_bytes(h.fields);
    let z = zip64_field(h);
    let b = fields_bytes(h.more);
    let none = Seq::<u8>::empty();
    let body = wide(h.size) + wide(h.csize) + wide(h.offset);
    lemma_fields_pass(none, h.fields, z + b, maxed, narrow);
    assert(none + a + (z + b) =~= extra);
    lemma_fields_pass(a + z, h.more, none, maxed, full);
    assert(a + z + b + none =~= extra);
    lemma_values();
    bytes::lemma_le_bytes_len(h.size, 8);
    bytes::lemma_le_bytes_len(h.csize, 8);
    bytes::lemma_le_bytes_len(h.offset, 8);
    if body.len() == 0 {
        assert(a + z =~= a);
        assert(narrow == full);
    } else {
        assert(extra =~= a + field_bytes(1, body) + b);
        lemma_field(a, 1, body, b);
        lemma_zip64(h.size, h.csize, h.offset);
    }
}

/// The values of a ZIP64 field come back.
proof fn lemma_zip64(size: nat, csize: nat, offset: nat)
    requires
        size < 0x1_0000_0000_0000_0000,
        csize < 0x1_0000_0000_0000_0000,
        offset < 0x1_0000_0000_0000_0000,
    ensures
        zip::zip64_values(
            wide(size) + wide(csize) + wide(offset),
            classic(size) == 0xFFFF_FFFF,
            Extents {
                size: classic(size),
                csize: classic(csize),
                local_offset: classic(offset),
            },
        ) == Some(Extents { size, csize, local_offset: offset }),
{
    let s = wide(size);
    let c = wide(csize);
    let o = wide(offset);
    let none = Seq::<u8>::empty();
    lemma_values();
    bytes::lemma_le_bytes_len(size, 8);
    bytes::lemma_le_bytes_len(csize, 8);
    bytes::lemma_le_bytes_len(offset, 8);
    let body = s + c + o;
    if size >= 0xFFFF_FFFF {
        assert(body =~= none + s + (c + o));
        lemma_number(none, size, 8, c + o);
    }
    if csize >= 0xFFFF_FFFF {
        lemma_number(s, csize, 8, o);
    }
    if offset >= 0xFFFF_FFFF {
        assert(body =~= s + c + o + none);
        lemma_number(s + c, offset, 8, none);
    }
}

/// What stands in the first part of a written central header.
proof fn lemma_front(before: Seq<u8>, h: CentralHeader, after: Seq<u8>)
    requires
        central_writable(h),
    ensures
        central_front(h).len() == 28,
        central_back(h).len() == 18,
        ({
            let data = before + central_bytes(h) + after;
            let at = before.len() as int;
            &&& zip::signed(data, at, zip::CENTRAL_SIG)
            &&& bytes::le_value(data, at + 4, 2) == h.made_by + 256 * h.host
            &&& bytes::le_value(data, at + 8, 2) == h.flags
            &&& bytes::le_value(data, at + 10, 2) == h.method
            &&& bytes::le_value(data, at + 20, 4) == classic(h.csize)
            &&& bytes::le_value(data, at + 24, 4) == classic(h.size)
        }),
{
    let data = before + central_bytes(h) + after;
    let at = before.len() as int;
    let sig = seq![0x50u8, 0x4B, 1, 2, h.made_by, h.host];
    lemma_values();
    bytes::lemma_le_bytes_len(h.flags, 2);
    bytes::lemma_le_bytes_len(h.method, 2);
    bytes::lemma_le_bytes_len(classic(h.csize), 4);
    bytes::lemma_le_bytes_len(classic(h.size), 4);
    bytes::lemma_le_bytes_len(utf8(h.name).len(), 2);
    bytes::lemma_le_bytes_len(extra_bytes(h).len(), 2);
    bytes::lemma_le_bytes_len(h.comment.len(), 2);
    bytes::lemma_le_bytes_len(h.external as nat, 4);
    bytes::lemma_le_bytes_len(classic(h.offset), 4);
    let front = central_front(h);
    assert(front.len() == 28);
    let rest = central_back(h) + utf8(h.name) + extra_bytes(h) + h.comment + after;
    assert(data =~= before + front + rest);
    lemma_signature(data, at, 0x50, 0x4B, 1, 2, zip::CENTRAL_SIG);
    assert(data[at + 4] == h.made_by && data[at + 5] == h.host);
    reveal_with_fuel(bytes::le_value, 3);
    assert(bytes::le_value(data, at + 4, 2) == h.made_by + 256 * h.host);
    let p1 = before + sig + h.needed;
    let f = bytes::le_bytes(h.flags, 2);
    let m = bytes::le_bytes(h.method, 2);
    let c = bytes::le_bytes(classic(h.csize), 4);
    let s = bytes::le_bytes(classic(h.size), 4);
    assert(data =~= p1 + f + (m + h.stamp + c + s + rest));
    lemma_number(p1, h.flags, 2, m + h.stamp + c + s + rest);
    let p2 = p1 + f;
    assert(data =~= p2 + m + (h.stamp + c + s + rest));
    lemma_number(p2, h.method, 2, h.stamp + c + s + rest);
    let p3 = p2 + m + h.stamp;
    assert(data =~= p3 + c + (s + rest));
    lemma_number(p3, classic(h.csize), 4, s + rest);
    let p4 = p3 + c;
    assert(data =~= p4 + s + rest);
    lemma_number(p4, classic(h.size), 4, rest);
}

/// What stands behind the first 28 bytes of a central header.
proof fn lemma_tail_fields(
    p0: Seq<u8>,
    name: Seq<u8>,
    extra: Seq<u8>,
    comment: Seq<u8>,
    internal: Seq<u8>,
    external: nat,
    offset: nat,
    after: Seq<u8>,
)
    requires
        name.len() < 0x1_0000,
        extra.len() < 0x1_0000,
        comment.len() < 0x1_0000,
        internal.len() == 4,
        external < 0x1_0000_0000,
        offset < 0x1_0000_0000,
    ensures
        ({
            let back = len16(name) + len16(extra) + len16(comment) + internal + bytes::le_bytes(
                external,
                4,
            ) + bytes::le_bytes(offset, 4);
            let data = p0 + back + name + extra + comment + after;
            let at = p0.len() as int;
            &&& back.len() == 18
            &&& bytes::le_value(data, at, 2) == name.len()
            &&& bytes::le_value(data, at + 2, 2) == extra.len()
            &&& bytes::le_value(data, at + 4, 2) == comment.len()
            &&& bytes::le_value(data, at + 10, 4) == external
            &&& bytes::le_value(data, at + 14, 4) == offset
            &&& data.subrange(at + 18, at + 18 + name.len()) == name
            &&& data.subrange(at + 18 + name.len(), at + 18 + name.len() + extra.len()) == extra
        }),
{
    let n2 = len16(name);
    let x2 = len16(extra);
    let c2 = len16(comment);
    let e4 = bytes::le_bytes(external, 4);
    let o4 = bytes::le_bytes(offset, 4);
    let rest = name + extra + comment + after;
    let data = p0 + (n2 + x2 + c2 + internal + e4 + o4) + name + extra + comment + after;
    let at = p0.len() as int;
    lemma_values();
    bytes::lemma_le_bytes_len(name.len(), 2);
    bytes::lemma_le_bytes_len(extra.len(), 2);
    bytes::lemma_le_bytes_len(comment.len(), 2);
    bytes::lemma_le_bytes_len(external, 4);
    bytes::lemma_le_bytes_len(offset, 4);
    assert(data =~= p0 + n2 + (x2 + c2 + internal + e4 + o4 + rest));
    lemma_number(p0, name.len(), 2, x2 + c2 + internal + e4 + o4 + rest);
    let p1 = p0 + n2;
    assert(data =~= p1 + x2 + (c2 + internal + e4 + o4 + rest));
    lemma_number(p1, extra.len(), 2, c2 + internal + e4 + o4 + rest);
    let p2 = p1 + x2;
    assert(data =~= p2 + c2 + (internal + e4 + o4 + rest));
    lemma_number(p2, comment.len(), 2, internal + e4 + o4 + rest);
    let p3 = p2 + c2 + internal;
    assert(data =~= p3 + e4 + (o4 + rest));
    lemma_number(p3, external, 4, o4 + rest);
    let p4 = p3 + e4;
    assert(data =~= p4 + o4 + rest);
    lemma_number(p4, offset, 4, rest);
    assert(data.subrange(at + 18, at + 18 + name.len()) =~= name);
    assert(data.subrange(at + 18 + name.len(), at + 18 + name.len() + extra.len()) =~= extra);
}

/// What stands in the second part of a written central header.
proof fn lemma_back(before: Seq<u8>, h: CentralHeader, after: Seq<u8>)
    requires
        central_writable(h),
    ensures
        ({
            let data = before + central_bytes(h) + after;
            let at = before.len() as int;
            let n = utf8(h.name).len();
            let x = extra_bytes(h).len();
            &&& central_bytes(h).len() == 46 + n + x + h.comment.len()
            &&& bytes::le_value(data, at + 28, 2) == n
            &&& bytes::le_value(data, at + 30, 2) == x
            &&& bytes::le_value(data, at + 32, 2) == h.comment.len()
            &&& bytes::le_value(data, at + 38, 4) == h.external
            &&& bytes::le_value(data, at + 42, 4) == classic(h.offset)
            &&& data.subrange(at + 46, at + 46 + n) == utf8(h.name)
            &&& data.subrange(at + 46 + n, at + 46 + n + x) == extra_bytes(h)
        }),
{
    let name = utf8(h.name);
    let extra = extra_bytes(h);
    let p0 = before + central_front(h);
    lemma_front(before, h, after);
    lemma_tail_fields(
        p0,
        name,
        extra,
        h.comment,
        h.internal,
        h.external as nat,
        classic(h.offset),
        after,
    );
    assert(before + central_bytes(h) + after =~= p0 + central_back(h) + name + extra + h.comment
        + after);
}

/// What a central header says, read back.
pub open spec fn central_of(h: CentralHeader) -> Central {
    Central {
        name: h.name,
        flags: h.flags,
        method: h.method,
        extents: Extents { size: h.size, csize: h.csize, local_offset: h.offset },
        external: h.external as nat,
        host: h.host as nat,
        header_len: central_bytes(h).len(),
    }
}

/// A central header comes back: name, flags, method, sizes, attributes, host
/// and offset, with 64-bit values from the ZIP64 field, whatever other extra
/// fields and comment it carries. The next header stands right behind it.
pub proof fn law_central_header_is_read(before: Seq<u8>, h: CentralHeader, after: Seq<u8>)
    requires
        central_writable(h),
    ensures
        zip::central_at(before + central_bytes(h) + after, before.len() as int) == Ok::<
            Central,
            ZipError,
        >(central_of(h)),
{
    lemma_front(before, h, after);
    lemma_back(before, h, after);
    lemma_extents(h);
    text::law_text_round_trips(h.name);
    assert((h.made_by + 256 * h.host) / 256 == h.host);
}

/// The kind and mode that a unix st_mode, or the DOS directory bit, stands
/// for.
pub open spec fn attributes(host: nat, external: u32, name: Seq<char>) -> (
    EntryKind,
    Option<u32>,
) {
    let slash = name.len() > 0 && name.last() == '/';
    if host == 3 {
        let st_mode = external >> 16u32;
        let format = st_mode & 0o170000;
        (
            if format == 0o120000 {
                EntryKind::Symlink
            } else if format == 0o040000 {
                EntryKind::Dir
            } else if format == 0o010000 {
                EntryKind::Fifo
            } else if format == 0o020000 {
                EntryKind::CharDevice
            } else if format == 0o060000 {
                EntryKind::BlockDevice
            } else if slash {
                EntryKind::Dir
            } else {
                EntryKind::File
            },
            Some(st_mode & 0o7777),
        )
    } else {
        (
            if slash || external & 0x10 != 0 {
                EntryKind::Dir
            } else {
                EntryKind::File
            },
            None,
        )
    }
}

/// Kind and permission bits are those of the st_mode in the upper half of the
/// external attributes where a unix host wrote them, all twelve bits of them;
/// elsewhere the trailing slash or the DOS directory bit decides, and there
/// is no mode.
pub proof fn law_attributes_come_through(c: Central, external: u32)
    requires
        c.external == external,
    ensures
        zip::kind_and_mode(c) == attributes(c.host, external, c.name),
{
    let st = external >> 16u32;
    assert(st == external / 0x1_0000 && st < 0x1_0000) by (bit_vector)
        requires
            st == external >> 16u32,
    ;
    assert(st & 0o7777 == st % 0o10000) by (bit_vector);
    assert(st < 0x1_0000 ==> {
        &&& ((st & 0o170000) == 0o120000 <==> st / 0o10000 == 0o12)
        &&& ((st & 0o170000) == 0o040000 <==> st / 0o10000 == 0o4)
        &&& ((st & 0o170000) == 0o010000 <==> st / 0o10000 == 0o1)
        &&& ((st & 0o170000) == 0o020000 <==> st / 0o10000 == 0o2)
        &&& ((st & 0o170000) == 0o060000 <==> st / 0o10000 == 0o6)
    }) by (bit_vector);
    assert(external & 0x10 != 0 <==> external / 0x10 % 2 == 1) by (bit_vector);
}

/// A symlink target comes back from its layout: behind the local header's name
/// and any extra field stands the payload, and what it spells is the target,
/// if it is stored, unencrypted and at most 4096 bytes long, or deflated to
/// such bytes.
pub proof fn law_link_target_is_read(
    before: Seq<u8>,
    fixed: Seq<u8>,
    local_name: Seq<char>,
    extra: Seq<u8>,
    payload: Seq<u8>,
    after: Seq<u8>,
    h: CentralHeader,
    target: Seq<char>,
)
    requires
        local_writable(fixed, local_name, extra),
        h.offset == before.len(),
        h.csize == payload.len(),
        h.flags % 2 == 0,
        attributes(h.host as nat, h.external, h.name).0 == EntryKind::Symlink,
        utf8(target).len() <= 4096,
        (h.method == 0 && payload == utf8(target)) || (h.method == 8 && (inflate::inflated(
            payload,
            4096,
        ) matches Ok((out, _)) && out == utf8(target))),
    ensures
        ({
            let data = before + local_bytes(fixed, local_name, extra) + payload + after;
            let c = central_of(h);
            let e = zip::record_entries(data, c).last();
            &&& e.path == h.name
            &&& e.kind == EntryKind::Symlink
            &&& e.link_target == Some(target)
            &&& zip::record_findings(data, c).len() == (if local_name == h.name {
                0int
            } else {
                1int
            })
        }),
{
    let local = local_bytes(fixed, local_name, extra);
    let data = before + local + payload + after;
    let c = central_of(h);
    law_local_header_is_read(before, fixed, local_name, extra, payload + after);
    assert(data =~= before + local + (payload + after));
    law_attributes_come_through(c, h.external);
    let at = (before.len() + local.len()) as int;
    assert(data.subrange(at, at + payload.len()) =~= payload);
    text::law_text_round_trips(target);
}

/// The end record: how many headers, where they start, and a comment.
pub open spec fn eocd_bytes(
    disks: Seq<u8>,
    entries: nat,
    size: Seq<u8>,
    offset: nat,
    comment: Seq<u8>,
) -> Seq<u8> {
    seq![0x50u8, 0x4B, 5, 6] + disks + bytes::le_bytes(entries, 2) + size + bytes::le_bytes(
        offset,
        4,
    ) + len16(comment) + comment
}

/// Does the end-record signature not stand behind `pos`?
pub open spec fn unsigned_behind(data: Seq<u8>, pos: int) -> bool {
    forall|q: int|
        pos < q && q + 4 <= data.len() ==> !(#[trigger] data[q] == 0x50 && data[q + 1] == 0x4B
            && data[q + 2] == 5 && data[q + 3] == 6)
}

proof fn lemma_no_later_eocd(data: Seq<u8>, pos: int, q: int)
    requires
        0 <= pos < q,
        unsigned_behind(data, pos),
    ensures
        !zip::eocd_at(data, q),
{
    if zip::signed(data, q, zip::EOCD_SIG) {
        reveal_with_fuel(bytes::le_value, 5);
        assert(data[q] == 0x50 && data[q + 1] == 0x4B && data[q + 2] == 5 && data[q + 3] == 6);
    }
}

proof fn lemma_found_eocd(data: Seq<u8>, pos: int, from: int)
    requires
        0 <= pos <= from,
        zip::eocd_at(data, pos),
        unsigned_behind(data, pos),
    ensures
        zip::last_eocd(data, from) == Some(pos),
    decreases from - pos,
{
    if pos < from {
        lemma_no_later_eocd(data, pos, from);
        lemma_found_eocd(data, pos, from - 1);
    }
}

/// What a written end record says.
proof fn lemma_eocd(
    before: Seq<u8>,
    disks: Seq<u8>,
    entries: nat,
    size: Seq<u8>,
    offset: nat,
    comment: Seq<u8>,
)
    requires
        disks.len() == 6,
        entries < 0x1_0000,
        size.len() == 4,
        offset < 0x1_0000_0000,
        comment.len() < 0x1_0000,
        unsigned_behind(
            before + eocd_bytes(disks, entries, size, offset, comment),
            before.len() as int,
        ),
    ensures
        ({
            let data = before + eocd_bytes(disks, entries, size, offset, comment);
            let at = before.len() as int;
            &&& zip::last_eocd(data, data.len() - 22) == Some(at)
            &&& bytes::le_value(data, at + 10, 2) == entries
            &&& bytes::le_value(data, at + 16, 4) == offset
        }),
{
    let data = before + eocd_bytes(disks, entries, size, offset, comment);
    let at = before.len() as int;
    let sig = seq![0x50u8, 0x4B, 5, 6];
    let n2 = bytes::le_bytes(entries, 2);
    let o4 = bytes::le_bytes(offset, 4);
    let c2 = len16(comment);
    lemma_values();
    bytes::lemma_le_bytes_len(entries, 2);
    bytes::lemma_le_bytes_len(offset, 4);
    bytes::lemma_le_bytes_len(comment.len(), 2);
    let p1 = before + sig + disks;
    assert(data =~= p1 + n2 + (size + o4 + c2 + comment));
    lemma_number(p1, entries, 2, size + o4 + c2 + comment);
    let p2 = p1 + n2 + size;
    assert(data =~= p2 + o4 + (c2 + comment));
    lemma_number(p2, offset, 4, c2 + comment);
    let p3 = p2 + o4;
    assert(data =~= p3 + c2 + comment);
    lemma_number(p3, comment.len(), 2, comment);
    lemma_signature(data, at, 0x50, 0x4B, 5, 6, zip::EOCD_SIG);
    lemma_found_eocd(data, at, data.len() - 22);
}

/// The directory comes back from the end record, behind which any comment may
/// stand.
pub proof fn law_directory_is_found(
    before: Seq<u8>,
    disks: Seq<u8>,
    entries: nat,
    size: Seq<u8>,
    offset: nat,
    comment: Seq<u8>,
)
    requires
        disks.len() == 6,
        entries < 0xFFFF,
        size.len() == 4,
        offset < 0xFFFF_FFFF,
        comment.len() < 0x1_0000,
        unsigned_behind(
            before + eocd_bytes(disks, entries, size, offset, comment),
            before.len() as int,
        ),
    ensures
        zip::directory(before + eocd_bytes(disks, entries, size, offset, comment)) == Ok::<
            Directory,
            ZipError,
        >(Directory { offset, entries }),
{
    lemma_eocd(before, disks, entries, size, offset, comment);
}

/// The ZIP64 end record.
pub open spec fn eocd64_bytes(
    head: Seq<u8>,
    entries: nat,
    size: Seq<u8>,
    offset: nat,
    tail: Seq<u8>,
) -> Seq<u8> {
    seq![0x50u8, 0x4B, 6, 6] + head + bytes::le_bytes(entries, 8) + size + bytes::le_bytes(
        offset,
        8,
    ) + tail
}

/// The locator of the ZIP64 end record at `pos`.
pub open spec fn locator_bytes(disk: Seq<u8>, pos: nat, disks: Seq<u8>) -> Seq<u8> {
    seq![0x50u8, 0x4B, 6, 7] + disk + bytes::le_bytes(pos, 8) + disks
}

/// Where a classic field is maxed out, the directory comes back from the
/// ZIP64 record that the locator right before the end record points to.
pub proof fn law_zip64_directory_is_found(
    before: Seq<u8>,
    head: Seq<u8>,
    entries: nat,
    size: Seq<u8>,
    offset: nat,
    tail: Seq<u8>,
    disk: Seq<u8>,
    disks: Seq<u8>,
    end: Seq<u8>,
    classic_entries: nat,
    classic_size: Seq<u8>,
    classic_offset: nat,
    comment: Seq<u8>,
)
    requires
        head.len() == 28,
        entries < 0x1_0000_0000_0000_0000,
        size.len() == 8,
        offset < 0x1_0000_0000_0000_0000,
        disk.len() == 4,
        before.len() < 0x1_0000_0000_0000_0000,
        disks.len() == 4,
        end.len() == 6,
        classic_entries == 0xFFFF || classic_offset == 0xFFFF_FFFF,
        classic_entries <= 0xFFFF,
        classic_size.len() == 4,
        classic_offset <= 0xFFFF_FFFF,
        comment.len() < 0x1_0000,
        ({
            let front = before + eocd64_bytes(head, entries, size, offset, tail) + locator_bytes(
                disk,
                before.len(),
                disks,
            );
            unsigned_behind(
                front + eocd_bytes(end, classic_entries, classic_size, classic_offset, comment),
                front.len() as int,
            )
        }),
    ensures
        zip::directory(
            before + eocd64_bytes(head, entries, size, offset, tail) + locator_bytes(
                disk,
                before.len(),
                disks,
            ) + eocd_bytes(end, classic_entries, classic_size, classic_offset, comment),
        ) == Ok::<Directory, ZipError>(Directory { offset, entries }),
{
    let record = eocd64_bytes(head, entries, size, offset, tail);
    let locator = locator_bytes(disk, before.len(), disks);
    let front = before + record + locator;
    let last = eocd_bytes(end, classic_entries, classic_size, classic_offset, comment);
    let data = front + last;
    lemma_values();
    lemma_eocd(front, end, classic_entries, classic_size, classic_offset, comment);
    bytes::lemma_le_bytes_len(before.len(), 8);
    bytes::lemma_le_bytes_len(entries, 8);
    bytes::lemma_le_bytes_len(offset, 8);
    let n8 = bytes::le_bytes(entries, 8);
    let o8 = bytes::le_bytes(offset, 8);
    let p8 = bytes::le_bytes(before.len(), 8);
    let at = before.len() as int;
    let loc = (before.len() + record.len()) as int;
    lemma_signature(data, at, 0x50, 0x4B, 6, 6, zip::EOCD64_SIG);
    lemma_signature(data, loc, 0x50, 0x4B, 6, 7, zip::EOCD64_LOCATOR_SIG);
    let a = before + record + seq![0x50u8, 0x4B, 6, 7] + disk;
    assert(data =~= a + p8 + (disks + last));
    lemma_number(a, before.len(), 8, disks + last);
    let b = before + seq![0x50u8, 0x4B, 6, 6] + head;
    assert(data =~= b + n8 + (size + o8 + tail + locator + last));
    lemma_number(b, entries, 8, size + o8 + tail + locator + last);
    let c = b + n8 + size;
    assert(data =~= c + o8 + (tail + locator + last));
    lemma_number(c, offset, 8, tail + locator + last);
}

/// What a writer puts in an archive for one entry.
pub struct Member {
    /// The central header.
    pub header: CentralHeader,
    /// What the local header says of the payload.
    pub fixed: Seq<u8>,
    /// The extra area of the local header.
    pub extra: Seq<u8>,
    /// The payload.
    pub payload: Seq<u8>,
    /// The link target, of a symlink.
    pub target: Seq<char>,
}

/// Is the member written in `data`, at the offset that its central header
/// says? A symlink is stored unencrypted, and its payload is its target.
pub open spec fn written_in(data: Seq<u8>, m: Member) -> bool {
    let h = m.header;
    let local = local_bytes(m.fixed, h.name, m.extra);
    &&& central_writable(h)
    &&& local_writable(m.fixed, h.name, m.extra)
    &&& h.offset + local.len() + m.payload.len() <= data.len()
    &&& data.subrange(
        h.offset as int,
        h.offset as int + local.len() + m.payload.len(),
    ) == local + m.payload
    &&& attributes(h.host as nat, h.external, h.name).0 == EntryKind::Symlink ==> {
        &&& h.flags % 2 == 0
        &&& h.method == 0
        &&& h.csize == m.payload.len()
        &&& m.payload == utf8(m.target)
        &&& m.payload.len() <= 4096
    }
}

/// The entry that a member stands for.
pub open spec fn member_entry(m: Member) -> EntryView {
    let h = m.header;
    let (kind, mode) = attributes(h.host as nat, h.external, h.name);
    EntryView {
        path: h.name,
        kind,
        mode,
        link_target: if kind == EntryKind::Symlink {
            Some(m.target)
        } else {
            None
        },
        size: h.size as u64,
    }
}

proof fn lemma_record(data: Seq<u8>, m: Member)
    requires
        written_in(data, m),
    ensures
        zip::record_entries(data, central_of(m.header)) == seq![member_entry(m)],
        zip::record_findings(data, central_of(m.header)) == Seq::<FindingView>::empty(),
{
    let h = m.header;
    let at = h.offset as int;
    let local = local_bytes(m.fixed, h.name, m.extra);
    let end = at + local.len() + m.payload.len();
    let part = data.subrange(at, end);
    let before = data.take(at);
    let after = m.payload + data.skip(end);
    assert(data =~= before + part + data.skip(end));
    assert(data =~= before + local + after);
    law_local_header_is_read(before, m.fixed, h.name, m.extra, after);
    law_attributes_come_through(central_of(h), h.external);
    let start = at + local.len();
    assert(data.subrange(start, start + m.payload.len()) =~= m.payload);
    text::law_text_round_trips(m.target);
}

/// Central headers one after another.
pub open spec fn centrals_bytes(members: Seq<Member>) -> Seq<u8>
    decreases members.len(),
{
    if members.len() == 0 {
        seq![]
    } else {
        central_bytes(members[0].header) + centrals_bytes(members.drop_first())
    }
}

/// The entries that members stand for.
pub open spec fn entries_of(members: Seq<Member>) -> Seq<EntryView> {
    members.map_values(|m: Member| member_entry(m))
}

/// The walk, taken as a whole.
#[verifier::opaque]
spec fn walked(
    data: Seq<u8>,
    pos: int,
    n: nat,
    entries: Seq<EntryView>,
    found: Seq<FindingView>,
) -> Result<(Seq<EntryView>, Seq<FindingView>), ZipError> {
    zip::walk(data, pos, n, entries, found)
}

/// The walk goes on behind a header, with its entry added.
proof fn lemma_walk_step(
    before: Seq<u8>,
    m: Member,
    after: Seq<u8>,
    n: nat,
    entries: Seq<EntryView>,
    found: Seq<FindingView>,
)
    requires
        n > 0,
        written_in(before + central_bytes(m.header) + after, m),
    ensures
        ({
            let data = before + central_bytes(m.header) + after;
            walked(data, before.len() as int, n, entries, found) == walked(
                data,
                (before.len() + central_bytes(m.header).len()) as int,
                (n - 1) as nat,
                entries.push(member_entry(m)),
                found,
            )
        }),
{
    let data = before + central_bytes(m.header) + after;
    reveal(walked);
    law_central_header_is_read(before, m.header, after);
    lemma_record(data, m);
    assert(entries + seq![member_entry(m)] =~= entries.push(member_entry(m)));
    assert(found + Seq::<FindingView>::empty() =~= found);
}

proof fn lemma_walk(
    data: Seq<u8>,
    before: Seq<u8>,
    members: Seq<Member>,
    after: Seq<u8>,
    entries: Seq<EntryView>,
    found: Seq<FindingView>,
)
    requires
        data == before + centrals_bytes(members) + after,
        forall|i: int| 0 <= i < members.len() ==> written_in(data, #[trigger] members[i]),
    ensures
        walked(data, before.len() as int, members.len(), entries, found) == Ok::<
            (Seq<EntryView>, Seq<FindingView>),
            ZipError,
        >((entries + entries_of(members), found)),
    decreases members.len(),
{
    if members.len() == 0 {
        reveal(walked);
        assert(entries + entries_of(members) =~= entries);
    } else {
        let m = members[0];
        let left = members.drop_first();
        let head = central_bytes(m.header);
        let rest = centrals_bytes(left);
        let e = member_entry(m);
        assert(written_in(data, m));
        lemma_regroup(before, head, rest, after);
        lemma_walk_step(before, m, rest + after, members.len(), entries, found);
        assert forall|i: int| 0 <= i < left.len() implies written_in(data, #[trigger] left[i]) by {
            assert(left[i] == members[i + 1]);
        }
        lemma_walk(data, before + head, left, after, entries.push(e), found);
        assert(entries_of(members)[0] == e);
        assert(entries.push(e) + entries_of(left) =~= entries + entries_of(members));
    }
}

proof fn lemma_regroup(a: Seq<u8>, b: Seq<u8>, c: Seq<u8>, d: Seq<u8>)
    ensures
        a + (b + c) + d == a + b + (c + d),
        a + (b + c) + d == a + b + c + d,
{
    assert(a + (b + c) + d =~= a + b + (c + d));
    assert(a + (b + c) + d =~= a + b + c + d);
}

/// An archive comes back from its members: where the directory holds their
/// headers, one after another, and each stands where its header says, every
/// one of them is read, in order, and nothing is found wrong.
pub proof fn law_archive_is_read(before: Seq<u8>, members: Seq<Member>, after: Seq<u8>)
    requires
        zip::directory(before + centrals_bytes(members) + after) == Ok::<Directory, ZipError>(
            Directory { offset: before.len(), entries: members.len() },
        ),
        forall|i: int|
            0 <= i < members.len() ==> written_in(
                before + centrals_bytes(members) + after,
                #[trigger] members[i],
            ),
    ensures
        zip::zip_entries(before + centrals_bytes(members) + after) == Ok::<
            (Seq<EntryView>, Seq<FindingView>),
            ZipError,
        >((entries_of(members), seq![])),
{
    let data = before + centrals_bytes(members) + after;
    reveal(walked);
    lemma_walk(data, before, members, after, seq![], seq![]);
    assert(Seq::<EntryView>::empty() + entries_of(members) =~= entries_of(members));
}

/// A local header that names something else is reported, and both names are
/// audited: the local one as an entry of the same kind and mode, before the
/// entry itself.
pub proof fn law_smuggled_name_is_audited(
    before: Seq<u8>,
    fixed: Seq<u8>,
    local_name: Seq<char>,
    extra: Seq<u8>,
    after: Seq<u8>,
    h: CentralHeader,
)
    requires
        local_writable(fixed, local_name, extra),
        local_name != h.name,
        h.offset == before.len(),
    ensures
        ({
            let data = before + local_bytes(fixed, local_name, extra) + after;
            let (kind, mode) = attributes(h.host as nat, h.external, h.name);
            let entries = zip::record_entries(data, central_of(h));
            let found = zip::record_findings(data, central_of(h));
            &&& entries.len() == 2
            &&& entries[0] == (EntryView {
                path: local_name,
                kind,
                mode,
                link_target: None,
                size: 0,
            })
            &&& entries[1].path == h.name
            &&& entries[1].kind == kind
            &&& entries[1].mode == mode
            &&& entries[1].size == h.size as u64
            &&& found.len() > 0
            &&& found[0].check == Check::NameMismatch
            &&& found[0].severity == Severity::Warning
            &&& found[0].path == h.name
        }),
{
    law_local_header_is_read(before, fixed, local_name, extra, after);
    law_attributes_come_through(central_of(h), h.external);
}

/// A symlink whose target is encrypted, cut short, longer than 4096 bytes,
/// compressed by an unknown method, or broken, has no target, and is a
/// critical finding.
pub proof fn law_unreadable_target_is_critical(
    before: Seq<u8>,
    fixed: Seq<u8>,
    local_name: Seq<char>,
    extra: Seq<u8>,
    payload: Seq<u8>,
    h: CentralHeader,
)
    requires
        local_writable(fixed, local_name, extra),
        h.offset == before.len(),
        attributes(h.host as nat, h.external, h.name).0 == EntryKind::Symlink,
        h.flags % 2 == 1 || payload.len() < h.csize || (h.method != 0 && h.method != 8) || (h.method
            == 0 && h.csize > 4096) || (h.method == 8 && inflate::inflated(
            payload.take(h.csize as int),
            4096,
        ) is Err),
    ensures
        ({
            let data = before + local_bytes(fixed, local_name, extra) + payload;
            let found = zip::record_findings(data, central_of(h));
            &&& zip::record_entries(data, central_of(h)).last().link_target is None
            &&& found.len() > 0
            &&& found.last().check == Check::LinkEscape
            &&& found.last().severity == Severity::Critical
            &&& found.last().path == h.name
        }),
{
    let local = local_bytes(fixed, local_name, extra);
    let data = before + local + payload;
    law_local_header_is_read(before, fixed, local_name, extra, payload);
    law_attributes_come_through(central_of(h), h.external);
    let at = (before.len() + local.len()) as int;
    if payload.len() >= h.csize {
        assert(data.subrange(at, at + h.csize) =~= payload.take(h.csize as int));
    }
}

} // verus!
