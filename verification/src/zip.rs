//! A metadata-only zip reader driven by the central directory (with
//! ZIP64 support for large archives). File payloads are never inflated;
//! the two exceptions are tiny and capped:
//!
//! - symlink entries: the target *is* the payload, so it is decoded
//!   (stored or deflate, capped at 4 KiB),
//! - every entry's local header is cross-checked against the central
//!   directory, because listers trust one and stream extractors trust
//!   the other — a classic smuggling seam.
use vstd::prelude::*;
use vstd::slice::*;
use vstd::string::*;

use crate::bytes;
use crate::entry;
use crate::entry::{Entry, EntryKind, EntryView};
use crate::findings;
use crate::findings::{Check, Finding, FindingView};
use crate::inflate;
use crate::text;

verus! {

/// Why a zip archive could not be read.
#[derive(Debug, Clone, PartialEq, Eq)]
pub enum ZipError {
    /// No end-of-central-directory record: not a zip file, or a broken one.
    NoEndOfCentralDirectory,
    /// A structure runs past the end of the input.
    Truncated(&'static str),
    /// A signature was not where a structure said it would be.
    BadSignature(&'static str),
}

/// What [`ZipError::message`] says of each error.
pub open spec fn zip_message(e: ZipError) -> Seq<char> {
    match e {
        ZipError::NoEndOfCentralDirectory => {
            "no end-of-central-directory record (not a zip archive?)"@
        },
        ZipError::Truncated(what) => "zip archive truncated at "@ + what@,
        ZipError::BadSignature(what) => "bad zip signature at "@ + what@,
    }
}

impl ZipError {
    /// Human-readable description.
    pub fn message(&self) -> (r: String)
        ensures
            r@ == zip_message(*self),
    {
        match self {
            ZipError::NoEndOfCentralDirectory => {
                "no end-of-central-directory record (not a zip archive?)".to_owned()
            },
            ZipError::Truncated(what) => {
                let mut s = "zip archive truncated at ".to_owned();
                s.append(what);
                s
            },
            ZipError::BadSignature(what) => {
                let mut s = "bad zip signature at ".to_owned();
                s.append(what);
                s
            },
        }
    }
}

/// Longest symlink target slipcheck will decode; anything larger is
/// treated as hostile rather than allocated.
pub const MAX_LINK_TARGET: usize = 4096;

/// End of central directory.
pub const EOCD_SIG: u32 = 0x0605_4B50;

/// ZIP64 end of central directory.
pub const EOCD64_SIG: u32 = 0x0606_4B50;

/// ZIP64 end of central directory locator.
pub const EOCD64_LOCATOR_SIG: u32 = 0x0706_4B50;

/// Central directory header.
pub const CENTRAL_SIG: u32 = 0x0201_4B50;

/// Local file header.
pub const LOCAL_SIG: u32 = 0x0403_4B50;

/// Does the signature `sig` stand at `pos`?
pub open spec fn signed(data: Seq<u8>, pos: int, sig: u32) -> bool {
    bytes::field(data, pos, 4) == Some(sig as nat)
}

/// Is there an end-of-central-directory record at `pos` whose comment ends
/// exactly where the input does?
pub open spec fn eocd_at(data: Seq<u8>, pos: int) -> bool {
    signed(data, pos, EOCD_SIG) && (bytes::field(data, pos + 20, 2) matches Some(comment) && pos
        + 22 + comment == data.len())
}

/// The last such record at or before `pos`.
pub open spec fn last_eocd(data: Seq<u8>, pos: int) -> Option<int>
    decreases pos + 1,
{
    if pos < 0 {
        None
    } else if eocd_at(data, pos) {
        Some(pos)
    } else {
        last_eocd(data, pos - 1)
    }
}

/// Where the central directory starts and how many headers it holds.
pub struct Directory {
    /// Position of the first header.
    pub offset: nat,
    /// Number of headers.
    pub entries: nat,
}

/// The ZIP64 record that the locator before the record at `eocd` points to.
pub open spec fn directory64(data: Seq<u8>, eocd: int) -> Result<Directory, ZipError> {
    let locator = eocd - 20;
    if locator < 0 {
        Err(ZipError::Truncated("zip64 locator"))
    } else if !signed(data, locator, EOCD64_LOCATOR_SIG) {
        Err(ZipError::BadSignature("zip64 locator"))
    } else {
        let eocd64 = bytes::le_value(data, locator + 8, 8) as int;
        if !signed(data, eocd64, EOCD64_SIG) {
            Err(ZipError::BadSignature("zip64 end of central directory"))
        } else {
            match (bytes::field(data, eocd64 + 32, 8), bytes::field(data, eocd64 + 48, 8)) {
                (Some(entries), Some(offset)) => Ok(Directory { offset, entries }),
                _ => Err(ZipError::Truncated("zip64 EOCD")),
            }
        }
    }
}

/// The central directory of the archive: from the classic record, or from
/// the ZIP64 one where a classic field is maxed out.
pub open spec fn directory(data: Seq<u8>) -> Result<Directory, ZipError> {
    match last_eocd(data, data.len() - 22) {
        None => Err(ZipError::NoEndOfCentralDirectory),
        Some(eocd) => {
            let entries = bytes::le_value(data, eocd + 10, 2);
            let offset = bytes::le_value(data, eocd + 16, 4);
            if entries != 0xFFFF && offset != 0xFFFF_FFFF {
                Ok(Directory { offset, entries })
            } else {
                directory64(data, eocd)
            }
        },
    }
}

/// A central directory header.
pub struct Central {
    /// The name, lossily decoded.
    pub name: Seq<char>,
    /// General-purpose flags.
    pub flags: nat,
    /// Compression method.
    pub method: nat,
    /// The sizes and the offset, ZIP64 values included.
    pub extents: Extents,
    /// External attributes.
    pub external: nat,
    /// Host system that made the entry.
    pub host: nat,
    /// Size of the whole central header.
    pub header_len: nat,
}

/// The values that ZIP64 extends to 64 bits.
pub struct Extents {
    /// Uncompressed size.
    pub size: nat,
    /// Compressed size.
    pub csize: nat,
    /// Position of the local header.
    pub local_offset: nat,
}

/// The next 64-bit value of a ZIP64 extra field, where `maxed` says that the
/// classic value is maxed out; otherwise `classic` stays.
pub open spec fn widened(body: Seq<u8>, at: int, maxed: bool, classic: nat) -> Option<(nat, int)> {
    if !maxed {
        Some((classic, at))
    } else {
        match bytes::field(body, at, 8) {
            Some(v) => Some((v, at + 8)),
            None => None,
        }
    }
}

/// `e` with the values of the ZIP64 field `body`: they appear in a fixed
/// order, only for what is maxed out. `size_maxed` speaks of the classic
/// size field.
pub open spec fn zip64_values(body: Seq<u8>, size_maxed: bool, e: Extents) -> Option<Extents> {
    match widened(body, 0, size_maxed, e.size) {
        None => None,
        Some((size, a)) => match widened(body, a, e.csize == 0xFFFF_FFFF, e.csize) {
            None => None,
            Some((csize, b)) => match widened(
                body,
                b,
                e.local_offset == 0xFFFF_FFFF,
                e.local_offset,
            ) {
                None => None,
                Some((local_offset, _)) => Some(Extents { size, csize, local_offset }),
            },
        },
    }
}

/// `e` with every ZIP64 extra field from `at` on applied.
pub open spec fn apply_extra(extra: Seq<u8>, at: int, size_maxed: bool, e: Extents) -> Result<
    Extents,
    ZipError,
>
    decreases extra.len() - at,
{
    if at < 0 || at + 4 > extra.len() {
        Ok(e)
    } else {
        let id = bytes::le_value(extra, at, 2);
        let end = at + 4 + bytes::le_value(extra, at + 2, 2);
        if end > extra.len() {
            Err(ZipError::Truncated("central extra field"))
        } else if id != 1 {
            apply_extra(extra, end, size_maxed, e)
        } else {
            match zip64_values(extra.subrange(at + 4, end), size_maxed, e) {
                None => Err(ZipError::Truncated("zip64 extra")),
                Some(wide) => apply_extra(extra, end, size_maxed, wide),
            }
        }
    }
}

/// The central directory header at `pos`.
pub open spec fn central_at(data: Seq<u8>, pos: int) -> Result<Central, ZipError> {
    if !signed(data, pos, CENTRAL_SIG) {
        Err(ZipError::BadSignature("central directory header"))
    } else if pos + 46 > data.len() {
        Err(ZipError::Truncated("central header"))
    } else {
        let name_len = bytes::le_value(data, pos + 28, 2);
        let extra_len = bytes::le_value(data, pos + 30, 2);
        let comment_len = bytes::le_value(data, pos + 32, 2);
        let name_end = pos + 46 + name_len;
        let classic = Extents {
            size: bytes::le_value(data, pos + 24, 4),
            csize: bytes::le_value(data, pos + 20, 4),
            local_offset: bytes::le_value(data, pos + 42, 4),
        };
        if name_end > data.len() {
            Err(ZipError::Truncated("central header name"))
        } else if name_end + extra_len > data.len() {
            Err(ZipError::Truncated("central header extra"))
        } else {
            match apply_extra(
                data.subrange(name_end, name_end + extra_len),
                0,
                classic.size == 0xFFFF_FFFF,
                classic,
            ) {
                Err(e) => Err(e),
                Ok(extents) => Ok(
                    Central {
                        name: text::decoded(data.subrange(pos + 46, name_end)),
                        flags: bytes::le_value(data, pos + 8, 2),
                        method: bytes::le_value(data, pos + 10, 2),
                        extents,
                        external: bytes::le_value(data, pos + 38, 4),
                        host: bytes::le_value(data, pos + 4, 2) / 256,
                        header_len: 46 + name_len + extra_len + comment_len,
                    },
                ),
            }
        }
    }
}

/// Unix host id in "version made by" — the only host whose external
/// attributes carry a full st_mode.
pub const HOST_UNIX: u8 = 3;

/// Directory or file, by the trailing slash.
pub open spec fn dir_or_file(dir: bool) -> EntryKind {
    if dir {
        EntryKind::Dir
    } else {
        EntryKind::File
    }
}

/// What the entry creates, and its permission bits: from the st_mode in the
/// upper half of the external attributes where a unix host wrote it,
/// otherwise from the trailing slash or the DOS directory bit.
pub open spec fn kind_and_mode(c: Central) -> (EntryKind, Option<u32>) {
    if c.host == HOST_UNIX {
        let st_mode = c.external / 0x1_0000;
        let perms = Some((st_mode % 0o10000) as u32);
        let format = st_mode / 0o10000;
        if format == 0o12 {
            (EntryKind::Symlink, perms)
        } else if format == 0o4 {
            (EntryKind::Dir, perms)
        } else if format == 0o1 {
            (EntryKind::Fifo, perms)
        } else if format == 0o2 {
            (EntryKind::CharDevice, perms)
        } else if format == 0o6 {
            (EntryKind::BlockDevice, perms)
        } else {
            (dir_or_file(text::ends_in(c.name, '/')), perms)
        }
    } else {
        (dir_or_file(text::ends_in(c.name, '/') || c.external / 0x10 % 2 == 1), None)
    }
}

/// The name in the local header at `pos`, and where the payload starts;
/// `None` where there is no such header.
pub open spec fn local_at(data: Seq<u8>, pos: int) -> Option<(Seq<char>, int)> {
    if !signed(data, pos, LOCAL_SIG) || pos + 30 > data.len() {
        None
    } else {
        let name_end = pos + 30 + bytes::le_value(data, pos + 26, 2);
        if name_end > data.len() {
            None
        } else {
            Some(
                (
                    text::decoded(data.subrange(pos + 30, name_end)),
                    name_end + bytes::le_value(data, pos + 28, 2),
                ),
            )
        }
    }
}

/// The symlink target in the payload at `at`; `None` where it cannot be
/// decoded: it is encrypted, cut short, too long, or compressed by a method
/// other than deflate.
pub open spec fn link_target(data: Seq<u8>, at: int, c: Central) -> Option<Seq<char>> {
    let end = at + c.extents.csize;
    if c.flags % 2 == 1 || end > data.len() {
        None
    } else if c.method == 0 {
        if c.extents.csize > MAX_LINK_TARGET {
            None
        } else {
            Some(text::decoded(data.subrange(at, end)))
        }
    } else if c.method == 8 {
        match inflate::inflated(data.subrange(at, end), MAX_LINK_TARGET as int) {
            Ok((target, _)) => Some(text::decoded(target)),
            Err(_) => None,
        }
    } else {
        None
    }
}

/// Why two names are one too many.
pub open spec fn mismatch_detail(central: Seq<char>, local: Seq<char>) -> Seq<char> {
    "central directory says '"@ + central + "' but the local header says '"@ + local
        + "'; stream extractors will use the latter"@
}

/// Why an unreadable local header is suspicious.
pub open spec fn corrupt_detail(offset: nat) -> Seq<char> {
    "local file header at offset "@ + text::decimal(offset) + " is missing or corrupt"@
}

/// Why an undecodable symlink is hostile.
pub open spec fn undecodable_detail() -> Seq<char> {
    "symlink target could not be decoded (encrypted, oversized or unsupported compression); treating as hostile"@
}

/// The entries that one central header stands for: what its local header
/// names, where that differs, and the entry itself.
pub open spec fn record_entries(data: Seq<u8>, c: Central) -> Seq<EntryView> {
    let (kind, mode) = kind_and_mode(c);
    let local = local_at(data, c.extents.local_offset as int);
    let target = match local {
        Some((_, at)) if kind == EntryKind::Symlink => link_target(data, at, c),
        _ => None,
    };
    let own = EntryView {
        path: c.name,
        kind,
        mode,
        link_target: target,
        size: c.extents.size as u64,
    };
    match local {
        Some((name, _)) if name != c.name => seq![
            EntryView { mode, ..entry::bare_entry(name, kind) },
            own,
        ],
        _ => seq![own],
    }
}

/// What is wrong with the structure of one central header.
pub open spec fn record_findings(data: Seq<u8>, c: Central) -> Seq<FindingView> {
    match local_at(data, c.extents.local_offset as int) {
        None => seq![
            findings::warning(
                Check::NameMismatch,
                c.name,
                corrupt_detail(c.extents.local_offset),
            ),
        ],
        Some((name, at)) => {
            let mismatch = if name != c.name {
                seq![
                    findings::warning(Check::NameMismatch, c.name, mismatch_detail(c.name, name)),
                ]
            } else {
                seq![]
            };
            if kind_and_mode(c).0 == EntryKind::Symlink && link_target(data, at, c) is None {
                mismatch.push(findings::critical(Check::LinkEscape, c.name, undecodable_detail()))
            } else {
                mismatch
            }
        },
    }
}

/// `pos`, or the end of the input where that comes first.
pub open spec fn clamp(data: Seq<u8>, pos: int) -> int {
    if pos <= data.len() {
        pos
    } else {
        data.len() as int
    }
}

/// Entries and findings so far, followed by those of the `n` central headers
/// from `pos` on.
pub open spec fn walk(
    data: Seq<u8>,
    pos: int,
    n: nat,
    entries: Seq<EntryView>,
    found: Seq<FindingView>,
) -> Result<(Seq<EntryView>, Seq<FindingView>), ZipError>
    decreases n,
{
    if n == 0 {
        Ok((entries, found))
    } else {
        match central_at(data, pos) {
            Err(e) => Err(e),
            Ok(c) => walk(
                data,
                clamp(data, pos + c.header_len),
                (n - 1) as nat,
                entries + record_entries(data, c),
                found + record_findings(data, c),
            ),
        }
    }
}

/// The entries and structural findings of a zip archive.
pub open spec fn zip_entries(data: Seq<u8>) -> Result<
    (Seq<EntryView>, Seq<FindingView>),
    ZipError,
> {
    match directory(data) {
        Err(e) => Err(e),
        Ok(d) => walk(data, clamp(data, d.offset as int), d.entries, seq![], seq![]),
    }
}

proof fn lemma_two_bytes(data: Seq<u8>, pos: int)
    ensures
        bytes::le_value(data, pos, 2) <= 0xFFFF,
{
    reveal_with_fuel(bytes::le_value, 3);
}

/// A comment is at most 65535 bytes long, so no record stands before that
/// window.
proof fn lemma_outside_window(data: Seq<u8>, pos: int)
    requires
        pos + 22 + 0xFFFF < data.len(),
    ensures
        last_eocd(data, pos) is None,
    decreases pos + 1,
{
    if pos >= 0 {
        lemma_two_bytes(data, pos + 20);
        lemma_outside_window(data, pos - 1);
    }
}

/// Read two bytes `add` behind `base`.
fn u16_behind(data: &[u8], base: usize, add: usize) -> (r: Option<u16>)
    ensures
        bytes::field(data@, base + add, 2) == (match r {
            Some(v) => Some(v as nat),
            None => None,
        }),
{
    if base > data.len() || add > data.len() - base {
        return None;
    }
    bytes::u16_at(data, base + add)
}

/// Read four bytes `add` behind `base`.
fn u32_behind(data: &[u8], base: usize, add: usize) -> (r: Option<u32>)
    ensures
        bytes::field(data@, base + add, 4) == (match r {
            Some(v) => Some(v as nat),
            None => None,
        }),
{
    if base > data.len() || add > data.len() - base {
        return None;
    }
    bytes::u32_at(data, base + add)
}

/// Read eight bytes `add` behind `base`.
fn u64_behind(data: &[u8], base: usize, add: usize) -> (r: Option<u64>)
    ensures
        bytes::field(data@, base + add, 8) == (match r {
            Some(v) => Some(v as nat),
            None => None,
        }),
{
    if base > data.len() || add > data.len() - base {
        return None;
    }
    bytes::u64_at(data, base + add)
}

/// Does the signature `sig` stand at `pos`?
fn has_signature(data: &[u8], pos: usize, sig: u32) -> (r: bool)
    ensures
        r == signed(data@, pos as int, sig),
{
    match bytes::u32_at(data, pos) {
        Some(v) => v == sig,
        None => false,
    }
}

/// Locate the EOCD record by scanning backwards through the zip comment
/// window (up to 64 KiB), requiring the comment length to be consistent
/// so a stray signature inside the comment is not mistaken for the record.
fn find_eocd(data: &[u8]) -> (r: Option<usize>)
    ensures
        match last_eocd(data@, data@.len() - 22) {
            Some(p) => r matches Some(v) && v == p,
            None => r is None,
        },
{
    let total: usize = data.len();
    if total < 22 {
        return None;
    }
    let min: usize = if total > 22 + 0xFFFF {
        total - 22 - 0xFFFF
    } else {
        0
    };
    let mut pos: usize = total - 22;
    loop
        invariant
            total == data@.len(),
            min <= pos <= total - 22,
            min == (if total > 22 + 0xFFFF {
                total - 22 - 0xFFFF
            } else {
                0
            }),
            last_eocd(data@, pos as int) == last_eocd(data@, total - 22),
        decreases pos,
    {
        if has_signature(data, pos, EOCD_SIG) {
            if let Some(comment_len) = bytes::u16_at(data, pos + 20) {
                if comment_len as usize == total - pos - 22 {
                    return Some(pos);
                }
            }
        }
        if pos == min {
            proof {
                if min > 0 {
                    lemma_outside_window(data@, min - 1);
                }
            }
            return None;
        }
        pos = pos - 1;
    }
}

proof fn lemma_eocd_fits(data: Seq<u8>, pos: int)
    ensures
        last_eocd(data, pos) matches Some(p) ==> eocd_at(data, p) && p <= pos,
    decreases pos + 1,
{
    if pos >= 0 {
        lemma_eocd_fits(data, pos - 1);
    }
}

struct CentralDirectory {
    offset: u64,
    entries: u64,
}

/// Follow the ZIP64 locator, which sits directly before the EOCD.
fn locate_zip64(data: &[u8], eocd: usize) -> (r: Result<CentralDirectory, ZipError>)
    requires
        eocd + 22 <= data@.len(),
    ensures
        match r {
            Ok(d) => directory64(data@, eocd as int) == Ok::<Directory, ZipError>(
                Directory { offset: d.offset as nat, entries: d.entries as nat },
            ),
            Err(e) => directory64(data@, eocd as int) == Err::<Directory, ZipError>(e),
        },
{
    if eocd < 20 {
        return Err(ZipError::Truncated("zip64 locator"));
    }
    let locator: usize = eocd - 20;
    if !has_signature(data, locator, EOCD64_LOCATOR_SIG) {
        return Err(ZipError::BadSignature("zip64 locator"));
    }
    let at: u64 = match bytes::u64_at(data, locator + 8) {
        Some(at) => at,
        None => return Err(ZipError::Truncated("zip64 locator")),
    };
    if at > data.len() as u64 {
        return Err(ZipError::BadSignature("zip64 end of central directory"));
    }
    let eocd64: usize = at as usize;
    if !has_signature(data, eocd64, EOCD64_SIG) {
        return Err(ZipError::BadSignature("zip64 end of central directory"));
    }
    match (u64_behind(data, eocd64, 32), u64_behind(data, eocd64, 48)) {
        (Some(entries), Some(offset)) => Ok(CentralDirectory { offset, entries }),
        _ => Err(ZipError::Truncated("zip64 EOCD")),
    }
}

fn locate_central_directory(data: &[u8]) -> (r: Result<CentralDirectory, ZipError>)
    ensures
        match r {
            Ok(d) => directory(data@) == Ok::<Directory, ZipError>(
                Directory { offset: d.offset as nat, entries: d.entries as nat },
            ),
            Err(e) => directory(data@) == Err::<Directory, ZipError>(e),
        },
{
    let eocd: usize = match find_eocd(data) {
        Some(eocd) => eocd,
        None => return Err(ZipError::NoEndOfCentralDirectory),
    };
    proof {
        lemma_eocd_fits(data@, data@.len() - 22);
    }
    match (u16_behind(data, eocd, 10), u32_behind(data, eocd, 16)) {
        (Some(entries), Some(offset)) => {
            if entries != 0xFFFF && offset != 0xFFFF_FFFF {
                return Ok(CentralDirectory { offset: offset as u64, entries: entries as u64 });
            }
        },
        _ => {},
    }
    locate_zip64(data, eocd)
}

struct CentralEntry {
    name: String,
    flags: u16,
    method: u16,
    size: u64,
    csize: u64,
    external: u32,
    made_by_host: u8,
    local_offset: u64,
    /// Size of the whole central header (to advance the cursor).
    header_len: usize,
}

impl CentralEntry {
    spec fn central(&self) -> Central {
        Central {
            name: self.name@,
            flags: self.flags as nat,
            method: self.method as nat,
            extents: Extents {
                size: self.size as nat,
                csize: self.csize as nat,
                local_offset: self.local_offset as nat,
            },
            external: self.external as nat,
            host: self.made_by_host as nat,
            header_len: self.header_len as nat,
        }
    }
}

struct Widths {
    size: u64,
    csize: u64,
    local_offset: u64,
}

spec fn extents_of(w: Widths) -> Extents {
    Extents {
        size: w.size as nat,
        csize: w.csize as nat,
        local_offset: w.local_offset as nat,
    }
}

/// Read the next 64-bit value, if the classic one is maxed out.
fn widen(body: &[u8], at: usize, maxed: bool, classic: u64) -> (r: Option<(u64, usize)>)
    requires
        at <= 16,
    ensures
        widened(body@, at as int, maxed, classic as nat) == (match r {
            Some((v, next)) => Some((v as nat, next as int)),
            None => None,
        }),
        r matches Some((_, next)) ==> next <= at + 8,
{
    if !maxed {
        return Some((classic, at));
    }
    match bytes::u64_at(body, at) {
        Some(v) => Some((v, at + 8)),
        None => None,
    }
}

/// The values of one ZIP64 field.
fn read_zip64(body: &[u8], size_maxed: bool, w: &Widths) -> (r: Option<Widths>)
    ensures
        zip64_values(body@, size_maxed, extents_of(*w)) == (match r {
            Some(wide) => Some(extents_of(wide)),
            None => None,
        }),
{
    let (size, a) = match widen(body, 0, size_maxed, w.size) {
        Some(done) => done,
        None => return None,
    };
    let (csize, b) = match widen(body, a, w.csize == 0xFFFF_FFFF, w.csize) {
        Some(done) => done,
        None => return None,
    };
    let (local_offset, _) = match widen(
        body,
        b,
        w.local_offset == 0xFFFF_FFFF,
        w.local_offset,
    ) {
        Some(done) => done,
        None => return None,
    };
    Some(Widths { size, csize, local_offset })
}

/// Apply the ZIP64 extra fields: values that overflowed 32 bits appear
/// there.
fn read_extra(extra: &[u8], size_maxed: bool, classic: Widths) -> (r: Result<Widths, ZipError>)
    ensures
        match r {
            Ok(w) => apply_extra(extra@, 0, size_maxed, extents_of(classic)) == Ok::<
                Extents,
                ZipError,
            >(extents_of(w)),
            Err(e) => apply_extra(extra@, 0, size_maxed, extents_of(classic)) == Err::<
                Extents,
                ZipError,
            >(e),
        },
{
    let mut w = classic;
    let mut cursor: usize = 0;
    while extra.len() - cursor >= 4
        invariant
            cursor <= extra@.len(),
            apply_extra(extra@, 0, size_maxed, extents_of(classic)) == apply_extra(
                extra@,
                cursor as int,
                size_maxed,
                extents_of(w),
            ),
        decreases extra@.len() - cursor,
    {
        let id: Option<u16> = bytes::u16_at(extra, cursor);
        let len: usize = match bytes::u16_at(extra, cursor + 2) {
            Some(len) => len as usize,
            None => return Err(ZipError::Truncated("central extra field")),
        };
        let start: usize = cursor + 4;
        if len > extra.len() - start {
            return Err(ZipError::Truncated("central extra field"));
        }
        if id == Some(1u16) {
            w = match read_zip64(slice_subrange(extra, start, start + len), size_maxed, &w) {
                Some(wide) => wide,
                None => return Err(ZipError::Truncated("zip64 extra")),
            };
        }
        cursor = start + len;
    }
    Ok(w)
}

fn parse_central_entry(data: &[u8], pos: usize) -> (r: Result<CentralEntry, ZipError>)
    ensures
        match r {
            Ok(c) => central_at(data@, pos as int) == Ok::<Central, ZipError>(c.central()),
            Err(e) => central_at(data@, pos as int) == Err::<Central, ZipError>(e),
        },
{
    let total: usize = data.len();
    if !has_signature(data, pos, CENTRAL_SIG) {
        return Err(ZipError::BadSignature("central directory header"));
    }
    if total - pos < 46 {
        return Err(ZipError::Truncated("central header"));
    }
    let made_by: u16 = bytes::u16_at(data, pos + 4).unwrap();
    let flags: u16 = bytes::u16_at(data, pos + 8).unwrap();
    let method: u16 = bytes::u16_at(data, pos + 10).unwrap();
    let csize: u32 = bytes::u32_at(data, pos + 20).unwrap();
    let size: u32 = bytes::u32_at(data, pos + 24).unwrap();
    let name_len: usize = bytes::u16_at(data, pos + 28).unwrap() as usize;
    let extra_len: usize = bytes::u16_at(data, pos + 30).unwrap() as usize;
    let comment_len: usize = bytes::u16_at(data, pos + 32).unwrap() as usize;
    let external: u32 = bytes::u32_at(data, pos + 38).unwrap();
    let local_offset: u32 = bytes::u32_at(data, pos + 42).unwrap();
    let name_at: usize = pos + 46;
    if name_len > total - name_at {
        return Err(ZipError::Truncated("central header name"));
    }
    let name_end: usize = name_at + name_len;
    if extra_len > total - name_end {
        return Err(ZipError::Truncated("central header extra"));
    }
    let name = text::decode(slice_subrange(data, name_at, name_end));
    let classic = Widths {
        size: size as u64,
        csize: csize as u64,
        local_offset: local_offset as u64,
    };
    let extra = slice_subrange(data, name_end, name_end + extra_len);
    let wide = read_extra(extra, size == 0xFFFF_FFFF, classic)?;
    Ok(
        CentralEntry {
            name,
            flags,
            method,
            size: wide.size,
            csize: wide.csize,
            external,
            made_by_host: (made_by / 256) as u8,
            local_offset: wide.local_offset,
            header_len: 46 + name_len + extra_len + comment_len,
        },
    )
}

fn classify_kind(central: &CentralEntry) -> (r: (EntryKind, Option<u32>))
    ensures
        r == kind_and_mode(central.central()),
{
    let slash: bool = text::ends_with(central.name.as_str(), '/');
    if central.made_by_host == HOST_UNIX {
        let st_mode: u32 = central.external / 0x1_0000;
        let perms: Option<u32> = Some(st_mode % 0o10000);
        let format: u32 = st_mode / 0o10000;
        return if format == 0o12 {
            (EntryKind::Symlink, perms)
        } else if format == 0o4 {
            (EntryKind::Dir, perms)
        } else if format == 0o1 {
            (EntryKind::Fifo, perms)
        } else if format == 0o2 {
            (EntryKind::CharDevice, perms)
        } else if format == 0o6 {
            (EntryKind::BlockDevice, perms)
        } else if slash {
            // Some tools set host=unix but leave the type bits empty.
            (EntryKind::Dir, perms)
        } else {
            (EntryKind::File, perms)
        };
    }
    // DOS/Windows-made entries: directory bit or trailing slash, no mode.
    if slash || central.external / 0x10 % 2 == 1 {
        (EntryKind::Dir, None)
    } else {
        (EntryKind::File, None)
    }
}

/// Where a payload lies: `base` behind the name, `skip` bytes further on.
struct Payload {
    base: usize,
    skip: usize,
}

/// Read the name stored in an entry's local header, and the position of
/// its payload.
fn local_header(data: &[u8], offset: u64) -> (r: Option<(String, Payload)>)
    ensures
        local_at(data@, offset as int) == (match r {
            Some((name, payload)) => Some((name@, payload.base + payload.skip)),
            None => None,
        }),
        r matches Some((_, payload)) ==> payload.base <= data@.len(),
{
    let total: usize = data.len();
    if offset > total as u64 {
        return None;
    }
    let pos: usize = offset as usize;
    if !has_signature(data, pos, LOCAL_SIG) || total - pos < 30 {
        return None;
    }
    let name_len: usize = bytes::u16_at(data, pos + 26).unwrap() as usize;
    let skip: usize = bytes::u16_at(data, pos + 28).unwrap() as usize;
    let name_at: usize = pos + 30;
    if name_len > total - name_at {
        return None;
    }
    let base: usize = name_at + name_len;
    let name = text::decode(slice_subrange(data, name_at, base));
    Some((name, Payload { base, skip }))
}

/// Decode a symlink entry's target from its payload.
fn read_link_target(data: &[u8], payload: &Payload, central: &CentralEntry) -> (r: Option<String>)
    requires
        payload.base <= data@.len(),
    ensures
        link_target(data@, payload.base + payload.skip, central.central()) == entry::text_view(r),
{
    if central.flags % 2 == 1 || payload.skip > data.len() - payload.base {
        return None;
    }
    let at: usize = payload.base + payload.skip;
    if central.csize > (data.len() - at) as u64 {
        return None;
    }
    let raw = slice_subrange(data, at, at + central.csize as usize);
    if central.method == 0 {
        if raw.len() > MAX_LINK_TARGET {
            return None;
        }
        Some(text::decode(raw))
    } else if central.method == 8 {
        match inflate::inflate(raw, MAX_LINK_TARGET) {
            Ok((target, _)) => Some(text::decode(target.as_slice())),
            Err(_) => None,
        }
    } else {
        None
    }
}

/// The finding for two names.
fn name_mismatch(central: &str, local: &str) -> (r: Finding)
    ensures
        r@ == findings::warning(Check::NameMismatch, central@, mismatch_detail(central@, local@)),
{
    let mut detail = "central directory says '".to_owned();
    detail.append(central);
    detail.append("' but the local header says '");
    detail.append(local);
    detail.append("'; stream extractors will use the latter");
    Finding::warning(Check::NameMismatch, central, detail.as_str())
}

/// The finding for an unreadable local header.
fn corrupt_local(central: &str, offset: u64) -> (r: Finding)
    ensures
        r@ == findings::warning(Check::NameMismatch, central@, corrupt_detail(offset as nat)),
{
    let mut detail = "local file header at offset ".to_owned();
    text::push_decimal(&mut detail, offset as u128);
    detail.append(" is missing or corrupt");
    Finding::warning(Check::NameMismatch, central, detail.as_str())
}

/// Add the entries and findings of one central header.
fn add_record(
    data: &[u8],
    central: &CentralEntry,
    entries: &mut Vec<Entry>,
    found: &mut Vec<Finding>,
)
    ensures
        entry::entry_views(final(entries)@) == entry::entry_views(old(entries)@) + record_entries(
            data@,
            central.central(),
        ),
        findings::finding_views(final(found)@) == findings::finding_views(old(found)@)
            + record_findings(data@, central.central()),
{
    let (kind, mode) = classify_kind(central);
    let mut target: Option<String> = None;
    let ghost before = entry::entry_views(entries@);
    let ghost found_before = findings::finding_views(found@);
    match local_header(data, central.local_offset) {
        Some((local_name, payload)) => {
            if !text::same(local_name.as_str(), central.name.as_str()) {
                found.push(name_mismatch(central.name.as_str(), local_name.as_str()));
                // Audit the smuggled name too: it is what some extractors
                // will actually write.
                let mut smuggled = Entry::new(local_name.as_str(), kind);
                smuggled.mode = mode;
                entries.push(smuggled);
            }
            if kind == EntryKind::Symlink {
                target = read_link_target(data, &payload, central);
                if target.is_none() {
                    found.push(
                        Finding::critical(
                            Check::LinkEscape,
                            central.name.as_str(),
                            "symlink target could not be decoded (encrypted, oversized or unsupported compression); treating as hostile",
                        ),
                    );
                }
            }
        },
        None => {
            found.push(corrupt_local(central.name.as_str(), central.local_offset));
        },
    }
    entries.push(
        Entry {
            path: central.name.clone(),
            kind,
            mode,
            link_target: target,
            size: central.size,
        },
    );
    proof {
        assert(entry::entry_views(entries@) =~= before + record_entries(data@, central.central()));
        assert(findings::finding_views(found@) =~= found_before + record_findings(
            data@,
            central.central(),
        ));
    }
}

/// Read all entries from a zip archive, plus any structural findings
/// (name mismatches between the central directory and local headers).
pub fn read_entries(data: &[u8]) -> (r: Result<(Vec<Entry>, Vec<Finding>), ZipError>)
    ensures
        match r {
            Ok((entries, found)) => zip_entries(data@) == Ok::<
                (Seq<EntryView>, Seq<FindingView>),
                ZipError,
            >((entry::entry_views(entries@), findings::finding_views(found@))),
            Err(e) => zip_entries(data@) == Err::<(Seq<EntryView>, Seq<FindingView>), ZipError>(e),
        },
{
    let cd = locate_central_directory(data)?;
    let total: usize = data.len();
    let mut entries: Vec<Entry> = Vec::new();
    let mut found: Vec<Finding> = Vec::new();
    let mut pos: usize = if cd.offset <= total as u64 {
        cd.offset as usize
    } else {
        total
    };
    let mut left: u64 = cd.entries;
    proof {
        assert(entry::entry_views(entries@) =~= seq![]);
        assert(findings::finding_views(found@) =~= seq![]);
    }
    while left > 0
        invariant
            total == data@.len(),
            pos <= total,
            zip_entries(data@) == walk(
                data@,
                pos as int,
                left as nat,
                entry::entry_views(entries@),
                findings::finding_views(found@),
            ),
        decreases left,
    {
        let central = parse_central_entry(data, pos)?;
        add_record(data, &central, &mut entries, &mut found);
        pos = if central.header_len <= total - pos {
            pos + central.header_len
        } else {
            total
        };
        left = left - 1;
    }
    Ok((entries, found))
}

} // verus!
