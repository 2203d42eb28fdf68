//! A metadata-only tar reader: v7, ustar, GNU (long names/links, base-256
//! sizes) and PAX (`path`, `linkpath`, `size` records). Payloads are
//! skipped, never buffered — slipcheck only needs names, kinds, modes and
//! link targets. Header checksums are verified so corrupt input fails
//! loudly instead of yielding garbage entries.
use vstd::prelude::*;
use vstd::slice::*;
use vstd::string::*;

use crate::bytes;
use crate::entry;
use crate::entry::{Entry, EntryKind, EntryView};
use crate::text;

verus! {

/// Why a tar archive could not be read.
#[derive(Debug, Clone, PartialEq, Eq)]
pub enum TarError {
    /// A header or a payload runs past the end of the input.
    Truncated {
        /// Where the header starts.
        offset: usize,
    },
    /// Header checksum mismatch: not a tar archive, or a corrupt one.
    BadChecksum {
        /// Where the header starts.
        offset: usize,
    },
    /// A numeric or PAX field could not be parsed.
    BadField {
        /// Where the header starts.
        offset: usize,
        /// What the field is called.
        field: &'static str,
    },
}

/// What [`TarError::message`] says of each error.
pub open spec fn tar_message(e: TarError) -> Seq<char> {
    match e {
        TarError::Truncated { offset } => "tar archive truncated at offset "@ + text::decimal(
            offset as nat,
        ),
        TarError::BadChecksum { offset } => "tar header checksum mismatch at offset "@
            + text::decimal(offset as nat),
        TarError::BadField { offset, field } => "unparseable tar "@ + field@ + " field at offset "@
            + text::decimal(offset as nat),
    }
}

impl TarError {
    /// Human-readable description.
    pub fn message(&self) -> (r: String)
        ensures
            r@ == tar_message(*self),
    {
        match self {
            TarError::Truncated { offset } => {
                let mut s = "tar archive truncated at offset ".to_owned();
                text::push_decimal(&mut s, *offset as u128);
                s
            },
            TarError::BadChecksum { offset } => {
                let mut s = "tar header checksum mismatch at offset ".to_owned();
                text::push_decimal(&mut s, *offset as u128);
                s
            },
            TarError::BadField { offset, field } => {
                let mut s = "unparseable tar ".to_owned();
                s.append(field);
                s.append(" field at offset ");
                text::push_decimal(&mut s, *offset as u128);
                s
            },
        }
    }
}

/// The number that `data` writes, highest byte first.
pub open spec fn be_value(data: Seq<u8>) -> nat
    decreases data.len(),
{
    if data.len() == 0 {
        0
    } else {
        256 * be_value(data.drop_last()) + data.last() as nat
    }
}

/// Is `b` padding in a numeric field?
pub open spec fn blank(b: u8) -> bool {
    b == 32 || b == 0
}

/// The first position from `i` on that is not padding.
pub open spec fn run_start(data: Seq<u8>, i: int) -> int
    decreases data.len() - i,
{
    if 0 <= i < data.len() && blank(data[i]) {
        run_start(data, i + 1)
    } else {
        i
    }
}

/// The first position from `i` on that is padding, or the end.
pub open spec fn run_end(data: Seq<u8>, i: int) -> int
    decreases data.len() - i,
{
    if 0 <= i < data.len() && !blank(data[i]) {
        run_end(data, i + 1)
    } else {
        i
    }
}

/// Is `b` an octal digit?
pub open spec fn is_octal(b: u8) -> bool {
    48 <= b <= 55
}

/// Does `data` hold octal digits alone?
pub open spec fn all_octal(data: Seq<u8>) -> bool {
    forall|i: int| 0 <= i < data.len() ==> is_octal(#[trigger] data[i])
}

/// The number that the octal digits `data` write.
pub open spec fn octal_value(data: Seq<u8>) -> nat
    decreases data.len(),
{
    if data.len() == 0 {
        0
    } else {
        8 * octal_value(data.drop_last()) + (data.last() - 48) as nat
    }
}

/// `n`, if it fits 64 bits.
pub open spec fn fits(n: nat) -> Option<nat> {
    if n <= u64::MAX {
        Some(n)
    } else {
        None
    }
}

/// The value of a numeric field: GNU base-256 where the top bit of the first
/// byte is set, otherwise the first run of octal digits between NULs and
/// spaces (an empty field is zero).
pub open spec fn numeric(field: Seq<u8>) -> Option<nat> {
    if field.len() > 0 && field[0] >= 128 {
        fits(be_value(field.update(0, (field[0] - 128) as u8)))
    } else {
        let start = run_start(field, 0);
        let run = field.subrange(start, run_end(field, start));
        if all_octal(run) {
            fits(octal_value(run))
        } else {
            None
        }
    }
}

/// The text of a NUL-terminated field.
pub open spec fn cstr(field: Seq<u8>) -> Seq<char> {
    text::decoded(field.take(bytes::find(field, 0, 0)))
}

/// The header byte at `i` as the checksum counts it: the checksum field
/// itself reads as spaces.
pub open spec fn summed_byte(block: Seq<u8>, i: int) -> u8 {
    if 148 <= i < 156 {
        32
    } else {
        block[i]
    }
}

/// The sum of the first `n` header bytes, taken as unsigned.
pub open spec fn unsigned_sum(block: Seq<u8>, n: nat) -> int
    decreases n,
{
    if n == 0 {
        0
    } else {
        unsigned_sum(block, (n - 1) as nat) + summed_byte(block, n - 1)
    }
}

/// The sum of the first `n` header bytes, taken as signed.
pub open spec fn signed_sum(block: Seq<u8>, n: nat) -> int
    decreases n,
{
    if n == 0 {
        0
    } else {
        let b = summed_byte(block, n - 1);
        signed_sum(block, (n - 1) as nat) + (if b >= 128 {
            b - 256
        } else {
            b as int
        })
    }
}

/// Does the stored checksum match the header, in either convention?
pub open spec fn checksum_matches(block: Seq<u8>, stored: nat) -> bool {
    stored == unsigned_sum(block, block.len()) || stored == signed_sum(block, block.len())
}

proof fn lemma_be_grows(data: Seq<u8>, i: int)
    requires
        0 <= i <= data.len(),
    ensures
        be_value(data.take(i)) <= be_value(data),
    decreases data.len(),
{
    if i < data.len() {
        lemma_be_grows(data.drop_last(), i);
        assert(data.drop_last().take(i) =~= data.take(i));
    } else {
        assert(data.take(i) =~= data);
    }
}

proof fn lemma_octal_grows(data: Seq<u8>, i: int)
    requires
        0 <= i <= data.len(),
    ensures
        octal_value(data.take(i)) <= octal_value(data),
    decreases data.len(),
{
    if i < data.len() {
        lemma_octal_grows(data.drop_last(), i);
        assert(data.drop_last().take(i) =~= data.take(i));
    } else {
        assert(data.take(i) =~= data);
    }
}

fn parse_base256(field: &[u8]) -> (r: Option<u64>)
    requires
        field@.len() > 0,
        field@[0] >= 128,
    ensures
        numeric(field@) == (match r {
            Some(v) => Some(v as nat),
            None => None,
        }),
{
    let ghost digits = field@.update(0, (field@[0] - 128) as u8);
    let mut value: u64 = (field[0] - 128) as u64;
    let mut i: usize = 1;
    proof {
        reveal_with_fuel(be_value, 2);
        assert(digits.take(1) =~= seq![digits[0]]);
        assert(digits.take(1).drop_last() =~= seq![]);
    }
    while i < field.len()
        invariant
            1 <= i <= field@.len(),
            field@[0] >= 128,
            digits == field@.update(0, (field@[0] - 128) as u8),
            value == be_value(digits.take(i as int)),
        decreases field@.len() - i,
    {
        let byte: u64 = field[i] as u64;
        proof {
            let longer = digits.take(i + 1);
            assert(longer.drop_last() =~= digits.take(i as int));
            assert(longer.last() == byte);
            assert(be_value(longer) == 256 * value + byte);
            lemma_be_grows(digits, i + 1);
        }
        if value > (u64::MAX - byte) / 256 {
            assert(256 * value + byte > u64::MAX);
            return None;
        }
        value = value * 256 + byte;
        i = i + 1;
    }
    assert(digits.take(i as int) =~= digits);
    Some(value)
}

fn parse_octal(field: &[u8]) -> (r: Option<u64>)
    requires
        field@.len() > 0 ==> field@[0] < 128,
    ensures
        numeric(field@) == (match r {
            Some(v) => Some(v as nat),
            None => None,
        }),
{
    let mut start: usize = 0;
    while start < field.len() && (field[start] == 32 || field[start] == 0)
        invariant
            start <= field@.len(),
            run_start(field@, start as int) == run_start(field@, 0),
        decreases field@.len() - start,
    {
        start = start + 1;
    }
    let mut end: usize = start;
    while end < field.len() && field[end] != 32 && field[end] != 0
        invariant
            start <= end <= field@.len(),
            run_end(field@, end as int) == run_end(field@, start as int),
        decreases field@.len() - end,
    {
        end = end + 1;
    }
    let ghost run = field@.subrange(start as int, end as int);
    let mut value: u64 = 0;
    let mut i: usize = start;
    assert(run.take(0) =~= seq![]);
    while i < end
        invariant
            start <= i <= end <= field@.len(),
            run == field@.subrange(start as int, end as int),
            numeric(field@) == (if all_octal(run) {
                fits(octal_value(run))
            } else {
                None
            }),
            forall|j: int| 0 <= j < i - start ==> is_octal(#[trigger] run[j]),
            value == octal_value(run.take(i - start)),
        decreases end - i,
    {
        let byte: u8 = field[i];
        assert(run[i - start] == byte);
        if byte < 48 || byte > 55 {
            return None;
        }
        let d: u64 = (byte - 48) as u64;
        proof {
            let longer = run.take(i - start + 1);
            assert(longer.drop_last() =~= run.take(i - start));
            assert(longer.last() == byte);
            assert(octal_value(longer) == 8 * value + d);
            lemma_octal_grows(run, i - start + 1);
        }
        if value > (u64::MAX - d) / 8 {
            assert(8 * value + d > u64::MAX);
            assert(octal_value(run) > u64::MAX);
            return None;
        }
        value = value * 8 + d;
        i = i + 1;
    }
    assert(run.take(i - start) =~= run);
    Some(value)
}

/// Parse a tar numeric field: octal with NUL/space padding, or GNU
/// base-256 (high bit of the first byte set) for sizes beyond 8 GiB.
fn parse_numeric(field: &[u8], offset: usize, name: &'static str) -> (r: Result<u64, TarError>)
    ensures
        match numeric(field@) {
            Some(n) => r matches Ok(v) && v == n,
            None => r == Err::<u64, TarError>(TarError::BadField { offset, field: name }),
        },
{
    let value: Option<u64> = if field.len() > 0 && field[0] >= 128 {
        parse_base256(field)
    } else {
        parse_octal(field)
    };
    match value {
        Some(v) => Ok(v),
        None => Err(TarError::BadField { offset, field: name }),
    }
}

/// NUL-terminated string field, lossily decoded.
fn parse_str(field: &[u8]) -> (s: String)
    ensures
        s@ == cstr(field@),
{
    let end: usize = bytes::find_byte(field, 0, 0);
    assert(field@.take(end as int) =~= field@.subrange(0, end as int));
    text::decode(slice_subrange(field, 0, end))
}

/// Verify the header checksum; both the unsigned (POSIX) and the signed
/// (historic Sun tar) sums are accepted, matching GNU tar's behavior.
fn checksum_ok(block: &[u8], offset: usize) -> (r: Result<(), TarError>)
    requires
        block@.len() == 512,
    ensures
        r == (match numeric(block@.subrange(148, 156)) {
            None => Err::<(), TarError>(TarError::BadField { offset, field: "checksum" }),
            Some(stored) => if checksum_matches(block@, stored) {
                Ok(())
            } else {
                Err(TarError::BadChecksum { offset })
            },
        }),
{
    let stored: u64 = parse_numeric(slice_subrange(block, 148, 156), offset, "checksum")?;
    let mut unsigned: u64 = 0;
    let mut signed: i64 = 0;
    let mut i: usize = 0;
    while i < 512
        invariant
            i <= 512,
            block@.len() == 512,
            unsigned == unsigned_sum(block@, i as nat),
            signed == signed_sum(block@, i as nat),
            unsigned <= 255 * i,
            -128 * i <= signed <= 127 * i,
        decreases 512 - i,
    {
        let value: u8 = if i >= 148 && i < 156 {
            32
        } else {
            block[i]
        };
        unsigned = unsigned + value as u64;
        signed = signed + (if value >= 128 {
            value as i64 - 256
        } else {
            value as i64
        });
        i = i + 1;
    }
    if stored == unsigned || (signed >= 0 && stored == signed as u64) {
        Ok(())
    } else {
        Err(TarError::BadChecksum { offset })
    }
}

/// A PAX record: key and value.
pub type Record = (Seq<char>, Seq<char>);

/// The bytes of `data` as characters of the same value.
pub open spec fn latin1(data: Seq<u8>) -> Seq<char> {
    data.map_values(|b: u8| b as char)
}

/// The record `"<len> <key>=<value>\n"` at `pos`, where `<len>` counts the
/// whole record, and where it ends; or the name of the field that is broken.
pub open spec fn pax_record(data: Seq<u8>, pos: int) -> Result<(Record, int), &'static str> {
    let space = bytes::find(data, pos, 32);
    if space >= data.len() {
        Err("pax record length")
    } else {
        match text::decimal_value(latin1(data.subrange(pos, space))) {
            None => Err("pax record length"),
            Some(len) => if pos + len < space + 2 || pos + len > data.len() {
                Err("pax record length")
            } else if data[pos + len - 1] != 10 {
                Err("pax record terminator")
            } else {
                let body = data.subrange(space + 1, pos + len - 1);
                let eq = bytes::find(body, 0, 61);
                if eq >= body.len() {
                    Err("pax record")
                } else {
                    Ok(
                        (
                            (text::decoded(body.take(eq)), text::decoded(body.skip(eq + 1))),
                            pos + len,
                        ),
                    )
                }
            },
        }
    }
}

/// The records `acc` followed by those from `pos` on; a NUL ends them.
pub open spec fn pax_records(data: Seq<u8>, pos: int, acc: Seq<Record>) -> Result<
    Seq<Record>,
    &'static str,
>
    decreases data.len() - pos,
    via pax_records_decreases
{
    if pos < 0 || pos >= data.len() || data[pos] == 0 {
        Ok(acc)
    } else {
        match pax_record(data, pos) {
            Err(e) => Err(e),
            Ok((record, next)) => pax_records(data, next, acc.push(record)),
        }
    }
}

proof fn lemma_find(data: Seq<u8>, pos: int, byte: u8)
    requires
        0 <= pos <= data.len(),
    ensures
        pos <= bytes::find(data, pos, byte) <= data.len(),
    decreases data.len() - pos,
{
    if pos < data.len() && data[pos] != byte {
        lemma_find(data, pos + 1, byte);
    }
}

proof fn lemma_pax_record(data: Seq<u8>, pos: int)
    requires
        0 <= pos <= data.len(),
    ensures
        pax_record(data, pos) matches Ok((_, next)) ==> pos < next <= data.len(),
{
    lemma_find(data, pos, 32);
}

#[via_fn]
proof fn pax_records_decreases(data: Seq<u8>, pos: int, acc: Seq<Record>) {
    if 0 <= pos < data.len() {
        lemma_pax_record(data, pos);
    }
}

/// The records as views.
pub open spec fn record_views(records: Seq<(String, String)>) -> Seq<Record> {
    records.map_values(|r: (String, String)| (r.0@, r.1@))
}

/// The value of the last record with the given key.
pub open spec fn last_value(records: Seq<Record>, key: Seq<char>) -> Option<Seq<char>>
    decreases records.len(),
{
    if records.len() == 0 {
        None
    } else if records.last().0 == key {
        Some(records.last().1)
    } else {
        last_value(records.drop_last(), key)
    }
}

fn parse_len(data: &[u8], pos: usize, end: usize) -> (r: Option<u64>)
    requires
        pos <= end <= data@.len(),
    ensures
        r == (match text::decimal_value(latin1(data@.subrange(pos as int, end as int))) {
            Some(n) if n <= u64::MAX => Some(n as u64),
            _ => None,
        }),
{
    let mut chars: Vec<char> = Vec::new();
    let mut i: usize = pos;
    while i < end
        invariant
            pos <= i <= end <= data@.len(),
            chars@ == latin1(data@.subrange(pos as int, i as int)),
        decreases end - i,
    {
        chars.push(data[i] as char);
        i = i + 1;
        assert(chars@ =~= latin1(data@.subrange(pos as int, i as int)));
    }
    text::parse_decimal(chars.as_slice())
}

/// Parse the record at `pos`.
fn parse_record(data: &[u8], pos: usize) -> (r: Result<((String, String), usize), &'static str>)
    requires
        pos <= data@.len(),
    ensures
        match r {
            Ok((record, next)) => pax_record(data@, pos as int) == Ok::<
                (Record, int),
                &'static str,
            >(((record.0@, record.1@), next as int)),
            Err(e) => pax_record(data@, pos as int) == Err::<(Record, int), &'static str>(e),
        },
{
    let space: usize = bytes::find_byte(data, pos, 32);
    if space >= data.len() {
        return Err("pax record length");
    }
    let len: usize = match parse_len(data, pos, space) {
        Some(len) if len <= (data.len() - pos) as u64 => len as usize,
        _ => return Err("pax record length"),
    };
    if len < 2 || len - 2 < space - pos {
        return Err("pax record length");
    }
    let end: usize = pos + len;
    if data[end - 1] != 10 {
        return Err("pax record terminator");
    }
    let body = slice_subrange(data, space + 1, end - 1);
    let eq: usize = bytes::find_byte(body, 0, 61);
    if eq >= body.len() {
        return Err("pax record");
    }
    proof {
        assert(body@.take(eq as int) =~= body@.subrange(0, eq as int));
        assert(body@.skip(eq + 1) =~= body@.subrange(eq + 1, body@.len() as int));
    }
    let key = text::decode(slice_subrange(body, 0, eq));
    let value = text::decode(slice_subrange(body, eq + 1, body.len()));
    Ok(((key, value), end))
}

/// Parse PAX extended-header records: `"<len> <key>=<value>\n"` repeated,
/// where `<len>` counts the whole record including itself. They are added
/// to `records`.
pub(crate) fn parse_pax(
    data: &[u8],
    offset: usize,
    records: &mut Vec<(String, String)>,
) -> (r: Result<(), TarError>)
    ensures
        match r {
            Ok(()) => pax_records(data@, 0, record_views(old(records)@)) == Ok::<
                Seq<Record>,
                &'static str,
            >(record_views(final(records)@)),
            Err(e) => pax_records(data@, 0, record_views(old(records)@)) matches Err(field) && e
                == (TarError::BadField { offset, field }),
        },
{
    let ghost goal = pax_records(data@, 0, record_views(records@));
    let mut pos: usize = 0;
    while pos < data.len()
        invariant
            pos <= data@.len(),
            goal == pax_records(data@, 0, record_views(old(records)@)),
            goal == pax_records(data@, pos as int, record_views(records@)),
        decreases data@.len() - pos,
    {
        // Tolerate NUL padding after the last record.
        if data[pos] == 0 {
            return Ok(());
        }
        proof {
            lemma_pax_record(data@, pos as int);
        }
        match parse_record(data, pos) {
            Ok((record, next)) => {
                let ghost before = records@;
                records.push(record);
                assert(record_views(records@) =~= record_views(before).push(
                    (record.0@, record.1@),
                ));
                pos = next;
            },
            Err(field) => return Err(TarError::BadField { offset, field }),
        }
    }
    Ok(())
}

/// The position of the last record with the given key.
fn find_last<'a>(records: &'a Vec<(String, String)>, key: &str) -> (r: Option<&'a String>)
    ensures
        last_value(record_views(records@), key@) == (match r {
            Some(s) => Some(s@),
            None => None,
        }),
{
    let ghost views = record_views(records@);
    let mut i: usize = records.len();
    assert(views.take(i as int) =~= views);
    while i > 0
        invariant
            i <= records@.len(),
            views == record_views(records@),
            last_value(views, key@) == last_value(views.take(i as int), key@),
        decreases i,
    {
        let ghost part = views.take(i as int);
        proof {
            assert(part.drop_last() =~= views.take(i - 1));
            assert(part.last() == (records@[i - 1].0@, records@[i - 1].1@));
        }
        i = i - 1;
        if text::same(records[i].0.as_str(), key) {
            return Some(&records[i].1);
        }
    }
    None
}

/// What the reader carries from header to header.
#[verifier::ext_equal]
pub struct Progress {
    /// The entries read so far.
    pub entries: Seq<EntryView>,
    /// A GNU long name for the next entry.
    pub long_name: Option<Seq<char>>,
    /// A GNU long link target for the next entry.
    pub long_link: Option<Seq<char>>,
    /// PAX records for the next entry.
    pub pax: Seq<Record>,
}

/// Nothing read yet.
pub open spec fn fresh() -> Progress {
    Progress { entries: seq![], long_name: None, long_link: None, pax: seq![] }
}

/// Does the header describe the next entry rather than an entry of its own?
pub open spec fn is_meta(typeflag: u8) -> bool {
    typeflag == 76 || typeflag == 75 || typeflag == 120 || typeflag == 103
}

/// What a header's type flag creates.
pub open spec fn kind_of(typeflag: u8, name: Seq<char>) -> EntryKind {
    if typeflag == 48 || typeflag == 0 || typeflag == 55 {
        if text::ends_in(name, '/') {
            EntryKind::Dir
        } else {
            EntryKind::File
        }
    } else if typeflag == 49 {
        EntryKind::Hardlink
    } else if typeflag == 50 {
        EntryKind::Symlink
    } else if typeflag == 51 {
        EntryKind::CharDevice
    } else if typeflag == 52 {
        EntryKind::BlockDevice
    } else if typeflag == 53 {
        EntryKind::Dir
    } else if typeflag == 54 {
        EntryKind::Fifo
    } else {
        EntryKind::Other(typeflag as char)
    }
}

/// The name in the header itself: the name field, behind the prefix field
/// where the POSIX magic says there is one.
pub open spec fn header_name(block: Seq<u8>) -> Seq<char> {
    let name = cstr(block.subrange(0, 100));
    let prefix = cstr(block.subrange(345, 500));
    if bytes::reads(block, 257, seq![117, 115, 116, 97, 114, 0]) && prefix.len() > 0 {
        prefix + "/"@ + name
    } else {
        name
    }
}

/// `a` where there is one, otherwise `b`.
pub open spec fn or_else<T>(a: Option<T>, b: T) -> T {
    match a {
        Some(v) => v,
        None => b,
    }
}

/// The entry's name: a PAX path wins over a GNU long name, which wins over
/// the header.
pub open spec fn name_of(block: Seq<u8>, p: Progress) -> Seq<char> {
    or_else(last_value(p.pax, "path"@), or_else(p.long_name, header_name(block)))
}

/// The entry's link target, by the same precedence.
pub open spec fn link_of(block: Seq<u8>, p: Progress) -> Seq<char> {
    or_else(
        last_value(p.pax, "linkpath"@),
        or_else(p.long_link, cstr(block.subrange(157, 257))),
    )
}

/// The entry that a header describes; `None` where its mode is unreadable.
pub open spec fn entry_of(block: Seq<u8>, size: nat, p: Progress) -> Option<EntryView> {
    let name = name_of(block, p);
    let link = link_of(block, p);
    let kind = kind_of(block[156], name);
    match numeric(block.subrange(100, 108)) {
        None => None,
        Some(mode) => Some(
            EntryView {
                path: name,
                kind,
                mode: Some((mode % 4096) as u32),
                link_target: if link.len() > 0 || kind == EntryKind::Symlink || kind
                    == EntryKind::Hardlink {
                    Some(link)
                } else {
                    None
                },
                size: size as u64,
            },
        ),
    }
}

/// `size` rounded up to whole blocks.
pub open spec fn padded(size: nat) -> nat {
    (size + 511) / 512 * 512
}

/// The payload size of the header at `offset`: a PAX size record wins over
/// the size field, except on the headers that carry such records.
pub open spec fn payload_size(block: Seq<u8>, offset: usize, p: Progress) -> Result<
    nat,
    TarError,
> {
    match numeric(block.subrange(124, 136)) {
        None => Err(TarError::BadField { offset, field: "size" }),
        Some(stored) => {
            let size = match last_value(p.pax, "size"@) {
                Some(value) if !is_meta(block[156]) => match text::decimal_value(value) {
                    Some(n) if n <= u64::MAX => Ok(n),
                    _ => Err(TarError::BadField { offset, field: "pax size" }),
                },
                _ => Ok(stored),
            };
            match size {
                Ok(n) if n + 511 > u64::MAX => Err(TarError::BadField { offset, field: "size" }),
                other => other,
            }
        },
    }
}

/// One header and its payload.
pub open spec fn step(data: Seq<u8>, offset: int, p: Progress) -> Result<
    (Progress, int),
    TarError,
> {
    let at = offset as usize;
    let block = data.subrange(offset, offset + 512);
    match numeric(block.subrange(148, 156)) {
        None => Err(TarError::BadField { offset: at, field: "checksum" }),
        Some(stored) => if !checksum_matches(block, stored) {
            Err(TarError::BadChecksum { offset: at })
        } else {
            match payload_size(block, at, p) {
                Err(e) => Err(e),
                Ok(size) => {
                    let next = offset + 512 + padded(size);
                    let payload = data.subrange(offset + 512, offset + 512 + size);
                    if next > data.len() {
                        Err(TarError::Truncated { offset: at })
                    } else if block[156] == 76 {
                        Ok((Progress { long_name: Some(cstr(payload)), ..p }, next))
                    } else if block[156] == 75 {
                        Ok((Progress { long_link: Some(cstr(payload)), ..p }, next))
                    } else if block[156] == 120 || block[156] == 103 {
                        match pax_records(payload, 0, p.pax) {
                            Err(field) => Err(TarError::BadField { offset: at, field }),
                            Ok(pax) => Ok((Progress { pax, ..p }, next)),
                        }
                    } else {
                        match entry_of(block, size, p) {
                            None => Err(TarError::BadField { offset: at, field: "mode" }),
                            Some(entry) => Ok(
                                (Progress { entries: p.entries.push(entry), ..fresh() }, next),
                            ),
                        }
                    }
                },
            }
        },
    }
}

/// All entries from `offset` on, behind those already read. A zero block or
/// the end of the input ends the archive; a header that is cut short is an
/// error.
pub open spec fn entries_from(data: Seq<u8>, offset: int, p: Progress) -> Result<
    Seq<EntryView>,
    TarError,
>
    decreases data.len() - offset,
    via entries_from_decreases
{
    if offset < 0 || offset + 512 > data.len() {
        if bytes::all_zero(data.skip(offset)) {
            Ok(p.entries)
        } else {
            Err(TarError::Truncated { offset: offset as usize })
        }
    } else if bytes::all_zero(data.subrange(offset, offset + 512)) {
        Ok(p.entries)
    } else {
        match step(data, offset, p) {
            Err(e) => Err(e),
            Ok((more, next)) => entries_from(data, next, more),
        }
    }
}

/// The entries of a tar archive.
pub open spec fn tar_entries(data: Seq<u8>) -> Result<Seq<EntryView>, TarError> {
    entries_from(data, 0, fresh())
}

#[via_fn]
proof fn entries_from_decreases(data: Seq<u8>, offset: int, p: Progress) {
}

fn kind_for(typeflag: u8, name: &str) -> (r: EntryKind)
    ensures
        r == kind_of(typeflag, name@),
{
    match typeflag {
        48 | 0 | 55 => {
            // Pre-ustar archives mark directories with a trailing slash.
            if text::ends_with(name, '/') {
                EntryKind::Dir
            } else {
                EntryKind::File
            }
        },
        49 => EntryKind::Hardlink,
        50 => EntryKind::Symlink,
        51 => EntryKind::CharDevice,
        52 => EntryKind::BlockDevice,
        53 => EntryKind::Dir,
        54 => EntryKind::Fifo,
        other => EntryKind::Other(other as char),
    }
}

/// The reader's running state.
struct Reader {
    entries: Vec<Entry>,
    // GNU 'L'/'K' and PAX 'x' records override fields of the *next* entry.
    long_name: Option<String>,
    long_link: Option<String>,
    pax: Vec<(String, String)>,
}

impl Reader {
    spec fn progress(&self) -> Progress {
        Progress {
            entries: entry::entry_views(self.entries@),
            long_name: entry::text_view(self.long_name),
            long_link: entry::text_view(self.long_link),
            pax: record_views(self.pax@),
        }
    }

    /// The size of the payload behind `block`.
    fn payload_size(&self, block: &[u8], offset: usize) -> (r: Result<u64, TarError>)
        requires
            block@.len() == 512,
        ensures
            match payload_size(block@, offset, self.progress()) {
                Ok(n) => r matches Ok(v) && v == n && n + 511 <= u64::MAX,
                Err(e) => r == Err::<u64, TarError>(e),
            },
    {
        let mut size: u64 = parse_numeric(slice_subrange(block, 124, 136), offset, "size")?;
        let typeflag: u8 = block[156];
        // PAX may override the size used to locate the next header.
        if typeflag != 120 && typeflag != 103 && typeflag != 76 && typeflag != 75 {
            if let Some(value) = find_last(&self.pax, "size") {
                let chars = text::chars_of(value.as_str());
                size = match text::parse_decimal(chars.as_slice()) {
                    Some(n) => n,
                    None => return Err(TarError::BadField { offset, field: "pax size" }),
                };
            }
        }
        if size > u64::MAX - 511 {
            return Err(TarError::BadField { offset, field: "size" });
        }
        Ok(size)
    }

    /// The name of the entry behind `block`.
    fn name(&self, block: &[u8]) -> (r: String)
        requires
            block@.len() == 512,
        ensures
            r@ == name_of(block@, self.progress()),
    {
        if let Some(path) = find_last(&self.pax, "path") {
            return path.clone();
        }
        if let Some(long) = &self.long_name {
            return long.clone();
        }
        let name = parse_str(slice_subrange(block, 0, 100));
        // ustar prefix field (POSIX magic only; GNU reuses the space for
        // other fields).
        let magic: [u8; 6] = [117, 115, 116, 97, 114, 0];
        assert(magic@ =~= seq![117, 115, 116, 97, 114, 0]);
        if bytes::matches_at(block, 257, magic.as_slice()) {
            let prefix = parse_str(slice_subrange(block, 345, 500));
            if prefix.as_str().unicode_len() > 0 {
                let mut full = prefix;
                full.append("/");
                full.append(name.as_str());
                return full;
            }
        }
        name
    }

    /// The link target of the entry behind `block`.
    fn link(&self, block: &[u8]) -> (r: String)
        requires
            block@.len() == 512,
        ensures
            r@ == link_of(block@, self.progress()),
    {
        if let Some(path) = find_last(&self.pax, "linkpath") {
            return path.clone();
        }
        if let Some(long) = &self.long_link {
            return long.clone();
        }
        parse_str(slice_subrange(block, 157, 257))
    }

    /// Add the entry that `block` describes.
    fn add_entry(&mut self, block: &[u8], offset: usize, size: u64) -> (r: Result<(), TarError>)
        requires
            block@.len() == 512,
        ensures
            match entry_of(block@, size as nat, old(self).progress()) {
                None => r == Err::<(), TarError>(TarError::BadField { offset, field: "mode" }),
                Some(e) => {
                    &&& r is Ok
                    &&& final(self).progress() == Progress {
                        entries: old(self).progress().entries.push(e),
                        ..fresh()
                    }
                },
            },
    {
        let name = self.name(block);
        let link = self.link(block);
        let kind = kind_for(block[156], name.as_str());
        let mode: u64 = parse_numeric(slice_subrange(block, 100, 108), offset, "mode")?;
        let link_target: Option<String> = if link.as_str().unicode_len() > 0 || kind
            == EntryKind::Symlink || kind == EntryKind::Hardlink {
            Some(link)
        } else {
            None
        };
        let new = Entry {
            path: name,
            kind,
            mode: Some((mode % 4096) as u32),
            link_target,
            size,
        };
        let ghost before = self.entries@;
        self.entries.push(new);
        self.long_name = None;
        self.long_link = None;
        self.pax = Vec::new();
        proof {
            assert(entry::entry_views(self.entries@) =~= entry::entry_views(before).push(new@));
            assert(record_views(self.pax@) =~= seq![]);
        }
        Ok(())
    }

    /// Read the header at `offset`; returns where the next one starts.
    fn read_header(&mut self, data: &[u8], offset: usize) -> (r: Result<usize, TarError>)
        requires
            offset + 512 <= data@.len(),
        ensures
            match r {
                Ok(next) => step(data@, offset as int, old(self).progress()) == Ok::<
                    (Progress, int),
                    TarError,
                >((final(self).progress(), next as int)),
                Err(e) => step(data@, offset as int, old(self).progress()) == Err::<
                    (Progress, int),
                    TarError,
                >(e),
            },
    {
        let total: usize = data.len();
        let block = slice_subrange(data, offset, offset + 512);
        checksum_ok(block, offset)?;
        let size: u64 = self.payload_size(block, offset)?;
        let padded: u64 = (size + 511) / 512 * 512;
        let start: usize = offset + 512;
        if padded > (total - start) as u64 {
            return Err(TarError::Truncated { offset });
        }
        let next: usize = start + padded as usize;
        let payload = slice_subrange(data, start, start + size as usize);
        let typeflag: u8 = block[156];
        if typeflag == 76 {
            self.long_name = Some(parse_str(payload));
        } else if typeflag == 75 {
            self.long_link = Some(parse_str(payload));
        } else if typeflag == 120 || typeflag == 103 {
            // Global ('g') records are treated like per-entry ones;
            // real-world archives use them for the same keys.
            parse_pax(payload, offset, &mut self.pax)?;
        } else {
            self.add_entry(block, offset, size)?;
        }
        Ok(next)
    }
}

/// Read all entries from a tar archive held in memory.
pub fn read_entries(data: &[u8]) -> (r: Result<Vec<Entry>, TarError>)
    ensures
        match r {
            Ok(entries) => tar_entries(data@) == Ok::<Seq<EntryView>, TarError>(
                entry::entry_views(entries@),
            ),
            Err(e) => tar_entries(data@) == Err::<Seq<EntryView>, TarError>(e),
        },
{
    let mut reader = Reader {
        entries: Vec::new(),
        long_name: None,
        long_link: None,
        pax: Vec::new(),
    };
    let mut offset: usize = 0;
    assert(reader.progress() =~= fresh());
    while data.len() - offset >= 512
        invariant
            offset <= data@.len(),
            tar_entries(data@) == entries_from(data@, offset as int, reader.progress()),
        decreases data@.len() - offset,
    {
        if bytes::only_zeros(slice_subrange(data, offset, offset + 512)) {
            return Ok(reader.entries);
        }
        offset = reader.read_header(data, offset)?;
    }
    assert(data@.skip(offset as int) =~= data@.subrange(offset as int, data@.len() as int));
    if !bytes::only_zeros(slice_subrange(data, offset, data.len())) {
        return Err(TarError::Truncated { offset });
    }
    Ok(reader.entries)
}

} // verus!
