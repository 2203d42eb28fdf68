//! Archive format detection by magic bytes — never by file extension,
//! because attackers pick the extension.
use vstd::prelude::*;
use vstd::slice::*;

use crate::bytes;
use crate::tar;
use crate::text;

verus! {

/// The supported archive formats.
#[derive(Debug, Clone, Copy, PartialEq, Eq, Structural)]
pub enum Format {
    /// A plain tar archive.
    Tar,
    /// A gzip-compressed tar archive.
    TarGz,
    /// A zip archive.
    Zip,
}

/// What [`Format::label`] calls each format.
pub open spec fn format_label(format: Format) -> Seq<char> {
    match format {
        Format::Tar => "tar"@,
        Format::TarGz => "tar.gz"@,
        Format::Zip => "zip"@,
    }
}

/// The format that a `--format` value names.
pub open spec fn flag_format(flag: Seq<char>) -> Option<Format> {
    if flag == "tar"@ {
        Some(Format::Tar)
    } else if flag == "tar.gz"@ || flag == "tgz"@ {
        Some(Format::TarGz)
    } else if flag == "zip"@ {
        Some(Format::Zip)
    } else {
        None
    }
}

impl Format {
    /// Short name of the format.
    pub fn label(self) -> (r: &'static str)
        ensures
            r@ == format_label(self),
    {
        match self {
            Format::Tar => "tar",
            Format::TarGz => "tar.gz",
            Format::Zip => "zip",
        }
    }

    /// Parse a `--format` flag value.
    pub fn from_flag(flag: &str) -> (r: Option<Format>)
        ensures
            r == flag_format(flag@),
    {
        if text::same(flag, "tar") {
            Some(Format::Tar)
        } else if text::same(flag, "tar.gz") || text::same(flag, "tgz") {
            Some(Format::TarGz)
        } else if text::same(flag, "zip") {
            Some(Format::Zip)
        } else {
            None
        }
    }
}

/// Every format is selected by its own label.
pub proof fn law_label_selects_the_format(format: Format)
    ensures
        flag_format(format_label(format)) == Some(format),
{
    reveal_strlit("tar");
    reveal_strlit("tar.gz");
    reveal_strlit("tgz");
    reveal_strlit("zip");
    assert("tar"@.len() != "tar.gz"@.len());
    assert("zip"@[0] != "tar"@[0]);
    assert("zip"@[0] != "tgz"@[0]);
    assert("zip"@.len() != "tar.gz"@.len());
}

/// Does `data` start like a gzip stream?
pub open spec fn gzip_magic(data: Seq<u8>) -> bool {
    bytes::reads(data, 0, seq![0x1F, 0x8B])
}

/// Does `data` start like a zip archive: with a local header, or with an end
/// record where it is empty?
pub open spec fn zip_magic(data: Seq<u8>) -> bool {
    ||| bytes::reads(data, 0, seq![0x50, 0x4B, 0x03, 0x04])
    ||| bytes::reads(data, 0, seq![0x50, 0x4B, 0x05, 0x06])
    ||| bytes::reads(data, 0, seq![0x50, 0x4B, 0x06, 0x06])
}

/// The first position from `i` on that is no octal digit.
pub open spec fn octal_end(data: Seq<u8>, i: int) -> int
    decreases data.len() - i,
{
    if 0 <= i < data.len() && tar::is_octal(data[i]) {
        octal_end(data, i + 1)
    } else {
        i
    }
}

/// The leading octal number of a padded field.
pub open spec fn leading_octal(field: Seq<u8>) -> nat {
    let start = tar::run_start(field, 0);
    tar::octal_value(field.subrange(start, octal_end(field, start)))
}

/// Does the first header carry its own (unsigned) checksum?
pub open spec fn first_checksum_holds(block: Seq<u8>) -> bool {
    let stored = leading_octal(block.subrange(148, 156));
    stored != 0 && stored == tar::unsigned_sum(block, 512)
}

/// Tar has no leading magic; ustar archives carry "ustar" at offset 257,
/// and pre-POSIX archives are recognized by a valid first-header checksum.
pub open spec fn tar_like(data: Seq<u8>) -> bool {
    let block = data.take(512);
    data.len() >= 512 && (bytes::reads(data, 257, seq![117, 115, 116, 97, 114]) || (
    !bytes::all_zero(block) && first_checksum_holds(block)))
}

/// The format of `data`, by content alone.
pub open spec fn detected(data: Seq<u8>) -> Option<Format> {
    if gzip_magic(data) {
        Some(Format::TarGz)
    } else if zip_magic(data) {
        Some(Format::Zip)
    } else if tar_like(data) {
        Some(Format::Tar)
    } else {
        None
    }
}

/// Detect the archive format from content.
pub fn detect(data: &[u8]) -> (r: Option<Format>)
    ensures
        r == detected(data@),
{
    let gzip: [u8; 2] = [0x1F, 0x8B];
    let local: [u8; 4] = [0x50, 0x4B, 0x03, 0x04];
    let end: [u8; 4] = [0x50, 0x4B, 0x05, 0x06];
    let end64: [u8; 4] = [0x50, 0x4B, 0x06, 0x06];
    proof {
        assert(gzip@ =~= seq![0x1F, 0x8B]);
        assert(local@ =~= seq![0x50, 0x4B, 0x03, 0x04]);
        assert(end@ =~= seq![0x50, 0x4B, 0x05, 0x06]);
        assert(end64@ =~= seq![0x50, 0x4B, 0x06, 0x06]);
    }
    if bytes::matches_at(data, 0, gzip.as_slice()) {
        return Some(Format::TarGz);
    }
    if bytes::matches_at(data, 0, local.as_slice()) || bytes::matches_at(data, 0, end.as_slice())
        || bytes::matches_at(data, 0, end64.as_slice()) {
        return Some(Format::Zip);
    }
    if looks_like_tar(data) {
        return Some(Format::Tar);
    }
    None
}

fn looks_like_tar(data: &[u8]) -> (r: bool)
    ensures
        r == tar_like(data@),
{
    if data.len() < 512 {
        return false;
    }
    let ustar: [u8; 5] = [117, 115, 116, 97, 114];
    assert(ustar@ =~= seq![117, 115, 116, 97, 114]);
    if bytes::matches_at(data, 257, ustar.as_slice()) {
        return true;
    }
    let block = slice_subrange(data, 0, 512);
    assert(block@ =~= data@.take(512));
    // Reject the all-zero block: an empty file of NULs is not an archive.
    if bytes::only_zeros(block) {
        return false;
    }
    first_header_checksum_ok(block)
}

fn first_header_checksum_ok(block: &[u8]) -> (r: bool)
    requires
        block@.len() == 512,
    ensures
        r == first_checksum_holds(block@),
{
    let field = slice_subrange(block, 148, 156);
    let mut start: usize = 0;
    while start < 8 && (field[start] == 32 || field[start] == 0)
        invariant
            field@.len() == 8,
            start <= 8,
            tar::run_start(field@, start as int) == tar::run_start(field@, 0),
        decreases 8 - start,
    {
        start = start + 1;
    }
    let mut end: usize = start;
    let mut stored: u64 = 0;
    assert(field@.subrange(start as int, start as int) =~= seq![]);
    while end < 8 && field[end] >= 48 && field[end] <= 55
        invariant
            field@.len() == 8,
            start <= end <= 8,
            octal_end(field@, end as int) == octal_end(field@, start as int),
            stored == tar::octal_value(field@.subrange(start as int, end as int)),
            end - start <= 0 ==> stored < 1,
            end - start <= 1 ==> stored < 0o10,
            end - start <= 2 ==> stored < 0o100,
            end - start <= 3 ==> stored < 0o1000,
            end - start <= 4 ==> stored < 0o10000,
            end - start <= 5 ==> stored < 0o100000,
            end - start <= 6 ==> stored < 0o1000000,
            end - start <= 7 ==> stored < 0o10000000,
            stored < 0o100000000,
        decreases 8 - end,
    {
        proof {
            let longer = field@.subrange(start as int, end + 1);
            assert(longer.drop_last() =~= field@.subrange(start as int, end as int));
            assert(longer.last() == field@[end as int]);
        }
        stored = stored * 8 + (field[end] - 48) as u64;
        end = end + 1;
    }
    let mut sum: u64 = 0;
    let mut i: usize = 0;
    while i < 512
        invariant
            i <= 512,
            block@.len() == 512,
            sum == tar::unsigned_sum(block@, i as nat),
            sum <= 255 * i,
        decreases 512 - i,
    {
        sum = sum + (if i >= 148 && i < 156 {
            32
        } else {
            block[i] as u64
        });
        i = i + 1;
    }
    stored != 0 && stored == sum
}

proof fn lemma_octal_run(field: Seq<u8>, i: int)
    requires
        0 <= i <= field.len(),
        tar::all_octal(field.subrange(i, tar::run_end(field, i))),
    ensures
        octal_end(field, i) == tar::run_end(field, i),
        i <= tar::run_end(field, i) <= field.len(),
    decreases field.len() - i,
{
    if i < field.len() && !tar::blank(field[i]) {
        let end = tar::run_end(field, i);
        lemma_run_end(field, i + 1);
        let run = field.subrange(i, end);
        assert(run[0] == field[i]);
        assert(tar::all_octal(field.subrange(i + 1, end))) by {
            let rest = field.subrange(i + 1, end);
            assert forall|j: int| 0 <= j < rest.len() implies tar::is_octal(#[trigger] rest[j]) by {
                assert(rest[j] == run[j + 1]);
            }
        }
        lemma_octal_run(field, i + 1);
    }
}

proof fn lemma_run_end(field: Seq<u8>, i: int)
    requires
        0 <= i <= field.len(),
    ensures
        i <= tar::run_end(field, i) <= field.len(),
    decreases field.len() - i,
{
    if i < field.len() && !tar::blank(field[i]) {
        lemma_run_end(field, i + 1);
    }
}

proof fn lemma_run_start(field: Seq<u8>, i: int)
    requires
        0 <= i <= field.len(),
    ensures
        i <= tar::run_start(field, i) <= field.len(),
    decreases field.len() - i,
{
    if i < field.len() && tar::blank(field[i]) {
        lemma_run_start(field, i + 1);
    }
}

proof fn lemma_sum_of_spaces(block: Seq<u8>, n: nat)
    ensures
        tar::unsigned_sum(block, n) >= 0,
        n >= 156 ==> tar::unsigned_sum(block, n) >= 32,
    decreases n,
{
    if n > 0 {
        lemma_sum_of_spaces(block, (n - 1) as nat);
    }
}

/// Detection agrees with the reader: a first header whose octal checksum the
/// tar reader accepts in the unsigned convention is detected as tar, unless
/// a gzip or zip magic comes first.
pub proof fn law_readable_first_header_is_detected(data: Seq<u8>)
    requires
        data.len() >= 512,
        !gzip_magic(data),
        !zip_magic(data),
        !bytes::all_zero(data.take(512)),
        data[148] < 128,
        tar::numeric(data.take(512).subrange(148, 156)) matches Some(stored) && stored
            == tar::unsigned_sum(data.take(512), 512),
    ensures
        detected(data) == Some(Format::Tar),
{
    let block = data.take(512);
    let field = block.subrange(148, 156);
    assert(field[0] == data[148]);
    let start = tar::run_start(field, 0);
    lemma_run_start(field, 0);
    lemma_octal_run(field, start);
    lemma_sum_of_spaces(block, 512);
}

/// Does `data` start with these four bytes?
pub open spec fn starts_with_four(data: Seq<u8>, a: u8, b: u8, c: u8, d: u8) -> bool {
    data.len() >= 4 && data[0] == a && data[1] == b && data[2] == c && data[3] == d
}

/// Content alone decides: the gzip magic makes it tar.gz; a zip local header,
/// end record or ZIP64 end record makes it zip; failing these, "ustar" at 257
/// in a whole block makes it tar. Shorter input and input of nothing but NULs
/// is nothing.
pub proof fn law_magic_decides(data: Seq<u8>)
    ensures
        ({
            let gzip = data.len() >= 2 && data[0] == 0x1F && data[1] == 0x8B;
            let zip = starts_with_four(data, 0x50, 0x4B, 3, 4) || starts_with_four(
                data,
                0x50,
                0x4B,
                5,
                6,
            ) || starts_with_four(data, 0x50, 0x4B, 6, 6);
            let ustar = data.len() >= 512 && data[257] == 117 && data[258] == 115 && data[259]
                == 116 && data[260] == 97 && data[261] == 114;
            &&& gzip <==> detected(data) == Some(Format::TarGz)
            &&& zip <==> detected(data) == Some(Format::Zip)
            &&& !gzip && !zip && ustar ==> detected(data) == Some(Format::Tar)
            &&& !gzip && !zip && data.len() < 512 ==> detected(data) is None
            &&& bytes::all_zero(data) ==> detected(data) is None
        }),
{
    if data.len() >= 2 {
        let two = data.subrange(0, 2);
        assert(two[0] == data[0] && two[1] == data[1]);
        if data[0] == 0x1F && data[1] == 0x8B {
            assert(two =~= seq![0x1Fu8, 0x8B]);
        }
    }
    if data.len() >= 4 {
        let four = data.subrange(0, 4);
        assert(four[0] == data[0] && four[1] == data[1] && four[2] == data[2] && four[3]
            == data[3]);
        if starts_with_four(data, 0x50, 0x4B, 3, 4) {
            assert(four =~= seq![0x50u8, 0x4B, 0x03, 0x04]);
        }
        if starts_with_four(data, 0x50, 0x4B, 5, 6) {
            assert(four =~= seq![0x50u8, 0x4B, 0x05, 0x06]);
        }
        if starts_with_four(data, 0x50, 0x4B, 6, 6) {
            assert(four =~= seq![0x50u8, 0x4B, 0x06, 0x06]);
        }
    }
    if data.len() >= 512 {
        let five = data.subrange(257, 262);
        assert(five[0] == data[257] && five[1] == data[258] && five[2] == data[259] && five[3]
            == data[260] && five[4] == data[261]);
        if data[257] == 117 && data[258] == 115 && data[259] == 116 && data[260] == 97 && data[261]
            == 114 {
            assert(five =~= seq![117u8, 115, 116, 97, 114]);
        }
        if bytes::all_zero(data) {
            let block = data.take(512);
            assert forall|i: int| 0 <= i < block.len() implies #[trigger] block[i] == 0 by {
                assert(block[i] == data[i]);
            }
        }
    }
}

} // verus!
