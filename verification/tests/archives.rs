//! The readers, detection and scanning on archives built byte by byte.
use slipcheck::cli::{Action, ScanRun};
use slipcheck::entry::EntryKind;
use slipcheck::findings::{Check, Severity};
use slipcheck::format::{detect, Format};
use slipcheck::gzip::{self, crc32, GzipError};
use slipcheck::inflate::InflateError;
use slipcheck::scan::{scan_bytes, ScanError, ScanOptions};
use slipcheck::tar::{self, TarError};
use slipcheck::zip::{self, ZipError};

/// Wrap a payload in a valid single-member gzip stream using stored
/// (uncompressed) deflate blocks.
fn gzip_wrap(payload: &[u8]) -> Vec<u8> {
    let mut out = vec![0x1F, 0x8B, 8, 0, 0, 0, 0, 0, 0, 0xFF];
    out.extend_from_slice(&deflate_stored(payload));
    out.extend_from_slice(&crc32(payload).to_le_bytes());
    out.extend_from_slice(&(payload.len() as u32).to_le_bytes());
    out
}

/// Encode a payload as stored deflate blocks (no compression).
fn deflate_stored(payload: &[u8]) -> Vec<u8> {
    let mut out = Vec::new();
    let mut chunks = payload.chunks(0xFFFF).peekable();
    if payload.is_empty() {
        out.extend_from_slice(&[0x01, 0, 0, 0xFF, 0xFF]);
        return out;
    }
    while let Some(chunk) = chunks.next() {
        let bfinal = if chunks.peek().is_none() { 1u8 } else { 0u8 };
        out.push(bfinal);
        out.extend_from_slice(&(chunk.len() as u16).to_le_bytes());
        out.extend_from_slice(&(!(chunk.len() as u16)).to_le_bytes());
        out.extend_from_slice(chunk);
    }
    out
}

// ---------------------------------------------------------------- tar ---

struct TarBuilder {
    data: Vec<u8>,
}

fn write_octal(field: &mut [u8], value: u64) {
    let s = format!("{:0width$o}\0", value, width = field.len() - 1);
    field.copy_from_slice(s.as_bytes());
}

/// Build one 512-byte ustar header block.
fn tar_header(name: &str, typeflag: u8, mode: u32, size: u64, link: &str) -> [u8; 512] {
    let mut block = [0u8; 512];
    block[..name.len().min(100)].copy_from_slice(&name.as_bytes()[..name.len().min(100)]);
    write_octal(&mut block[100..108], mode as u64);
    write_octal(&mut block[108..116], 0); // uid
    write_octal(&mut block[116..124], 0); // gid
    write_octal(&mut block[124..136], size);
    write_octal(&mut block[136..148], 0); // mtime
    block[156] = typeflag;
    block[157..157 + link.len().min(100)].copy_from_slice(&link.as_bytes()[..link.len().min(100)]);
    block[257..263].copy_from_slice(b"ustar\0");
    block[263..265].copy_from_slice(b"00");
    // Checksum: computed with the checksum field itself as spaces.
    block[148..156].copy_from_slice(b"        ");
    let sum: u64 = block.iter().map(|&b| b as u64).sum();
    let chk = format!("{sum:06o}\0 ");
    block[148..156].copy_from_slice(chk.as_bytes());
    block
}

impl TarBuilder {
    fn new() -> TarBuilder {
        TarBuilder { data: Vec::new() }
    }

    fn raw(mut self, name: &str, typeflag: u8, mode: u32, link: &str, content: &[u8]) -> Self {
        self.data.extend_from_slice(&tar_header(
            name,
            typeflag,
            mode,
            content.len() as u64,
            link,
        ));
        self.data.extend_from_slice(content);
        let pad = (512 - content.len() % 512) % 512;
        self.data.extend_from_slice(&vec![0u8; pad]);
        self
    }

    fn file(self, name: &str, content: &[u8]) -> Self {
        self.raw(name, b'0', 0o644, "", content)
    }

    fn file_mode(self, name: &str, mode: u32, content: &[u8]) -> Self {
        self.raw(name, b'0', mode, "", content)
    }

    fn dir(self, name: &str) -> Self {
        self.raw(name, b'5', 0o755, "", &[])
    }

    fn symlink(self, name: &str, target: &str) -> Self {
        self.raw(name, b'2', 0o777, target, &[])
    }

    fn hardlink(self, name: &str, target: &str) -> Self {
        self.raw(name, b'1', 0o644, target, &[])
    }

    /// GNU long-name record ('L') followed by the real entry with a
    /// truncated header name.
    fn gnu_long_name(self, long: &str, content: &[u8]) -> Self {
        let mut with_nul = long.as_bytes().to_vec();
        with_nul.push(0);
        self.raw("././@LongLink", b'L', 0o644, "", &with_nul).raw(
            &long[..long.len().min(100)],
            b'0',
            0o644,
            "",
            content,
        )
    }

    /// PAX extended header ('x') applying to the next entry.
    fn pax(self, records: &[(&str, &str)], name: &str, content: &[u8]) -> Self {
        let mut body = Vec::new();
        for (key, value) in records {
            // len includes the length digits themselves, per POSIX.
            let payload_len = 1 + key.len() + 1 + value.len() + 1; // " k=v\n"
            let mut len = payload_len;
            loop {
                let digits = len.to_string().len();
                if digits + payload_len == len {
                    break;
                }
                len = digits + payload_len;
            }
            body.extend_from_slice(format!("{len} {key}={value}\n").as_bytes());
        }
        self.raw("pax-header", b'x', 0o644, "", &body)
            .raw(name, b'0', 0o644, "", content)
    }

    fn finish(mut self) -> Vec<u8> {
        self.data.extend_from_slice(&[0u8; 1024]);
        self.data
    }
}

// ---------------------------------------------------------------- zip ---

struct ZipBuilder {
    data: Vec<u8>,
    central: Vec<u8>,
    count: u16,
}

struct ZipEntrySpec<'a> {
    name: &'a str,
    content: &'a [u8],
    /// Full unix st_mode (type bits + permissions), or None for a
    /// DOS-made entry that carries no unix mode.
    unix_mode: Option<u32>,
    /// Name to store in the local header when it should differ from the
    /// central directory (the smuggling case).
    local_name: Option<&'a str>,
    /// Compress with deflate (stored-block encoding) instead of method 0.
    deflate: bool,
}

impl ZipBuilder {
    fn new() -> ZipBuilder {
        ZipBuilder {
            data: Vec::new(),
            central: Vec::new(),
            count: 0,
        }
    }

    fn push_entry(mut self, spec: ZipEntrySpec<'_>) -> Self {
        let offset = self.data.len() as u32;
        let local_name = spec.local_name.unwrap_or(spec.name);
        let crc = crc32(spec.content);
        let (method, stored): (u16, Vec<u8>) = if spec.deflate {
            (8, deflate_stored(spec.content))
        } else {
            (0, spec.content.to_vec())
        };
        // Local file header.
        self.data.extend_from_slice(&0x0403_4B50u32.to_le_bytes());
        self.data.extend_from_slice(&20u16.to_le_bytes()); // version needed
        self.data.extend_from_slice(&0u16.to_le_bytes()); // flags
        self.data.extend_from_slice(&method.to_le_bytes());
        self.data.extend_from_slice(&[0u8; 4]); // time + date
        self.data.extend_from_slice(&crc.to_le_bytes());
        self.data
            .extend_from_slice(&(stored.len() as u32).to_le_bytes());
        self.data
            .extend_from_slice(&(spec.content.len() as u32).to_le_bytes());
        self.data
            .extend_from_slice(&(local_name.len() as u16).to_le_bytes());
        self.data.extend_from_slice(&0u16.to_le_bytes()); // extra len
        self.data.extend_from_slice(local_name.as_bytes());
        self.data.extend_from_slice(&stored);

        // Central directory header.
        let (made_by, external): (u16, u32) = match spec.unix_mode {
            Some(mode) => ((3 << 8) | 20, mode << 16),
            None => {
                let dos_dir = if spec.name.ends_with('/') { 0x10 } else { 0 };
                (20, dos_dir)
            }
        };
        self.central
            .extend_from_slice(&0x0201_4B50u32.to_le_bytes());
        self.central.extend_from_slice(&made_by.to_le_bytes());
        self.central.extend_from_slice(&20u16.to_le_bytes()); // version needed
        self.central.extend_from_slice(&0u16.to_le_bytes()); // flags
        self.central.extend_from_slice(&method.to_le_bytes());
        self.central.extend_from_slice(&[0u8; 4]); // time + date
        self.central.extend_from_slice(&crc.to_le_bytes());
        self.central
            .extend_from_slice(&(stored.len() as u32).to_le_bytes());
        self.central
            .extend_from_slice(&(spec.content.len() as u32).to_le_bytes());
        self.central
            .extend_from_slice(&(spec.name.len() as u16).to_le_bytes());
        self.central.extend_from_slice(&0u16.to_le_bytes()); // extra len
        self.central.extend_from_slice(&0u16.to_le_bytes()); // comment len
        self.central.extend_from_slice(&0u16.to_le_bytes()); // disk start
        self.central.extend_from_slice(&0u16.to_le_bytes()); // internal attrs
        self.central.extend_from_slice(&external.to_le_bytes());
        self.central.extend_from_slice(&offset.to_le_bytes());
        self.central.extend_from_slice(spec.name.as_bytes());
        self.count += 1;
        self
    }

    fn file(self, name: &str, content: &[u8]) -> Self {
        self.push_entry(ZipEntrySpec {
            name,
            content,
            unix_mode: Some(0o100644),
            local_name: None,
            deflate: false,
        })
    }

    fn file_mode(self, name: &str, mode: u32, content: &[u8]) -> Self {
        self.push_entry(ZipEntrySpec {
            name,
            content,
            unix_mode: Some(0o100000 | mode),
            local_name: None,
            deflate: false,
        })
    }

    fn dir(self, name: &str) -> Self {
        self.push_entry(ZipEntrySpec {
            name,
            content: &[],
            unix_mode: Some(0o040755),
            local_name: None,
            deflate: false,
        })
    }

    fn symlink(self, name: &str, target: &str) -> Self {
        self.push_entry(ZipEntrySpec {
            name,
            content: target.as_bytes(),
            unix_mode: Some(0o120777),
            local_name: None,
            deflate: false,
        })
    }

    fn finish(mut self) -> Vec<u8> {
        let cd_offset = self.data.len() as u32;
        let cd_size = self.central.len() as u32;
        self.data.extend_from_slice(&self.central);
        // End of central directory.
        self.data.extend_from_slice(&0x0605_4B50u32.to_le_bytes());
        self.data.extend_from_slice(&0u16.to_le_bytes()); // disk number
        self.data.extend_from_slice(&0u16.to_le_bytes()); // cd disk
        self.data.extend_from_slice(&self.count.to_le_bytes()); // entries this disk
        self.data.extend_from_slice(&self.count.to_le_bytes()); // entries total
        self.data.extend_from_slice(&cd_size.to_le_bytes());
        self.data.extend_from_slice(&cd_offset.to_le_bytes());
        self.data.extend_from_slice(&0u16.to_le_bytes()); // comment len
        self.data
    }
}

// `gzip.GzipFile(filename='notes.txt', mtime=0)` over
// b"gzip payload for slipcheck tests\n" — exercises FNAME.
const REFERENCE: [u8; 63] = [
    31, 139, 8, 8, 0, 0, 0, 0, 2, 255, 110, 111, 116, 101, 115, 46, 116, 120, 116, 0, 75, 175,
    202, 44, 80, 40, 72, 172, 204, 201, 79, 76, 81, 72, 203, 47, 82, 40, 206, 201, 44, 72, 206,
    72, 77, 206, 86, 40, 73, 45, 46, 41, 230, 2, 0, 79, 63, 210, 215, 33, 0, 0, 0,
];

#[test]
fn reference_gzip_with_fname_decompresses() {
    let out = gzip::decompress(&REFERENCE, 1 << 16).unwrap();
    assert_eq!(out, b"gzip payload for slipcheck tests\n");
}

#[test]
fn crc32_matches_the_standard_check_value() {
    // The canonical CRC-32 test vector.
    assert_eq!(crc32(b"123456789"), 0xCBF4_3926);
    assert_eq!(crc32(b""), 0);
}

#[test]
fn testkit_round_trip_covers_the_no_flags_path() {
    let gz = gzip_wrap(b"payload without optional header fields");
    assert_eq!(
        gzip::decompress(&gz, 1 << 16).unwrap(),
        b"payload without optional header fields"
    );
}

#[test]
fn multi_member_streams_concatenate() {
    let mut gz = gzip_wrap(b"first ");
    gz.extend_from_slice(&gzip_wrap(b"second"));
    assert_eq!(gzip::decompress(&gz, 1 << 16).unwrap(), b"first second");
}

#[test]
fn trailing_zero_padding_is_tolerated() {
    let mut gz = gzip_wrap(b"padded");
    gz.extend_from_slice(&[0u8; 512]);
    assert_eq!(gzip::decompress(&gz, 1 << 16).unwrap(), b"padded");
}

#[test]
fn corrupt_crc_is_detected() {
    let mut gz = gzip_wrap(b"checksummed");
    let crc_at = gz.len() - 8;
    gz[crc_at] ^= 0xFF;
    assert_eq!(
        gzip::decompress(&gz, 1 << 16).unwrap_err(),
        GzipError::CrcMismatch
    );
}

#[test]
fn bad_magic_and_bad_method_are_typed_errors() {
    assert_eq!(
        gzip::decompress(b"PK\x03\x04 not gzip", 64).unwrap_err(),
        GzipError::BadMagic
    );
    let mut gz = gzip_wrap(b"x");
    gz[2] = 7; // not deflate
    assert_eq!(
        gzip::decompress(&gz, 64).unwrap_err(),
        GzipError::UnsupportedMethod(7)
    );
}

#[test]
fn output_limit_propagates_as_inflate_error() {
    let gz = gzip_wrap(&[b'a'; 1000]);
    assert_eq!(
        gzip::decompress(&gz, 100).unwrap_err(),
        GzipError::Inflate(InflateError::OutputLimit)
    );
}

#[test]
fn truncation_anywhere_yields_an_error_never_a_panic() {
    let gz = gzip_wrap(b"truncate me at every byte");
    for cut in 0..gz.len() {
        assert!(gzip::decompress(&gz[..cut], 1 << 16).is_err(), "cut at {cut}");
    }
}

#[test]
fn plain_ustar_files_and_dirs() {
    let tar = TarBuilder::new()
        .dir("pkg/")
        .file("pkg/README.md", b"hello")
        .file_mode("pkg/bin/tool", 0o755, b"#!/bin/sh\n")
        .finish();
    let entries = tar::read_entries(&tar).unwrap();
    assert_eq!(entries.len(), 3);
    assert_eq!(entries[0].kind, EntryKind::Dir);
    assert_eq!(entries[1].path, "pkg/README.md");
    assert_eq!(entries[1].size, 5);
    assert_eq!(entries[2].mode, Some(0o755));
}

#[test]
fn symlink_and_hardlink_targets_are_captured() {
    let tar = TarBuilder::new()
        .symlink("pkg/link", "../outside")
        .hardlink("pkg/hl", "pkg/README.md")
        .finish();
    let entries = tar::read_entries(&tar).unwrap();
    assert_eq!(entries[0].kind, EntryKind::Symlink);
    assert_eq!(entries[0].link_target.as_deref(), Some("../outside"));
    assert_eq!(entries[1].kind, EntryKind::Hardlink);
    assert_eq!(entries[1].link_target.as_deref(), Some("pkg/README.md"));
}

#[test]
fn setuid_mode_bits_survive_parsing() {
    let tar = TarBuilder::new()
        .file_mode("bin/su-like", 0o4755, b"x")
        .finish();
    let entries = tar::read_entries(&tar).unwrap();
    assert_eq!(entries[0].mode, Some(0o4755));
}

#[test]
fn gnu_long_name_record_overrides_the_header_name() {
    let long = format!("very/{}/file.txt", "deep/".repeat(30));
    assert!(long.len() > 100);
    let tar = TarBuilder::new().gnu_long_name(&long, b"content").finish();
    let entries = tar::read_entries(&tar).unwrap();
    assert_eq!(entries.len(), 1, "the 'L' record itself must not surface");
    assert_eq!(entries[0].path, long);
}

#[test]
fn pax_path_and_linkpath_records_override_header_fields() {
    let tar = TarBuilder::new()
        .pax(&[("path", "renamed/by/pax.txt")], "short-name", b"data")
        .finish();
    let entries = tar::read_entries(&tar).unwrap();
    assert_eq!(entries.len(), 1, "the 'x' record itself must not surface");
    assert_eq!(entries[0].path, "renamed/by/pax.txt");
}

#[test]
fn pax_hostile_path_override_is_visible_to_the_auditor() {
    // The header name is innocent; the PAX record smuggles the escape.
    let tar = TarBuilder::new()
        .pax(
            &[("path", "../../etc/cron.d/evil")],
            "innocent.txt",
            b"payload",
        )
        .finish();
    let entries = tar::read_entries(&tar).unwrap();
    assert_eq!(entries[0].path, "../../etc/cron.d/evil");
}

#[test]
fn ustar_prefix_field_is_joined() {
    let mut block = tar_header("tail.txt", b'0', 0o644, 0, "");
    // Re-checksum after planting a prefix.
    block[345..345 + 4].copy_from_slice(b"deep");
    block[148..156].copy_from_slice(b"        ");
    let sum: u64 = block.iter().map(|&b| b as u64).sum();
    block[148..156].copy_from_slice(format!("{sum:06o}\0 ").as_bytes());
    let mut tar = block.to_vec();
    tar.extend_from_slice(&[0u8; 1024]);
    let entries = tar::read_entries(&tar).unwrap();
    assert_eq!(entries[0].path, "deep/tail.txt");
}

#[test]
fn base256_size_field_is_decoded() {
    // 8 GiB + 2 bytes cannot be expressed in 11 octal digits.
    let big = 8u64 * 1024 * 1024 * 1024 + 2;
    let mut block = tar_header("huge.bin", b'0', 0o644, 0, "");
    let mut field = [0u8; 12];
    field[0] = 0x80;
    field[4..12].copy_from_slice(&big.to_be_bytes());
    block[124..136].copy_from_slice(&field);
    block[148..156].copy_from_slice(b"        ");
    let sum: u64 = block.iter().map(|&b| b as u64).sum();
    block[148..156].copy_from_slice(format!("{sum:06o}\0 ").as_bytes());
    // No payload follows: the archive must be reported truncated,
    // proving the parser believed the 8 GiB size.
    let err = tar::read_entries(&block).unwrap_err();
    assert_eq!(err, TarError::Truncated { offset: 0 });
}

#[test]
fn trailing_slash_marks_directories_in_v7_archives() {
    let tar = TarBuilder::new()
        .raw("olddir/", b'0', 0o755, "", &[])
        .finish();
    let entries = tar::read_entries(&tar).unwrap();
    assert_eq!(entries[0].kind, EntryKind::Dir);
}

#[test]
fn devices_and_fifos_map_to_their_kinds() {
    let tar = TarBuilder::new()
        .raw("dev/null", b'3', 0o666, "", &[])
        .raw("dev/sda", b'4', 0o660, "", &[])
        .raw("run/pipe", b'6', 0o644, "", &[])
        .finish();
    let kinds: Vec<EntryKind> = tar::read_entries(&tar)
        .unwrap()
        .into_iter()
        .map(|e| e.kind)
        .collect();
    assert_eq!(
        kinds,
        vec![
            EntryKind::CharDevice,
            EntryKind::BlockDevice,
            EntryKind::Fifo
        ]
    );
}

#[test]
fn corrupt_checksum_is_rejected_with_its_offset() {
    let mut tar = TarBuilder::new()
        .file("ok.txt", b"fine")
        .file("bad.txt", b"broken")
        .finish();
    tar[1024] ^= 0xFF; // corrupt the second header's name byte
    let err = tar::read_entries(&tar).unwrap_err();
    assert_eq!(err, TarError::BadChecksum { offset: 1024 });
}

#[test]
fn truncated_payload_is_rejected() {
    let tar = TarBuilder::new().file("cut.txt", b"0123456789").finish();
    let err = tar::read_entries(&tar[..600]).unwrap_err();
    assert_eq!(err, TarError::Truncated { offset: 0 });
}

#[test]
fn empty_archive_yields_no_entries() {
    assert!(tar::read_entries(&[0u8; 1024]).unwrap().is_empty());
    assert!(tar::read_entries(&[]).unwrap().is_empty());
}

#[test]
fn plain_zip_files_and_dirs() {
    let zip = ZipBuilder::new()
        .dir("pkg/")
        .file("pkg/a.txt", b"alpha")
        .finish();
    let (entries, findings) = zip::read_entries(&zip).unwrap();
    assert!(findings.is_empty());
    assert_eq!(entries.len(), 2);
    assert_eq!(entries[0].kind, EntryKind::Dir);
    assert_eq!(entries[1].path, "pkg/a.txt");
    assert_eq!(entries[1].kind, EntryKind::File);
    assert_eq!(entries[1].mode, Some(0o644));
}

#[test]
fn unix_mode_bits_are_extracted_from_external_attributes() {
    let zip = ZipBuilder::new()
        .file_mode("bin/su-like", 0o4755, b"x")
        .finish();
    let (entries, _) = zip::read_entries(&zip).unwrap();
    assert_eq!(entries[0].mode, Some(0o4755));
}

#[test]
fn dos_made_entries_have_no_mode_and_use_the_dir_bit() {
    let zip = ZipBuilder::new()
        .push_entry(ZipEntrySpec {
            name: "windows.txt",
            content: b"made on dos",
            unix_mode: None,
            local_name: None,
            deflate: false,
        })
        .push_entry(ZipEntrySpec {
            name: "folder/",
            content: b"",
            unix_mode: None,
            local_name: None,
            deflate: false,
        })
        .finish();
    let (entries, _) = zip::read_entries(&zip).unwrap();
    assert_eq!(entries[0].kind, EntryKind::File);
    assert_eq!(entries[0].mode, None);
    assert_eq!(entries[1].kind, EntryKind::Dir);
}

#[test]
fn stored_symlink_target_is_decoded() {
    let zip = ZipBuilder::new()
        .symlink("lib/link.so", "/usr/lib/real.so")
        .finish();
    let (entries, findings) = zip::read_entries(&zip).unwrap();
    assert!(findings.is_empty());
    assert_eq!(entries[0].kind, EntryKind::Symlink);
    assert_eq!(entries[0].link_target.as_deref(), Some("/usr/lib/real.so"));
}

#[test]
fn deflated_symlink_target_is_decoded() {
    let zip = ZipBuilder::new()
        .push_entry(ZipEntrySpec {
            name: "ln",
            content: b"../../outside",
            unix_mode: Some(0o120777),
            local_name: None,
            deflate: true,
        })
        .finish();
    let (entries, findings) = zip::read_entries(&zip).unwrap();
    assert!(findings.is_empty());
    assert_eq!(entries[0].link_target.as_deref(), Some("../../outside"));
}

#[test]
fn name_mismatch_surfaces_both_names() {
    // The lister shows "docs/readme.txt"; a stream extractor writes
    // "../../evil.sh". Both must reach the auditor.
    let zip = ZipBuilder::new()
        .push_entry(ZipEntrySpec {
            name: "docs/readme.txt",
            content: b"innocent",
            unix_mode: Some(0o100644),
            local_name: Some("../../evil.sh"),
            deflate: false,
        })
        .finish();
    let (entries, findings) = zip::read_entries(&zip).unwrap();
    assert_eq!(findings.len(), 1);
    assert_eq!(findings[0].check, Check::NameMismatch);
    let paths: Vec<&str> = entries.iter().map(|e| e.path.as_str()).collect();
    assert!(paths.contains(&"docs/readme.txt"));
    assert!(paths.contains(&"../../evil.sh"));
}

#[test]
fn eocd_is_found_despite_a_zip_comment_containing_the_signature() {
    let mut zip = ZipBuilder::new().file("a.txt", b"x").finish();
    // Append a comment that embeds the EOCD signature bytes.
    let comment = b"PK\x05\x06 fake signature in a comment";
    let len = zip.len();
    zip[len - 2..].copy_from_slice(&(comment.len() as u16).to_le_bytes());
    zip.extend_from_slice(comment);
    let (entries, _) = zip::read_entries(&zip).unwrap();
    assert_eq!(entries.len(), 1);
    assert_eq!(entries[0].path, "a.txt");
}

#[test]
fn missing_eocd_is_a_typed_error() {
    assert_eq!(
        zip::read_entries(b"this is not a zip file, just bytes").unwrap_err(),
        ZipError::NoEndOfCentralDirectory
    );
    assert_eq!(
        zip::read_entries(&[]).unwrap_err(),
        ZipError::NoEndOfCentralDirectory
    );
}

#[test]
fn truncated_central_directory_is_a_typed_error() {
    let zip = ZipBuilder::new().file("a.txt", b"payload").finish();
    // Slice off the front so the central directory offset dangles.
    let cut = &zip[zip.len() - 22..];
    assert!(zip::read_entries(cut).is_err());
}

#[test]
fn corrupt_local_header_downgrades_to_a_finding_not_an_error() {
    let mut zip = ZipBuilder::new().file("a.txt", b"payload").finish();
    zip[0] ^= 0xFF; // break the local header signature
    let (entries, findings) = zip::read_entries(&zip).unwrap();
    assert_eq!(entries.len(), 1);
    assert_eq!(findings.len(), 1);
    assert_eq!(findings[0].check, Check::NameMismatch);
    assert!(findings[0].detail.contains("missing or corrupt"));
}

#[test]
fn zip64_end_of_central_directory_is_followed() {
    // Hand-build a minimal ZIP64 wrapper around one stored entry.
    let inner = ZipBuilder::new().file("big/one.bin", b"data").finish();
    let cd_offset = inner
        .windows(4)
        .position(|w| w == zip::CENTRAL_SIG.to_le_bytes())
        .unwrap();
    let cd_size = inner.len() - cd_offset - 22;
    let mut zip = inner[..inner.len() - 22].to_vec();
    let eocd64_at = zip.len() as u64;
    // ZIP64 EOCD record.
    zip.extend_from_slice(&zip::EOCD64_SIG.to_le_bytes());
    zip.extend_from_slice(&44u64.to_le_bytes()); // size of remainder
    zip.extend_from_slice(&[45, 0, 45, 0]); // made by / needed
    zip.extend_from_slice(&0u32.to_le_bytes()); // disk
    zip.extend_from_slice(&0u32.to_le_bytes()); // cd disk
    zip.extend_from_slice(&1u64.to_le_bytes()); // entries this disk
    zip.extend_from_slice(&1u64.to_le_bytes()); // entries total
    zip.extend_from_slice(&(cd_size as u64).to_le_bytes());
    zip.extend_from_slice(&(cd_offset as u64).to_le_bytes());
    // ZIP64 EOCD locator.
    zip.extend_from_slice(&zip::EOCD64_LOCATOR_SIG.to_le_bytes());
    zip.extend_from_slice(&0u32.to_le_bytes());
    zip.extend_from_slice(&eocd64_at.to_le_bytes());
    zip.extend_from_slice(&1u32.to_le_bytes());
    // Classic EOCD with maxed-out fields.
    zip.extend_from_slice(&zip::EOCD_SIG.to_le_bytes());
    zip.extend_from_slice(&[0, 0, 0, 0]);
    zip.extend_from_slice(&0xFFFFu16.to_le_bytes());
    zip.extend_from_slice(&0xFFFFu16.to_le_bytes());
    zip.extend_from_slice(&0xFFFF_FFFFu32.to_le_bytes());
    zip.extend_from_slice(&0xFFFF_FFFFu32.to_le_bytes());
    zip.extend_from_slice(&0u16.to_le_bytes());
    let (entries, _) = zip::read_entries(&zip).unwrap();
    assert_eq!(entries.len(), 1);
    assert_eq!(entries[0].path, "big/one.bin");
}

#[test]
fn gzip_magic_wins() {
    let gz = gzip_wrap(b"anything");
    assert_eq!(detect(&gz), Some(Format::TarGz));
}

#[test]
fn zip_magic_including_empty_archives() {
    let zip = ZipBuilder::new().file("a", b"x").finish();
    assert_eq!(detect(&zip), Some(Format::Zip));
    let empty = ZipBuilder::new().finish();
    assert_eq!(detect(&empty), Some(Format::Zip));
}

#[test]
fn ustar_magic_detects_tar() {
    let tar = TarBuilder::new().file("a.txt", b"x").finish();
    assert_eq!(detect(&tar), Some(Format::Tar));
}

#[test]
fn pre_posix_tar_detected_by_checksum() {
    let mut tar = TarBuilder::new().file("a.txt", b"x").finish();
    // Wipe the ustar magic and re-checksum, simulating a v7 archive.
    for byte in &mut tar[257..265] {
        *byte = 0;
    }
    tar[148..156].copy_from_slice(b"        ");
    let sum: u64 = tar[..512].iter().map(|&b| b as u64).sum();
    tar[148..156].copy_from_slice(format!("{sum:06o}\0 ").as_bytes());
    assert_eq!(detect(&tar), Some(Format::Tar));
}

#[test]
fn junk_and_short_inputs_are_not_detected() {
    assert_eq!(detect(b"just some text"), None);
    assert_eq!(detect(&[]), None);
    assert_eq!(detect(&[0u8; 1024]), None);
    let mut noise = vec![0x42u8; 2048];
    noise[0] = 0x13;
    assert_eq!(detect(&noise), None);
}

#[test]
fn format_flag_parsing() {
    assert_eq!(Format::from_flag("tar"), Some(Format::Tar));
    assert_eq!(Format::from_flag("tgz"), Some(Format::TarGz));
    assert_eq!(Format::from_flag("tar.gz"), Some(Format::TarGz));
    assert_eq!(Format::from_flag("zip"), Some(Format::Zip));
    assert_eq!(Format::from_flag("rar"), None);
}

#[test]
fn tar_gz_is_unwrapped_and_audited() {
    let tar = TarBuilder::new()
        .file("ok.txt", b"fine")
        .symlink("escape", "../outside")
        .finish();
    let report = scan_bytes("pkg.tgz", &gzip_wrap(&tar), &ScanOptions::default()).unwrap();
    assert_eq!(report.format, Format::TarGz);
    assert_eq!(report.entries, 2);
    assert_eq!(report.count(Severity::Critical), 1);
    assert_eq!(report.findings[0].check, Check::LinkEscape);
}

#[test]
fn forced_format_overrides_detection() {
    let tar = TarBuilder::new().file("a.txt", b"x").finish();
    let opts = ScanOptions {
        format: Some(Format::Tar),
        ..ScanOptions::default()
    };
    assert!(scan_bytes("a.tar", &tar, &opts).is_ok());
    // Forcing zip on tar bytes must fail loudly, not misparse.
    let opts = ScanOptions {
        format: Some(Format::Zip),
        ..ScanOptions::default()
    };
    assert!(matches!(
        scan_bytes("a.tar", &tar, &opts),
        Err(ScanError::Malformed(_))
    ));
}

#[test]
fn unknown_format_is_a_typed_error() {
    assert_eq!(
        scan_bytes("x", b"neither tar nor zip", &ScanOptions::default()).unwrap_err(),
        ScanError::UnknownFormat
    );
}

#[test]
fn unpack_limit_becomes_a_critical_finding_not_a_crash() {
    let tar = TarBuilder::new().file("big.bin", &[0u8; 100_000]).finish();
    let opts = ScanOptions {
        max_unpacked: 1024,
        ..ScanOptions::default()
    };
    let report = scan_bytes("bomb.tgz", &gzip_wrap(&tar), &opts).unwrap();
    assert_eq!(report.count(Severity::Critical), 1);
    assert_eq!(report.findings[0].check, Check::UnpackLimit);
}

#[test]
fn allow_list_reaches_the_auditor() {
    let zip = ZipBuilder::new()
        .file_mode("bin/tool", 0o4755, b"x")
        .finish();
    let opts = ScanOptions {
        allow: vec![Check::Setuid],
        ..ScanOptions::default()
    };
    let report = scan_bytes("pkg.zip", &zip, &opts).unwrap();
    assert!(report.findings.is_empty());
}

#[test]
fn gzip_of_non_tar_bytes_is_malformed() {
    // A .gz of plain text must not pass as "clean tar.gz, 0 entries".
    let gz = gzip_wrap(b"a plain text file, not a tarball");
    let err = scan_bytes("x.gz", &gz, &ScanOptions::default()).unwrap_err();
    assert!(matches!(err, ScanError::Malformed(_)));
    // But a genuinely empty tarball (all-NUL end markers) is fine.
    let empty = gzip_wrap(&[0u8; 1024]);
    let report = scan_bytes("empty.tgz", &empty, &ScanOptions::default()).unwrap();
    assert_eq!(report.entries, 0);
    assert!(report.findings.is_empty());
}

// ------------------------------------------------------- gzip, further ---

/// A member with every optional header field.
fn gzip_with_all_fields(payload: &[u8]) -> Vec<u8> {
    let mut out = vec![0x1F, 0x8B, 8, 0x1E, 0, 0, 0, 0, 0, 0xFF];
    out.extend_from_slice(&[3, 0, 1, 2, 3]); // FEXTRA
    out.extend_from_slice(b"name\0"); // FNAME
    out.extend_from_slice(b"comment\0"); // FCOMMENT
    out.extend_from_slice(&[0xAB, 0xCD]); // FHCRC
    out.extend_from_slice(&gzip_wrap(payload)[10..]);
    out
}

#[test]
fn every_optional_header_field_is_skipped() {
    let gz = gzip_with_all_fields(b"inside");
    assert_eq!(gzip::decompress(&gz, 64).unwrap(), b"inside");
}

#[test]
fn truncated_gzip_names_what_is_missing() {
    let gz = gzip_with_all_fields(b"inside");
    let cut = |n: usize| gzip::decompress(&gz[..n], 64).unwrap_err();
    assert_eq!(cut(9), GzipError::Truncated("header"));
    assert_eq!(cut(11), GzipError::Truncated("FEXTRA length"));
    assert_eq!(cut(14), GzipError::Truncated("FEXTRA field"));
    assert_eq!(cut(17), GzipError::Truncated("FNAME field"));
    assert_eq!(cut(23), GzipError::Truncated("FCOMMENT field"));
    assert_eq!(cut(29), GzipError::Truncated("FHCRC field"));
    assert_eq!(cut(31), GzipError::Inflate(InflateError::UnexpectedEof));
    assert_eq!(cut(gz.len() - 1), GzipError::Truncated("CRC/ISIZE trailer"));
    for n in 0..gz.len() {
        assert!(gzip::decompress(&gz[..n], 64).is_err());
    }
}

#[test]
fn wrong_length_in_the_trailer_is_detected() {
    let mut gz = gzip_wrap(b"sized");
    let at = gz.len() - 4;
    gz[at] += 1;
    assert_eq!(
        gzip::decompress(&gz, 64).unwrap_err(),
        GzipError::SizeMismatch
    );
}

#[test]
fn gzip_errors_are_described() {
    assert_eq!(
        GzipError::BadMagic.message(),
        "not a gzip stream (bad magic)"
    );
    assert_eq!(
        GzipError::UnsupportedMethod(107).message(),
        "unsupported gzip method 107"
    );
    assert_eq!(
        GzipError::Truncated("header").message(),
        "gzip stream truncated at header"
    );
    assert_eq!(
        GzipError::Inflate(InflateError::InvalidSymbol).message(),
        "deflate error: invalid huffman symbol"
    );
    assert_eq!(
        GzipError::CrcMismatch.message(),
        "gzip CRC-32 mismatch (corrupt data)"
    );
    assert_eq!(
        GzipError::SizeMismatch.message(),
        "gzip ISIZE mismatch (corrupt data)"
    );
}

#[test]
fn the_cap_covers_all_members_together() {
    let mut gz = gzip_wrap(b"first ");
    gz.extend_from_slice(&gzip_wrap(b"second"));
    assert_eq!(gzip::decompress(&gz, 12).unwrap(), b"first second");
    assert_eq!(
        gzip::decompress(&gz, 11).unwrap_err(),
        GzipError::Inflate(InflateError::OutputLimit)
    );
}

#[test]
fn a_higher_cap_changes_nothing() {
    let mut gz = gzip_wrap(b"first ");
    gz.extend_from_slice(&gzip_wrap(b"second"));
    for limit in [12, 13, 1 << 20] {
        assert_eq!(gzip::decompress(&gz, limit).unwrap(), b"first second");
    }
    let last = gz.len() - 1;
    gz[last] ^= 1;
    for limit in [12, 13, 1 << 20] {
        assert_eq!(
            gzip::decompress(&gz, limit).unwrap_err(),
            GzipError::SizeMismatch
        );
    }
}

#[test]
fn every_cut_of_two_members_is_an_error_or_a_leading_part() {
    let first = gzip_wrap(b"first ");
    let mut gz = first.clone();
    gz.extend_from_slice(&gzip_wrap(b"second"));
    for cut in 0..gz.len() {
        match gzip::decompress(&gz[..cut], 64) {
            Ok(part) => {
                // Behind the first member, one byte is no magic yet.
                assert!(cut == first.len() || cut == first.len() + 1);
                assert_eq!(part, b"first ");
            }
            Err(_) => assert!(cut < first.len() || cut > first.len() + 1),
        }
    }
}

#[test]
fn a_broken_later_member_fails_the_whole_file() {
    let mut gz = gzip_wrap(b"first ");
    gz.extend_from_slice(&[0x1F, 0x8B, 9]);
    assert_eq!(
        gzip::decompress(&gz, 64).unwrap_err(),
        GzipError::Truncated("header")
    );
}

#[test]
fn changing_one_byte_changes_the_crc() {
    let data = b"The quick brown fox jumps over the lazy dog";
    assert_eq!(crc32(data), 0x414F_A339);
    for i in 0..data.len() {
        let mut other = data.to_vec();
        other[i] ^= 0x40;
        assert_ne!(crc32(&other), crc32(data));
    }
}

#[test]
fn large_payloads_round_trip_through_gzip() {
    let payload: Vec<u8> = (0..150_000u32).map(|i| (i % 253) as u8).collect();
    assert_eq!(
        gzip::decompress(&gzip_wrap(&payload), payload.len()).unwrap(),
        payload
    );
}

// -------------------------------------------------------- tar, further ---

/// Make the checksum of the header at `at` right again.
fn re_checksum(data: &mut [u8], at: usize) {
    data[at + 148..at + 156].copy_from_slice(b"        ");
    let sum: u64 = data[at..at + 512].iter().map(|&b| b as u64).sum();
    data[at + 148..at + 156].copy_from_slice(format!("{sum:06o}\0 ").as_bytes());
}

#[test]
fn a_header_cut_short_is_truncated() {
    let tar_bytes = TarBuilder::new()
        .file("one.txt", b"fine")
        .file("two.txt", b"fine")
        .finish();
    // The second header starts at 1024.
    assert_eq!(
        tar::read_entries(&tar_bytes[..1024 + 100]).unwrap_err(),
        TarError::Truncated { offset: 1024 }
    );
    // Without an end marker the archive may simply end,
    assert_eq!(tar::read_entries(&tar_bytes[..1024]).unwrap().len(), 1);
    // and a marker that is cut short is still one.
    assert_eq!(tar::read_entries(&tar_bytes[..2048 + 7]).unwrap().len(), 2);
}

#[test]
fn every_cut_of_a_tar_gives_leading_entries_or_truncation() {
    let tar_bytes = TarBuilder::new()
        .dir("d/")
        .gnu_long_name(&format!("d/{}", "x".repeat(150)), b"content")
        .pax(&[("path", "d/renamed")], "short", b"data")
        .symlink("d/link", "renamed")
        .finish();
    let all = tar::read_entries(&tar_bytes).unwrap();
    assert_eq!(all.len(), 4);
    for cut in (0..tar_bytes.len()).step_by(37) {
        match tar::read_entries(&tar_bytes[..cut]) {
            Ok(part) => {
                for (a, b) in part.iter().zip(all.iter()) {
                    assert_eq!(a.path, b.path);
                }
            }
            Err(e) => assert!(matches!(e, TarError::Truncated { .. })),
        }
    }
}

#[test]
fn any_changed_header_byte_fails_the_checksum() {
    let tar_bytes = TarBuilder::new().file("name.txt", b"").finish();
    for at in (0..512).filter(|i| !(148..156).contains(i)) {
        let mut bad = tar_bytes.clone();
        bad[at] ^= 0x55;
        assert_eq!(
            tar::read_entries(&bad).unwrap_err(),
            TarError::BadChecksum { offset: 0 }
        );
    }
}

#[test]
fn signed_checksums_are_accepted() {
    let mut block = tar_header("caf\u{e9}.txt", b'0', 0o644, 0, "");
    block[148..156].copy_from_slice(b"        ");
    let sum: i64 = block.iter().map(|&b| b as i8 as i64).sum();
    block[148..156].copy_from_slice(format!("{sum:06o}\0 ").as_bytes());
    let entries = tar::read_entries(&block).unwrap();
    assert_eq!(entries[0].path, "caf\u{e9}.txt");
}

#[test]
fn names_are_decoded_lossily() {
    let mut block = tar_header("bad-x.txt", b'0', 0o644, 0, "");
    block[4] = 0xFF;
    let mut data = block.to_vec();
    re_checksum(&mut data, 0);
    assert_eq!(
        tar::read_entries(&data).unwrap()[0].path,
        "bad-\u{fffd}.txt"
    );
}

#[test]
fn unreadable_tar_fields_are_named() {
    let field = |from: usize, bytes: &[u8]| {
        let mut data = tar_header("f", b'0', 0o644, 0, "").to_vec();
        data[from..from + bytes.len()].copy_from_slice(bytes);
        if from != 148 {
            re_checksum(&mut data, 0);
        }
        tar::read_entries(&data).unwrap_err()
    };
    let bad = |name| TarError::BadField {
        offset: 0,
        field: name,
    };
    assert_eq!(field(148, b"12x4567\0"), bad("checksum"));
    assert_eq!(field(124, b"9"), bad("size"));
    assert_eq!(field(100, b"8"), bad("mode"));
    // 64 bits overflow, and so does rounding up to blocks.
    assert_eq!(field(124, &[0xFF; 12]), bad("size"));
    let mut huge = [0u8; 12];
    huge[0] = 0x80;
    huge[4..12].copy_from_slice(&u64::MAX.to_be_bytes());
    assert_eq!(field(124, &huge), bad("size"));
}

#[test]
fn broken_pax_records_are_named() {
    let pax = |body: &[u8]| {
        let data = TarBuilder::new()
            .file("first", b"")
            .raw("pax", b'x', 0o644, "", body)
            .finish();
        tar::read_entries(&data).unwrap_err()
    };
    let bad = |name| TarError::BadField {
        offset: 512,
        field: name,
    };
    assert_eq!(pax(b"12path=x\n"), bad("pax record length"));
    assert_eq!(pax(b"xx path=x\n"), bad("pax record length"));
    assert_eq!(pax(b"99 path=x\n"), bad("pax record length"));
    assert_eq!(pax(b"2 path=x\n"), bad("pax record length"));
    assert_eq!(
        pax(b"99999999999999999999 path=x\n"),
        bad("pax record length")
    );
    assert_eq!(pax(b"10 path=x!"), bad("pax record terminator"));
    assert_eq!(pax(b"10 path:x\n"), bad("pax record"));
}

#[test]
fn pax_size_locates_the_next_header() {
    // The header says 0 bytes; the record says 5, so one block is skipped.
    let tar_bytes = TarBuilder::new()
        .raw("pax", b'x', 0o644, "", b"10 size=5\n")
        .raw("f", b'0', 0o644, "", b"")
        .finish();
    let mut with_payload = tar_bytes[..1536].to_vec();
    with_payload.extend_from_slice(&[b'z'; 512]);
    with_payload.extend_from_slice(&tar_bytes[1536..]);
    let entries = tar::read_entries(&with_payload).unwrap();
    assert_eq!(entries.len(), 1);
    assert_eq!(entries[0].size, 5);
    let bad = TarBuilder::new()
        .raw("pax", b'x', 0o644, "", b"10 size=-\n")
        .raw("f", b'0', 0o644, "", b"")
        .finish();
    assert_eq!(
        tar::read_entries(&bad).unwrap_err(),
        TarError::BadField {
            offset: 1024,
            field: "pax size"
        }
    );
}

#[test]
fn overrides_apply_to_one_entry_and_the_last_one_wins() {
    let tar_bytes = TarBuilder::new()
        .raw("././@LongLink", b'L', 0o644, "", b"long-name\0")
        .raw("././@LongLink", b'K', 0o644, "", b"long-target\0")
        .symlink("short", "short-target")
        .raw("pax", b'g', 0o644, "", b"9 path=a\n9 path=b\n14 linkpath=t\n\0\0")
        .symlink("short", "short-target")
        .symlink("plain", "plain-target")
        .finish();
    let entries = tar::read_entries(&tar_bytes).unwrap();
    let seen: Vec<(&str, Option<&str>)> = entries
        .iter()
        .map(|e| (e.path.as_str(), e.link_target.as_deref()))
        .collect();
    assert_eq!(
        seen,
        vec![
            ("long-name", Some("long-target")),
            ("b", Some("t")),
            ("plain", Some("plain-target")),
        ]
    );
}

#[test]
fn every_record_of_a_pax_header_is_read() {
    // Values may hold equals signs and newlines, keys may repeat, and NULs
    // end the list.
    let mut body = Vec::new();
    body.extend_from_slice(b"17 comment=a=b\nc\n");
    body.extend_from_slice(b"14 path=first\n");
    body.extend_from_slice(b"15 path=second\n");
    body.extend_from_slice(b"14 linkpath=t\n");
    body.extend_from_slice(&[0u8; 3]);
    let tar_bytes = TarBuilder::new()
        .raw("pax", b'x', 0o644, "", &body)
        .symlink("short", "short-target")
        .finish();
    let entries = tar::read_entries(&tar_bytes).unwrap();
    assert_eq!(entries.len(), 1);
    assert_eq!(entries[0].path, "second");
    assert_eq!(entries[0].link_target.as_deref(), Some("t"));
}

#[test]
fn unknown_types_are_carried_through() {
    let tar_bytes = TarBuilder::new()
        .raw("vol", b'V', 0o644, "", b"")
        .raw("old", 0, 0o644, "", b"")
        .raw("contiguous", b'7', 0o644, "", b"")
        .raw("empty-link", b'1', 0o644, "", b"")
        .finish();
    let entries = tar::read_entries(&tar_bytes).unwrap();
    assert_eq!(entries[0].kind, EntryKind::Other('V'));
    assert_eq!(entries[1].kind, EntryKind::File);
    assert_eq!(entries[2].kind, EntryKind::File);
    assert_eq!(entries[2].link_target, None);
    assert_eq!(entries[3].link_target.as_deref(), Some(""));
}

#[test]
fn modes_keep_permission_bits_alone() {
    let tar_bytes = TarBuilder::new().file_mode("f", 0o104755, b"").finish();
    assert_eq!(tar::read_entries(&tar_bytes).unwrap()[0].mode, Some(0o4755));
}

#[test]
fn tar_errors_are_described() {
    assert_eq!(
        TarError::Truncated { offset: 1024 }.message(),
        "tar archive truncated at offset 1024"
    );
    assert_eq!(
        TarError::BadChecksum { offset: 0 }.message(),
        "tar header checksum mismatch at offset 0"
    );
    assert_eq!(
        TarError::BadField {
            offset: 512,
            field: "mode"
        }
        .message(),
        "unparseable tar mode field at offset 512"
    );
}

// -------------------------------------------------------- zip, further ---

#[test]
fn sizes_are_uncompressed() {
    let zip_bytes = ZipBuilder::new()
        .push_entry(ZipEntrySpec {
            name: "f",
            content: b"0123456789",
            unix_mode: Some(0o100644),
            local_name: None,
            deflate: true,
        })
        .finish();
    let (entries, _) = zip::read_entries(&zip_bytes).unwrap();
    assert_eq!(entries[0].size, 10);
}

/// Where the central directory starts.
fn central_at(zip_bytes: &[u8]) -> usize {
    zip_bytes
        .windows(4)
        .position(|w| w == zip::CENTRAL_SIG.to_le_bytes())
        .unwrap()
}

#[test]
fn encrypted_symlink_targets_are_hostile() {
    let mut zip_bytes = ZipBuilder::new().symlink("ln", "target").finish();
    let cd = central_at(&zip_bytes);
    zip_bytes[cd + 8] |= 1; // general-purpose flag: encrypted
    let (entries, findings) = zip::read_entries(&zip_bytes).unwrap();
    assert_eq!(entries[0].link_target, None);
    assert_eq!(findings.len(), 1);
    assert_eq!(findings[0].check, Check::LinkEscape);
    assert_eq!(findings[0].severity, Severity::Critical);
    assert!(findings[0].detail.contains("encrypted"));
}

#[test]
fn oversized_and_unknown_symlink_targets_are_hostile() {
    let long = "x".repeat(4097);
    let zip_bytes = ZipBuilder::new().symlink("ln", &long).finish();
    let (_, findings) = zip::read_entries(&zip_bytes).unwrap();
    assert_eq!(findings[0].check, Check::LinkEscape);
    let fits = "x".repeat(4096);
    let zip_bytes = ZipBuilder::new().symlink("ln", &fits).finish();
    let (entries, findings) = zip::read_entries(&zip_bytes).unwrap();
    assert!(findings.is_empty());
    assert_eq!(entries[0].link_target.as_deref(), Some(fits.as_str()));
    let mut zip_bytes = ZipBuilder::new().symlink("ln", "t").finish();
    let cd = central_at(&zip_bytes);
    zip_bytes[cd + 10] = 12; // neither stored nor deflate
    let (_, findings) = zip::read_entries(&zip_bytes).unwrap();
    assert_eq!(findings[0].check, Check::LinkEscape);
    assert_eq!(findings[0].severity, Severity::Critical);
}

#[test]
fn zip_file_types_come_from_the_mode() {
    let kinds = [
        (0o010644, EntryKind::Fifo),
        (0o020644, EntryKind::CharDevice),
        (0o060644, EntryKind::BlockDevice),
        (0o040755, EntryKind::Dir),
        (0o000644, EntryKind::File),
        (0o100644, EntryKind::File),
    ];
    for (mode, kind) in kinds {
        let zip_bytes = ZipBuilder::new()
            .push_entry(ZipEntrySpec {
                name: "x",
                content: b"",
                unix_mode: Some(mode),
                local_name: None,
                deflate: false,
            })
            .finish();
        let (entries, _) = zip::read_entries(&zip_bytes).unwrap();
        assert_eq!(entries[0].kind, kind);
        assert_eq!(entries[0].mode, Some(mode & 0o7777));
    }
}

#[test]
fn name_mismatch_details_are_exact() {
    let zip_bytes = ZipBuilder::new()
        .push_entry(ZipEntrySpec {
            name: "a",
            content: b"",
            unix_mode: None,
            local_name: Some("b"),
            deflate: false,
        })
        .finish();
    let (entries, findings) = zip::read_entries(&zip_bytes).unwrap();
    assert_eq!(
        findings[0].detail,
        "central directory says 'a' but the local header says 'b'; stream extractors will use the latter"
    );
    assert_eq!(entries[0].path, "b");
    assert_eq!(entries[1].path, "a");
    let mut broken = ZipBuilder::new().file("a", b"").finish();
    broken[1] = 0;
    let (_, findings) = zip::read_entries(&broken).unwrap();
    assert_eq!(
        findings[0].detail,
        "local file header at offset 0 is missing or corrupt"
    );
}

#[test]
fn zip64_extra_field_carries_what_is_maxed_out() {
    let plain = ZipBuilder::new().file("f", b"data").finish();
    let cd = central_at(&plain);
    let eocd = plain.len() - 22;
    let mut header = plain[cd..eocd].to_vec();
    header[20..24].copy_from_slice(&u32::MAX.to_le_bytes()); // compressed size
    header[24..28].copy_from_slice(&u32::MAX.to_le_bytes()); // size
    header[42..46].copy_from_slice(&u32::MAX.to_le_bytes()); // local offset
    let mut extra = vec![0x99, 0x99, 2, 0, 7, 7]; // some other field
    extra.extend_from_slice(&[1, 0, 24, 0]);
    extra.extend_from_slice(&5_000_000_000u64.to_le_bytes());
    extra.extend_from_slice(&4u64.to_le_bytes());
    extra.extend_from_slice(&0u64.to_le_bytes());
    header[30..32].copy_from_slice(&(extra.len() as u16).to_le_bytes());
    let build = |extra: &[u8]| {
        let mut zip_bytes = plain[..cd].to_vec();
        zip_bytes.extend_from_slice(&header);
        zip_bytes.extend_from_slice(extra);
        zip_bytes.extend_from_slice(&plain[eocd..]);
        zip_bytes
    };
    let (entries, findings) = zip::read_entries(&build(&extra)).unwrap();
    assert!(findings.is_empty());
    assert_eq!(entries[0].size, 5_000_000_000);
    // A field that is too short for what is maxed out.
    let mut short = extra.clone();
    short[8] = 16;
    assert_eq!(
        zip::read_entries(&build(&short)).unwrap_err(),
        ZipError::Truncated("zip64 extra")
    );
    // A field that runs past the extra data.
    let mut long = extra.clone();
    long[8] = 25;
    assert_eq!(
        zip::read_entries(&build(&long)).unwrap_err(),
        ZipError::Truncated("central extra field")
    );
}

#[test]
fn broken_zip_structures_are_named() {
    let plain = ZipBuilder::new().file("f", b"data").finish();
    let cd = central_at(&plain);
    let eocd = plain.len() - 22;
    let with = |at: usize, bytes: &[u8]| {
        let mut zip_bytes = plain.clone();
        zip_bytes[at..at + bytes.len()].copy_from_slice(bytes);
        zip::read_entries(&zip_bytes).unwrap_err()
    };
    assert_eq!(
        with(cd, b"XX"),
        ZipError::BadSignature("central directory header")
    );
    // One more entry than there are headers.
    assert_eq!(
        with(eocd + 10, &[2, 0]),
        ZipError::BadSignature("central directory header")
    );
    assert_eq!(
        with(cd + 28, &[0xFF, 0xFF]),
        ZipError::Truncated("central header name")
    );
    assert_eq!(
        with(cd + 30, &[0xFF, 0xFF]),
        ZipError::Truncated("central header extra")
    );
    // A maxed-out offset asks for a ZIP64 locator.
    assert_eq!(
        with(eocd + 16, &[0xFF; 4]),
        ZipError::BadSignature("zip64 locator")
    );
    let mut bare = plain[eocd..].to_vec();
    bare[16..20].copy_from_slice(&[0xFF; 4]);
    assert_eq!(
        zip::read_entries(&bare).unwrap_err(),
        ZipError::Truncated("zip64 locator")
    );
    // A locator that points nowhere.
    let mut lost = zip::EOCD64_LOCATOR_SIG.to_le_bytes().to_vec();
    lost.extend_from_slice(&[0; 4]);
    lost.extend_from_slice(&u64::MAX.to_le_bytes());
    lost.extend_from_slice(&[0; 4]);
    lost.extend_from_slice(&bare);
    assert_eq!(
        zip::read_entries(&lost).unwrap_err(),
        ZipError::BadSignature("zip64 end of central directory")
    );
    // A ZIP64 record that is cut short: the end record overlaps it.
    let mut short = zip::EOCD64_SIG.to_le_bytes().to_vec();
    short.extend_from_slice(&zip::EOCD64_LOCATOR_SIG.to_le_bytes());
    short.extend_from_slice(&[0; 12]);
    short.extend_from_slice(&[0; 4]);
    short.extend_from_slice(&bare);
    assert_eq!(
        zip::read_entries(&short).unwrap_err(),
        ZipError::Truncated("zip64 EOCD")
    );
    // A header cut short by the end of the input.
    let mut tail = plain[eocd..].to_vec();
    tail[16..20].copy_from_slice(&22u32.to_le_bytes());
    tail[20..22].copy_from_slice(&10u16.to_le_bytes());
    tail.extend_from_slice(&zip::CENTRAL_SIG.to_le_bytes());
    tail.extend_from_slice(&[0; 6]);
    assert_eq!(
        zip::read_entries(&tail).unwrap_err(),
        ZipError::Truncated("central header")
    );
}

#[test]
fn zip_errors_are_described() {
    assert_eq!(
        ZipError::NoEndOfCentralDirectory.message(),
        "no end-of-central-directory record (not a zip archive?)"
    );
    assert_eq!(
        ZipError::Truncated("central header").message(),
        "zip archive truncated at central header"
    );
    assert_eq!(
        ZipError::BadSignature("zip64 locator").message(),
        "bad zip signature at zip64 locator"
    );
}

#[test]
fn the_end_record_may_hide_behind_the_longest_comment() {
    let mut zip_bytes = ZipBuilder::new().file("a.txt", b"x").finish();
    let len = zip_bytes.len();
    zip_bytes[len - 2..].copy_from_slice(&0xFFFFu16.to_le_bytes());
    zip_bytes.extend_from_slice(&vec![b'c'; 0xFFFF]);
    assert_eq!(zip::read_entries(&zip_bytes).unwrap().0.len(), 1);
    zip_bytes.push(b'c');
    assert_eq!(
        zip::read_entries(&zip_bytes).unwrap_err(),
        ZipError::NoEndOfCentralDirectory
    );
}

// ------------------------------------------------------- scan, further ---

#[test]
fn the_same_tar_gets_the_same_findings_compressed() {
    let tar_bytes = TarBuilder::new()
        .symlink("build", "../../target")
        .file("build/injected.sh", b"x")
        .file_mode("su", 0o4755, b"x")
        .finish();
    let plain = scan_bytes("a.tar", &tar_bytes, &ScanOptions::default()).unwrap();
    let packed = scan_bytes("a.tgz", &gzip_wrap(&tar_bytes), &ScanOptions::default()).unwrap();
    assert_eq!(plain.format, Format::Tar);
    assert_eq!(packed.format, Format::TarGz);
    assert_eq!(plain.entries, packed.entries);
    let details = |r: &slipcheck::scan::ArchiveReport| {
        r.findings
            .iter()
            .map(|f| f.detail.clone())
            .collect::<Vec<_>>()
    };
    assert_eq!(details(&plain), details(&packed));
}

#[test]
fn the_bomb_finding_is_exact() {
    let gz = gzip_wrap(&[b'a'; 2000]);
    let opts = ScanOptions {
        max_unpacked: 1999,
        ..ScanOptions::default()
    };
    let report = scan_bytes("b.gz", &gz, &opts).unwrap();
    assert_eq!(report.entries, 0);
    assert_eq!(report.findings.len(), 1);
    assert_eq!(
        report.findings[0].detail,
        "stream inflates past the 1999 byte cap; possible decompression bomb (raise with --max-unpacked to scan anyway)"
    );
    let allowed = ScanOptions {
        max_unpacked: 1999,
        allow: vec![Check::UnpackLimit],
        ..ScanOptions::default()
    };
    assert!(scan_bytes("b.gz", &gz, &allowed).unwrap().findings.is_empty());
}

#[test]
fn scan_errors_are_described() {
    assert_eq!(
        ScanError::UnknownFormat.message(),
        "unrecognized format (tar, tar.gz and zip are supported)"
    );
    let zip_opts = ScanOptions {
        format: Some(Format::Zip),
        ..ScanOptions::default()
    };
    assert_eq!(
        scan_bytes("x", b"", &zip_opts).unwrap_err().message(),
        "malformed archive: no end-of-central-directory record (not a zip archive?)"
    );
    let mut tar_bytes = TarBuilder::new().file("a", b"").file("b", b"").finish();
    tar_bytes[512] ^= 1;
    assert_eq!(
        scan_bytes("x", &tar_bytes, &ScanOptions::default())
            .unwrap_err()
            .message(),
        "malformed archive: tar header checksum mismatch at offset 512"
    );
    assert_eq!(
        scan_bytes("x", &gzip_wrap(&tar_bytes), &ScanOptions::default())
            .unwrap_err()
            .message(),
        "malformed archive: inner tar: tar header checksum mismatch at offset 512"
    );
    let gz_opts = ScanOptions {
        format: Some(Format::TarGz),
        ..ScanOptions::default()
    };
    assert_eq!(
        scan_bytes("x", b"plain text bytes", &gz_opts)
            .unwrap_err()
            .message(),
        "malformed archive: not a gzip stream (bad magic)"
    );
    assert_eq!(
        scan_bytes("x", &gzip_wrap(b"plain"), &gz_opts)
            .unwrap_err()
            .message(),
        "malformed archive: gzip payload is not a tar archive"
    );
}

#[test]
fn detection_goes_by_content_alone() {
    let zip_bytes = ZipBuilder::new().file("a", b"x").finish();
    let report = scan_bytes("looks-like.tar", &zip_bytes, &ScanOptions::default()).unwrap();
    assert_eq!(report.format, Format::Zip);
    assert_eq!(report.path, "looks-like.tar");
    assert_eq!(detect(b"PK\x06\x06rest"), Some(Format::Zip));
    assert_eq!(Format::Tar.label(), "tar");
    assert_eq!(Format::TarGz.label(), "tar.gz");
    assert_eq!(Format::Zip.label(), "zip");
}

// ------------------------------------------------------- command line ---

/// Run a command line; reading a path gives what `read` says.
fn command(
    args: &[&str],
    read: &dyn Fn(&str) -> Result<Vec<u8>, String>,
) -> slipcheck::cli::Output {
    let owned: Vec<String> = args.iter().map(|s| s.to_string()).collect();
    match slipcheck::cli::run(&owned) {
        Action::Exit(output) => output,
        Action::Scan(parsed) => {
            let mut run = ScanRun::new(parsed);
            while let Some(path) = run.next_path() {
                let input = read(path);
                run.feed(input);
            }
            run.finish()
        }
    }
}

/// The archives that the command-line tests scan.
fn fixture(path: &str) -> Result<Vec<u8>, String> {
    match path {
        "clean.tar.gz" | "-" => Ok(gzip_wrap(
            &TarBuilder::new().dir("pkg/").file("pkg/a", b"x").finish(),
        )),
        "traversal.tar" => Ok(TarBuilder::new()
            .file("../../etc/cron.d/backdoor", b"x")
            .finish()),
        "setuid.tar" => Ok(TarBuilder::new()
            .file_mode("bin/helper", 0o4755, b"x")
            .finish()),
        "sneaky.zip" => Ok(ZipBuilder::new()
            .push_entry(ZipEntrySpec {
                name: "docs/readme.txt",
                content: b"innocent",
                unix_mode: Some(0o100644),
                local_name: Some("../../evil.sh"),
                deflate: false,
            })
            .symlink("ln", "/etc/passwd")
            .file("Docs/README.txt", b"x")
            .finish()),
        "garbage.bin" => Ok(b"not an archive at all, just prose".to_vec()),
        _ => Err(format!("{path}: no such file")),
    }
}

#[test]
fn a_clean_archive_passes() {
    let out = command(&["scan", "clean.tar.gz"], &fixture);
    assert_eq!(out.code, 0);
    assert_eq!(
        out.stdout,
        "clean.tar.gz: tar.gz, 2 entries, clean\n1 archive scanned: 0 critical, 0 warnings\n"
    );
    assert_eq!(out.stderr, "");
}

#[test]
fn a_hostile_archive_fails_with_its_path_named() {
    let out = command(&["scan", "traversal.tar"], &fixture);
    assert_eq!(out.code, 1);
    assert!(out.stdout.contains("CRITICAL traversal"));
    assert!(out.stdout.contains("../../etc/cron.d/backdoor"));
    let quiet = command(&["scan", "traversal.tar", "--quiet"], &fixture);
    assert_eq!(quiet.code, 1);
    assert_eq!(quiet.stdout, "");
    let never = command(&["scan", "traversal.tar", "--fail-on", "never"], &fixture);
    assert_eq!(never.code, 0);
    assert!(never.stdout.contains("CRITICAL"));
}

#[test]
fn a_smuggled_name_is_reported_and_audited() {
    let out = command(&["scan", "sneaky.zip"], &fixture);
    assert_eq!(out.code, 1);
    for id in ["name-mismatch", "traversal", "link-escape", "case-collision"] {
        assert!(out.stdout.contains(id), "missing {id}");
    }
    assert!(out.stdout.contains("../../evil.sh"));
    let allow = [
        "scan",
        "sneaky.zip",
        "--allow",
        "traversal",
        "--allow",
        "link-escape",
    ];
    assert_eq!(command(&allow, &fixture).code, 0);
    let mut stricter = allow.to_vec();
    stricter.extend_from_slice(&["--fail-on", "warning"]);
    assert_eq!(command(&stricter, &fixture).code, 1);
}

#[test]
fn allowing_setuid_lets_it_pass() {
    assert_eq!(command(&["scan", "setuid.tar"], &fixture).code, 1);
    let out = command(&["scan", "setuid.tar", "--allow", "setuid"], &fixture);
    assert_eq!(out.code, 0);
    assert!(out.stdout.contains("clean"));
}

#[test]
fn errors_win_and_reach_stderr_or_the_document() {
    let out = command(&["scan", "traversal.tar", "missing.tar", "garbage.bin"], &fixture);
    assert_eq!(out.code, 2);
    assert_eq!(
        out.stderr,
        "slipcheck: missing.tar: missing.tar: no such file\n\
         slipcheck: garbage.bin: unrecognized format (tar, tar.gz and zip are supported)\n"
    );
    assert!(out
        .stdout
        .ends_with("1 archive scanned: 1 critical, 0 warnings, 2 errors\n"));
    let quiet = command(&["scan", "missing.tar", "--quiet"], &fixture);
    assert_eq!(quiet.stdout, "");
    assert!(quiet.stderr.contains("missing.tar"));
    let json = command(&["scan", "missing.tar", "--json"], &fixture);
    assert_eq!(json.stderr, "");
    assert!(json.stdout.contains("\"error\": \"missing.tar: no such file\""));
    assert!(json.stdout.ends_with("}\n"));
    assert_eq!(json.code, 2);
}

#[test]
fn stdin_is_called_by_its_name() {
    let out = command(&["scan", "-"], &fixture);
    assert_eq!(out.code, 0);
    assert!(out.stdout.starts_with("(stdin): tar.gz"));
}

#[test]
fn archives_aggregate_in_order() {
    let out = command(&["scan", "clean.tar.gz", "setuid.tar"], &fixture);
    assert_eq!(out.code, 1);
    assert!(out.stdout.contains("2 archives scanned: 1 critical, 0 warnings"));
    assert!(out.stdout.starts_with("clean.tar.gz"));
}

#[test]
fn the_cap_and_the_forced_format_reach_the_readers() {
    let out = command(&["scan", "clean.tar.gz", "--max-unpacked", "1K"], &fixture);
    assert_eq!(out.code, 1);
    assert!(out.stdout.contains("unpack-limit"));
    let out = command(&["scan", "traversal.tar", "--format", "zip"], &fixture);
    assert_eq!(out.code, 2);
    assert!(out.stderr.contains("malformed archive"));
}

#[test]
fn other_commands_print_and_exit() {
    let none = command(&[], &fixture);
    assert_eq!(none.code, 2);
    let help = command(&["--help"], &fixture);
    assert_eq!(help.code, 0);
    assert_eq!(help.stdout, none.stdout);
    for needle in ["scan", "checks", "--fail-on", "--allow", "EXIT CODES"] {
        assert!(help.stdout.contains(needle));
    }
    assert_eq!(command(&["-V"], &fixture).stdout, "slipcheck 0.1.0\n");
    let unknown = command(&["frobnicate"], &fixture);
    assert_eq!(unknown.code, 2);
    assert_eq!(
        unknown.stderr,
        "slipcheck: unknown command 'frobnicate'\nRun 'slipcheck help' for usage.\n"
    );
    let usage = command(&["scan"], &fixture);
    assert_eq!(usage.code, 2);
    assert!(usage.stderr.contains("at least one archive"));
}

#[test]
fn the_checks_table_lists_every_check() {
    let table = command(&["checks"], &fixture).stdout;
    assert!(table.starts_with("ID                 SEVERITY  DESCRIPTION\n"));
    assert!(table.contains(
        "setuid             critical  file mode carries the setuid bit\n"
    ));
    assert_eq!(table.lines().count(), 13);
    for check in Check::ALL {
        assert!(table.contains(check.id()));
        assert!(table.contains(check.describe()));
    }
}
