//! The format-agnostic archive entry: what the tar and zip readers hand to
//! the auditor. Only metadata — slipcheck never materializes file contents
//! (the single exception is decoding a zip symlink's target).
use vstd::prelude::*;

verus! {

/// What kind of filesystem object an entry would create on extraction.
#[derive(Debug, Clone, Copy, PartialEq, Eq, Structural)]
pub enum EntryKind {
    /// A regular file.
    File,
    /// A directory.
    Dir,
    /// A symbolic link.
    Symlink,
    /// A hard link.
    Hardlink,
    /// A character device node.
    CharDevice,
    /// A block device node.
    BlockDevice,
    /// A named pipe.
    Fifo,
    /// A type slipcheck does not model (e.g. GNU sparse maps, volume
    /// headers). Carried through so the auditor can warn instead of
    /// silently skipping.
    Other(char),
}

/// What [`EntryKind::label`] calls each kind.
pub open spec fn kind_label(kind: EntryKind) -> Seq<char> {
    match kind {
        EntryKind::File => "file"@,
        EntryKind::Dir => "dir"@,
        EntryKind::Symlink => "symlink"@,
        EntryKind::Hardlink => "hardlink"@,
        EntryKind::CharDevice => "char-device"@,
        EntryKind::BlockDevice => "block-device"@,
        EntryKind::Fifo => "fifo"@,
        EntryKind::Other(_) => "other"@,
    }
}

impl EntryKind {
    /// Short name of the kind.
    pub fn label(self) -> (r: &'static str)
        ensures
            r@ == kind_label(self),
    {
        match self {
            EntryKind::File => "file",
            EntryKind::Dir => "dir",
            EntryKind::Symlink => "symlink",
            EntryKind::Hardlink => "hardlink",
            EntryKind::CharDevice => "char-device",
            EntryKind::BlockDevice => "block-device",
            EntryKind::Fifo => "fifo",
            EntryKind::Other(_) => "other",
        }
    }
}

/// One archive member, normalized across formats.
#[derive(Debug, Clone)]
pub struct Entry {
    /// The raw path exactly as stored in the archive.
    pub path: String,
    /// What extraction would create.
    pub kind: EntryKind,
    /// Unix permission bits including setuid/setgid/sticky (`0o7777` mask),
    /// when the format records them. Zip entries made on non-unix hosts
    /// have `None`.
    pub mode: Option<u32>,
    /// Symlink or hard link target, raw as stored.
    pub link_target: Option<String>,
    /// Uncompressed payload size in bytes.
    pub size: u64,
}

/// An [`Entry`] with its texts as character sequences.
#[verifier::ext_equal]
pub struct EntryView {
    /// The raw path.
    pub path: Seq<char>,
    /// What extraction would create.
    pub kind: EntryKind,
    /// Permission bits, if recorded.
    pub mode: Option<u32>,
    /// Link target, if recorded.
    pub link_target: Option<Seq<char>>,
    /// Payload size.
    pub size: u64,
}

/// The text of an optional string.
pub open spec fn text_view(s: Option<String>) -> Option<Seq<char>> {
    match s {
        Some(s) => Some(s@),
        None => None,
    }
}

impl View for Entry {
    type V = EntryView;

    open spec fn view(&self) -> EntryView {
        EntryView {
            path: self.path@,
            kind: self.kind,
            mode: self.mode,
            link_target: text_view(self.link_target),
            size: self.size,
        }
    }
}

/// The entries of `entries` as views.
pub open spec fn entry_views(entries: Seq<Entry>) -> Seq<EntryView> {
    entries.map_values(|e: Entry| e@)
}

/// An entry of which only name and kind are known.
pub open spec fn bare_entry(path: Seq<char>, kind: EntryKind) -> EntryView {
    EntryView { path, kind, mode: None, link_target: None, size: 0 }
}

impl Entry {
    /// An entry with neither mode nor target, of size zero.
    pub fn new(path: &str, kind: EntryKind) -> (r: Entry)
        ensures
            r@ == bare_entry(path@, kind),
    {
        Entry { path: path.to_owned(), kind, mode: None, link_target: None, size: 0 }
    }

    /// The same entry with the mode set.
    pub fn with_mode(self, mode: u32) -> (r: Entry)
        ensures
            r@ == (EntryView { mode: Some(mode), ..self@ }),
    {
        Entry {
            path: self.path,
            kind: self.kind,
            mode: Some(mode),
            link_target: self.link_target,
            size: self.size,
        }
    }

    /// The same entry with the link target set.
    pub fn with_target(self, target: &str) -> (r: Entry)
        ensures
            r@ == (EntryView { link_target: Some(target@), ..self@ }),
    {
        Entry {
            path: self.path,
            kind: self.kind,
            mode: self.mode,
            link_target: Some(target.to_owned()),
            size: self.size,
        }
    }
}

} // verus!
