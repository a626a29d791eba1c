use vstd::prelude::*;

verus! {

/// What an entry is to the contracts: its name as characters and its bytes.
pub type EntryView = (Seq<char>, Seq<u8>);

/// One file held in an archive: its path inside the archive and its contents.
#[derive(Debug, Clone)]
pub struct SaveEntry {
    pub name: String,
    pub data: Vec<u8>,
}

impl View for SaveEntry {
    type V = EntryView;

    open spec fn view(&self) -> EntryView {
        (self.name@, self.data@)
    }
}

/// The views of a sequence of entries, in order.
pub open spec fn entry_views(es: Seq<SaveEntry>) -> Seq<EntryView> {
    es.map_values(|e: SaveEntry| e@)
}

/// A decoded archive: the four marker bytes found at its start and its entries.
#[derive(Debug)]
pub struct SaveArchive {
    pub magic: [u8; 4],
    pub entries: Vec<SaveEntry>,
}

/// The field of an entry record at which a payload ended too early.
#[derive(Debug, Clone, Copy, PartialEq, Eq, Structural)]
pub enum EntryField {
    NameLength,
    Name,
    DataLength,
    Data,
}

/// Why an archive could not be decoded.
#[derive(Debug)]
pub enum DecodeError {
    /// Fewer than eight bytes: no room for the marker and the size field.
    TooSmall,
    /// The zlib stream could not be inflated; the text is the inflater's report.
    Decompress(String),
    /// The inflated payload is shorter than its four-byte entry count.
    PayloadTooSmall,
    /// Entry number `entry` (from zero) ends inside `field`.
    Truncated { entry: usize, field: EntryField },
}

/// Why an archive could not be built.
#[derive(Debug)]
pub enum EncodeError {
    /// Feeding the payload to the zlib encoder failed; the text is its report.
    Compress(String),
    /// Closing the zlib stream failed; the text is its report.
    Finish(String),
    /// There was nothing to put in the archive.
    NoFiles,
}

} // verus!
