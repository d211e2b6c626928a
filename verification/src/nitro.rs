//! The NitroROM filesystem tables and the NARC archive container.
//!
//! A filesystem is described by two tables inside a byte image: the
//! name table (directory names, hierarchy, per-directory sub-tables)
//! and the allocation table (one `(start, end)` byte range per file
//! id).  `Filesystem` locates the two tables — from the fixed header
//! fields of a plain cartridge image, or from the three framed chunks
//! of a NARC container — and `Directory::read` builds the tree.
//!
//! Every parsing function is specified against a spec-level parser
//! (`spec_read_dir` and friends) that defines, byte for byte, what the
//! tables mean; the executable code returns exactly what those spec
//! functions denote, including the error on malformed input.

use vstd::prelude::*;

use crate::bytes::{bytes_eq, is_utf8, le16, le32, read_bytes, read_u16, read_u32, read_u8, utf8_check};

verus! {

/// Why a parse failed.
///
/// Every failure aborts the parse in progress; there is no partial
/// tree.  `Truncated` stands for a read past the end of the image, the
/// other variants for malformed data.
#[derive(Clone, Copy, Debug, PartialEq, Eq, Structural)]
pub enum FsError {
    /// A field extended past the end of the image (short read).
    Truncated,
    /// The archive container does not start with the NARC tag.
    BadSignature,
    /// The archive version field differs from the supported version.
    BadVersion,
    /// The archive chunk count field differs from the expected three.
    BadChunkCount,
    /// A chunk tag differs from the tag expected at its position.
    BadChunkName,
    /// A name's bytes are not a valid UTF-8 encoding.
    BadEncoding,
    /// An allocation-table row has an end offset below its start.
    BadFileRange,
    /// A file offset or a chunk offset does not fit in 32 bits.
    OffsetOverflow,
    /// Directory nesting exceeded the greatest possible directory
    /// count, which only a self-referential (cyclic) name table can
    /// cause.
    TooDeep,
}

/// Mathematical model of a file: a name and the byte range that the
/// allocation table assigns to it, resolved against the image base.
pub struct FileV {
    pub name: Seq<u8>,
    pub offset: u32,
    pub len: u32,
}

/// Mathematical model of a directory: a name and its children in
/// sub-table order.
pub struct DirV {
    pub name: Seq<u8>,
    pub entries: Seq<EntryV>,
}

/// Mathematical model of one tree node.
pub enum EntryV {
    Directory(DirV),
    File(FileV),
}

/// Mathematical model of a located filesystem: the image bytes and the
/// three base offsets.
pub struct FsV {
    pub data: Seq<u8>,
    pub fnt: u32,
    pub fat: u32,
    pub img: u32,
}

/// A file stored within a NitroROM filesystem, described by its
/// location and length inside the image, never by its contents.
#[derive(Debug)]
pub struct File {
    name: Vec<u8>,
    offset: u32,
    len: u32,
}

/// A directory stored within a NitroROM filesystem, holding zero or
/// more entries in sub-table order.
#[derive(Debug)]
pub struct Directory {
    name: Vec<u8>,
    entries: Vec<Entry>,
}

/// A filesystem entry: a directory or a file.
#[derive(Debug)]
pub enum Entry {
    Directory(Directory),
    File(File),
}

/// The model of one parsed file.
pub closed spec fn file_view(f: File) -> FileV {
    FileV { name: f.name@, offset: f.offset, len: f.len }
}

/// The model of one parsed entry.
pub closed spec fn entry_view(e: Entry) -> EntryV
    decreases e,
{
    match e {
        Entry::Directory(d) => EntryV::Directory(dir_view(d)),
        Entry::File(f) => EntryV::File(file_view(f)),
    }
}

/// The model of one parsed directory.
pub closed spec fn dir_view(d: Directory) -> DirV
    decreases d,
{
    DirV { name: d.name@, entries: entries_view(d.entries@) }
}

/// The models of a sequence of parsed entries.
pub closed spec fn entries_view(s: Seq<Entry>) -> Seq<EntryV>
    decreases s,
{
    if s.len() <= 0 {
        Seq::empty()
    } else {
        seq![entry_view(s[0])] + entries_view(s.drop_first())
    }
}

/// Element-wise reading of [`entries_view`].
pub proof fn lemma_entries_view(s: Seq<Entry>)
    ensures
        entries_view(s).len() == s.len(),
        forall|i: int| 0 <= i < s.len() ==> entries_view(s)[i] == s[i]@,
    decreases s.len(),
{
    if s.len() > 0 {
        lemma_entries_view(s.drop_first());
        assert forall|i: int| 0 <= i < s.len() implies entries_view(s)[i] == s[i]@ by {
            if i > 0 {
                assert(entries_view(s)[i] == entries_view(s.drop_first())[i - 1]);
                assert(s.drop_first()[i - 1] == s[i]);
            }
        }
    }
}

impl View for File {
    type V = FileV;

    open spec fn view(&self) -> FileV {
        file_view(*self)
    }
}

impl View for Entry {
    type V = EntryV;

    open spec fn view(&self) -> EntryV {
        entry_view(*self)
    }
}

impl View for Directory {
    type V = DirV;

    open spec fn view(&self) -> DirV {
        dir_view(*self)
    }
}

/// Relates an executable parse result to a spec-level parse result:
/// the same outcome, and on success the same value up to views.
pub open spec fn parses_to<T: View>(r: Result<T, FsError>, s: Result<T::V, FsError>) -> bool {
    match r {
        Ok(v) => s is Ok && v@ == s->Ok_0,
        Err(e) => s is Err && e == s->Err_0,
    }
}

/// Like [`parses_to`], for a parsed entry list.
pub open spec fn entries_parse_to(
    r: Result<Vec<Entry>, FsError>,
    s: Result<Seq<EntryV>, FsError>,
) -> bool {
    match r {
        Ok(v) => s is Ok && entries_view(v@) == s->Ok_0,
        Err(e) => s is Err && e == s->Err_0,
    }
}

/// An upper bound on directory nesting.  Directory ids are twelve bits
/// wide, so an acyclic name table holds at most `0x1000` distinct
/// directories and no chain of nested directories can be longer than
/// that; only a cyclic table can exhaust this fuel.
pub const MAX_DIR_DEPTH: u64 = 4097;

/// The name given to the root directory, which the name table itself
/// does not store.
pub open spec fn root_name() -> Seq<u8> {
    seq![114u8, 111u8, 111u8, 116u8]
}

/// Reads one allocation-table row: the file with id `id` spans
/// `img + start` up to `img + end`, so its length is `end - start`.
pub open spec fn spec_read_file(fs: FsV, id: int, name: Seq<u8>) -> Result<FileV, FsError> {
    let len = fs.data.len() as int;
    let row = fs.fat + id * 8;
    if row + 4 > len {
        Err(FsError::Truncated)
    } else {
        let start = le32(fs.data, row);
        if fs.img + start > u32::MAX {
            Err(FsError::OffsetOverflow)
        } else if row + 8 > len {
            Err(FsError::Truncated)
        } else {
            let end = le32(fs.data, row + 4);
            if end < start {
                Err(FsError::BadFileRange)
            } else {
                Ok(FileV { name, offset: (fs.img + start) as u32, len: (end - start) as u32 })
            }
        }
    }
}

/// Reads the main-table entry at `pos` and the sub-table it points at,
/// yielding the directory named `name`.
///
/// The main-table entry holds a sub-table offset relative to the name
/// table base and the id of the first file listed in the sub-table;
/// its remaining field (parent id, or total directory count for the
/// root) is ignored.
pub open spec fn spec_read_dir(fs: FsV, pos: int, name: Seq<u8>, fuel: nat) -> Result<
    DirV,
    FsError,
>
    decreases fuel, fs.data.len() as int + 1,
{
    let len = fs.data.len() as int;
    if pos + 4 > len {
        Err(FsError::Truncated)
    } else {
        let sub_off = le32(fs.data, pos);
        if pos + 6 > len {
            Err(FsError::Truncated)
        } else {
            let first_id = le16(fs.data, pos + 4);
            match spec_read_sub_table(fs, fs.fnt + sub_off, first_id as int, fuel) {
                Ok(entries) => Ok(DirV { name, entries }),
                Err(e) => Err(e),
            }
        }
    }
}

/// Reads the sub-table entries starting at `pos`, assigning file ids
/// consecutively from `file_id`.
///
/// Each entry starts with a one-byte header: zero ends the sub-table,
/// `0x80` is reserved and skipped, the low seven bits give the name
/// length and the top bit marks a subdirectory.  A file entry takes
/// its byte range from the allocation-table row of the current file
/// id; a subdirectory entry carries a two-byte field whose low twelve
/// bits give the subdirectory id, whose main-table entry sits at
/// `fnt + id * 8`.  A name whose bytes are not a valid UTF-8 encoding
/// fails the parse before the entry is produced.
pub open spec fn spec_read_sub_table(fs: FsV, pos: int, file_id: int, fuel: nat) -> Result<
    Seq<EntryV>,
    FsError,
>
    decreases fuel, (if pos <= fs.data.len() as int { fs.data.len() as int - pos } else { 0 }),
{
    let len = fs.data.len() as int;
    if pos + 1 > len {
        Err(FsError::Truncated)
    } else {
        let header = fs.data[pos];
        if header == 0 {
            Ok(Seq::empty())
        } else if header == 0x80 {
            spec_read_sub_table(fs, pos + 1, file_id, fuel)
        } else {
            let nlen = (header % 0x80) as int;
            if pos + 1 + nlen > len {
                Err(FsError::Truncated)
            } else {
                let name = fs.data.subrange(pos + 1, pos + 1 + nlen);
                if !is_utf8(name) {
                    Err(FsError::BadEncoding)
                } else if header < 0x80 {
                    match spec_read_file(fs, file_id, name) {
                        Ok(f) => match spec_read_sub_table(fs, pos + 1 + nlen, file_id + 1, fuel) {
                            Ok(rest) => Ok(seq![EntryV::File(f)] + rest),
                            Err(e) => Err(e),
                        },
                        Err(e) => Err(e),
                    }
                } else {
                    if pos + 1 + nlen + 2 > len {
                        Err(FsError::Truncated)
                    } else {
                        let sub_id = (le16(fs.data, pos + 1 + nlen) % 0x1000) as int;
                        if fuel == 0 {
                            Err(FsError::TooDeep)
                        } else {
                            match spec_read_dir(fs, fs.fnt + sub_id * 8, name, (fuel - 1) as nat) {
                                Ok(d) => match spec_read_sub_table(
                                    fs,
                                    pos + 1 + nlen + 2,
                                    file_id,
                                    fuel,
                                ) {
                                    Ok(rest) => Ok(seq![EntryV::Directory(d)] + rest),
                                    Err(e) => Err(e),
                                },
                                Err(e) => Err(e),
                            }
                        }
                    }
                }
            }
        }
    }
}

impl File {
    /// Reads the metadata of the file with id `file_id` and the given
    /// name from its allocation-table row.
    pub fn read(fs: &Filesystem, file_id: u64, name: Vec<u8>) -> (r: Result<File, FsError>)
        ensures
            parses_to(r, spec_read_file(fs@, file_id as int, name@)),
    {
        let row128: u128 = fs.fat_offset as u128 + (file_id as u128) * 8;
        let dlen: u64 = fs.data.len() as u64;
        if row128 + 4 > dlen as u128 {
            return Err(FsError::Truncated);
        }
        let row: u64 = row128 as u64;
        let start = read_u32(&fs.data, row).unwrap();
        if start > u32::MAX - fs.image_offset {
            return Err(FsError::OffsetOverflow);
        }
        if row128 + 8 > dlen as u128 {
            return Err(FsError::Truncated);
        }
        let end = read_u32(&fs.data, row + 4).unwrap();
        if end < start {
            return Err(FsError::BadFileRange);
        }
        Ok(File { name, offset: fs.image_offset + start, len: end - start })
    }

    /// Returns the name of the file.
    pub fn name(&self) -> (r: &Vec<u8>)
        ensures
            r@ == self@.name,
    {
        &self.name
    }

    /// Returns the offset within the image at which the file contents
    /// start.
    pub fn offset(&self) -> (r: u32)
        ensures
            r == self@.offset,
    {
        self.offset
    }

    /// Returns the length of the file contents in bytes.
    pub fn len(&self) -> (r: u32)
        ensures
            r == self@.len,
    {
        self.len
    }
}

impl Directory {
    /// Reads the directory whose main-table entry sits at `pos`,
    /// giving it the given name.
    pub fn read(fs: &Filesystem, pos: u64, name: Vec<u8>) -> (r: Result<Directory, FsError>)
        ensures
            parses_to(r, spec_read_dir(fs@, pos as int, name@, MAX_DIR_DEPTH as nat)),
    {
        Directory::read_fueled(fs, pos, name, MAX_DIR_DEPTH)
    }

    fn read_fueled(fs: &Filesystem, pos: u64, name: Vec<u8>, fuel: u64) -> (r: Result<
        Directory,
        FsError,
    >)
        ensures
            parses_to(r, spec_read_dir(fs@, pos as int, name@, fuel as nat)),
        decreases fuel, fs@.data.len() as int + 1,
    {
        proof {
            assert(fs.data.len() == fs.data@.len());
        }
        let sub_off = match read_u32(&fs.data, pos) {
            Some(v) => v,
            None => {
                return Err(FsError::Truncated);
            },
        };
        let first_id = match read_u16(&fs.data, pos + 4) {
            Some(v) => v,
            None => {
                return Err(FsError::Truncated);
            },
        };
        let sub_pos: u64 = fs.fnt_offset as u64 + sub_off as u64;
        match Entry::read_sub_table_fueled(fs, sub_pos, first_id as u64, fuel) {
            Ok(entries) => Ok(Directory { name, entries }),
            Err(e) => Err(e),
        }
    }

    /// Returns the name of the directory.
    pub fn name(&self) -> (r: &Vec<u8>)
        ensures
            r@ == self@.name,
    {
        &self.name
    }

    /// Returns the directory entries, in sub-table order.
    pub fn entries(&self) -> (r: &Vec<Entry>)
        ensures
            entries_view(r@) == self@.entries,
    {
        &self.entries
    }
}

impl Entry {
    /// Reads the entries of a sub-table starting at `pos`, with
    /// `file_id` the id of the first file within the sub-table.
    pub fn read_sub_table(fs: &Filesystem, pos: u64, file_id: u16) -> (r: Result<
        Vec<Entry>,
        FsError,
    >)
        ensures
            entries_parse_to(
                r,
                spec_read_sub_table(fs@, pos as int, file_id as int, MAX_DIR_DEPTH as nat),
            ),
    {
        Entry::read_sub_table_fueled(fs, pos, file_id as u64, MAX_DIR_DEPTH)
    }

    fn read_sub_table_fueled(fs: &Filesystem, pos: u64, file_id: u64, fuel: u64) -> (r: Result<
        Vec<Entry>,
        FsError,
    >)
        requires
            file_id as int <= 0x10000 + pos as int / 2,
        ensures
            entries_parse_to(r, spec_read_sub_table(fs@, pos as int, file_id as int, fuel as nat)),
        decreases fuel, (if pos as int <= fs@.data.len() as int {
            fs@.data.len() as int - pos as int
        } else {
            0int
        }),
    {
        proof {
            assert(fs.data.len() == fs.data@.len());
        }
        let header = match read_u8(&fs.data, pos) {
            Some(v) => v,
            None => {
                return Err(FsError::Truncated);
            },
        };
        if header == 0 {
            let empty: Vec<Entry> = Vec::new();
            proof {
                assert(entries_view(empty@) =~= Seq::<EntryV>::empty());
            }
            return Ok(empty);
        }
        if header == 0x80 {
            // Reserved entry: skip the header byte and keep reading.
            return Entry::read_sub_table_fueled(fs, pos + 1, file_id, fuel);
        }
        let nlen: u64 = (header % 0x80) as u64;
        let name = match read_bytes(&fs.data, pos + 1, nlen) {
            Some(v) => v,
            None => {
                return Err(FsError::Truncated);
            },
        };
        if !utf8_check(&name) {
            return Err(FsError::BadEncoding);
        }
        let entry_end: u64 = pos + 1 + nlen;
        if header < 0x80 {
            // File entry: its id selects the allocation-table row.
            let file = match File::read(fs, file_id, name) {
                Ok(f) => f,
                Err(e) => {
                    return Err(e);
                },
            };
            match Entry::read_sub_table_fueled(fs, entry_end, file_id + 1, fuel) {
                Ok(mut rest) => {
                    let ghost tail = rest@;
                    rest.insert(0, Entry::File(file));
                    proof {
                        assert(rest@.drop_first() =~= tail);
                        assert(entry_view(Entry::File(file)) == EntryV::File(file@));
                        assert(entries_view(rest@) == seq![EntryV::File(file@)] + entries_view(
                            tail,
                        ));
                    }
                    Ok(rest)
                },
                Err(e) => Err(e),
            }
        } else {
            // Subdirectory entry: a two-byte field holds its id.
            let id_field = match read_u16(&fs.data, entry_end) {
                Some(v) => v,
                None => {
                    return Err(FsError::Truncated);
                },
            };
            let sub_id: u16 = id_field % 0x1000;
            if fuel == 0 {
                return Err(FsError::TooDeep);
            }
            let sub_pos: u64 = fs.fnt_offset as u64 + (sub_id as u64) * 8;
            let dir = match Directory::read_fueled(fs, sub_pos, name, fuel - 1) {
                Ok(d) => d,
                Err(e) => {
                    return Err(e);
                },
            };
            match Entry::read_sub_table_fueled(fs, entry_end + 2, file_id, fuel) {
                Ok(mut rest) => {
                    let ghost tail = rest@;
                    rest.insert(0, Entry::Directory(dir));
                    proof {
                        assert(rest@.drop_first() =~= tail);
                        assert(entry_view(Entry::Directory(dir)) == EntryV::Directory(dir@));
                        assert(entries_view(rest@) == seq![EntryV::Directory(dir@)] + entries_view(
                            tail,
                        ));
                    }
                    Ok(rest)
                },
                Err(e) => Err(e),
            }
        }
    }

    /// Returns the wrapped directory if this entry is one.
    pub fn directory(&self) -> (r: Option<&Directory>)
        ensures
            self@ is Directory <==> r is Some,
            r matches Some(d) ==> self@ == EntryV::Directory(d@),
    {
        if let Entry::Directory(dir) = self {
            Some(dir)
        } else {
            None
        }
    }

    /// Returns the wrapped file if this entry is one.
    pub fn file(&self) -> (r: Option<&File>)
        ensures
            self@ is File <==> r is Some,
            r matches Some(f) ==> self@ == EntryV::File(f@),
    {
        if let Entry::File(file) = self {
            Some(file)
        } else {
            None
        }
    }
}

/// Result of reading one framed NARC chunk.
pub struct ChunkV {
    /// The offset within the image at which the chunk starts.
    pub offset: u32,
    /// The four bytes read from the position just past the chunk's
    /// declared extent.
    pub len: u32,
    /// The position just past those four bytes, where the next chunk
    /// is read.
    pub end: int,
}

/// Reads one framed chunk at `pos`: a four-byte tag that must equal
/// `tag`, a four-byte length counted from the chunk start, the skipped
/// body, and one further four-byte field read from the position just
/// past the declared extent, kept as the descriptor's `len`.
pub open spec fn spec_read_chunk(d: Seq<u8>, pos: int, tag: Seq<u8>) -> Result<ChunkV, FsError> {
    let len = d.len() as int;
    if pos > u32::MAX {
        Err(FsError::OffsetOverflow)
    } else if pos + 4 > len {
        Err(FsError::Truncated)
    } else if d.subrange(pos, pos + 4) != tag {
        Err(FsError::BadChunkName)
    } else if pos + 8 > len {
        Err(FsError::Truncated)
    } else {
        let clen = le32(d, pos + 4);
        if pos + clen + 4 > len {
            Err(FsError::Truncated)
        } else {
            Ok(ChunkV { offset: pos as u32, len: le32(d, pos + clen), end: pos + clen + 4 })
        }
    }
}

/// A NARC chunk descriptor, kept only while the table roots are being
/// located.
struct NitroArcChunk {
    /// The offset within the image at which the chunk starts.
    offset: u32,
    /// The four bytes past the chunk's declared extent (see
    /// [`spec_read_chunk`]); only `offset` is consumed downstream.
    #[allow(dead_code)]
    len: u32,
}

impl NitroArcChunk {
    /// Reads the chunk at `pos` with the expected tag, returning the
    /// descriptor and the position at which the next chunk starts.
    fn read(data: &Vec<u8>, pos: u64, tag: &Vec<u8>) -> (r: Result<(NitroArcChunk, u64), FsError>)
        ensures
            match r {
                Ok((c, next)) => {
                    let s = spec_read_chunk(data@, pos as int, tag@);
                    &&& s is Ok
                    &&& c.offset == s->Ok_0.offset
                    &&& c.len == s->Ok_0.len
                    &&& next == s->Ok_0.end
                },
                Err(e) => spec_read_chunk(data@, pos as int, tag@) == Err::<ChunkV, FsError>(e),
            },
    {
        if pos > u32::MAX as u64 {
            return Err(FsError::OffsetOverflow);
        }
        let actual = match read_bytes(data, pos, 4) {
            Some(v) => v,
            None => {
                return Err(FsError::Truncated);
            },
        };
        if !bytes_eq(&actual, tag) {
            return Err(FsError::BadChunkName);
        }
        let clen = match read_u32(data, pos + 4) {
            Some(v) => v,
            None => {
                return Err(FsError::Truncated);
            },
        };
        // Skip the chunk body, then read one further field from the
        // position just past the declared extent.
        let trail = match read_u32(data, pos + clen as u64) {
            Some(v) => v,
            None => {
                return Err(FsError::Truncated);
            },
        };
        Ok((NitroArcChunk { offset: pos as u32, len: trail }, pos + clen as u64 + 4))
    }
}

/// The NARC file signature.
pub open spec fn narc_tag() -> Seq<u8> {
    seq![78u8, 65u8, 82u8, 67u8]
}

/// The tag of the allocation-table chunk.
pub open spec fn btaf_tag() -> Seq<u8> {
    seq![66u8, 84u8, 65u8, 70u8]
}

/// The tag of the name-table chunk.
pub open spec fn btnf_tag() -> Seq<u8> {
    seq![66u8, 84u8, 78u8, 70u8]
}

/// The tag of the image chunk that holds the file contents.
pub open spec fn gmif_tag() -> Seq<u8> {
    seq![71u8, 77u8, 73u8, 70u8]
}

/// The supported NARC format version.
pub const NARC_VERSION: u16 = 0x10;

/// Locates the tables of a plain cartridge image: the name-table base
/// is the 32-bit field at `0x40`, the allocation-table base the one at
/// `0x48`, and file offsets are relative to the start of the image.
pub open spec fn spec_from_rom(d: Seq<u8>) -> Result<FsV, FsError> {
    if d.len() < 0x44 {
        Err(FsError::Truncated)
    } else if d.len() < 0x4C {
        Err(FsError::Truncated)
    } else {
        Ok(FsV { data: d, fnt: le32(d, 0x40), fat: le32(d, 0x48), img: 0 })
    }
}

/// Locates the tables of a NARC archive: after the validated header
/// come exactly three chunks — allocation table, name table, image —
/// and the three base offsets are the chunks' start offsets.
pub open spec fn spec_from_archive(d: Seq<u8>) -> Result<FsV, FsError> {
    let len = d.len() as int;
    if len < 4 {
        Err(FsError::Truncated)
    } else if d.subrange(0, 4) != narc_tag() {
        Err(FsError::BadSignature)
    } else if len < 8 {
        Err(FsError::Truncated)
    } else if le16(d, 6) != NARC_VERSION {
        Err(FsError::BadVersion)
    } else if len < 16 {
        Err(FsError::Truncated)
    } else if le16(d, 14) != 3 {
        Err(FsError::BadChunkCount)
    } else {
        match spec_read_chunk(d, 16, btaf_tag()) {
            Err(e) => Err(e),
            Ok(fat) => match spec_read_chunk(d, fat.end, btnf_tag()) {
                Err(e) => Err(e),
                Ok(fnt) => match spec_read_chunk(d, fnt.end, gmif_tag()) {
                    Err(e) => Err(e),
                    Ok(img) => Ok(
                        FsV { data: d, fnt: fnt.offset, fat: fat.offset, img: img.offset },
                    ),
                },
            },
        }
    }
}

/// The located tables of a NitroROM filesystem: the image bytes plus
/// the name-table, allocation-table and image base offsets.
///
/// Read-only once constructed; the tree is built from it by
/// [`Filesystem::root_dir`].
#[derive(Debug)]
pub struct Filesystem {
    data: Vec<u8>,
    /// The offset at which the name table (FNT) starts.
    fnt_offset: u32,
    /// The offset at which the allocation table (FAT) starts.
    fat_offset: u32,
    /// The offset at which the image area starts.  Zero for a plain
    /// cartridge image; the data chunk's start for an archive.
    image_offset: u32,
}

impl View for Filesystem {
    type V = FsV;

    closed spec fn view(&self) -> FsV {
        FsV {
            data: self.data@,
            fnt: self.fnt_offset,
            fat: self.fat_offset,
            img: self.image_offset,
        }
    }
}

impl Filesystem {
    /// Reads the main NitroROM filesystem of a plain cartridge image.
    pub fn from_rom(data: Vec<u8>) -> (r: Result<Filesystem, FsError>)
        ensures
            parses_to(r, spec_from_rom(data@)),
    {
        let fnt_offset = match read_u32(&data, 0x40) {
            Some(v) => v,
            None => {
                return Err(FsError::Truncated);
            },
        };
        let fat_offset = match read_u32(&data, 0x48) {
            Some(v) => v,
            None => {
                return Err(FsError::Truncated);
            },
        };
        Ok(Filesystem { data, fnt_offset, fat_offset, image_offset: 0 })
    }

    /// Reads a Nitro Archive (NARC) virtual filesystem starting at the
    /// first byte of `data`.
    pub fn from_archive(data: Vec<u8>) -> (r: Result<Filesystem, FsError>)
        ensures
            parses_to(r, spec_from_archive(data@)),
    {
        // A NARC is composed of a header and three chunks: the FAT,
        // the FNT and the image containing the file contents.
        let sig = match read_bytes(&data, 0, 4) {
            Some(v) => v,
            None => {
                return Err(FsError::Truncated);
            },
        };
        let mut narc: Vec<u8> = Vec::new();
        narc.push(78);
        narc.push(65);
        narc.push(82);
        narc.push(67);
        proof {
            assert(narc@ =~= narc_tag());
        }
        if !bytes_eq(&sig, &narc) {
            return Err(FsError::BadSignature);
        }
        // Two bytes of byte-order marker are skipped.
        let version = match read_u16(&data, 6) {
            Some(v) => v,
            None => {
                return Err(FsError::Truncated);
            },
        };
        if version != NARC_VERSION {
            return Err(FsError::BadVersion);
        }
        // Four bytes of file size and two of header size are skipped.
        let chunk_count = match read_u16(&data, 14) {
            Some(v) => v,
            None => {
                return Err(FsError::Truncated);
            },
        };
        if chunk_count != 3 {
            return Err(FsError::BadChunkCount);
        }
        let mut btaf: Vec<u8> = Vec::new();
        btaf.push(66);
        btaf.push(84);
        btaf.push(65);
        btaf.push(70);
        proof {
            assert(btaf@ =~= btaf_tag());
        }
        let (fat, after_fat) = match NitroArcChunk::read(&data, 16, &btaf) {
            Ok(v) => v,
            Err(e) => {
                return Err(e);
            },
        };
        let mut btnf: Vec<u8> = Vec::new();
        btnf.push(66);
        btnf.push(84);
        btnf.push(78);
        btnf.push(70);
        proof {
            assert(btnf@ =~= btnf_tag());
        }
        let (fnt, after_fnt) = match NitroArcChunk::read(&data, after_fat, &btnf) {
            Ok(v) => v,
            Err(e) => {
                return Err(e);
            },
        };
        let mut gmif: Vec<u8> = Vec::new();
        gmif.push(71);
        gmif.push(77);
        gmif.push(73);
        gmif.push(70);
        proof {
            assert(gmif@ =~= gmif_tag());
        }
        let (image, _after_image) = match NitroArcChunk::read(&data, after_fnt, &gmif) {
            Ok(v) => v,
            Err(e) => {
                return Err(e);
            },
        };
        Ok(
            Filesystem {
                data,
                fnt_offset: fnt.offset,
                fat_offset: fat.offset,
                image_offset: image.offset,
            },
        )
    }

    /// Returns the offset at which the name table starts.
    pub fn name_table_base(&self) -> (r: u32)
        ensures
            r == self@.fnt,
    {
        self.fnt_offset
    }

    /// Returns the offset at which the allocation table starts.
    pub fn alloc_table_base(&self) -> (r: u32)
        ensures
            r == self@.fat,
    {
        self.fat_offset
    }

    /// Returns the offset at which the image area starts.
    pub fn image_base(&self) -> (r: u32)
        ensures
            r == self@.img,
    {
        self.image_offset
    }

    /// Reads the contents of the root directory, whose main-table
    /// entry is the first of the name table.
    pub fn root_dir(&self) -> (r: Result<Directory, FsError>)
        ensures
            parses_to(
                r,
                spec_read_dir(self@, self@.fnt as int, root_name(), MAX_DIR_DEPTH as nat),
            ),
    {
        let mut name: Vec<u8> = Vec::new();
        name.push(114);
        name.push(111);
        name.push(111);
        name.push(116);
        proof {
            assert(name@ =~= root_name());
        }
        Directory::read(self, self.fnt_offset as u64, name)
    }
}

} // verus!
