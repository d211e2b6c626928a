//! Properties of the table parser, stated and proved against the
//! spec-level parser that the executable code is verified to match.

use vstd::prelude::*;

use crate::bytes::{le16, le32};
use crate::traverse::{
    entries_names_nonempty, entry_names_nonempty, lemma_search_empty_path, spec_search,
};
use crate::nitro::{
    btaf_tag, narc_tag, root_name, spec_from_archive, spec_from_rom, spec_read_dir,
    spec_read_file, spec_read_sub_table, EntryV, FsError, FsV, NARC_VERSION,
};

verus! {

/// The number of file entries in `s`.
pub open spec fn file_count(s: Seq<EntryV>) -> int
    decreases s.len(),
{
    if s.len() <= 0 {
        0
    } else {
        (if s[0] is File {
            1int
        } else {
            0int
        }) + file_count(s.drop_first())
    }
}

/// File ids are assigned consecutively, in sub-table order, starting
/// at the first-file-id of the directory's main-table entry: the
/// `j`-th child, if a file, is exactly the allocation-table row of id
/// `file_id + (number of file children before it)`.
pub proof fn lemma_file_ids_contiguous(fs: FsV, pos: int, file_id: int, fuel: nat)
    requires
        spec_read_sub_table(fs, pos, file_id, fuel) is Ok,
    ensures
        forall|j: int|
            0 <= j < spec_read_sub_table(fs, pos, file_id, fuel)->Ok_0.len()
                && (#[trigger] spec_read_sub_table(fs, pos, file_id, fuel)->Ok_0[j]) is File ==> {
                let entries = spec_read_sub_table(fs, pos, file_id, fuel)->Ok_0;
                let row = spec_read_file(
                    fs,
                    file_id + file_count(entries.take(j)),
                    entries[j]->File_0.name,
                );
                &&& row is Ok
                &&& entries[j] == EntryV::File(row->Ok_0)
            },
    decreases fuel, (if pos <= fs.data.len() as int {
        fs.data.len() as int - pos
    } else {
        0int
    }),
{
    let len = fs.data.len() as int;
    let entries = spec_read_sub_table(fs, pos, file_id, fuel)->Ok_0;
    let header = fs.data[pos];
    if header == 0 {
    } else if header == 0x80 {
        lemma_file_ids_contiguous(fs, pos + 1, file_id, fuel);
    } else {
        let nlen = (header % 0x80) as int;
        let name = fs.data.subrange(pos + 1, pos + 1 + nlen);
        if header < 0x80 {
            let f = spec_read_file(fs, file_id, name)->Ok_0;
            let rest = spec_read_sub_table(fs, pos + 1 + nlen, file_id + 1, fuel)->Ok_0;
            lemma_file_ids_contiguous(fs, pos + 1 + nlen, file_id + 1, fuel);
            assert(entries == seq![EntryV::File(f)] + rest);
            assert forall|j: int|
                0 <= j < entries.len() && (#[trigger] entries[j]) is File implies {
                let row = spec_read_file(
                    fs,
                    file_id + file_count(entries.take(j)),
                    entries[j]->File_0.name,
                );
                row is Ok && entries[j] == EntryV::File(row->Ok_0)
            } by {
                if j == 0 {
                    assert(entries.take(0) =~= Seq::<EntryV>::empty());
                    assert(file_count(entries.take(0)) == 0);
                } else {
                    assert(entries[j] == rest[j - 1]);
                    assert(entries.take(j) =~= seq![EntryV::File(f)] + rest.take(j - 1));
                    assert((seq![EntryV::File(f)] + rest.take(j - 1)).drop_first() =~= rest.take(
                        j - 1,
                    ));
                    assert(file_count(entries.take(j)) == 1 + file_count(rest.take(j - 1)));
                }
            }
        } else {
            let sub_id = (le16(fs.data, pos + 1 + nlen) % 0x1000) as int;
            let d = crate::nitro::spec_read_dir(
                fs,
                fs.fnt + sub_id * 8,
                name,
                (fuel - 1) as nat,
            )->Ok_0;
            let rest = spec_read_sub_table(fs, pos + 1 + nlen + 2, file_id, fuel)->Ok_0;
            lemma_file_ids_contiguous(fs, pos + 1 + nlen + 2, file_id, fuel);
            assert(entries == seq![EntryV::Directory(d)] + rest);
            assert forall|j: int|
                0 <= j < entries.len() && (#[trigger] entries[j]) is File implies {
                let row = spec_read_file(
                    fs,
                    file_id + file_count(entries.take(j)),
                    entries[j]->File_0.name,
                );
                row is Ok && entries[j] == EntryV::File(row->Ok_0)
            } by {
                if j > 0 {
                    assert(entries[j] == rest[j - 1]);
                    assert(entries.take(j) =~= seq![EntryV::Directory(d)] + rest.take(j - 1));
                    assert((seq![EntryV::Directory(d)] + rest.take(j - 1)).drop_first()
                        =~= rest.take(j - 1));
                    assert(file_count(entries.take(j)) == 0 + file_count(rest.take(j - 1)));
                }
            }
        }
    }
}

/// A file's length is derived, never stored: the allocation table
/// stores a start and an end offset, and the parsed file has
/// `len == end - start` and `offset == imageBase + start`.
pub proof fn lemma_file_length_derived(fs: FsV, id: int, name: Seq<u8>)
    requires
        spec_read_file(fs, id, name) is Ok,
    ensures
        ({
            let row = fs.fat + id * 8;
            let start = le32(fs.data, row);
            let end = le32(fs.data, row + 4);
            let f = spec_read_file(fs, id, name)->Ok_0;
            &&& f.len == end - start
            &&& f.offset == fs.img + start
            &&& f.name == name
        }),
{
}

/// An archive whose first four bytes are not the NARC tag is rejected
/// after those four bytes alone.
pub proof fn lemma_archive_bad_signature(d: Seq<u8>)
    requires
        d.len() >= 4,
        d.subrange(0, 4) != narc_tag(),
    ensures
        spec_from_archive(d) == Err::<FsV, FsError>(FsError::BadSignature),
{
}

/// An archive with an unsupported version field is rejected.
pub proof fn lemma_archive_bad_version(d: Seq<u8>)
    requires
        d.len() >= 8,
        d.subrange(0, 4) == narc_tag(),
        le16(d, 6) != NARC_VERSION,
    ensures
        spec_from_archive(d) == Err::<FsV, FsError>(FsError::BadVersion),
{
}

/// An archive whose chunk count field is not exactly three is
/// rejected.
pub proof fn lemma_archive_bad_chunk_count(d: Seq<u8>)
    requires
        d.len() >= 16,
        d.subrange(0, 4) == narc_tag(),
        le16(d, 6) == NARC_VERSION,
        le16(d, 14) != 3,
    ensures
        spec_from_archive(d) == Err::<FsV, FsError>(FsError::BadChunkCount),
{
}

/// An archive whose first chunk does not carry the allocation-table
/// tag is rejected at that tag.
pub proof fn lemma_archive_bad_chunk_tag(d: Seq<u8>)
    requires
        d.len() >= 20,
        d.subrange(0, 4) == narc_tag(),
        le16(d, 6) == NARC_VERSION,
        le16(d, 14) == 3,
        d.subrange(16, 20) != btaf_tag(),
    ensures
        spec_from_archive(d) == Err::<FsV, FsError>(FsError::BadChunkName),
{
}

/// A sub-table whose first header byte is zero parses as an empty
/// child list: the directory has zero children.
pub proof fn lemma_zero_header_empty(fs: FsV, pos: int, file_id: int, fuel: nat)
    requires
        0 <= pos < fs.data.len(),
        fs.data[pos] == 0,
    ensures
        spec_read_sub_table(fs, pos, file_id, fuel) == Ok::<Seq<EntryV>, FsError>(Seq::empty()),
{
}

/// True when offset `i` past base `b` lies inside the image.
pub open spec fn table_in(d: Seq<u8>, b: int, i: int) -> bool {
    b + i < d.len()
}

/// The byte at offset `i` past base `b`.
pub open spec fn table_byte(d: Seq<u8>, b: int, i: int) -> u8 {
    d[b + i]
}

/// The bytes from base `b1` on in `d1` and from base `b2` on in `d2`
/// are the same table: equal contents and equal extent.
#[verifier::opaque]
pub open spec fn table_eq(d1: Seq<u8>, b1: int, d2: Seq<u8>, b2: int) -> bool {
    forall|i: int|
        i >= 0 ==> ((#[trigger] table_in(d1, b1, i)) <==> table_in(d2, b2, i)) && (table_in(
            d1,
            b1,
            i,
        ) ==> table_byte(d1, b1, i) == table_byte(d2, b2, i))
}

/// Both tables of `fs2` hold the same bytes as those of `fs1`,
/// relative to their own bases.
pub open spec fn tables_match(fs1: FsV, fs2: FsV) -> bool {
    &&& table_eq(fs1.data, fs1.fnt as int, fs2.data, fs2.fnt as int)
    &&& table_eq(fs1.data, fs1.fat as int, fs2.data, fs2.fat as int)
}

/// Structural identity of two entries up to the image base: same
/// names, same lengths, same offsets relative to the respective
/// image base.
pub open spec fn similar_entry(e1: EntryV, e2: EntryV, img1: u32, img2: u32) -> bool
    decreases e1,
{
    match e1 {
        EntryV::File(f1) => {
            &&& e2 is File
            &&& e2->File_0.name == f1.name
            &&& e2->File_0.len == f1.len
            &&& f1.offset - img1 == e2->File_0.offset - img2
        },
        EntryV::Directory(d1) => {
            &&& e2 is Directory
            &&& e2->Directory_0.name == d1.name
            &&& similar_entries(d1.entries, e2->Directory_0.entries, img1, img2)
        },
    }
}

/// Structural identity of two child lists up to the image base.
pub open spec fn similar_entries(s1: Seq<EntryV>, s2: Seq<EntryV>, img1: u32, img2: u32) -> bool
    decreases s1,
{
    &&& s1.len() == s2.len()
    &&& s1.len() > 0 ==> similar_entry(s1[0], s2[0], img1, img2) && similar_entries(
        s1.drop_first(),
        s2.drop_first(),
        img1,
        img2,
    )
}

proof fn lemma_le16_eq(d1: Seq<u8>, b1: int, d2: Seq<u8>, b2: int, i: int)
    requires
        table_eq(d1, b1, d2, b2),
        i >= 0,
        b1 + i + 2 <= d1.len(),
    ensures
        le16(d1, b1 + i) == le16(d2, b2 + i),
        b2 + i + 2 <= d2.len(),
{
    reveal(table_eq);
    assert(table_in(d1, b1, i) && table_in(d1, b1, i + 1));
    assert(table_byte(d1, b1, i) == table_byte(d2, b2, i));
    assert(table_byte(d1, b1, i + 1) == table_byte(d2, b2, i + 1));
}

proof fn lemma_le32_eq(d1: Seq<u8>, b1: int, d2: Seq<u8>, b2: int, i: int)
    requires
        table_eq(d1, b1, d2, b2),
        i >= 0,
        b1 + i + 4 <= d1.len(),
    ensures
        le32(d1, b1 + i) == le32(d2, b2 + i),
        b2 + i + 4 <= d2.len(),
{
    reveal(table_eq);
    assert(table_in(d1, b1, i) && table_in(d1, b1, i + 1) && table_in(d1, b1, i + 2) && table_in(
        d1,
        b1,
        i + 3,
    ));
    assert(table_byte(d1, b1, i) == table_byte(d2, b2, i));
    assert(table_byte(d1, b1, i + 1) == table_byte(d2, b2, i + 1));
    assert(table_byte(d1, b1, i + 2) == table_byte(d2, b2, i + 2));
    assert(table_byte(d1, b1, i + 3) == table_byte(d2, b2, i + 3));
}

/// Equal table bytes give equal name slices.
proof fn lemma_name_eq(d1: Seq<u8>, b1: int, d2: Seq<u8>, b2: int, off: int, n: int)
    requires
        table_eq(d1, b1, d2, b2),
        b1 >= 0,
        b2 >= 0,
        off >= 0,
        n >= 1,
        b1 + off + n <= d1.len(),
    ensures
        b2 + off + n <= d2.len(),
        d1.subrange(b1 + off, b1 + off + n) == d2.subrange(b2 + off, b2 + off + n),
{
    reveal(table_eq);
    assert(table_in(d1, b1, off + n - 1));
    let s1 = d1.subrange(b1 + off, b1 + off + n);
    let s2 = d2.subrange(b2 + off, b2 + off + n);
    assert forall|k: int| 0 <= k < n implies s1[k] == s2[k] by {
        assert(table_in(d1, b1, off + k));
        assert(table_byte(d1, b1, off + k) == table_byte(d2, b2, off + k));
        assert(s1[k] == d1[b1 + (off + k)]);
        assert(s2[k] == d2[b2 + (off + k)]);
    }
    assert(s1 =~= s2);
}

/// Equal table bytes give an equal byte at one offset.
proof fn lemma_byte_eq(d1: Seq<u8>, b1: int, d2: Seq<u8>, b2: int, i: int)
    requires
        table_eq(d1, b1, d2, b2),
        i >= 0,
        b1 + i < d1.len(),
    ensures
        b2 + i < d2.len(),
        d1[b1 + i] == d2[b2 + i],
{
    reveal(table_eq);
    assert(table_in(d1, b1, i));
    assert(table_byte(d1, b1, i) == table_byte(d2, b2, i));
}

/// The same allocation-table row read against two images with
/// matching tables yields the same length and the same image-relative
/// offset.
proof fn lemma_relocated_file(fs1: FsV, fs2: FsV, id: int, name: Seq<u8>)
    requires
        tables_match(fs1, fs2),
        id >= 0,
        spec_read_file(fs1, id, name) is Ok,
        spec_read_file(fs2, id, name) is Ok,
    ensures
        similar_entry(
            EntryV::File(spec_read_file(fs1, id, name)->Ok_0),
            EntryV::File(spec_read_file(fs2, id, name)->Ok_0),
            fs1.img,
            fs2.img,
        ),
{
    lemma_le32_eq(fs1.data, fs1.fat as int, fs2.data, fs2.fat as int, id * 8);
    lemma_le32_eq(fs1.data, fs1.fat as int, fs2.data, fs2.fat as int, id * 8 + 4);
    assert(fs1.fat + id * 8 + 4 == fs1.fat + (id * 8 + 4));
    assert(fs2.fat + id * 8 + 4 == fs2.fat + (id * 8 + 4));
}

/// A directory read from the same main-table offset against two
/// images with matching tables yields structurally identical trees.
proof fn lemma_relocated_dir(fs1: FsV, fs2: FsV, off: int, name: Seq<u8>, fuel: nat)
    requires
        tables_match(fs1, fs2),
        off >= 0,
        spec_read_dir(fs1, fs1.fnt + off, name, fuel) is Ok,
        spec_read_dir(fs2, fs2.fnt + off, name, fuel) is Ok,
    ensures
        ({
            let d1 = spec_read_dir(fs1, fs1.fnt + off, name, fuel)->Ok_0;
            let d2 = spec_read_dir(fs2, fs2.fnt + off, name, fuel)->Ok_0;
            &&& d1.name == name
            &&& d2.name == name
            &&& similar_entries(d1.entries, d2.entries, fs1.img, fs2.img)
        }),
    decreases fuel, fs1.data.len() as int + 1, 0int,
{
    lemma_le32_eq(fs1.data, fs1.fnt as int, fs2.data, fs2.fnt as int, off);
    lemma_le16_eq(fs1.data, fs1.fnt as int, fs2.data, fs2.fnt as int, off + 4);
    let sub_off = le32(fs1.data, fs1.fnt + off);
    let first_id = le16(fs1.data, fs1.fnt + off + 4);
    assert(fs1.fnt + off + 4 == fs1.fnt + (off + 4));
    assert(fs2.fnt + off + 4 == fs2.fnt + (off + 4));
    lemma_relocated_sub(fs1, fs2, sub_off as int, first_id as int, fuel);
}

/// A sub-table read from the same name-table offset against two
/// images with matching tables yields structurally identical child
/// lists.
#[verifier::spinoff_prover]
proof fn lemma_relocated_sub(fs1: FsV, fs2: FsV, off: int, file_id: int, fuel: nat)
    requires
        tables_match(fs1, fs2),
        off >= 0,
        file_id >= 0,
        spec_read_sub_table(fs1, fs1.fnt + off, file_id, fuel) is Ok,
        spec_read_sub_table(fs2, fs2.fnt + off, file_id, fuel) is Ok,
    ensures
        similar_entries(
            spec_read_sub_table(fs1, fs1.fnt + off, file_id, fuel)->Ok_0,
            spec_read_sub_table(fs2, fs2.fnt + off, file_id, fuel)->Ok_0,
            fs1.img,
            fs2.img,
        ),
    decreases fuel, (if fs1.fnt + off <= fs1.data.len() as int {
        fs1.data.len() as int - (fs1.fnt + off)
    } else {
        0int
    }), 3int,
{
    let pos1 = fs1.fnt + off;
    let pos2 = fs2.fnt + off;
    lemma_byte_eq(fs1.data, fs1.fnt as int, fs2.data, fs2.fnt as int, off);
    let header = fs1.data[pos1];
    assert(fs2.data[pos2] == header);
    if header == 0 {
    } else if header == 0x80 {
        lemma_relocated_sub(fs1, fs2, off + 1, file_id, fuel);
    } else {
        lemma_relocated_sub_entry(fs1, fs2, off, file_id, fuel);
    }
}

/// Consing similar heads onto similar tails keeps lists similar.
proof fn lemma_similar_cons(h1: EntryV, h2: EntryV, t1: Seq<EntryV>, t2: Seq<EntryV>, img1: u32, img2: u32)
    requires
        similar_entry(h1, h2, img1, img2),
        similar_entries(t1, t2, img1, img2),
    ensures
        similar_entries(seq![h1] + t1, seq![h2] + t2, img1, img2),
{
    assert((seq![h1] + t1).drop_first() =~= t1);
    assert((seq![h2] + t2).drop_first() =~= t2);
    assert((seq![h1] + t1)[0] == h1);
    assert((seq![h2] + t2)[0] == h2);
}

/// The named-entry case of [`lemma_relocated_sub`]: the entry at the
/// sub-table offset is a file or a subdirectory.
#[verifier::rlimit(100)]
#[verifier::spinoff_prover]
proof fn lemma_relocated_sub_entry(fs1: FsV, fs2: FsV, off: int, file_id: int, fuel: nat)
    requires
        tables_match(fs1, fs2),
        off >= 0,
        file_id >= 0,
        fs1.fnt + off < fs1.data.len(),
        fs2.fnt + off < fs2.data.len(),
        fs1.data[fs1.fnt + off] == fs2.data[fs2.fnt + off],
        fs1.data[fs1.fnt + off] != 0,
        fs1.data[fs1.fnt + off] != 0x80,
        spec_read_sub_table(fs1, fs1.fnt + off, file_id, fuel) is Ok,
        spec_read_sub_table(fs2, fs2.fnt + off, file_id, fuel) is Ok,
    ensures
        similar_entries(
            spec_read_sub_table(fs1, fs1.fnt + off, file_id, fuel)->Ok_0,
            spec_read_sub_table(fs2, fs2.fnt + off, file_id, fuel)->Ok_0,
            fs1.img,
            fs2.img,
        ),
    decreases fuel, (if fs1.fnt + off <= fs1.data.len() as int {
        fs1.data.len() as int - (fs1.fnt + off)
    } else {
        0int
    }), 2int,
{
    let pos1 = fs1.fnt + off;
    let pos2 = fs2.fnt + off;
    let header = fs1.data[pos1];
    let nlen = (header % 0x80) as int;
    lemma_name_eq(fs1.data, fs1.fnt as int, fs2.data, fs2.fnt as int, off + 1, nlen);
    if header < 0x80 {
        lemma_relocated_sub_file(fs1, fs2, off, file_id, fuel);
    } else {
        lemma_relocated_sub_dir(fs1, fs2, off, file_id, fuel);
    }
}

/// The file-entry case of [`lemma_relocated_sub`].
#[verifier::rlimit(100)]
#[verifier::spinoff_prover]
proof fn lemma_relocated_sub_file(fs1: FsV, fs2: FsV, off: int, file_id: int, fuel: nat)
    requires
        tables_match(fs1, fs2),
        off >= 0,
        file_id >= 0,
        fs1.fnt + off < fs1.data.len(),
        fs2.fnt + off < fs2.data.len(),
        fs1.data[fs1.fnt + off] == fs2.data[fs2.fnt + off],
        fs1.data[fs1.fnt + off] != 0,
        0 < fs1.data[fs1.fnt + off] < 0x80,
        fs1.data.subrange(
            fs1.fnt + off + 1,
            fs1.fnt + off + 1 + (fs1.data[fs1.fnt + off] % 0x80) as int,
        ) == fs2.data.subrange(
            fs2.fnt + off + 1,
            fs2.fnt + off + 1 + (fs2.data[fs2.fnt + off] % 0x80) as int,
        ),
        spec_read_sub_table(fs1, fs1.fnt + off, file_id, fuel) is Ok,
        spec_read_sub_table(fs2, fs2.fnt + off, file_id, fuel) is Ok,
    ensures
        similar_entries(
            spec_read_sub_table(fs1, fs1.fnt + off, file_id, fuel)->Ok_0,
            spec_read_sub_table(fs2, fs2.fnt + off, file_id, fuel)->Ok_0,
            fs1.img,
            fs2.img,
        ),
    decreases fuel, (if fs1.fnt + off <= fs1.data.len() as int {
        fs1.data.len() as int - (fs1.fnt + off)
    } else {
        0int
    }), 1int,
{
    let pos1 = fs1.fnt + off;
    let pos2 = fs2.fnt + off;
    let r1 = spec_read_sub_table(fs1, pos1, file_id, fuel)->Ok_0;
    let r2 = spec_read_sub_table(fs2, pos2, file_id, fuel)->Ok_0;
    let header = fs1.data[pos1];
    let nlen = (header % 0x80) as int;
    let name1 = fs1.data.subrange(pos1 + 1, pos1 + 1 + nlen);
    let name2 = fs2.data.subrange(pos2 + 1, pos2 + 1 + nlen);
    lemma_relocated_file(fs1, fs2, file_id, name1);
    lemma_relocated_sub(fs1, fs2, off + 1 + nlen, file_id + 1, fuel);
    let f1 = spec_read_file(fs1, file_id, name1)->Ok_0;
    let f2 = spec_read_file(fs2, file_id, name2)->Ok_0;
    let rest1 = spec_read_sub_table(fs1, pos1 + 1 + nlen, file_id + 1, fuel)->Ok_0;
    let rest2 = spec_read_sub_table(fs2, pos2 + 1 + nlen, file_id + 1, fuel)->Ok_0;
    assert(r1 == seq![EntryV::File(f1)] + rest1);
    assert(r2 == seq![EntryV::File(f2)] + rest2);
    assert((seq![EntryV::File(f1)] + rest1).drop_first() =~= rest1);
    assert((seq![EntryV::File(f2)] + rest2).drop_first() =~= rest2);
}

/// The subdirectory-entry case of [`lemma_relocated_sub`].
#[verifier::rlimit(100)]
#[verifier::spinoff_prover]
proof fn lemma_relocated_sub_dir(fs1: FsV, fs2: FsV, off: int, file_id: int, fuel: nat)
    requires
        tables_match(fs1, fs2),
        off >= 0,
        file_id >= 0,
        fs1.fnt + off < fs1.data.len(),
        fs2.fnt + off < fs2.data.len(),
        fs1.data[fs1.fnt + off] == fs2.data[fs2.fnt + off],
        fs1.data[fs1.fnt + off] > 0x80,
        fs1.data.subrange(
            fs1.fnt + off + 1,
            fs1.fnt + off + 1 + (fs1.data[fs1.fnt + off] % 0x80) as int,
        ) == fs2.data.subrange(
            fs2.fnt + off + 1,
            fs2.fnt + off + 1 + (fs2.data[fs2.fnt + off] % 0x80) as int,
        ),
        spec_read_sub_table(fs1, fs1.fnt + off, file_id, fuel) is Ok,
        spec_read_sub_table(fs2, fs2.fnt + off, file_id, fuel) is Ok,
    ensures
        similar_entries(
            spec_read_sub_table(fs1, fs1.fnt + off, file_id, fuel)->Ok_0,
            spec_read_sub_table(fs2, fs2.fnt + off, file_id, fuel)->Ok_0,
            fs1.img,
            fs2.img,
        ),
    decreases fuel, (if fs1.fnt + off <= fs1.data.len() as int {
        fs1.data.len() as int - (fs1.fnt + off)
    } else {
        0int
    }), 1int,
{
    let pos1 = fs1.fnt + off;
    let pos2 = fs2.fnt + off;
    let r1 = spec_read_sub_table(fs1, pos1, file_id, fuel)->Ok_0;
    let r2 = spec_read_sub_table(fs2, pos2, file_id, fuel)->Ok_0;
    let header = fs1.data[pos1];
    let nlen = (header % 0x80) as int;
    let name1 = fs1.data.subrange(pos1 + 1, pos1 + 1 + nlen);
    let name2 = fs2.data.subrange(pos2 + 1, pos2 + 1 + nlen);
    lemma_le16_eq(fs1.data, fs1.fnt as int, fs2.data, fs2.fnt as int, off + 1 + nlen);
    assert(fs1.fnt + off + 1 + nlen == fs1.fnt + (off + 1 + nlen));
    assert(fs2.fnt + off + 1 + nlen == fs2.fnt + (off + 1 + nlen));
    let sub_id = (le16(fs1.data, pos1 + 1 + nlen) % 0x1000) as int;
    lemma_relocated_dir(fs1, fs2, sub_id * 8, name1, (fuel - 1) as nat);
    lemma_relocated_sub(fs1, fs2, off + 1 + nlen + 2, file_id, fuel);
    let d1 = spec_read_dir(fs1, fs1.fnt + sub_id * 8, name1, (fuel - 1) as nat)->Ok_0;
    let d2 = spec_read_dir(fs2, fs2.fnt + sub_id * 8, name2, (fuel - 1) as nat)->Ok_0;
    let rest1 = spec_read_sub_table(fs1, pos1 + 1 + nlen + 2, file_id, fuel)->Ok_0;
    let rest2 = spec_read_sub_table(fs2, pos2 + 1 + nlen + 2, file_id, fuel)->Ok_0;
    assert(similar_entry(EntryV::Directory(d1), EntryV::Directory(d2), fs1.img, fs2.img));
    assert(r1 == seq![EntryV::Directory(d1)] + rest1);
    assert(r2 == seq![EntryV::Directory(d2)] + rest2);
    lemma_similar_cons(
        EntryV::Directory(d1),
        EntryV::Directory(d2),
        rest1,
        rest2,
        fs1.img,
        fs2.img,
    );
}

/// Round trip: a plain image and an archive that embed the same name
/// and allocation tables yield structurally identical trees — the
/// same names, lengths and image-relative offsets — whenever both
/// parses succeed.
///
/// (The two parses can disagree on success itself in one way only: a
/// stored start offset may overflow the 32-bit file offset against
/// the archive's larger image base and not against the plain image's
/// zero base, or the other way round.)
pub proof fn lemma_round_trip(rom: Seq<u8>, arc: Seq<u8>, fuel: nat)
    requires
        spec_from_rom(rom) is Ok,
        spec_from_archive(arc) is Ok,
        tables_match(spec_from_rom(rom)->Ok_0, spec_from_archive(arc)->Ok_0),
        spec_read_dir(
            spec_from_rom(rom)->Ok_0,
            spec_from_rom(rom)->Ok_0.fnt as int,
            root_name(),
            fuel,
        ) is Ok,
        spec_read_dir(
            spec_from_archive(arc)->Ok_0,
            spec_from_archive(arc)->Ok_0.fnt as int,
            root_name(),
            fuel,
        ) is Ok,
    ensures
        ({
            let fs1 = spec_from_rom(rom)->Ok_0;
            let fs2 = spec_from_archive(arc)->Ok_0;
            let d1 = spec_read_dir(fs1, fs1.fnt as int, root_name(), fuel)->Ok_0;
            let d2 = spec_read_dir(fs2, fs2.fnt as int, root_name(), fuel)->Ok_0;
            &&& d1.name == root_name()
            &&& d2.name == root_name()
            &&& similar_entries(d1.entries, d2.entries, fs1.img, fs2.img)
        }),
{
    let fs1 = spec_from_rom(rom)->Ok_0;
    let fs2 = spec_from_archive(arc)->Ok_0;
    assert(fs1.fnt as int == fs1.fnt + 0);
    assert(fs2.fnt as int == fs2.fnt + 0);
    lemma_relocated_dir(fs1, fs2, 0, root_name(), fuel);
}

/// Every name in a parsed sub-table is non-empty: a name's length is
/// the low seven bits of a header that is neither zero nor `0x80`.
#[verifier::rlimit(100)]
#[verifier::spinoff_prover]
pub proof fn lemma_parsed_names_nonempty(fs: FsV, pos: int, file_id: int, fuel: nat)
    requires
        pos >= 0,
        spec_read_sub_table(fs, pos, file_id, fuel) is Ok,
    ensures
        entries_names_nonempty(spec_read_sub_table(fs, pos, file_id, fuel)->Ok_0),
    decreases fuel, (if pos <= fs.data.len() as int {
        fs.data.len() as int - pos
    } else {
        0int
    }), 1int,
{
    let entries = spec_read_sub_table(fs, pos, file_id, fuel)->Ok_0;
    let header = fs.data[pos];
    if header == 0 {
    } else if header == 0x80 {
        lemma_parsed_names_nonempty(fs, pos + 1, file_id, fuel);
    } else {
        let nlen = (header % 0x80) as int;
        assert(nlen >= 1) by {
            if header < 0x80 {
                assert(header % 0x80 == header);
            } else {
                assert(header % 0x80 == header - 0x80);
            }
        }
        let name = fs.data.subrange(pos + 1, pos + 1 + nlen);
        if header < 0x80 {
            let f = spec_read_file(fs, file_id, name)->Ok_0;
            let rest = spec_read_sub_table(fs, pos + 1 + nlen, file_id + 1, fuel)->Ok_0;
            lemma_parsed_names_nonempty(fs, pos + 1 + nlen, file_id + 1, fuel);
            assert(entries == seq![EntryV::File(f)] + rest);
            assert(entries.drop_first() =~= rest);
            assert(name.len() == nlen);
            assert(f.name == name);
            assert(entry_names_nonempty(EntryV::File(f)));
        } else {
            let sub_id = (le16(fs.data, pos + 1 + nlen) % 0x1000) as int;
            let d = spec_read_dir(fs, fs.fnt + sub_id * 8, name, (fuel - 1) as nat)->Ok_0;
            let rest = spec_read_sub_table(fs, pos + 1 + nlen + 2, file_id, fuel)->Ok_0;
            lemma_parsed_dir_names_nonempty(fs, fs.fnt + sub_id * 8, name, (fuel - 1) as nat);
            lemma_parsed_names_nonempty(fs, pos + 1 + nlen + 2, file_id, fuel);
            assert(entries == seq![EntryV::Directory(d)] + rest);
            assert(entries.drop_first() =~= rest);
            assert(name.len() == nlen);
            assert(entry_names_nonempty(EntryV::Directory(d)));
        }
    }
}

/// Every name below a parsed directory is non-empty.
pub proof fn lemma_parsed_dir_names_nonempty(fs: FsV, pos: int, name: Seq<u8>, fuel: nat)
    requires
        spec_read_dir(fs, pos, name, fuel) is Ok,
    ensures
        spec_read_dir(fs, pos, name, fuel)->Ok_0.name == name,
        entries_names_nonempty(spec_read_dir(fs, pos, name, fuel)->Ok_0.entries),
    decreases fuel, fs.data.len() as int + 1, 0int,
{
    let sub_off = le32(fs.data, pos);
    let first_id = le16(fs.data, pos + 4);
    lemma_parsed_names_nonempty(fs, fs.fnt + sub_off, first_id as int, fuel);
}

/// The documented empty-path convention holds of every parsed tree:
/// parsed names are never empty, so no accumulated path is ever the
/// empty byte string and search of the empty path returns `None`.
pub proof fn lemma_search_empty_path_parsed(fs: FsV, pos: int, name: Seq<u8>, fuel: nat)
    requires
        spec_read_dir(fs, pos, name, fuel) is Ok,
    ensures
        spec_search(spec_read_dir(fs, pos, name, fuel)->Ok_0, Seq::empty()) is None,
{
    lemma_parsed_dir_names_nonempty(fs, pos, name, fuel);
    lemma_search_empty_path(spec_read_dir(fs, pos, name, fuel)->Ok_0);
}

} // verus!
