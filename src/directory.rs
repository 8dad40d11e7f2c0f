//! The compressed directory of file entries inside an archive container.

use crate::bytes::{copy_range, le_value, lemma_le_value_bound, lemma_pow256_eight, read_le};
use crate::compress::{decompress_block, lz4_block_decompress};
use crate::error::ArchiveError;
use crate::header::ArchiveHeader;
use vstd::arithmetic::div_mod::lemma_fundamental_div_mod;
use vstd::prelude::*;
use vstd::slice::slice_subrange;

verus! {

/// Size in bytes of one encoded directory entry.
pub const ENTRY_SIZE: usize = 272;

/// Width of the zero-padded name buffer of an entry.
pub const NAME_SIZE: usize = 256;

/// A directory entry with its fields as plain values.
pub struct EntryModel {
    pub name: Seq<u8>,
    pub offset_low: nat,
    pub offset_high: nat,
    pub archive_part: nat,
    pub flags: nat,
    pub size_on_disk: nat,
    pub uncompressed_size: nat,
}

/// The entry that the record `rec` of `ENTRY_SIZE` bytes encodes.
pub open spec fn entry_from(rec: Seq<u8>) -> EntryModel {
    EntryModel {
        name: rec.subrange(0, 256),
        offset_low: le_value(rec.subrange(256, 260)),
        offset_high: le_value(rec.subrange(260, 262)),
        archive_part: le_value(rec.subrange(262, 263)),
        flags: le_value(rec.subrange(263, 264)),
        size_on_disk: le_value(rec.subrange(264, 268)),
        uncompressed_size: le_value(rec.subrange(268, 272)),
    }
}

/// The `i`-th record of a run of directory records.
pub open spec fn record(data: Seq<u8>, i: int) -> Seq<u8> {
    data.subrange(i * ENTRY_SIZE, i * ENTRY_SIZE + ENTRY_SIZE)
}

/// Where the name in `raw` ends: at its first zero byte at or after `i`, or before the
/// last byte of the buffer when there is none.
pub open spec fn name_end(raw: Seq<u8>, i: int) -> int
    decreases raw.len() - i,
{
    if i >= raw.len() {
        raw.len() - 1
    } else if raw[i] == 0 {
        i
    } else {
        name_end(raw, i + 1)
    }
}

/// The name held by a zero-padded name buffer.
pub open spec fn name_of(raw: Seq<u8>) -> Seq<u8> {
    raw.take(name_end(raw, 0))
}

/// The 40-bit payload offset stored as a 32-bit low part and a 16-bit high part.
pub fn join_offset(low: u32, high: u16) -> (r: u64)
    ensures
        r == (low as u64) | ((high as u64) << 32u64),
        r as int == low as int + high as int * 0x1_0000_0000,
{
    let r = (low as u64) | ((high as u64) << 32u64);
    proof {
        let l = low as u64;
        let h = high as u64;
        assert(l | (h << 32u64) == l + h * 0x1_0000_0000u64) by (bit_vector)
            requires
                l < 0x1_0000_0000u64,
                h < 0x1_0000u64,
        ;
    }
    r
}

/// One file entry of an archive's directory.
#[derive(Debug)]
pub struct DirectoryEntry {
    /// The zero-padded name buffer.
    pub name: Vec<u8>,
    pub offset_low: u32,
    pub offset_high: u16,
    pub archive_part: u8,
    pub flags: u8,
    pub size_on_disk: u32,
    pub uncompressed_size: u32,
}

impl View for DirectoryEntry {
    type V = EntryModel;

    open spec fn view(&self) -> EntryModel {
        EntryModel {
            name: self.name@,
            offset_low: self.offset_low as nat,
            offset_high: self.offset_high as nat,
            archive_part: self.archive_part as nat,
            flags: self.flags as nat,
            size_on_disk: self.size_on_disk as nat,
            uncompressed_size: self.uncompressed_size as nat,
        }
    }
}

impl DirectoryEntry {
    /// The name buffer has its fixed width.
    pub open spec fn wf(&self) -> bool {
        self.name@.len() == NAME_SIZE
    }

    /// The offset of the entry's payload in the archive.
    pub open spec fn offset_spec(&self) -> nat {
        self.offset_low as nat + self.offset_high as nat * 0x1_0000_0000
    }

    /// Decodes one record of `ENTRY_SIZE` bytes.
    pub fn decode(rec: &[u8]) -> (r: DirectoryEntry)
        requires
            rec@.len() == ENTRY_SIZE,
        ensures
            r.wf(),
            r@ == entry_from(rec@),
    {
        proof {
            lemma_le_value_bound(rec@.subrange(256, 260));
            lemma_le_value_bound(rec@.subrange(260, 262));
            lemma_le_value_bound(rec@.subrange(262, 263));
            lemma_le_value_bound(rec@.subrange(263, 264));
            lemma_le_value_bound(rec@.subrange(264, 268));
            lemma_le_value_bound(rec@.subrange(268, 272));
            lemma_pow256_eight();
        }
        DirectoryEntry {
            name: copy_range(rec, 0, NAME_SIZE),
            offset_low: read_le(rec, 256, 4) as u32,
            offset_high: read_le(rec, 260, 2) as u16,
            archive_part: read_le(rec, 262, 1) as u8,
            flags: read_le(rec, 263, 1) as u8,
            size_on_disk: read_le(rec, 264, 4) as u32,
            uncompressed_size: read_le(rec, 268, 4) as u32,
        }
    }

    /// The entry's name: the buffer up to its first zero byte, or all but its last
    /// byte when it holds none.
    pub fn name(&self) -> (r: Vec<u8>)
        requires
            self.wf(),
        ensures
            r@ == name_of(self.name@),
    {
        let mut i: usize = 0;
        while i < self.name.len() && self.name[i] != 0
            invariant
                self.wf(),
                i <= self.name@.len(),
                forall|j: int| 0 <= j < i ==> self.name@[j] != 0,
                name_end(self.name@, 0) == name_end(self.name@, i as int),
            decreases self.name@.len() - i,
        {
            i = i + 1;
        }
        let end = if i == self.name.len() {
            i - 1
        } else {
            i
        };
        copy_range(self.name.as_slice(), 0, end)
    }

    /// The offset of the entry's payload in the archive.
    pub fn offset(&self) -> (r: u64)
        ensures
            r as nat == self.offset_spec(),
    {
        join_offset(self.offset_low, self.offset_high)
    }
}

/// Splits decompressed directory bytes into `count` entries.
pub fn parse_entries(data: &[u8], count: usize) -> (r: Result<Vec<DirectoryEntry>, ArchiveError>)
    ensures
        r is Ok <==> data@.len() == count * ENTRY_SIZE,
        r is Err ==> r->Err_0 is DecompressionFailure,
        r is Ok ==> r->Ok_0@.len() == count && forall|i: int|
            0 <= i < count ==> (#[trigger] r->Ok_0@[i]).wf() && r->Ok_0@[i]@ == entry_from(
                record(data@, i),
            ),
{
    let len = data.len();
    if count > usize::MAX / ENTRY_SIZE {
        proof {
            lemma_fundamental_div_mod(usize::MAX as int, ENTRY_SIZE as int);
            let m = usize::MAX as int;
            let q = m / 272;
            assert(count * 272 > m) by (nonlinear_arith)
                requires
                    count >= q + 1,
                    m == 272 * q + m % 272,
                    m % 272 < 272,
            ;
        }
        return Err(ArchiveError::DecompressionFailure);
    }
    if len != count * ENTRY_SIZE {
        return Err(ArchiveError::DecompressionFailure);
    }
    let mut entries: Vec<DirectoryEntry> = Vec::with_capacity(count);
    let mut i: usize = 0;
    while i < count
        invariant
            i <= count,
            count <= usize::MAX / ENTRY_SIZE,
            data@.len() == count * ENTRY_SIZE,
            entries@.len() == i,
            forall|k: int|
                0 <= k < i ==> (#[trigger] entries@[k]).wf() && entries@[k]@ == entry_from(
                    record(data@, k),
                ),
        decreases count - i,
    {
        proof {
            assert((i + 1) * ENTRY_SIZE <= count * ENTRY_SIZE) by (nonlinear_arith)
                requires
                    i + 1 <= count,
            ;
        }
        let start = i * ENTRY_SIZE;
        let rec = slice_subrange(data, start, start + ENTRY_SIZE);
        entries.push(DirectoryEntry::decode(rec));
        i = i + 1;
    }
    Ok(entries)
}

/// The bytes `file[start..start + len]`, or `OutOfBounds` where they run past the end.
pub fn slice_range(file: &[u8], start: u64, len: u64) -> (r: Result<&[u8], ArchiveError>)
    ensures
        r is Ok <==> start + len <= file@.len(),
        r is Err ==> r->Err_0 is OutOfBounds,
        r is Ok ==> r->Ok_0@ == file@.subrange(start as int, start + len),
{
    if start > file.len() as u64 || len > file.len() as u64 - start {
        return Err(ArchiveError::OutOfBounds);
    }
    Ok(slice_subrange(file, start as usize, (start + len) as usize))
}

/// The entry count stored at the start of the directory block at `off`.
pub open spec fn dir_count(file: Seq<u8>, off: int) -> nat {
    le_value(file.subrange(off, off + 4))
}

/// The compressed size stored after the entry count of the directory block at `off`.
pub open spec fn dir_compressed_size(file: Seq<u8>, off: int) -> nat {
    le_value(file.subrange(off + 4, off + 8))
}

/// The compressed directory records of the block at `off`.
pub open spec fn dir_payload(file: Seq<u8>, off: int) -> Seq<u8> {
    file.subrange(off + 8, off + 8 + dir_compressed_size(file, off))
}

/// Locates, decompresses and splits the directory of the archive `file`.
pub fn decode_directory(file: &[u8], header: &ArchiveHeader) -> (r: Result<
    Vec<DirectoryEntry>,
    ArchiveError,
>)
    ensures
        ({
            let off = header.dir_offset as int;
            let count = dir_count(file@, off);
            let out = lz4_block_decompress(dir_payload(file@, off), (count * ENTRY_SIZE) as nat);
            &&& off + 8 > file@.len() ==> r is Err && r->Err_0 is OutOfBounds
            &&& off + 8 <= file@.len() && off + 8 + dir_compressed_size(file@, off) > file@.len()
                ==> r is Err && r->Err_0 is OutOfBounds
            &&& off + 8 + dir_compressed_size(file@, off) <= file@.len() && count * ENTRY_SIZE
                > isize::MAX ==> r is Err && r->Err_0 is DecompressionFailure
            &&& off + 8 + dir_compressed_size(file@, off) <= file@.len() && count * ENTRY_SIZE
                <= isize::MAX ==> {
                &&& (r is Ok <==> out is Some && out->0.len() == count * ENTRY_SIZE)
                &&& r is Err ==> r->Err_0 is DecompressionFailure
                &&& r is Ok ==> r->Ok_0@.len() == count && forall|i: int|
                    0 <= i < count ==> (#[trigger] r->Ok_0@[i]).wf() && r->Ok_0@[i]@ == entry_from(
                        record(out->0, i),
                    )
            }
        }),
{
    let flen = file.len();
    let info = match slice_range(file, header.dir_offset, 8) {
        Ok(s) => s,
        Err(e) => {
            return Err(e);
        },
    };
    proof {
        lemma_le_value_bound(info@.subrange(0, 4));
        lemma_le_value_bound(info@.subrange(4, 8));
        lemma_pow256_eight();
        assert(info@.subrange(0, 4) =~= file@.subrange(
            header.dir_offset as int,
            header.dir_offset + 4,
        ));
        assert(info@.subrange(4, 8) =~= file@.subrange(
            header.dir_offset + 4,
            header.dir_offset + 8,
        ));
    }
    assert(header.dir_offset + 8 <= flen);
    let count = read_le(info, 0, 4) as usize;
    let compressed_size = read_le(info, 4, 4);
    let payload = match slice_range(file, header.dir_offset + 8, compressed_size) {
        Ok(s) => s,
        Err(e) => {
            return Err(e);
        },
    };
    if count > (isize::MAX as usize) / ENTRY_SIZE {
        proof {
            lemma_fundamental_div_mod(isize::MAX as int, ENTRY_SIZE as int);
            let m = isize::MAX as int;
            let q = m / 272;
            assert(count * 272 > m) by (nonlinear_arith)
                requires
                    count >= q + 1,
                    m == 272 * q + m % 272,
                    m % 272 < 272,
            ;
        }
        return Err(ArchiveError::DecompressionFailure);
    }
    proof {
        assert(count * 272 <= isize::MAX) by (nonlinear_arith)
            requires
                count <= isize::MAX as int / 272,
        ;
    }
    let expected = count * ENTRY_SIZE;
    match decompress_block(payload, expected) {
        Some(data) => parse_entries(data.as_slice(), count),
        None => Err(ArchiveError::DecompressionFailure),
    }
}

} // verus!
