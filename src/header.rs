//! The fixed-layout header at the start of an archive container.

use crate::bytes::{
    copy_range, le_bytes, le_value, lemma_le_bytes_len, lemma_le_round_trip, lemma_le_value_bound,
    lemma_pow256_eight, push_le, read_le,
};
use crate::error::ArchiveError;
use vstd::prelude::*;

verus! {

/// Size in bytes of an encoded header.
pub const HEADER_SIZE: usize = 40;

/// The signature that opens every archive container.
pub open spec fn magic_spec() -> Seq<u8> {
    seq![0x4cu8, 0x53u8, 0x50u8, 0x4bu8]
}

/// A header with its fields as plain numbers and byte sequences.
pub struct HeaderModel {
    pub magic: Seq<u8>,
    pub version: nat,
    pub dir_offset: nat,
    pub dir_size: nat,
    pub flags: nat,
    pub priority: nat,
    pub checksum: Seq<u8>,
    pub part_count: nat,
}

/// The header that the first `HEADER_SIZE` bytes of `b` encode.
pub open spec fn header_from(b: Seq<u8>) -> HeaderModel {
    HeaderModel {
        magic: b.subrange(0, 4),
        version: le_value(b.subrange(4, 8)),
        dir_offset: le_value(b.subrange(8, 16)),
        dir_size: le_value(b.subrange(16, 20)),
        flags: le_value(b.subrange(20, 21)),
        priority: le_value(b.subrange(21, 22)),
        checksum: b.subrange(22, 38),
        part_count: le_value(b.subrange(38, 40)),
    }
}

/// The bytes that encode the header `h`.
pub open spec fn header_bytes(h: HeaderModel) -> Seq<u8> {
    h.magic + le_bytes(h.version, 4) + le_bytes(h.dir_offset, 8) + le_bytes(h.dir_size, 4)
        + le_bytes(h.flags, 1) + le_bytes(h.priority, 1) + h.checksum + le_bytes(h.part_count, 2)
}

/// Decoding a header and encoding it again gives back the same bytes.
pub proof fn lemma_header_round_trip(b: Seq<u8>)
    requires
        b.len() == HEADER_SIZE,
    ensures
        header_bytes(header_from(b)) == b,
{
    lemma_le_round_trip(b.subrange(4, 8));
    lemma_le_round_trip(b.subrange(8, 16));
    lemma_le_round_trip(b.subrange(16, 20));
    lemma_le_round_trip(b.subrange(20, 21));
    lemma_le_round_trip(b.subrange(21, 22));
    lemma_le_round_trip(b.subrange(38, 40));
    assert(header_bytes(header_from(b)) =~= b);
}

/// The header of an archive container.
#[derive(Debug)]
pub struct ArchiveHeader {
    pub magic: Vec<u8>,
    pub version: u32,
    pub dir_offset: u64,
    pub dir_size: u32,
    pub flags: u8,
    pub priority: u8,
    pub checksum: Vec<u8>,
    pub part_count: u16,
}

impl View for ArchiveHeader {
    type V = HeaderModel;

    open spec fn view(&self) -> HeaderModel {
        HeaderModel {
            magic: self.magic@,
            version: self.version as nat,
            dir_offset: self.dir_offset as nat,
            dir_size: self.dir_size as nat,
            flags: self.flags as nat,
            priority: self.priority as nat,
            checksum: self.checksum@,
            part_count: self.part_count as nat,
        }
    }
}

impl ArchiveHeader {
    /// The byte fields have their fixed widths.
    pub open spec fn wf(&self) -> bool {
        self.magic@.len() == 4 && self.checksum@.len() == 16
    }

    /// Decodes the header at the start of `b`.
    pub fn decode(b: &[u8]) -> (r: Result<ArchiveHeader, ArchiveError>)
        ensures
            b@.len() < HEADER_SIZE ==> r is Err && r->Err_0 is OutOfBounds,
            b@.len() >= HEADER_SIZE && b@.subrange(0, 4) != magic_spec() ==> r is Err
                && r->Err_0 is BadMagic && r->Err_0->BadMagic_0@ == b@.subrange(0, 4),
            b@.len() >= HEADER_SIZE && b@.subrange(0, 4) == magic_spec() ==> r is Ok && r->Ok_0.wf()
                && r->Ok_0@ == header_from(b@),
    {
        if b.len() < HEADER_SIZE {
            return Err(ArchiveError::OutOfBounds);
        }
        let magic = copy_range(b, 0, 4);
        if !(magic[0] == 0x4c && magic[1] == 0x53 && magic[2] == 0x50 && magic[3] == 0x4b) {
            proof {
                assert(magic@ != magic_spec());
            }
            return Err(ArchiveError::BadMagic(magic));
        }
        proof {
            assert(magic@ =~= magic_spec());
            lemma_le_value_bound(b@.subrange(4, 8));
            lemma_le_value_bound(b@.subrange(16, 20));
            lemma_le_value_bound(b@.subrange(20, 21));
            lemma_le_value_bound(b@.subrange(21, 22));
            lemma_le_value_bound(b@.subrange(38, 40));
            lemma_pow256_eight();
        }
        let version = read_le(b, 4, 4) as u32;
        let dir_offset = read_le(b, 8, 8);
        let dir_size = read_le(b, 16, 4) as u32;
        let flags = read_le(b, 20, 1) as u8;
        let priority = read_le(b, 21, 1) as u8;
        let checksum = copy_range(b, 22, 38);
        let part_count = read_le(b, 38, 2) as u16;
        Ok(ArchiveHeader { magic, version, dir_offset, dir_size, flags, priority, checksum, part_count })
    }

    /// Encodes the header into its `HEADER_SIZE` bytes.
    pub fn encode(&self) -> (r: Vec<u8>)
        requires
            self.wf(),
        ensures
            r@ == header_bytes(self@),
            r@.len() == HEADER_SIZE,
    {
        let mut r: Vec<u8> = Vec::with_capacity(HEADER_SIZE);
        let mut i: usize = 0;
        while i < 4
            invariant
                self.wf(),
                i <= 4,
                r@ == self.magic@.subrange(0, i as int),
            decreases 4 - i,
        {
            r.push(self.magic[i]);
            i = i + 1;
            proof {
                assert(r@ =~= self.magic@.subrange(0, i as int));
            }
        }
        push_le(&mut r, self.version as u64, 4);
        push_le(&mut r, self.dir_offset, 8);
        push_le(&mut r, self.dir_size as u64, 4);
        push_le(&mut r, self.flags as u64, 1);
        push_le(&mut r, self.priority as u64, 1);
        let mut j: usize = 0;
        let ghost before = r@;
        while j < 16
            invariant
                self.wf(),
                j <= 16,
                r@ == before + self.checksum@.subrange(0, j as int),
            decreases 16 - j,
        {
            r.push(self.checksum[j]);
            j = j + 1;
            proof {
                assert(r@ =~= before + self.checksum@.subrange(0, j as int));
            }
        }
        push_le(&mut r, self.part_count as u64, 2);
        proof {
            assert(self.magic@.subrange(0, 4) =~= self.magic@);
            assert(self.checksum@.subrange(0, 16) =~= self.checksum@);
            assert(r@ =~= header_bytes(self@));
            lemma_le_bytes_len(self.version as nat, 4);
            lemma_le_bytes_len(self.dir_offset as nat, 8);
            lemma_le_bytes_len(self.dir_size as nat, 4);
            lemma_le_bytes_len(self.flags as nat, 1);
            lemma_le_bytes_len(self.priority as nat, 1);
            lemma_le_bytes_len(self.part_count as nat, 2);
        }
        r
    }
}

} // verus!
