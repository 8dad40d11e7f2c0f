//! Locating and unpacking the descriptor document inside an archive.

use crate::compress::{decompress_block, lz4_block_decompress};
use crate::directory::{name_of, slice_range, DirectoryEntry};
use crate::document::{first_index, lemma_first_index};
use crate::error::ArchiveError;
use crate::text::{bytes_end_with, bytes_start_with};
use vstd::prelude::*;
use vstd::string::StringSliceAdditionalSpecFns;

verus! {

/// Whether an entry name is that of a mod's descriptor document: `Mods/<folder>/meta.lsx`.
pub open spec fn is_metadata_name(n: Seq<u8>) -> bool {
    "Mods/".spec_bytes().is_prefix_of(n) && "/meta.lsx".spec_bytes().is_suffix_of(n)
}

/// Holds of an entry whose name is that of a descriptor document.
pub open spec fn is_metadata_entry() -> spec_fn(DirectoryEntry) -> bool {
    |e: DirectoryEntry| is_metadata_name(name_of(e.name@))
}

/// The bytes of a document with a leading byte-order mark removed.
pub open spec fn strip_bom_spec(b: Seq<u8>) -> Seq<u8> {
    let bom = "\u{feff}".spec_bytes();
    if bom.is_prefix_of(b) {
        b.subrange(bom.len() as int, b.len() as int)
    } else {
        b
    }
}

/// The index of the first entry that holds a descriptor document, or `entries.len()`.
pub fn find_metadata(entries: &Vec<DirectoryEntry>) -> (r: usize)
    requires
        forall|i: int| 0 <= i < entries@.len() ==> (#[trigger] entries@[i]).wf(),
    ensures
        r == first_index(entries@, is_metadata_entry(), 0),
{
    let ghost p = is_metadata_entry();
    proof {
        lemma_first_index(entries@, p, 0);
    }
    let mut i: usize = 0;
    while i < entries.len()
        invariant
            i <= entries@.len(),
            p == is_metadata_entry(),
            forall|k: int| 0 <= k < entries@.len() ==> (#[trigger] entries@[k]).wf(),
            first_index(entries@, p, 0) == first_index(entries@, p, i as int),
        decreases entries@.len() - i,
    {
        let name = entries[i].name();
        let found = bytes_start_with(name.as_slice(), "Mods/".as_bytes()) && bytes_end_with(
            name.as_slice(),
            "/meta.lsx".as_bytes(),
        );
        if found {
            proof {
                assert(p(entries@[i as int]));
            }
            return i;
        }
        proof {
            assert(!p(entries@[i as int]));
        }
        i = i + 1;
    }
    i
}

/// Removes a leading byte-order mark from a document's bytes.
pub fn strip_bom(b: Vec<u8>) -> (r: Vec<u8>)
    ensures
        r@ == strip_bom_spec(b@),
{
    let bom = "\u{feff}".as_bytes();
    if bytes_start_with(b.as_slice(), bom) {
        let mut r: Vec<u8> = Vec::new();
        let mut i: usize = bom.len();
        while i < b.len()
            invariant
                bom@ == "\u{feff}".spec_bytes(),
                bom@.len() <= i <= b@.len(),
                r@ == b@.subrange(bom@.len() as int, i as int),
            decreases b@.len() - i,
        {
            r.push(b[i]);
            i = i + 1;
            proof {
                assert(r@ =~= b@.subrange(bom@.len() as int, i as int));
            }
        }
        r
    } else {
        b
    }
}

/// Finds the descriptor document of the archive `file` and returns its bytes,
/// decompressed and without a leading byte-order mark.
pub fn read_metadata(file: &[u8], entries: &Vec<DirectoryEntry>) -> (r: Result<Vec<u8>, ArchiveError>)
    requires
        forall|i: int| 0 <= i < entries@.len() ==> (#[trigger] entries@[i]).wf(),
    ensures
        ({
            let k = first_index(entries@, is_metadata_entry(), 0);
            &&& k >= entries@.len() ==> r is Err && r->Err_0 is NoMetadata
            &&& k < entries@.len() ==> {
                let e = entries@[k];
                let start = e.offset_spec();
                let out = lz4_block_decompress(
                    file@.subrange(start as int, start + e.size_on_disk),
                    e.uncompressed_size as nat,
                );
                &&& start + e.size_on_disk > file@.len() ==> r is Err && r->Err_0 is OutOfBounds
                &&& start + e.size_on_disk <= file@.len() && (e.uncompressed_size > isize::MAX
                    || out is None) ==> r is Err && r->Err_0 is DecompressionFailure
                &&& start + e.size_on_disk <= file@.len() && e.uncompressed_size <= isize::MAX
                    && out is Some ==> r is Ok && r->Ok_0@ == strip_bom_spec(out->0)
            }
        }),
{
    let k = find_metadata(entries);
    proof {
        lemma_first_index(entries@, is_metadata_entry(), 0);
    }
    if k >= entries.len() {
        return Err(ArchiveError::NoMetadata);
    }
    let entry = &entries[k];
    let payload = match slice_range(file, entry.offset(), entry.size_on_disk as u64) {
        Ok(s) => s,
        Err(e) => {
            return Err(e);
        },
    };
    if entry.uncompressed_size as usize > isize::MAX as usize {
        return Err(ArchiveError::DecompressionFailure);
    }
    match decompress_block(payload, entry.uncompressed_size as usize) {
        Some(raw) => Ok(strip_bom(raw)),
        None => Err(ArchiveError::DecompressionFailure),
    }
}

} // verus!
