//! The section table codec: decoding the header of a packed stream into an
//! ordered section list, and encoding a recorded offset list back over the
//! reserved header region.

use vstd::prelude::*;
use vstd::bytes::spec_u64_to_le_bytes;
use crate::errors::PakError;
use crate::layout::{
    HEADER_SIZE, MAX_SECTION_COUNT, count_ok, lemma_last_offset_in_bounds, parsed_count,
    parsed_offset, section_size, table_ok,
};
use crate::stream::{read_u64, write_u64};

verus! {

/// One compressed section of a packed stream: where its bytes begin and how
/// many there are. Derived from the stored table, never stored itself.
#[derive(Clone, Copy, Debug, PartialEq, Eq, Structural)]
pub struct Section {
    pub offset: u64,
    pub size: u64,
}

/// Reads the section table at the front of `packed` and returns the ordered
/// section list, with each size derived from the gap to the next offset and
/// the last from the end of the stream.
///
/// Fails with `BadSectionCount` exactly when the stored count is zero or
/// over the limit, and with `TruncatedInput` exactly when the stream cannot
/// hold its own table or the table does not carve the stream into sections
/// of positive size.
pub fn decode_sections(packed: &Vec<u8>) -> (r: Result<Vec<Section>, PakError>)
    ensures
        match r {
            Ok(secs) => {
                &&& table_ok(packed@)
                &&& secs@.len() == parsed_count(packed@)
                &&& forall|i: int|
                    0 <= i < secs@.len() ==> (#[trigger] secs@[i]).offset == parsed_offset(
                        packed@,
                        i,
                    ) && secs@[i].size == section_size(packed@, i)
            },
            Err(e) => match e {
                PakError::TruncatedInput => packed@.len() < 8 || (count_ok(packed@) && !table_ok(
                    packed@,
                )),
                PakError::BadSectionCount => packed@.len() >= 8 && !count_ok(packed@),
                _ => false,
            },
        },
{
    proof {
        assert(packed@.len() == packed.len());
    }
    if packed.len() < 8 {
        return Err(PakError::TruncatedInput);
    }
    let count = read_u64(packed, 0);
    if count == 0 || count > MAX_SECTION_COUNT {
        return Err(PakError::BadSectionCount);
    }
    let n = count as usize;
    if packed.len() < 8 * (n + 1) {
        return Err(PakError::TruncatedInput);
    }

    let mut offsets: Vec<u64> = Vec::new();
    let mut i: usize = 0;
    while i < n
        invariant
            count == parsed_count(packed@),
            1 <= count <= MAX_SECTION_COUNT,
            n == count,
            8 * (n + 1) <= packed@.len(),
            packed@.len() <= usize::MAX,
            i <= n,
            offsets@.len() == i,
            forall|j: int| 0 <= j < i ==> offsets@[j] == parsed_offset(packed@, j),
        decreases n - i,
    {
        offsets.push(read_u64(packed, 8 * (i + 1)));
        i = i + 1;
    }

    let mut k: usize = 0;
    while k + 1 < n
        invariant
            count == parsed_count(packed@),
            1 <= count <= MAX_SECTION_COUNT,
            n == count,
            8 * (n + 1) <= packed@.len(),
            packed@.len() <= usize::MAX,
            k <= n,
            offsets@.len() == n,
            forall|j: int| 0 <= j < n ==> offsets@[j] == parsed_offset(packed@, j),
            forall|j: int| 0 <= j < k ==> #[trigger] parsed_offset(packed@, j) < parsed_offset(
                packed@,
                j + 1,
            ),
        decreases n - k,
    {
        if offsets[k + 1] <= offsets[k] {
            return Err(PakError::TruncatedInput);
        }
        k = k + 1;
    }
    if offsets[n - 1] >= packed.len() as u64 {
        return Err(PakError::TruncatedInput);
    }
    proof {
        assert(table_ok(packed@));
    }

    let mut sections: Vec<Section> = Vec::new();
    let mut i: usize = 0;
    while i < n
        invariant
            count == parsed_count(packed@),
            n == count,
            table_ok(packed@),
            packed@.len() <= usize::MAX,
            offsets@.len() == n,
            forall|j: int| 0 <= j < n ==> offsets@[j] == parsed_offset(packed@, j),
            i <= n,
            sections@.len() == i,
            forall|j: int|
                0 <= j < i ==> (#[trigger] sections@[j]).offset == parsed_offset(packed@, j)
                    && sections@[j].size == section_size(packed@, j),
        decreases n - i,
    {
        let off = offsets[i];
        proof {
            if i + 1 < n {
                assert(parsed_offset(packed@, i as int) < parsed_offset(packed@, i as int + 1));
            } else {
                lemma_last_offset_in_bounds(packed@);
            }
        }
        let size: u64 = if i + 1 < n {
            offsets[i + 1] - off
        } else {
            packed.len() as u64 - off
        };
        sections.push(Section { offset: off, size });
        i = i + 1;
    }
    Ok(sections)
}

/// Writes the section count and each recorded offset, as little-endian
/// 64-bit integers, over the front of the reserved header region of `out`.
/// Bytes from the end of the table onward are unchanged.
pub fn encode_table(out: &mut Vec<u8>, offsets: &Vec<u64>)
    requires
        offsets@.len() <= MAX_SECTION_COUNT,
        HEADER_SIZE <= old(out)@.len(),
    ensures
        final(out)@.len() == old(out)@.len(),
        final(out)@.subrange(0, 8) == spec_u64_to_le_bytes(offsets@.len() as u64),
        forall|i: int|
            0 <= i < offsets@.len() ==> final(out)@.subrange(8 * (i + 1), 8 * (i + 2))
                == spec_u64_to_le_bytes(#[trigger] offsets@[i]),
        forall|j: int|
            8 * (offsets@.len() + 1) <= j < final(out)@.len() ==> final(out)@[j] == old(out)@[j],
{
    proof {
        assert(old(out)@.len() == old(out).len());
    }
    let n = offsets.len();
    write_u64(out, 0, n as u64);
    let mut i: usize = 0;
    while i < n
        invariant
            n == offsets@.len(),
            n <= MAX_SECTION_COUNT,
            HEADER_SIZE <= out@.len(),
            out@.len() == old(out)@.len(),
            i <= n,
            out@.subrange(0, 8) == spec_u64_to_le_bytes(n as u64),
            forall|k: int|
                0 <= k < i ==> out@.subrange(8 * (k + 1), 8 * (k + 2)) == spec_u64_to_le_bytes(
                    #[trigger] offsets@[k],
                ),
            forall|j: int| 8 * (i + 1) <= j < out@.len() ==> out@[j] == old(out)@[j],
        decreases n - i,
    {
        let ghost prev = out@;
        write_u64(out, 8 * (i + 1), offsets[i]);
        proof {
            assert(out@.subrange(0, 8) =~= prev.subrange(0, 8));
            assert forall|k: int|
                0 <= k < i implies out@.subrange(8 * (k + 1), 8 * (k + 2)) == spec_u64_to_le_bytes(
                #[trigger] offsets@[k],
            ) by {
                assert(out@.subrange(8 * (k + 1), 8 * (k + 2)) =~= prev.subrange(
                    8 * (k + 1),
                    8 * (k + 2),
                ));
            }
        }
        i = i + 1;
    }
}

} // verus!
