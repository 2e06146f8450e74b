//! Little-endian 64-bit reads and writes at a byte position of an in-memory
//! stream.

use vstd::prelude::*;
use vstd::bytes::{spec_u64_from_le_bytes, spec_u64_to_le_bytes, u64_from_le_bytes, u64_to_le_bytes};
use vstd::slice::slice_subrange;

verus! {

/// Reads the unsigned 64-bit little-endian integer stored at byte position
/// `pos` of `data`.
pub fn read_u64(data: &Vec<u8>, pos: usize) -> (r: u64)
    requires
        pos + 8 <= data@.len(),
    ensures
        r == spec_u64_from_le_bytes(data@.subrange(pos as int, pos as int + 8)),
{
    proof {
        assert(data@.len() == data.len());
    }
    let bytes = slice_subrange(data.as_slice(), pos, pos + 8);
    u64_from_le_bytes(bytes)
}

/// Overwrites the 8 bytes of `data` starting at position `pos` with the
/// little-endian encoding of `value`; every other byte is unchanged.
pub fn write_u64(data: &mut Vec<u8>, pos: usize, value: u64)
    requires
        pos + 8 <= old(data)@.len(),
    ensures
        final(data)@.len() == old(data)@.len(),
        final(data)@ == old(data)@.update_subrange_with(pos as int, spec_u64_to_le_bytes(value)),
        final(data)@.subrange(pos as int, pos as int + 8) == spec_u64_to_le_bytes(value),
        forall|j: int|
            0 <= j < final(data)@.len() && !(pos <= j < pos + 8) ==> final(data)@[j] == old(
                data,
            )@[j],
{
    proof {
        assert(old(data)@.len() == old(data).len());
    }
    let bytes = u64_to_le_bytes(value);
    let mut k: usize = 0;
    while k < 8
        invariant
            k <= 8,
            pos + 8 <= data@.len(),
            data@.len() <= usize::MAX,
            data@.len() == old(data)@.len(),
            bytes@ == spec_u64_to_le_bytes(value),
            bytes@.len() == 8,
            forall|j: int| pos <= j < pos + k ==> data@[j] == bytes@[j - pos],
            forall|j: int|
                0 <= j < data@.len() && !(pos <= j < pos + k) ==> data@[j] == old(data)@[j],
        decreases 8 - k,
    {
        let b = bytes[k];
        data[pos + k] = b;
        k = k + 1;
    }
    proof {
        assert(data@ =~= old(data)@.update_subrange_with(pos as int, spec_u64_to_le_bytes(value)));
        assert(data@.subrange(pos as int, pos as int + 8) =~= spec_u64_to_le_bytes(value));
    }
}

} // verus!
