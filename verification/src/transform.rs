//! The chunk transform: packing a raw payload into the chunked, compressed,
//! indexed on-disk form, and unpacking that form back to the payload.

use vstd::prelude::*;
use vstd::slice::slice_subrange;
use vstd::bytes::spec_u64_to_le_bytes;
use crate::errors::PakError;
use crate::layout::{
    HEADER_SIZE, MAX_FILE_SIZE, SECTION_SIZE, chunk_count, chunk_of,
    chunk_start, count_ok, is_packing_of, lemma_chunk_count_bounds, lemma_chunk_start_bounds,
    lemma_last_offset_in_bounds, lemma_offsets_increase, lemma_packed_body_len_monotone,
    lemma_packed_body_section, packed_body, parsed_count, parsed_offset, section_bytes,
    section_offset, section_size, sections_ok, sections_ok_upto, table_ok, unpacked_of,
    unpacked_prefix,
};
use crate::table::{decode_sections, encode_table};
use crate::zlib::{deflate_chunk, deflate_of, inflate_of, inflate_section};

verus! {

/// Reconstructs the raw payload from a packed stream: reads the section
/// table, decompresses every section in index order, and concatenates the
/// results.
///
/// Succeeds exactly on streams with a well-formed table whose every section
/// the decompressor accepts, and then returns exactly the decompressed
/// concatenation. `BadSectionCount` is returned exactly when the stored
/// count is zero or over the limit; `TruncatedInput` exactly when the stream
/// cannot hold its own table or the table does not carve it into sections of
/// positive size; `DecodeError` carries the first section the decompressor
/// rejects, with its diagnostic.
pub fn unpack(packed: &Vec<u8>) -> (r: Result<Vec<u8>, PakError>)
    ensures
        match r {
            Ok(out) => table_ok(packed@) && sections_ok(packed@) && out@ == unpacked_of(packed@),
            Err(e) => match e {
                PakError::TruncatedInput => packed@.len() < 8 || (count_ok(packed@) && !table_ok(
                    packed@,
                )),
                PakError::BadSectionCount => packed@.len() >= 8 && !count_ok(packed@),
                PakError::DecodeError { section, message: _ } => {
                    &&& table_ok(packed@)
                    &&& section < parsed_count(packed@)
                    &&& sections_ok_upto(packed@, section as int)
                    &&& inflate_of(section_bytes(packed@, section as int)) is None
                },
                _ => false,
            },
        },
{
    proof {
        assert(packed@.len() == packed.len());
    }
    let sections = match decode_sections(packed) {
        Ok(s) => s,
        Err(e) => {
            return Err(e);
        },
    };
    let n = sections.len();
    let mut out: Vec<u8> = Vec::new();
    let mut i: usize = 0;
    while i < n
        invariant
            table_ok(packed@),
            packed@.len() <= usize::MAX,
            n == parsed_count(packed@),
            sections@.len() == n,
            forall|j: int|
                0 <= j < n ==> (#[trigger] sections@[j]).offset == parsed_offset(packed@, j)
                    && sections@[j].size == section_size(packed@, j),
            i <= n,
            sections_ok_upto(packed@, i as int),
            out@ == unpacked_prefix(packed@, i as int),
        decreases n - i,
    {
        let off = sections[i].offset;
        let size = sections[i].size;
        proof {
            lemma_last_offset_in_bounds(packed@);
            if i + 1 < n {
                lemma_offsets_increase(packed@, i as int + 1, n - 1);
            }
            assert(off + size <= packed@.len());
        }
        let sec = slice_subrange(packed.as_slice(), off as usize, (off + size) as usize);
        proof {
            assert(sec@ =~= section_bytes(packed@, i as int));
        }
        match inflate_section(sec) {
            Ok(mut piece) => {
                proof {
                    assert(inflate_of(section_bytes(packed@, i as int)) == Some(piece@));
                }
                out.append(&mut piece);
                proof {
                    assert(out@ =~= unpacked_prefix(packed@, i as int + 1));
                }
            },
            Err(m) => {
                return Err(PakError::DecodeError { section: i, message: m });
            },
        }
        i = i + 1;
    }
    Ok(out)
}

/// The first `k` sections of a packed stream whose sections decompress to
/// the chunks of `data` concatenate to the prefix of `data` those chunks
/// tile.
proof fn lemma_unpacked_prefix_tiles(data: Seq<u8>, s: Seq<u8>, k: int)
    requires
        0 <= k <= parsed_count(s),
        forall|i: int|
            0 <= i < parsed_count(s) ==> inflate_of(#[trigger] section_bytes(s, i)) == Some(
                chunk_of(data, i),
            ),
    ensures
        unpacked_prefix(s, k) == data.subrange(0, chunk_start(data, k)),
    decreases k,
{
    if k == 0 {
        assert(unpacked_prefix(s, 0) =~= data.subrange(0, chunk_start(data, 0)));
    } else {
        lemma_unpacked_prefix_tiles(data, s, k - 1);
        lemma_chunk_start_bounds(data, k - 1);
        assert(unpacked_prefix(s, k) =~= data.subrange(0, chunk_start(data, k)));
    }
}

/// A stream that is byte for byte the packed form of a nonempty payload
/// within the size limit has a well-formed table whose entries are the
/// section offsets of the packing.
proof fn lemma_pack_table(data: Seq<u8>, s: Seq<u8>)
    requires
        1 <= data.len() <= MAX_FILE_SIZE,
        s.len() <= usize::MAX,
        is_packing_of(data, s),
        forall|i: int|
            0 <= i < chunk_count(data) ==> (#[trigger] deflate_of(chunk_of(data, i))).len() >= 1,
    ensures
        parsed_count(s) == chunk_count(data),
        8 * (chunk_count(data) + 1) <= HEADER_SIZE,
        forall|i: int|
            0 <= i < chunk_count(data) ==> #[trigger] parsed_offset(s, i) == section_offset(
                data,
                i,
            ),
        forall|i: int|
            0 <= i < chunk_count(data) ==> #[trigger] section_offset(data, i + 1)
                == section_offset(data, i) + deflate_of(chunk_of(data, i)).len(),
        s.len() == section_offset(data, chunk_count(data)),
        table_ok(s),
        parsed_offset(s, 0) == HEADER_SIZE,
{
    let n = chunk_count(data);
    lemma_chunk_count_bounds(data);
    vstd::bytes::lemma_auto_spec_u64_to_from_le_bytes();
    assert(parsed_count(s) == n as u64);
    assert(8 * (n + 1) <= HEADER_SIZE);

    assert forall|i: int| 0 <= i < n implies #[trigger] parsed_offset(s, i) == section_offset(
        data,
        i,
    ) by {
        lemma_packed_body_len_monotone(data, i, n);
        assert(s.subrange(8 * (i + 1), 8 * (i + 2)) == spec_u64_to_le_bytes(
            section_offset(data, i) as u64,
        ));
    }

    assert forall|i: int| 0 <= i < n implies #[trigger] section_offset(data, i + 1)
        == section_offset(data, i) + deflate_of(chunk_of(data, i)).len() by {
        assert(packed_body(data, i + 1) == packed_body(data, i) + deflate_of(chunk_of(data, i)));
    }
    assert(s.len() == section_offset(data, n));
    assert(parsed_offset(s, n - 1) < s.len());
    assert(table_ok(s));
    assert(packed_body(data, 0).len() == 0);
    assert(parsed_offset(s, 0) == HEADER_SIZE);
}

/// In the packed form of `data`, the bytes of section `i` are exactly the
/// `i`-th compressed chunk.
proof fn lemma_pack_section_bytes(data: Seq<u8>, s: Seq<u8>, i: int)
    requires
        1 <= data.len() <= MAX_FILE_SIZE,
        s.len() <= usize::MAX,
        is_packing_of(data, s),
        forall|j: int|
            0 <= j < chunk_count(data) ==> (#[trigger] deflate_of(chunk_of(data, j))).len() >= 1,
        0 <= i < chunk_count(data),
    ensures
        section_bytes(s, i) == deflate_of(chunk_of(data, i)),
{
    let n = chunk_count(data);
    lemma_pack_table(data, s);
    lemma_packed_body_section(data, i, n);
    let body = packed_body(data, n);
    let lo = section_offset(data, i) - HEADER_SIZE;
    let piece = deflate_of(chunk_of(data, i));
    assert(section_size(s, i) == piece.len());
    assert forall|t: int| 0 <= t < piece.len() implies section_bytes(s, i)[t] == piece[t] by {
        assert(section_bytes(s, i)[t] == s[section_offset(data, i) + t]);
        assert(s[HEADER_SIZE + (lo + t)] == s.subrange(HEADER_SIZE as int, s.len() as int)[lo + t]);
        assert(body[lo + t] == body.subrange(lo, lo + piece.len())[t]);
    }
    assert(section_bytes(s, i) =~= piece);
}

/// The round-trip law: a stream that is byte for byte the packed form of a
/// nonempty payload within the size limit has a well-formed table whose
/// offsets are the section offsets of the packing, every section
/// decompresses, and the decompressed concatenation is the payload. The two
/// quantified premises are what the trusted compressor wrapper establishes
/// for each chunk it compresses.
pub proof fn lemma_pack_unpacks(data: Seq<u8>, s: Seq<u8>)
    requires
        1 <= data.len() <= MAX_FILE_SIZE,
        s.len() <= usize::MAX,
        is_packing_of(data, s),
        forall|i: int|
            0 <= i < chunk_count(data) ==> (#[trigger] deflate_of(chunk_of(data, i))).len() >= 1,
        forall|i: int|
            0 <= i < chunk_count(data) ==> inflate_of(#[trigger] deflate_of(chunk_of(data, i)))
                == Some(chunk_of(data, i)),
    ensures
        parsed_count(s) == chunk_count(data),
        table_ok(s),
        parsed_offset(s, 0) == HEADER_SIZE,
        forall|i: int|
            0 <= i < chunk_count(data) ==> #[trigger] parsed_offset(s, i) == section_offset(
                data,
                i,
            ),
        sections_ok(s),
        unpacked_of(s) == data,
{
    let n = chunk_count(data);
    lemma_chunk_count_bounds(data);
    lemma_pack_table(data, s);

    assert forall|i: int| 0 <= i < n implies inflate_of(#[trigger] section_bytes(s, i)) == Some(
        chunk_of(data, i),
    ) by {
        lemma_pack_section_bytes(data, s, i);
    }

    assert(sections_ok(s));
    lemma_unpacked_prefix_tiles(data, s, n);
    assert(unpacked_of(s) =~= data);
}

/// Packs a raw payload into the chunked, compressed, indexed form: a
/// reserved header region is written first as a placeholder, the payload is
/// consumed in `SECTION_SIZE` chunks whose compressed bytes are appended in
/// order while their offsets are recorded, and the section table is then
/// written back over the placeholder.
///
/// Fails with `FileTooLarge` exactly when the payload exceeds
/// `MAX_FILE_SIZE`, and then produces nothing. Otherwise the result is byte
/// for byte the packing of the payload: its stored count is the number of
/// chunks, its offsets start at `HEADER_SIZE` and strictly increase, and for
/// a nonempty payload unpacking it yields the payload back.
pub fn pack(input: &Vec<u8>) -> (r: Result<Vec<u8>, PakError>)
    ensures
        match r {
            Ok(out) => {
                &&& input@.len() <= MAX_FILE_SIZE
                &&& is_packing_of(input@, out@)
                &&& parsed_count(out@) == chunk_count(input@)
                &&& (input@.len() >= 1 ==> {
                    &&& table_ok(out@)
                    &&& parsed_offset(out@, 0) == HEADER_SIZE
                    &&& (forall|i: int|
                        0 <= i < chunk_count(input@) ==> #[trigger] parsed_offset(out@, i)
                            == section_offset(input@, i))
                    &&& sections_ok(out@)
                    &&& unpacked_of(out@) == input@
                })
                &&& (input@.len() == 0 ==> !count_ok(out@))
            },
            Err(e) => e is FileTooLarge && input@.len() > MAX_FILE_SIZE,
        },
{
    proof {
        assert(input@.len() == input.len());
    }
    if input.len() as u64 > MAX_FILE_SIZE {
        return Err(PakError::FileTooLarge);
    }

    let mut out: Vec<u8> = Vec::new();
    while out.len() < HEADER_SIZE as usize
        invariant
            out@.len() <= HEADER_SIZE,
            forall|j: int| 0 <= j < out@.len() ==> out@[j] == 0u8,
        decreases HEADER_SIZE - out@.len(),
    {
        out.push(0u8);
    }

    let mut offsets: Vec<u64> = Vec::new();
    let mut pos: usize = 0;
    while pos < input.len()
        invariant
            input@.len() <= MAX_FILE_SIZE,
            input@.len() <= usize::MAX,
            offsets@.len() <= chunk_count(input@),
            pos == chunk_start(input@, offsets@.len() as int),
            out@.len() == HEADER_SIZE + packed_body(input@, offsets@.len() as int).len(),
            out@.len() <= usize::MAX,
            forall|j: int| 0 <= j < HEADER_SIZE ==> out@[j] == 0u8,
            out@.subrange(HEADER_SIZE as int, out@.len() as int) == packed_body(
                input@,
                offsets@.len() as int,
            ),
            forall|j: int| 0 <= j < offsets@.len() ==> offsets@[j] == section_offset(input@, j),
            forall|j: int|
                0 <= j < offsets@.len() ==> (#[trigger] deflate_of(chunk_of(input@, j))).len()
                    >= 1,
            forall|j: int|
                0 <= j < offsets@.len() ==> inflate_of(
                    #[trigger] deflate_of(chunk_of(input@, j)),
                ) == Some(chunk_of(input@, j)),
        decreases input@.len() - pos,
    {
        let ghost k = offsets@.len() as int;
        proof {
            lemma_chunk_count_bounds(input@);
            lemma_chunk_start_bounds(input@, k);
            assert(k < chunk_count(input@));
        }
        let end: usize = if input.len() - pos >= SECTION_SIZE as usize {
            pos + SECTION_SIZE as usize
        } else {
            input.len()
        };
        proof {
            assert(end == chunk_start(input@, k + 1));
        }
        let off = out.len() as u64;
        let chunk = slice_subrange(input.as_slice(), pos, end);
        let mut comp = deflate_chunk(chunk);
        proof {
            assert(chunk@ =~= chunk_of(input@, k));
        }
        let ghost before = out@;
        offsets.push(off);
        out.append(&mut comp);
        pos = end;
        proof {
            assert(out@.len() == out.len());
            assert(out@.subrange(HEADER_SIZE as int, out@.len() as int) =~= packed_body(
                input@,
                k + 1,
            ));
            assert(offsets@[k] == section_offset(input@, k));
            assert forall|j: int| 0 <= j < HEADER_SIZE implies out@[j] == 0u8 by {
                assert(out@[j] == before[j]);
            }
        }
    }

    proof {
        lemma_chunk_count_bounds(input@);
        lemma_chunk_start_bounds(input@, offsets@.len() as int);
        assert(offsets@.len() == chunk_count(input@));
    }

    let ghost before_table = out@;
    encode_table(&mut out, &offsets);

    proof {
        let d = input@;
        let n = chunk_count(d);
        vstd::bytes::lemma_auto_spec_u64_to_from_le_bytes();
        assert(8 * (n + 1) <= HEADER_SIZE);
        assert(out@.subrange(0, 8) == spec_u64_to_le_bytes(n as u64));
        assert forall|i: int| 0 <= i < n implies out@.subrange(8 * (i + 1), 8 * (i + 2))
            == spec_u64_to_le_bytes((#[trigger] section_offset(d, i)) as u64) by {
            assert(out@.subrange(8 * (i + 1), 8 * (i + 2)) == spec_u64_to_le_bytes(offsets@[i]));
        }
        assert forall|j: int| 8 * (n + 1) <= j < HEADER_SIZE implies out@[j] == 0 by {
            assert(out@[j] == before_table[j]);
        }
        assert(out@.subrange(HEADER_SIZE as int, out@.len() as int) =~= packed_body(d, n)) by {
            assert forall|t: int| 0 <= t < out@.len() - HEADER_SIZE implies out@.subrange(
                HEADER_SIZE as int,
                out@.len() as int,
            )[t] == packed_body(d, n)[t] by {
                assert(out@[HEADER_SIZE + t] == before_table[HEADER_SIZE + t]);
                assert(before_table[HEADER_SIZE + t] == before_table.subrange(
                    HEADER_SIZE as int,
                    before_table.len() as int,
                )[t]);
            }
        }
        assert(is_packing_of(d, out@));
        assert(parsed_count(out@) == n as u64);
        if d.len() >= 1 {
            assert(out@.len() == out.len());
            lemma_pack_unpacks(d, out@);
        }
        if d.len() == 0 {
            assert(n == 0);
            assert(!count_ok(out@));
        }
    }
    Ok(out)
}

} // verus!
