//! The mathematical model of the packed stream: how a raw payload is cut
//! into chunks, what the header and body of a packed stream hold, and what a
//! well-formed section table looks like when read back.

use vstd::prelude::*;
use vstd::bytes::{spec_u64_from_le_bytes, spec_u64_to_le_bytes};
use vstd::arithmetic::div_mod::{lemma_fundamental_div_mod, lemma_mod_bound};
use crate::zlib::{deflate_of, inflate_of};

verus! {

/// Size in bytes of the reserved header region at the front of a packed
/// stream.
pub const HEADER_SIZE: u64 = 0x600000;

/// Size in bytes of one raw chunk; every chunk but possibly the last is
/// exactly this long.
pub const SECTION_SIZE: u64 = 0x8000;

/// Largest admissible section count: the header holds one 8-byte slot for
/// the count itself and one per section.
pub const MAX_SECTION_COUNT: u64 = HEADER_SIZE / 8 - 1;

/// Largest raw payload that fits in `MAX_SECTION_COUNT` chunks.
pub const MAX_FILE_SIZE: u64 = SECTION_SIZE * MAX_SECTION_COUNT;

/// Number of chunks a payload of `data`'s length is cut into: the length
/// divided by `SECTION_SIZE`, rounded up.
pub open spec fn chunk_count(data: Seq<u8>) -> int {
    (data.len() + SECTION_SIZE - 1) / (SECTION_SIZE as int)
}

/// Byte position where chunk `k` of `data` starts; the payload end for `k`
/// past the last chunk.
pub open spec fn chunk_start(data: Seq<u8>, k: int) -> int {
    if k * SECTION_SIZE <= data.len() {
        k * SECTION_SIZE
    } else {
        data.len() as int
    }
}

/// Chunk `i` of the raw payload `data`.
pub open spec fn chunk_of(data: Seq<u8>, i: int) -> Seq<u8> {
    data.subrange(chunk_start(data, i), chunk_start(data, i + 1))
}

/// The first `n` compressed chunks of `data`, concatenated: the body that
/// packing appends after the header.
pub open spec fn packed_body(data: Seq<u8>, n: int) -> Seq<u8>
    decreases n,
{
    if n <= 0 {
        Seq::empty()
    } else {
        packed_body(data, n - 1) + deflate_of(chunk_of(data, n - 1))
    }
}

/// Byte offset, within the packed stream, where section `i` begins: right
/// after the header and the compressed chunks before it.
pub open spec fn section_offset(data: Seq<u8>, i: int) -> int {
    HEADER_SIZE + packed_body(data, i).len()
}

/// The section count stored in the leading 8 bytes of a packed stream.
pub open spec fn parsed_count(s: Seq<u8>) -> u64
    recommends
        s.len() >= 8,
{
    spec_u64_from_le_bytes(s.subrange(0, 8))
}

/// The `i`-th table entry of a packed stream: the stored offset of section
/// `i`.
pub open spec fn parsed_offset(s: Seq<u8>, i: int) -> u64
    recommends
        8 * (i + 2) <= s.len(),
{
    spec_u64_from_le_bytes(s.subrange(8 * (i + 1), 8 * (i + 2)))
}

/// The stored section count is in range: at least one section, at most
/// `MAX_SECTION_COUNT`.
pub open spec fn count_ok(s: Seq<u8>) -> bool {
    &&& s.len() >= 8
    &&& 1 <= parsed_count(s) <= MAX_SECTION_COUNT
}

/// The stored section table is well formed: the count is in range, the
/// stream is long enough to hold the table, the offsets strictly increase,
/// and the last section starts before the stream ends — so every section has
/// a positive size and lies within the stream.
pub open spec fn table_ok(s: Seq<u8>) -> bool {
    let n = parsed_count(s) as int;
    &&& count_ok(s)
    &&& 8 * (n + 1) <= s.len()
    &&& forall|i: int|
        #![trigger parsed_offset(s, i), parsed_offset(s, i + 1)]
        0 <= i < n - 1 ==> parsed_offset(s, i) < parsed_offset(s, i + 1)
    &&& parsed_offset(s, n - 1) < s.len()
}

/// Size in bytes of section `i`: the gap to the next stored offset, or to
/// the end of the stream for the last section.
pub open spec fn section_size(s: Seq<u8>, i: int) -> int {
    let n = parsed_count(s) as int;
    if i < n - 1 {
        parsed_offset(s, i + 1) - parsed_offset(s, i)
    } else {
        s.len() - parsed_offset(s, i)
    }
}

/// The compressed bytes of section `i` of a packed stream.
pub open spec fn section_bytes(s: Seq<u8>, i: int) -> Seq<u8> {
    s.subrange(parsed_offset(s, i) as int, parsed_offset(s, i) + section_size(s, i))
}

/// The decompressor accepts every section before `k`.
pub open spec fn sections_ok_upto(s: Seq<u8>, k: int) -> bool {
    forall|i: int| 0 <= i < k ==> inflate_of(#[trigger] section_bytes(s, i)) is Some
}

/// The decompressor accepts every section of the stream.
pub open spec fn sections_ok(s: Seq<u8>) -> bool {
    sections_ok_upto(s, parsed_count(s) as int)
}

/// The first `k` sections of a packed stream, decompressed and concatenated.
pub open spec fn unpacked_prefix(s: Seq<u8>, k: int) -> Seq<u8>
    decreases k,
{
    if k <= 0 {
        Seq::empty()
    } else {
        unpacked_prefix(s, k - 1) + inflate_of(section_bytes(s, k - 1)).unwrap()
    }
}

/// The whole payload that a packed stream decompresses to.
pub open spec fn unpacked_of(s: Seq<u8>) -> Seq<u8> {
    unpacked_prefix(s, parsed_count(s) as int)
}

/// `s` is byte for byte the packed form of the raw payload `data`: the
/// stored count, every stored offset, the zero padding of the rest of the
/// header, and the body of concatenated compressed chunks.
pub open spec fn is_packing_of(data: Seq<u8>, s: Seq<u8>) -> bool {
    let n = chunk_count(data);
    &&& s.len() == HEADER_SIZE + packed_body(data, n).len()
    &&& s.subrange(0, 8) == spec_u64_to_le_bytes(n as u64)
    &&& forall|i: int|
        0 <= i < n ==> s.subrange(8 * (i + 1), 8 * (i + 2)) == spec_u64_to_le_bytes(
            (#[trigger] section_offset(data, i)) as u64,
        )
    &&& forall|j: int| 8 * (n + 1) <= j < HEADER_SIZE ==> s[j] == 0
    &&& s.subrange(HEADER_SIZE as int, s.len() as int) == packed_body(data, n)
}

/// Basic facts about the chunk count: it is zero exactly on the empty
/// payload, payloads within the size limit need at most `MAX_SECTION_COUNT`
/// chunks, and the chunks tile the payload.
pub proof fn lemma_chunk_count_bounds(data: Seq<u8>)
    ensures
        chunk_count(data) >= 0,
        data.len() == 0 ==> chunk_count(data) == 0,
        data.len() >= 1 ==> chunk_count(data) >= 1,
        data.len() <= MAX_FILE_SIZE ==> chunk_count(data) <= MAX_SECTION_COUNT,
        SECTION_SIZE * chunk_count(data) >= data.len(),
        chunk_count(data) >= 1 ==> SECTION_SIZE * (chunk_count(data) - 1) < data.len(),
        chunk_start(data, chunk_count(data)) == data.len(),
{
    let d = SECTION_SIZE as int;
    let x = data.len() + SECTION_SIZE - 1;
    lemma_fundamental_div_mod(x, d);
    lemma_mod_bound(x, d);
    assert(SECTION_SIZE * chunk_count(data) == d * (x / d));
    if chunk_count(data) >= 1 {
        assert(SECTION_SIZE * (chunk_count(data) - 1) == d * (x / d) - d);
    }
}

/// The starts of successive chunks advance by at most `SECTION_SIZE`, and
/// strictly as long as the payload is not exhausted.
pub proof fn lemma_chunk_start_bounds(data: Seq<u8>, k: int)
    requires
        k >= 0,
    ensures
        0 <= chunk_start(data, k) <= chunk_start(data, k + 1) <= data.len(),
        chunk_start(data, k + 1) - chunk_start(data, k) <= SECTION_SIZE,
        k < chunk_count(data) ==> chunk_start(data, k) < chunk_start(data, k + 1),
        k < chunk_count(data) ==> chunk_start(data, k) == k * SECTION_SIZE,
{
    lemma_chunk_count_bounds(data);
    if k < chunk_count(data) {
        assert(SECTION_SIZE * (chunk_count(data) - 1) >= SECTION_SIZE * k) by (nonlinear_arith)
            requires
                k <= chunk_count(data) - 1,
        ;
    }
}

/// Offsets of a well-formed table increase over any gap, not only between
/// neighbours.
pub proof fn lemma_offsets_increase(s: Seq<u8>, i: int, j: int)
    requires
        table_ok(s),
        0 <= i <= j < parsed_count(s),
    ensures
        parsed_offset(s, i) <= parsed_offset(s, j),
    decreases j - i,
{
    if i < j {
        lemma_offsets_increase(s, i, j - 1);
        assert(parsed_offset(s, j - 1) < parsed_offset(s, j));
    }
}

/// In a well-formed table the offsets increase, so every stored offset lies
/// strictly before the end of the stream.
pub proof fn lemma_last_offset_in_bounds(s: Seq<u8>)
    requires
        table_ok(s),
    ensures
        forall|i: int| 0 <= i < parsed_count(s) ==> #[trigger] parsed_offset(s, i) < s.len(),
{
    let n = parsed_count(s) as int;
    assert forall|i: int| 0 <= i < n implies #[trigger] parsed_offset(s, i) < s.len() by {
        lemma_offsets_increase(s, i, n - 1);
    }
}

/// Each step of the packed body appends one compressed chunk, so the body
/// never shrinks as more chunks are taken.
pub proof fn lemma_packed_body_len_monotone(data: Seq<u8>, i: int, j: int)
    requires
        0 <= i <= j,
    ensures
        packed_body(data, i).len() <= packed_body(data, j).len(),
    decreases j - i,
{
    if i < j {
        lemma_packed_body_len_monotone(data, i, j - 1);
    }
}

/// Within the packed body of the first `n` chunks, the bytes between the
/// offsets of section `i` and section `i + 1` are exactly the `i`-th
/// compressed chunk.
pub proof fn lemma_packed_body_section(data: Seq<u8>, i: int, n: int)
    requires
        0 <= i < n,
    ensures
        section_offset(data, i + 1) - HEADER_SIZE <= packed_body(data, n).len(),
        packed_body(data, n).subrange(
            section_offset(data, i) - HEADER_SIZE,
            section_offset(data, i + 1) - HEADER_SIZE,
        ) == deflate_of(chunk_of(data, i)),
    decreases n,
{
    lemma_packed_body_len_monotone(data, i + 1, n);
    if i == n - 1 {
        assert(packed_body(data, n).subrange(
            section_offset(data, i) - HEADER_SIZE,
            section_offset(data, i + 1) - HEADER_SIZE,
        ) =~= deflate_of(chunk_of(data, i)));
    } else {
        lemma_packed_body_section(data, i, n - 1);
        assert(packed_body(data, n).subrange(
            section_offset(data, i) - HEADER_SIZE,
            section_offset(data, i + 1) - HEADER_SIZE,
        ) =~= packed_body(data, n - 1).subrange(
            section_offset(data, i) - HEADER_SIZE,
            section_offset(data, i + 1) - HEADER_SIZE,
        ));
    }
}

} // verus!
