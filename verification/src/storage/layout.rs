//! What a `.lvdb` file holds, byte for byte.
//!
//! ```text
//! [ HEADER 64B ]              magic, version, dimension, counts, checksums
//! [ IDS       count x u64 ]   the id of each record, in order
//! [ VECTORS   count x dim x component ]  a contiguous, fixed-stride matrix
//! [ PAYLOADS  count x (text + metadata) ]  variable-length, in the same order
//! [ INDEX ]                   the structure of the graph, where it was stored
//! ```

use super::crc::checksum;
use super::quantize::{dequantized, quantized, value_range};
use super::wire::{
    joined, le_bytes, le_value, parse_float, parse_many, parse_string, parse_u32, parse_u64,
    parse_u8, string_bytes, Reading,
};
use crate::db::{Encoding, IndexKind};
use crate::error::VectorDbError;
use crate::float::F32;
use crate::index::hnsw::AnnParams;
use crate::index::IndexView;
use crate::record::{pairs_insert, RecordView};
use vstd::prelude::*;

verus! {

/// The state that a file carries.
pub struct FileView {
    pub dimension: Option<usize>,
    pub index_kind: IndexKind,
    pub encoding: Encoding,
    pub records: Map<u64, RecordView>,
    pub index: Option<IndexView>,
}

pub const HEADER_LEN: usize = 64;

/// The header CRC covers everything before it: bytes `[0, HEADER_CRC_OFFSET)`.
pub const HEADER_CRC_OFFSET: usize = 60;

pub const VERSION_MAJOR: u16 = 1;

/// Minor 1 added the optional persisted index section; minor 2 added scalar
/// quantization.
pub const VERSION_MINOR: u16 = 2;

pub open spec fn magic() -> Seq<u8> {
    seq![0x4cu8, 0x56u8, 0x44u8, 0x42u8]
}

pub open spec fn zeros(n: nat) -> Seq<u8> {
    Seq::new(n, |i: int| 0u8)
}

/// The number in the `n` bytes at `at`.
pub open spec fn field(bytes: Seq<u8>, at: int, n: int) -> nat {
    le_value(bytes.subrange(at, at + n))
}

// Writing.

/// The id of a record.
pub open spec fn id_bytes() -> spec_fn(RecordView) -> Seq<u8> {
    |r: RecordView| le_bytes(r.id as nat, 8)
}

pub open spec fn component_form(encoding: Encoding, range: (F32, F32)) -> spec_fn(F32) -> Seq<u8> {
    |x: F32|
        match encoding {
            Encoding::Float32 => le_bytes(x.bits as nat, 4),
            Encoding::ScalarU8 => seq![quantized(x, range.0, range.1)],
        }
}

pub open spec fn vector_bytes(encoding: Encoding, range: (F32, F32)) -> spec_fn(
    RecordView,
) -> Seq<u8> {
    |r: RecordView| joined(r.vector, component_form(encoding, range))
}

pub open spec fn pair_bytes() -> spec_fn((Seq<char>, Seq<char>)) -> Seq<u8> {
    |p: (Seq<char>, Seq<char>)| string_bytes(p.0) + string_bytes(p.1)
}

pub open spec fn metadata_bytes(metadata: Seq<(Seq<char>, Seq<char>)>) -> Seq<u8> {
    le_bytes(metadata.len(), 4) + joined(metadata, pair_bytes())
}

pub open spec fn payload_bytes() -> spec_fn(RecordView) -> Seq<u8> {
    |r: RecordView| string_bytes(r.text) + metadata_bytes(r.metadata)
}

pub open spec fn u64_bytes() -> spec_fn(u64) -> Seq<u8> {
    |x: u64| le_bytes(x as nat, 8)
}

pub open spec fn u32_bytes() -> spec_fn(u32) -> Seq<u8> {
    |x: u32| le_bytes(x as nat, 4)
}

pub open spec fn list_bytes() -> spec_fn(Seq<u32>) -> Seq<u8> {
    |list: Seq<u32>| le_bytes(list.len(), 4) + joined(list, u32_bytes())
}

/// The structure of a graph: its entry, the ids of its nodes, and their links.
#[verifier::opaque]
pub open spec fn index_bytes(index: IndexView) -> Seq<u8> {
    (match index.entry {
        Some(e) => seq![1u8] + le_bytes(e as nat, 4),
        None => seq![0u8] + le_bytes(0, 4),
    }) + le_bytes(index.node_ids.len(), 4) + joined(index.node_ids, u64_bytes()) + joined(
        index.neighbors,
        list_bytes(),
    )
}

pub open spec fn optional_index_bytes(index: Option<IndexView>) -> Seq<u8> {
    match index {
        Some(index) => index_bytes(index),
        None => Seq::empty(),
    }
}

/// The range against which components are quantized; zeros at full precision.
pub open spec fn encoding_range(encoding: Encoding, records: Seq<RecordView>) -> (F32, F32) {
    match encoding {
        Encoding::Float32 => (F32 { bits: 0 }, F32 { bits: 0 }),
        Encoding::ScalarU8 => value_range(records),
    }
}

/// All that follows the header.
pub open spec fn body_bytes(
    encoding: Encoding,
    records: Seq<RecordView>,
    index: Option<IndexView>,
) -> Seq<u8> {
    joined(records, id_bytes()) + joined(
        records,
        vector_bytes(encoding, encoding_range(encoding, records)),
    ) + joined(records, payload_bytes()) + optional_index_bytes(index)
}

pub open spec fn encoding_tag(encoding: Encoding) -> u8 {
    match encoding {
        Encoding::Float32 => 0,
        Encoding::ScalarU8 => 1,
    }
}

pub open spec fn kind_tag(kind: IndexKind) -> u8 {
    match kind {
        IndexKind::Exact => 0,
        IndexKind::Hnsw(_) => 1,
    }
}

pub open spec fn params_bytes(kind: IndexKind) -> Seq<u8> {
    match kind {
        IndexKind::Exact => zeros(12),
        IndexKind::Hnsw(params) => le_bytes(params.max_neighbors as nat, 4) + le_bytes(
            params.ef_construction as nat,
            4,
        ) + le_bytes(params.ef_search as nat, 4),
    }
}

/// The components per vector: the fixed dimension, or the length of the first
/// record's vector where none is fixed.
pub open spec fn stride_of(dimension: Option<usize>, records: Seq<RecordView>) -> nat {
    match dimension {
        Some(d) => d as nat,
        None => if records.len() > 0 {
            records[0].vector.len()
        } else {
            0
        },
    }
}

pub open spec fn flags_of(dimension: Option<usize>, index: Option<IndexView>) -> nat {
    (if dimension is Some {
        1nat
    } else {
        0
    }) + (if index is Some {
        2nat
    } else {
        0
    })
}

pub open spec fn dimension_field(dimension: Option<usize>) -> nat {
    match dimension {
        Some(d) => d as nat,
        None => 0,
    }
}

/// The part of a header that its checksum covers, from its fields.
pub open spec fn header_form(
    flags: nat,
    dimension: nat,
    encoding: Encoding,
    kind: IndexKind,
    count: nat,
    stride: nat,
    body_crc: u32,
    range: (F32, F32),
) -> Seq<u8> {
    magic() + le_bytes(VERSION_MAJOR as nat, 2) + le_bytes(VERSION_MINOR as nat, 2) + le_bytes(
        flags,
        4,
    ) + le_bytes(dimension, 4) + seq![0u8, encoding_tag(encoding), kind_tag(kind), 0u8] + le_bytes(
        count,
        8,
    ) + le_bytes(stride, 4) + params_bytes(kind) + le_bytes(body_crc as nat, 4) + le_bytes(
        range.0.bits as nat,
        4,
    ) + le_bytes(range.1.bits as nat, 4) + zeros(4)
}

/// The part of the header that its checksum covers.
pub open spec fn header_bytes(
    dimension: Option<usize>,
    kind: IndexKind,
    encoding: Encoding,
    records: Seq<RecordView>,
    index: Option<IndexView>,
) -> Seq<u8> {
    header_form(
        flags_of(dimension, index),
        dimension_field(dimension),
        encoding,
        kind,
        records.len(),
        stride_of(dimension, records),
        checksum(body_bytes(encoding, records, index)),
        encoding_range(encoding, records),
    )
}

/// The bytes of a file.
pub open spec fn file_bytes(
    dimension: Option<usize>,
    kind: IndexKind,
    encoding: Encoding,
    records: Seq<RecordView>,
    index: Option<IndexView>,
) -> Seq<u8> {
    let header = header_bytes(dimension, kind, encoding, records, index);
    header + le_bytes(checksum(header) as nat, 4) + body_bytes(encoding, records, index)
}

// Reading.

/// The fields of a header that passed its checks.
#[derive(Debug, Clone, Copy)]
pub struct Header {
    pub dimension: Option<usize>,
    pub has_index: bool,
    pub encoding: Encoding,
    pub range: (F32, F32),
    pub kind_tag: u8,
    pub params: AnnParams,
    pub count: u64,
    pub stride: usize,
    pub body_crc: u32,
}

pub open spec fn float_field(bytes: Seq<u8>, at: int) -> F32 {
    F32 { bits: field(bytes, at, 4) as u32 }
}

/// What the header of a file says, or why it is refused.
#[verifier::opaque]
pub open spec fn read_header(bytes: Seq<u8>) -> Result<Header, VectorDbError> {
    let major = field(bytes, 4, 2) as u16;
    let minor = field(bytes, 6, 2) as u16;
    let flags = field(bytes, 8, 4);
    if bytes.len() < HEADER_LEN {
        Err(VectorDbError::Corrupt("file shorter than header"))
    } else if bytes.take(4) != magic() {
        Err(VectorDbError::Corrupt("bad magic: not an .lvdb file"))
    } else if checksum(bytes.take(HEADER_CRC_OFFSET as int)) != field(
        bytes,
        HEADER_CRC_OFFSET as int,
        4,
    ) {
        Err(VectorDbError::Corrupt("header checksum mismatch"))
    } else if major != VERSION_MAJOR {
        Err(VectorDbError::UnsupportedVersion { major, minor })
    } else if bytes[17] > 1 {
        Err(VectorDbError::Corrupt("unknown vector encoding"))
    } else {
        Ok(
            Header {
                dimension: if flags % 2 == 1 {
                    Some(field(bytes, 12, 4) as usize)
                } else {
                    None
                },
                has_index: (flags / 2) % 2 == 1,
                encoding: if bytes[17] == 0 {
                    Encoding::Float32
                } else {
                    Encoding::ScalarU8
                },
                range: if bytes[17] == 0 {
                    (F32 { bits: 0 }, F32 { bits: 0 })
                } else {
                    (float_field(bytes, 48), float_field(bytes, 52))
                },
                kind_tag: bytes[18],
                params: AnnParams {
                    max_neighbors: field(bytes, 32, 4) as usize,
                    ef_construction: field(bytes, 36, 4) as usize,
                    ef_search: field(bytes, 40, 4) as usize,
                },
                count: field(bytes, 20, 8) as u64,
                stride: field(bytes, 28, 4) as usize,
                body_crc: field(bytes, 44, 4) as u32,
            },
        )
    }
}

pub open spec fn read_u64() -> spec_fn(Seq<u8>, nat) -> Reading<u64> {
    |buf: Seq<u8>, pos: nat| parse_u64(buf, pos)
}

pub open spec fn read_u32() -> spec_fn(Seq<u8>, nat) -> Reading<u32> {
    |buf: Seq<u8>, pos: nat| parse_u32(buf, pos)
}

pub open spec fn read_component(encoding: Encoding, range: (F32, F32)) -> spec_fn(
    Seq<u8>,
    nat,
) -> Reading<F32> {
    |buf: Seq<u8>, pos: nat|
        match encoding {
            Encoding::Float32 => parse_float(buf, pos),
            Encoding::ScalarU8 => match parse_u8(buf, pos) {
                Err(e) => Err(e),
                Ok((code, end)) => Ok((dequantized(code, range.0, range.1), end)),
            },
        }
}

pub open spec fn read_vector(encoding: Encoding, range: (F32, F32), stride: nat) -> spec_fn(
    Seq<u8>,
    nat,
) -> Reading<Seq<F32>> {
    |buf: Seq<u8>, pos: nat| parse_many(read_component(encoding, range), buf, pos, stride)
}

pub open spec fn parse_pair(buf: Seq<u8>, pos: nat) -> Reading<(Seq<char>, Seq<char>)> {
    match parse_string(buf, pos) {
        Err(e) => Err(e),
        Ok((key, middle)) => match parse_string(buf, middle) {
            Err(e) => Err(e),
            Ok((value, end)) => Ok(((key, value), end)),
        },
    }
}

pub open spec fn read_pair() -> spec_fn(Seq<u8>, nat) -> Reading<(Seq<char>, Seq<char>)> {
    |buf: Seq<u8>, pos: nat| parse_pair(buf, pos)
}

/// Metadata that got the given pairs, in order.
pub open spec fn collected(pairs: Seq<(Seq<char>, Seq<char>)>) -> Seq<(Seq<char>, Seq<char>)>
    decreases pairs.len(),
{
    if pairs.len() == 0 {
        Seq::empty()
    } else {
        pairs_insert(collected(pairs.drop_last()), pairs.last().0, pairs.last().1)
    }
}

/// A text and metadata.
pub open spec fn parse_payload(buf: Seq<u8>, pos: nat) -> Reading<
    (Seq<char>, Seq<(Seq<char>, Seq<char>)>),
> {
    match parse_string(buf, pos) {
        Err(e) => Err(e),
        Ok((text, p)) => match parse_u32(buf, p) {
            Err(e) => Err(e),
            Ok((n, q)) => match parse_many(read_pair(), buf, q, n as nat) {
                Err(e) => Err(e),
                Ok((pairs, end)) => Ok(((text, collected(pairs)), end)),
            },
        },
    }
}

pub open spec fn read_payload() -> spec_fn(Seq<u8>, nat) -> Reading<
    (Seq<char>, Seq<(Seq<char>, Seq<char>)>),
> {
    |buf: Seq<u8>, pos: nat| parse_payload(buf, pos)
}

pub open spec fn parse_list(buf: Seq<u8>, pos: nat) -> Reading<Seq<u32>> {
    match parse_u32(buf, pos) {
        Err(e) => Err(e),
        Ok((n, p)) => parse_many(read_u32(), buf, p, n as nat),
    }
}

pub open spec fn read_list() -> spec_fn(Seq<u8>, nat) -> Reading<Seq<u32>> {
    |buf: Seq<u8>, pos: nat| parse_list(buf, pos)
}

/// The structure of a graph.
#[verifier::opaque]
pub open spec fn parse_index(buf: Seq<u8>, pos: nat) -> Reading<IndexView> {
    match parse_u8(buf, pos) {
        Err(e) => Err(e),
        Ok((has_entry, p)) => match parse_u32(buf, p) {
            Err(e) => Err(e),
            Ok((entry, q)) => match parse_u32(buf, q) {
                Err(e) => Err(e),
                Ok((n, r)) => match parse_many(read_u64(), buf, r, n as nat) {
                    Err(e) => Err(e),
                    Ok((node_ids, s)) => match parse_many(read_list(), buf, s, n as nat) {
                        Err(e) => Err(e),
                        Ok((neighbors, end)) => Ok(
                            (
                                IndexView {
                                    node_ids,
                                    neighbors,
                                    entry: if has_entry != 0 {
                                        Some(entry)
                                    } else {
                                        None
                                    },
                                },
                                end,
                            ),
                        ),
                    },
                },
            },
        },
    }
}

/// Records put together from their sections; a later one replaces an earlier
/// one with the same id.
pub open spec fn gathered(
    ids: Seq<u64>,
    vectors: Seq<Seq<F32>>,
    payloads: Seq<(Seq<char>, Seq<(Seq<char>, Seq<char>)>)>,
) -> Map<u64, RecordView>
    decreases payloads.len(),
{
    if payloads.len() == 0 {
        Map::empty()
    } else {
        let n = payloads.len() - 1;
        gathered(ids, vectors, payloads.drop_last()).insert(
            ids[n],
            RecordView {
                id: ids[n],
                vector: vectors[n],
                text: payloads[n].0,
                metadata: payloads[n].1,
            },
        )
    }
}

/// The optional structure of a graph.
pub open spec fn parse_optional_index(buf: Seq<u8>, pos: nat, present: bool) -> Result<
    Option<IndexView>,
    VectorDbError,
> {
    if present {
        match parse_index(buf, pos) {
            Err(e) => Err(e),
            Ok((index, _)) => Ok(Some(index)),
        }
    } else {
        Ok(None)
    }
}

/// The records and the index structure in the body of a file.
pub open spec fn parse_body(header: Header, body: Seq<u8>) -> Result<
    (Map<u64, RecordView>, Option<IndexView>),
    VectorDbError,
> {
    let n = header.count as nat;
    match parse_many(read_u64(), body, 0, n) {
        Err(e) => Err(e),
        Ok((ids, p)) => match parse_many(
            read_vector(header.encoding, header.range, header.stride as nat),
            body,
            p,
            n,
        ) {
            Err(e) => Err(e),
            Ok((vectors, q)) => match parse_many(read_payload(), body, q, n) {
                Err(e) => Err(e),
                Ok((payloads, r)) => match parse_optional_index(body, r, header.has_index) {
                    Err(e) => Err(e),
                    Ok(index) => Ok((gathered(ids, vectors, payloads), index)),
                },
            },
        },
    }
}

/// What a file holds, or why it is refused.
pub open spec fn parse_file(bytes: Seq<u8>) -> Result<FileView, VectorDbError> {
    match read_header(bytes) {
        Err(e) => Err(e),
        Ok(header) => {
            let body = bytes.skip(HEADER_LEN as int);
            if header.kind_tag > 1 {
                Err(VectorDbError::Corrupt("unknown index kind"))
            } else if checksum(body) != header.body_crc {
                Err(VectorDbError::Corrupt("body checksum mismatch"))
            } else if header.count > 0 && header.stride == 0 {
                Err(VectorDbError::Corrupt("records present but zero stride"))
            } else {
                match parse_body(header, body) {
                    Err(e) => Err(e),
                    Ok((records, index)) => Ok(
                        FileView {
                            dimension: header.dimension,
                            index_kind: if header.kind_tag == 0 {
                                IndexKind::Exact
                            } else {
                                IndexKind::Hnsw(header.params)
                            },
                            encoding: header.encoding,
                            records,
                            index,
                        },
                    ),
                }
            }
        },
    }
}

/// Where the sections of a mapped file are, with the small ones read.
pub struct LayoutView {
    pub dimension: Option<usize>,
    pub ids: Seq<u64>,
    pub payloads: Seq<(Seq<char>, Seq<(Seq<char>, Seq<char>)>)>,
    pub vectors_offset: nat,
    pub stride: nat,
    pub encoding: Encoding,
    pub range: (F32, F32),
}

/// Bytes per vector component for a given encoding.
pub open spec fn component_size(encoding: Encoding) -> nat {
    match encoding {
        Encoding::Float32 => 4,
        Encoding::ScalarU8 => 1,
    }
}

/// The layout of a mapped file, or why it is refused. The body checksum is not
/// looked at: that would read every vector.
pub open spec fn parse_layout(bytes: Seq<u8>) -> Result<LayoutView, VectorDbError> {
    match read_header(bytes) {
        Err(e) => Err(e),
        Ok(header) => {
            let n = header.count as nat;
            let size = n * header.stride as nat * component_size(header.encoding);
            let start = HEADER_LEN as nat + 8 * n;
            if header.count > 0 && header.stride == 0 {
                Err(VectorDbError::Corrupt("records present but zero stride"))
            } else {
                match parse_many(read_u64(), bytes.skip(HEADER_LEN as int), 0, n) {
                    Err(e) => Err(e),
                    Ok((ids, _)) => if size > usize::MAX || start + size > usize::MAX {
                        Err(VectorDbError::Corrupt("size overflow"))
                    } else if start + size > bytes.len() {
                        Err(VectorDbError::Corrupt("vectors section out of range"))
                    } else {
                        match parse_many(read_payload(), bytes.skip((start + size) as int), 0, n) {
                            Err(e) => Err(e),
                            Ok((payloads, _)) => Ok(
                                LayoutView {
                                    dimension: header.dimension,
                                    ids,
                                    payloads,
                                    vectors_offset: start,
                                    stride: header.stride as nat,
                                    encoding: header.encoding,
                                    range: header.range,
                                },
                            ),
                        }
                    },
                }
            }
        },
    }
}

} // verus!
