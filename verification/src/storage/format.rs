//! The `.lvdb` binary file format (v1): writing and reading.
//!
//! Integrity is checked twice — a CRC-32 over the header and a CRC-32 over the
//! body — so truncation or corruption is caught at load rather than surfacing
//! as garbage results.

use super::crc::{checksum, crc32};
use super::layout::{
    body_bytes, collected, component_form, component_size, encoding_tag, field, file_bytes,
    gathered, header_form, id_bytes, index_bytes, kind_tag, list_bytes, magic, metadata_bytes,
    pair_bytes, params_bytes, parse_file, parse_index, parse_layout, parse_list, parse_payload,
    payload_bytes, read_component, read_header, read_list, read_pair, read_payload, read_u32,
    read_u64, read_vector, stride_of, u32_bytes, u64_bytes, vector_bytes, zeros, FileView, Header,
    LayoutView, HEADER_CRC_OFFSET, HEADER_LEN, VERSION_MAJOR, VERSION_MINOR,
};
use super::quantize::{dequantize, quantize, scalar_bounds};
use super::wire::{
    joined, le_bytes, le_to_u64, lemma_le_value_bound, lemma_many_fails, len_to_le, parse_many,
    put_str, u32_to_le, u64_to_le, Reader, Reading,
};
use crate::db::{Encoding, IndexKind};
use crate::error::VectorDbError;
use crate::float::F32;
use crate::index::hnsw::AnnParams;
use crate::index::{view_data, IndexData, IndexView};
use crate::record::{Metadata, Record, RecordView};
use crate::records::{in_order, lemma_in_order, listed, Records};
use vstd::prelude::*;

verus! {

/// The database state carried in a `.lvdb` file: dimension, index kind, vector
/// encoding, records, and an optional persisted graph index.
pub type DecodedDb = (Option<usize>, IndexKind, Encoding, Records, Option<IndexData>);

/// What a decoded file holds.
pub open spec fn view_decoded(db: DecodedDb) -> FileView {
    FileView {
        dimension: db.0,
        index_kind: db.1,
        encoding: db.2,
        records: db.3@,
        index: view_data(db.4),
    }
}

/// Bytes per vector component for a given encoding.
pub fn component_bytes(encoding: Encoding) -> (r: usize)
    ensures
        r == component_size(encoding),
{
    match encoding {
        Encoding::Float32 => 4,
        Encoding::ScalarU8 => 1,
    }
}

/// One item more of a row.
proof fn lemma_joined_step<T>(items: Seq<T>, bytes: spec_fn(T) -> Seq<u8>, i: int)
    requires
        0 <= i < items.len(),
    ensures
        joined(items.take(i + 1), bytes) == joined(items.take(i), bytes) + bytes(items[i]),
{
    assert(items.take(i + 1).drop_last() =~= items.take(i));
}

/// The records in order are those of the ids in order.
pub proof fn lemma_listed(records: Map<u64, RecordView>)
    requires
        records.dom().finite(),
    ensures
        listed(records).len() == in_order(records.dom()).len(),
        listed(records).len() == records.len(),
        forall|i: int|
            0 <= i < listed(records).len() ==> records.dom().contains(
                #[trigger] in_order(records.dom())[i],
            ) && listed(records)[i] == records[in_order(records.dom())[i]],
{
    lemma_in_order(records.dom());
}

fn put_u32(buf: &mut Vec<u8>, x: u32)
    ensures
        final(buf)@ == old(buf)@ + le_bytes(x as nat, 4),
{
    let bytes = u32_to_le(x);
    buf.extend_from_slice(bytes.as_slice());
    assert(final(buf)@ =~= old(buf)@ + le_bytes(x as nat, 4));
}

fn put_u64(buf: &mut Vec<u8>, x: u64)
    ensures
        final(buf)@ == old(buf)@ + le_bytes(x as nat, 8),
{
    let bytes = u64_to_le(x);
    buf.extend_from_slice(bytes.as_slice());
    assert(final(buf)@ =~= old(buf)@ + le_bytes(x as nat, 8));
}

/// A length or count, in its low four bytes.
fn put_len(buf: &mut Vec<u8>, x: usize)
    ensures
        final(buf)@ == old(buf)@ + le_bytes(x as nat, 4),
{
    let bytes = len_to_le(x);
    buf.extend_from_slice(bytes.as_slice());
    assert(final(buf)@ =~= old(buf)@ + le_bytes(x as nat, 4));
}

fn put_ids(buf: &mut Vec<u8>, records: &Records)
    ensures
        final(buf)@ == old(buf)@ + joined(listed(records@), id_bytes()),
{
    let ids = records.ids();
    let ghost list = listed(records@);
    let mut i: usize = 0;
    proof {
        lemma_listed(records@);
        assert(old(buf)@ + joined(list.take(0), id_bytes()) =~= old(buf)@);
    }
    while i < ids.len()
        invariant
            i <= ids@.len(),
            ids@ == in_order(records@.dom()),
            list == listed(records@),
            list.len() == ids@.len(),
            forall|n: int|
                0 <= n < list.len() ==> records@.dom().contains(
                    #[trigger] in_order(records@.dom())[n],
                ) && list[n] == records@[in_order(records@.dom())[n]],
            buf@ == old(buf)@ + joined(list.take(i as int), id_bytes()),
        decreases ids@.len() - i,
    {
        assert(records@.dom().contains(in_order(records@.dom())[i as int]));
        if let Some(record) = records.get(ids[i]) {
            put_u64(buf, record.id);
        }
        proof {
            lemma_joined_step(list, id_bytes(), i as int);
            assert(buf@ =~= old(buf)@ + joined(list.take(i + 1), id_bytes()));
        }
        i = i + 1;
    }
    assert(list.take(i as int) =~= list);
}

fn put_vector(buf: &mut Vec<u8>, vector: &Vec<F32>, encoding: Encoding, range: (F32, F32))
    ensures
        final(buf)@ == old(buf)@ + joined(vector@, component_form(encoding, range)),
{
    let mut i: usize = 0;
    let ghost form = component_form(encoding, range);
    assert(old(buf)@ + joined(vector@.take(0), form) =~= old(buf)@);
    while i < vector.len()
        invariant
            i <= vector@.len(),
            form == component_form(encoding, range),
            buf@ == old(buf)@ + joined(vector@.take(i as int), form),
        decreases vector@.len() - i,
    {
        match encoding {
            Encoding::Float32 => put_u32(buf, vector[i].bits),
            Encoding::ScalarU8 => buf.push(quantize(vector[i], range.0, range.1)),
        }
        proof {
            lemma_joined_step(vector@, form, i as int);
            assert(buf@ =~= old(buf)@ + joined(vector@.take(i + 1), form));
        }
        i = i + 1;
    }
    assert(vector@.take(i as int) =~= vector@);
}

fn put_vectors(buf: &mut Vec<u8>, records: &Records, encoding: Encoding, range: (F32, F32))
    ensures
        final(buf)@ == old(buf)@ + joined(listed(records@), vector_bytes(encoding, range)),
{
    let ids = records.ids();
    let ghost list = listed(records@);
    let ghost form = vector_bytes(encoding, range);
    let mut i: usize = 0;
    proof {
        lemma_listed(records@);
        assert(old(buf)@ + joined(list.take(0), form) =~= old(buf)@);
    }
    while i < ids.len()
        invariant
            i <= ids@.len(),
            ids@ == in_order(records@.dom()),
            list == listed(records@),
            list.len() == ids@.len(),
            form == vector_bytes(encoding, range),
            forall|n: int|
                0 <= n < list.len() ==> records@.dom().contains(
                    #[trigger] in_order(records@.dom())[n],
                ) && list[n] == records@[in_order(records@.dom())[n]],
            buf@ == old(buf)@ + joined(list.take(i as int), form),
        decreases ids@.len() - i,
    {
        assert(records@.dom().contains(in_order(records@.dom())[i as int]));
        if let Some(record) = records.get(ids[i]) {
            put_vector(buf, &record.vector, encoding, range);
        }
        proof {
            lemma_joined_step(list, form, i as int);
            assert(buf@ =~= old(buf)@ + joined(list.take(i + 1), form));
        }
        i = i + 1;
    }
    assert(list.take(i as int) =~= list);
}

fn put_metadata(buf: &mut Vec<u8>, metadata: &Metadata)
    ensures
        final(buf)@ == old(buf)@ + metadata_bytes(metadata@),
{
    put_len(buf, metadata.len());
    let ghost start = buf@;
    let ghost pairs = metadata@;
    let mut i: usize = 0;
    assert(start + joined(pairs.take(0), pair_bytes()) =~= start);
    while i < metadata.len()
        invariant
            i <= pairs.len(),
            pairs == metadata@,
            buf@ == start + joined(pairs.take(i as int), pair_bytes()),
        decreases pairs.len() - i,
    {
        let (key, value) = metadata.entry(i);
        put_str(buf, key.as_str());
        put_str(buf, value.as_str());
        proof {
            lemma_joined_step(pairs, pair_bytes(), i as int);
            assert(buf@ =~= start + joined(pairs.take(i + 1), pair_bytes()));
        }
        i = i + 1;
    }
    assert(pairs.take(i as int) =~= pairs);
    assert(buf@ =~= old(buf)@ + metadata_bytes(metadata@));
}

fn put_payloads(buf: &mut Vec<u8>, records: &Records)
    ensures
        final(buf)@ == old(buf)@ + joined(listed(records@), payload_bytes()),
{
    let ids = records.ids();
    let ghost list = listed(records@);
    let ghost form = payload_bytes();
    let mut i: usize = 0;
    proof {
        lemma_listed(records@);
        assert(old(buf)@ + joined(list.take(0), form) =~= old(buf)@);
    }
    while i < ids.len()
        invariant
            i <= ids@.len(),
            ids@ == in_order(records@.dom()),
            list == listed(records@),
            list.len() == ids@.len(),
            form == payload_bytes(),
            forall|n: int|
                0 <= n < list.len() ==> records@.dom().contains(
                    #[trigger] in_order(records@.dom())[n],
                ) && list[n] == records@[in_order(records@.dom())[n]],
            buf@ == old(buf)@ + joined(list.take(i as int), form),
        decreases ids@.len() - i,
    {
        assert(records@.dom().contains(in_order(records@.dom())[i as int]));
        if let Some(record) = records.get(ids[i]) {
            put_str(buf, record.text.as_str());
            put_metadata(buf, &record.metadata);
        }
        proof {
            lemma_joined_step(list, form, i as int);
            assert(buf@ =~= old(buf)@ + joined(list.take(i + 1), form));
        }
        i = i + 1;
    }
    assert(list.take(i as int) =~= list);
}

fn put_list(buf: &mut Vec<u8>, list: &Vec<u32>)
    ensures
        final(buf)@ == old(buf)@ + (list_bytes())(list@),
{
    put_len(buf, list.len());
    let ghost start = buf@;
    let mut i: usize = 0;
    assert(start + joined(list@.take(0), u32_bytes()) =~= start);
    while i < list.len()
        invariant
            i <= list@.len(),
            buf@ == start + joined(list@.take(i as int), u32_bytes()),
        decreases list@.len() - i,
    {
        put_u32(buf, list[i]);
        proof {
            lemma_joined_step(list@, u32_bytes(), i as int);
            assert(buf@ =~= start + joined(list@.take(i + 1), u32_bytes()));
        }
        i = i + 1;
    }
    assert(list@.take(i as int) =~= list@);
    assert(buf@ =~= old(buf)@ + (list_bytes())(list@));
}

/// The graph's structure (entry, node ids, adjacency). Vectors are not repeated
/// here: they come from the records.
fn put_index(buf: &mut Vec<u8>, index: &IndexData)
    ensures
        final(buf)@ == old(buf)@ + index_bytes(index@),
{
    proof {
        reveal(index_bytes);
    }
    match index.entry {
        Some(e) => {
            buf.push(1);
            put_u32(buf, e);
        },
        None => {
            buf.push(0);
            put_u32(buf, 0);
        },
    }
    put_len(buf, index.node_ids.len());
    let ghost start = buf@;
    let ghost ids = index.node_ids@;
    let mut i: usize = 0;
    assert(start + joined(ids.take(0), u64_bytes()) =~= start);
    while i < index.node_ids.len()
        invariant
            i <= ids.len(),
            ids == index.node_ids@,
            buf@ == start + joined(ids.take(i as int), u64_bytes()),
        decreases ids.len() - i,
    {
        put_u64(buf, index.node_ids[i]);
        proof {
            lemma_joined_step(ids, u64_bytes(), i as int);
            assert(buf@ =~= start + joined(ids.take(i + 1), u64_bytes()));
        }
        i = i + 1;
    }
    assert(ids.take(i as int) =~= ids);
    let ghost middle = buf@;
    let ghost lists = index@.neighbors;
    let mut j: usize = 0;
    assert(middle + joined(lists.take(0), list_bytes()) =~= middle);
    while j < index.neighbors.len()
        invariant
            j <= lists.len(),
            lists == index@.neighbors,
            buf@ == middle + joined(lists.take(j as int), list_bytes()),
        decreases lists.len() - j,
    {
        put_list(buf, &index.neighbors[j]);
        proof {
            lemma_joined_step(lists, list_bytes(), j as int);
            assert(buf@ =~= middle + joined(lists.take(j + 1), list_bytes()));
        }
        j = j + 1;
    }
    assert(lists.take(j as int) =~= lists);
    assert(buf@ =~= old(buf)@ + index_bytes(index@));
}

/// The view of a borrowed snapshot, where there is one.
pub open spec fn view_index(index: Option<&IndexData>) -> Option<IndexView> {
    match index {
        Some(index) => Some(index@),
        None => None,
    }
}

/// The vector stride: the fixed dimension, or the first record's length when
/// the dimension is not yet fixed but records exist.
fn stride(dimension: Option<usize>, records: &Records) -> (r: usize)
    ensures
        r == stride_of(dimension, listed(records@)),
{
    match dimension {
        Some(d) => d,
        None => {
            let ids = records.ids();
            proof {
                lemma_listed(records@);
            }
            if ids.len() == 0 {
                return 0;
            }
            assert(records@.dom().contains(in_order(records@.dom())[0]));
            match records.get(ids[0]) {
                Some(record) => record.vector.len(),
                None => 0,
            }
        },
    }
}

fn put_u16(buf: &mut Vec<u8>, x: u16)
    ensures
        final(buf)@ == old(buf)@ + le_bytes(x as nat, 2),
{
    buf.push((x % 256) as u8);
    buf.push((x / 256) as u8);
    proof {
        reveal_with_fuel(le_bytes, 3);
        assert(final(buf)@ =~= old(buf)@ + le_bytes(x as nat, 2));
    }
}

fn put_zeros(buf: &mut Vec<u8>, n: usize)
    ensures
        final(buf)@ == old(buf)@ + zeros(n as nat),
{
    let mut i: usize = 0;
    assert(old(buf)@ + zeros(0) =~= old(buf)@);
    while i < n
        invariant
            i <= n,
            buf@ == old(buf)@ + zeros(i as nat),
        decreases n - i,
    {
        buf.push(0);
        i = i + 1;
        assert(buf@ =~= old(buf)@ + zeros(i as nat));
    }
}

fn put_tags(buf: &mut Vec<u8>, encoding: Encoding, kind: IndexKind)
    ensures
        final(buf)@ == old(buf)@ + seq![0u8, encoding_tag(encoding), kind_tag(kind), 0u8],
{
    buf.push(0);
    match encoding {
        Encoding::Float32 => buf.push(0),
        Encoding::ScalarU8 => buf.push(1),
    }
    match kind {
        IndexKind::Exact => buf.push(0),
        IndexKind::Hnsw(_) => buf.push(1),
    }
    buf.push(0);
    assert(final(buf)@ =~= old(buf)@ + seq![0u8, encoding_tag(encoding), kind_tag(kind), 0u8]);
}

fn put_params(buf: &mut Vec<u8>, kind: IndexKind)
    ensures
        final(buf)@ == old(buf)@ + params_bytes(kind),
{
    match kind {
        IndexKind::Exact => put_zeros(buf, 12),
        IndexKind::Hnsw(params) => {
            put_len(buf, params.max_neighbors);
            put_len(buf, params.ef_construction);
            put_len(buf, params.ef_search);
        },
    }
    assert(final(buf)@ =~= old(buf)@ + params_bytes(kind));
}

/// The header, but for its checksum.
fn encode_header(
    flags: u32,
    dimension: usize,
    encoding: Encoding,
    kind: IndexKind,
    count: u64,
    stride: usize,
    body_crc: u32,
    range: (F32, F32),
) -> (r: Vec<u8>)
    ensures
        r@ == header_form(
            flags as nat,
            dimension as nat,
            encoding,
            kind,
            count as nat,
            stride as nat,
            body_crc,
            range,
        ),
{
    let mut header: Vec<u8> = vec![0x4c, 0x56, 0x44, 0x42];
    assert(header@ =~= magic());
    put_u16(&mut header, VERSION_MAJOR);
    put_u16(&mut header, VERSION_MINOR);
    put_u32(&mut header, flags);
    put_len(&mut header, dimension);
    put_tags(&mut header, encoding, kind);
    put_u64(&mut header, count);
    put_len(&mut header, stride);
    put_params(&mut header, kind);
    put_u32(&mut header, body_crc);
    put_u32(&mut header, range.0.bits);
    put_u32(&mut header, range.1.bits);
    put_zeros(&mut header, 4);
    header
}

/// Serialize a database's state to `.lvdb` bytes.
pub fn encode(
    dimension: Option<usize>,
    index_kind: IndexKind,
    encoding: Encoding,
    records: &Records,
    index: Option<&IndexData>,
) -> (r: Vec<u8>)
    ensures
        r@ == file_bytes(dimension, index_kind, encoding, listed(records@), view_index(index)),
{
    let ghost list = listed(records@);
    let ghost iv = view_index(index);
    let count: usize = records.len();
    proof {
        lemma_listed(records@);
    }
    // Scalar quantization derives a global range from the data.
    let range = match encoding {
        Encoding::Float32 => (F32 { bits: 0 }, F32 { bits: 0 }),
        Encoding::ScalarU8 => scalar_bounds(records),
    };
    let mut body: Vec<u8> = Vec::new();
    put_ids(&mut body, records);
    put_vectors(&mut body, records, encoding, range);
    put_payloads(&mut body, records);
    if let Some(index) = index {
        put_index(&mut body, index);
    }
    assert(body@ =~= body_bytes(encoding, list, iv));
    let mut flags: u32 = 0;
    if dimension.is_some() {
        flags = flags + 1;
    }
    if index.is_some() {
        flags = flags + 2;
    }
    let mut header = encode_header(
        flags,
        dimension.unwrap_or(0),
        encoding,
        index_kind,
        count as u64,
        stride(dimension, records),
        crc32(body.as_slice()),
        range,
    );
    let header_crc: u32 = crc32(header.as_slice());
    put_u32(&mut header, header_crc);
    header.extend_from_slice(body.as_slice());
    assert(header@ =~= file_bytes(dimension, index_kind, encoding, list, iv));
    header
}

/// The number in the `n` bytes at `at`.
fn read_field(bytes: &[u8], at: usize, n: usize) -> (r: u64)
    requires
        at + n <= bytes@.len(),
        n <= 8,
    ensures
        r == field(bytes@, at as int, n as int),
        n == 2 ==> r <= u16::MAX,
        n == 4 ==> r <= u32::MAX,
{
    let len: usize = bytes.len();
    assert(at + n <= len);
    let part = vstd::slice::slice_subrange(bytes, at, at + n);
    proof {
        lemma_le_value_bound(part@);
    }
    le_to_u64(part)
}

/// Check a header and read its fields.
pub fn parse_header(bytes: &[u8]) -> (r: Result<Header, VectorDbError>)
    ensures
        r == read_header(bytes@),
        r is Ok ==> bytes@.len() >= HEADER_LEN,
{
    proof {
        reveal(read_header);
    }
    if bytes.len() < HEADER_LEN {
        return Err(VectorDbError::Corrupt("file shorter than header"));
    }
    let magic_ok: bool = bytes[0] == 0x4c && bytes[1] == 0x56 && bytes[2] == 0x44 && bytes[3]
        == 0x42;
    proof {
        let start = bytes@.take(4);
        if magic_ok {
            assert(start =~= magic());
        } else {
            assert(start[0] == bytes@[0] && start[1] == bytes@[1] && start[2] == bytes@[2]
                && start[3] == bytes@[3]);
        }
    }
    if !magic_ok {
        return Err(VectorDbError::Corrupt("bad magic: not an .lvdb file"));
    }
    let covered = vstd::slice::slice_subrange(bytes, 0, HEADER_CRC_OFFSET);
    assert(covered@ =~= bytes@.take(HEADER_CRC_OFFSET as int));
    if crc32(covered) as u64 != read_field(bytes, HEADER_CRC_OFFSET, 4) {
        return Err(VectorDbError::Corrupt("header checksum mismatch"));
    }
    let major: u16 = read_field(bytes, 4, 2) as u16;
    let minor: u16 = read_field(bytes, 6, 2) as u16;
    if major != VERSION_MAJOR {
        return Err(VectorDbError::UnsupportedVersion { major, minor });
    }
    let flags: u64 = read_field(bytes, 8, 4);
    let dimension: Option<usize> = if flags % 2 == 1 {
        Some(read_field(bytes, 12, 4) as usize)
    } else {
        None
    };
    let (encoding, range) = match bytes[17] {
        0 => (Encoding::Float32, (F32 { bits: 0 }, F32 { bits: 0 })),
        1 => (
            Encoding::ScalarU8,
            (
                F32 { bits: read_field(bytes, 48, 4) as u32 },
                F32 { bits: read_field(bytes, 52, 4) as u32 },
            ),
        ),
        _ => {
            return Err(VectorDbError::Corrupt("unknown vector encoding"));
        },
    };
    Ok(
        Header {
            dimension,
            has_index: (flags / 2) % 2 == 1,
            encoding,
            range,
            kind_tag: bytes[18],
            params: AnnParams {
                max_neighbors: read_field(bytes, 32, 4) as usize,
                ef_construction: read_field(bytes, 36, 4) as usize,
                ef_search: read_field(bytes, 40, 4) as usize,
            },
            count: read_field(bytes, 20, 8),
            stride: read_field(bytes, 28, 4) as usize,
            body_crc: read_field(bytes, 44, 4) as u32,
        },
    )
}

fn take_ids(reader: &mut Reader, count: u64) -> (r: Result<Vec<u64>, VectorDbError>)
    ensures
        final(reader).buf@ == old(reader).buf@,
        match parse_many(read_u64(), old(reader).buf@, old(reader).pos as nat, count as nat) {
            Err(e) => r == Err::<Vec<u64>, VectorDbError>(e),
            Ok((values, end)) => r matches Ok(list) && list@ == values && final(reader).pos == end,
        },
{
    proof {
        reveal(parse_many);
    }
    let ghost buf = reader.buf@;
    let ghost start = reader.pos as nat;
    let mut out: Vec<u64> = Vec::new();
    let mut i: u64 = 0;
    assert(out@ =~= Seq::empty());
    while i < count
        invariant
            i <= count,
            reader.buf@ == buf,
            parse_many(read_u64(), buf, start, i as nat) == Ok::<(Seq<u64>, nat), VectorDbError>(
                (out@, reader.pos as nat),
            ),
            buf == old(reader).buf@,
            start == old(reader).pos,
        decreases count - i,
    {
        proof {
            reveal(parse_many);
        }
        match reader.u64() {
            Ok(value) => out.push(value),
            Err(e) => {
                proof {
                    lemma_many_fails(read_u64(), buf, start, (i + 1) as nat, count as nat);
                }
                return Err(e);
            },
        }
        i = i + 1;
    }
    Ok(out)
}

fn take_vector(
    reader: &mut Reader,
    encoding: Encoding,
    range: (F32, F32),
    stride: usize,
) -> (r: Result<Vec<F32>, VectorDbError>)
    ensures
        final(reader).buf@ == old(reader).buf@,
        match parse_many(
            read_component(encoding, range),
            old(reader).buf@,
            old(reader).pos as nat,
            stride as nat,
        ) {
            Err(e) => r == Err::<Vec<F32>, VectorDbError>(e),
            Ok((values, end)) => r matches Ok(list) && list@ == values && final(reader).pos == end,
        },
{
    proof {
        reveal(parse_many);
    }
    let ghost buf = reader.buf@;
    let ghost start = reader.pos as nat;
    let ghost item = read_component(encoding, range);
    let mut out: Vec<F32> = Vec::new();
    let mut i: usize = 0;
    assert(out@ =~= Seq::empty());
    while i < stride
        invariant
            i <= stride,
            reader.buf@ == buf,
            item == read_component(encoding, range),
            parse_many(item, buf, start, i as nat) == Ok::<(Seq<F32>, nat), VectorDbError>(
                (out@, reader.pos as nat),
            ),
            buf == old(reader).buf@,
            start == old(reader).pos,
        decreases stride - i,
    {
        proof {
            reveal(parse_many);
        }
        let component = match encoding {
            Encoding::Float32 => reader.float32(),
            Encoding::ScalarU8 => match reader.u8() {
                Ok(code) => Ok(dequantize(code, range.0, range.1)),
                Err(e) => Err(e),
            },
        };
        match component {
            Ok(value) => out.push(value),
            Err(e) => {
                proof {
                    lemma_many_fails(item, buf, start, (i + 1) as nat, stride as nat);
                }
                return Err(e);
            },
        }
        i = i + 1;
    }
    Ok(out)
}

/// The contents of vectors.
pub open spec fn view_vectors(vectors: Seq<Vec<F32>>) -> Seq<Seq<F32>> {
    vectors.map_values(|v: Vec<F32>| v@)
}

fn take_vectors(
    reader: &mut Reader,
    encoding: Encoding,
    range: (F32, F32),
    stride: usize,
    count: u64,
) -> (r: Result<Vec<Vec<F32>>, VectorDbError>)
    ensures
        final(reader).buf@ == old(reader).buf@,
        match parse_many(
            read_vector(encoding, range, stride as nat),
            old(reader).buf@,
            old(reader).pos as nat,
            count as nat,
        ) {
            Err(e) => r == Err::<Vec<Vec<F32>>, VectorDbError>(e),
            Ok((values, end)) => {
                &&& r matches Ok(list) && view_vectors(list@) == values
                &&& final(reader).pos == end
            },
        },
{
    proof {
        reveal(parse_many);
    }
    let ghost buf = reader.buf@;
    let ghost start = reader.pos as nat;
    let ghost item = read_vector(encoding, range, stride as nat);
    let mut out: Vec<Vec<F32>> = Vec::new();
    let mut i: u64 = 0;
    assert(view_vectors(out@) =~= Seq::empty());
    while i < count
        invariant
            i <= count,
            reader.buf@ == buf,
            item == read_vector(encoding, range, stride as nat),
            parse_many(item, buf, start, i as nat) == Ok::<(Seq<Seq<F32>>, nat), VectorDbError>(
                (view_vectors(out@), reader.pos as nat),
            ),
            buf == old(reader).buf@,
            start == old(reader).pos,
        decreases count - i,
    {
        proof {
            reveal(parse_many);
        }
        let ghost before = view_vectors(out@);
        match take_vector(reader, encoding, range, stride) {
            Ok(vector) => {
                out.push(vector);
                assert(view_vectors(out@) =~= before.push(vector@));
            },
            Err(e) => {
                proof {
                    lemma_many_fails(item, buf, start, (i + 1) as nat, count as nat);
                }
                return Err(e);
            },
        }
        i = i + 1;
    }
    Ok(out)
}

fn take_payload(reader: &mut Reader) -> (r: Result<(String, Metadata), VectorDbError>)
    ensures
        final(reader).buf@ == old(reader).buf@,
        match parse_payload(old(reader).buf@, old(reader).pos as nat) {
            Err(e) => r == Err::<(String, Metadata), VectorDbError>(e),
            Ok((payload, end)) => {
                &&& r matches Ok(found) && (found.0@, found.1@) == payload
                &&& final(reader).pos == end
            },
        },
{
    proof {
        reveal(parse_many);
    }
    let text = reader.string()?;
    let count: u32 = reader.u32()?;
    let ghost buf = reader.buf@;
    let ghost start = reader.pos as nat;
    let ghost mut pairs: Seq<(Seq<char>, Seq<char>)> = Seq::empty();
    let mut metadata = Metadata::new();
    let mut i: u32 = 0;
    while i < count
        invariant
            i <= count,
            reader.buf@ == buf,
            parse_many(read_pair(), buf, start, i as nat) == Ok::<
                (Seq<(Seq<char>, Seq<char>)>, nat),
                VectorDbError,
            >((pairs, reader.pos as nat)),
            metadata@ == collected(pairs),
            parse_payload(old(reader).buf@, old(reader).pos as nat) == (match parse_many(
                read_pair(),
                buf,
                start,
                count as nat,
            ) {
                Err(e) => Err((e)),
                Ok((all, end)) => Ok(((text@, collected(all)), end)),
            }),
            buf == old(reader).buf@,
        decreases count - i,
    {
        proof {
            reveal(parse_many);
        }
        let ghost at = reader.pos as nat;
        let key = match reader.string() {
            Ok(key) => key,
            Err(e) => {
                proof {
                    lemma_many_fails(read_pair(), buf, start, (i + 1) as nat, count as nat);
                }
                return Err(e);
            },
        };
        let value = match reader.string() {
            Ok(value) => value,
            Err(e) => {
                proof {
                    lemma_many_fails(read_pair(), buf, start, (i + 1) as nat, count as nat);
                }
                return Err(e);
            },
        };
        proof {
            let before = pairs;
            pairs = pairs.push((key@, value@));
            assert(pairs.drop_last() =~= before);
        }
        let _ = metadata.insert(key, value);
        i = i + 1;
    }
    Ok((text, metadata))
}

fn take_list(reader: &mut Reader) -> (r: Result<Vec<u32>, VectorDbError>)
    ensures
        final(reader).buf@ == old(reader).buf@,
        match parse_list(old(reader).buf@, old(reader).pos as nat) {
            Err(e) => r == Err::<Vec<u32>, VectorDbError>(e),
            Ok((values, end)) => r matches Ok(list) && list@ == values && final(reader).pos == end,
        },
{
    proof {
        reveal(parse_many);
    }
    let count: u32 = reader.u32()?;
    let ghost buf = reader.buf@;
    let ghost start = reader.pos as nat;
    let mut out: Vec<u32> = Vec::new();
    let mut i: u32 = 0;
    assert(out@ =~= Seq::empty());
    while i < count
        invariant
            i <= count,
            reader.buf@ == buf,
            parse_many(read_u32(), buf, start, i as nat) == Ok::<(Seq<u32>, nat), VectorDbError>(
                (out@, reader.pos as nat),
            ),
            buf == old(reader).buf@,
            parse_list(old(reader).buf@, old(reader).pos as nat) == parse_many(
                read_u32(),
                buf,
                start,
                count as nat,
            ),
        decreases count - i,
    {
        proof {
            reveal(parse_many);
        }
        match reader.u32() {
            Ok(value) => out.push(value),
            Err(e) => {
                proof {
                    lemma_many_fails(read_u32(), buf, start, (i + 1) as nat, count as nat);
                }
                return Err(e);
            },
        }
        i = i + 1;
    }
    Ok(out)
}

/// The contents of lists of links.
pub open spec fn view_lists(lists: Seq<Vec<u32>>) -> Seq<Seq<u32>> {
    lists.map_values(|list: Vec<u32>| list@)
}

fn take_lists(reader: &mut Reader, count: u32) -> (r: Result<Vec<Vec<u32>>, VectorDbError>)
    ensures
        final(reader).buf@ == old(reader).buf@,
        match parse_many(read_list(), old(reader).buf@, old(reader).pos as nat, count as nat) {
            Err(e) => r == Err::<Vec<Vec<u32>>, VectorDbError>(e),
            Ok((values, end)) => {
                &&& r matches Ok(lists) && view_lists(lists@) == values
                &&& final(reader).pos == end
            },
        },
{
    proof {
        reveal(parse_many);
    }
    let ghost buf = reader.buf@;
    let ghost start = reader.pos as nat;
    let mut out: Vec<Vec<u32>> = Vec::new();
    let mut i: u32 = 0;
    assert(view_lists(out@) =~= Seq::empty());
    while i < count
        invariant
            i <= count,
            reader.buf@ == buf,
            parse_many(read_list(), buf, start, i as nat) == Ok::<
                (Seq<Seq<u32>>, nat),
                VectorDbError,
            >((view_lists(out@), reader.pos as nat)),
            buf == old(reader).buf@,
            start == old(reader).pos,
        decreases count - i,
    {
        proof {
            reveal(parse_many);
        }
        let ghost before = view_lists(out@);
        match take_list(reader) {
            Ok(list) => {
                out.push(list);
                assert(view_lists(out@) =~= before.push(list@));
            },
            Err(e) => {
                proof {
                    lemma_many_fails(read_list(), buf, start, (i + 1) as nat, count as nat);
                }
                return Err(e);
            },
        }
        i = i + 1;
    }
    Ok(out)
}

fn take_index(reader: &mut Reader) -> (r: Result<IndexData, VectorDbError>)
    ensures
        final(reader).buf@ == old(reader).buf@,
        match parse_index(old(reader).buf@, old(reader).pos as nat) {
            Err(e) => r == Err::<IndexData, VectorDbError>(e),
            Ok((index, end)) => r matches Ok(data) && data@ == index && final(reader).pos == end,
        },
{
    proof {
        reveal(parse_index);
    }
    let has_entry: u8 = reader.u8()?;
    let raw: u32 = reader.u32()?;
    let count: u32 = reader.u32()?;
    let node_ids = take_ids(reader, count as u64)?;
    let neighbors = take_lists(reader, count)?;
    let entry: Option<u32> = if has_entry != 0 {
        Some(raw)
    } else {
        None
    };
    let data = IndexData { node_ids, neighbors, entry };
    assert(data@.neighbors =~= view_lists(neighbors@));
    Ok(data)
}

/// The text and metadata of records.
pub open spec fn view_payloads(payloads: Seq<(String, Metadata)>) -> Seq<
    (Seq<char>, Seq<(Seq<char>, Seq<char>)>),
> {
    payloads.map_values(|p: (String, Metadata)| (p.0@, p.1@))
}

fn take_payloads(reader: &mut Reader, count: u64) -> (r: Result<
    Vec<(String, Metadata)>,
    VectorDbError,
>)
    ensures
        final(reader).buf@ == old(reader).buf@,
        match parse_many(read_payload(), old(reader).buf@, old(reader).pos as nat, count as nat) {
            Err(e) => r == Err::<Vec<(String, Metadata)>, VectorDbError>(e),
            Ok((values, end)) => {
                &&& r matches Ok(list) && view_payloads(list@) == values
                &&& final(reader).pos == end
            },
        },
{
    proof {
        reveal(parse_many);
    }
    let ghost buf = reader.buf@;
    let ghost start = reader.pos as nat;
    let mut out: Vec<(String, Metadata)> = Vec::new();
    let mut i: u64 = 0;
    assert(view_payloads(out@) =~= Seq::empty());
    while i < count
        invariant
            i <= count,
            reader.buf@ == buf,
            parse_many(read_payload(), buf, start, i as nat) == Ok::<
                (Seq<(Seq<char>, Seq<(Seq<char>, Seq<char>)>)>, nat),
                VectorDbError,
            >((view_payloads(out@), reader.pos as nat)),
            buf == old(reader).buf@,
            start == old(reader).pos,
        decreases count - i,
    {
        proof {
            reveal(parse_many);
        }
        let ghost before = view_payloads(out@);
        match take_payload(reader) {
            Ok(payload) => {
                out.push(payload);
                assert(view_payloads(out@) =~= before.push((payload.0@, payload.1@)));
            },
            Err(e) => {
                proof {
                    lemma_many_fails(read_payload(), buf, start, (i + 1) as nat, count as nat);
                }
                return Err(e);
            },
        }
        i = i + 1;
    }
    Ok(out)
}

/// The lengths of rows.
pub proof fn lemma_many_len<T>(
    item: spec_fn(Seq<u8>, nat) -> Reading<T>,
    buf: Seq<u8>,
    pos: nat,
    n: nat,
)
    ensures
        parse_many(item, buf, pos, n) matches Ok((values, _)) ==> values.len() == n,
    decreases n,
{
    reveal(parse_many);
    if n > 0 {
        lemma_many_len(item, buf, pos, (n - 1) as nat);
    }
}

/// Put records together from their sections.
fn gather(ids: Vec<u64>, vectors: Vec<Vec<F32>>, payloads: Vec<(String, Metadata)>) -> (r: Records)
    requires
        ids@.len() == payloads@.len(),
        vectors@.len() == payloads@.len(),
    ensures
        r@ == gathered(ids@, view_vectors(vectors@), view_payloads(payloads@)),
{
    let ghost vs = view_vectors(vectors@);
    let ghost ps = view_payloads(payloads@);
    let mut vectors = vectors;
    let mut payloads = payloads;
    let mut records = Records::new();
    let mut i: usize = 0;
    assert(ps.take(0) =~= Seq::empty());
    while i < ids.len()
        invariant
            i <= ids@.len(),
            ids@.len() == ps.len(),
            ids@.len() == vs.len(),
            vectors@.len() == vs.len(),
            payloads@.len() == ps.len(),
            forall|n: int| i <= n < vs.len() ==> (#[trigger] vectors@[n])@ == vs[n],
            forall|n: int|
                i <= n < ps.len() ==> (#[trigger] payloads@[n]).0@ == ps[n].0 && payloads@[n].1@
                    == ps[n].1,
            records@ == gathered(ids@, vs, ps.take(i as int)),
        decreases ids@.len() - i,
    {
        let id: u64 = ids[i];
        let mut vector: Vec<F32> = Vec::new();
        std::mem::swap(&mut vector, &mut vectors[i]);
        let mut payload = (String::new(), Metadata::new());
        std::mem::swap(&mut payload, &mut payloads[i]);
        let record = Record { id, vector, text: payload.0, metadata: payload.1 };
        let _ = records.insert(id, record);
        proof {
            assert(ps.take(i + 1).drop_last() =~= ps.take(i as int));
        }
        i = i + 1;
    }
    assert(ps.take(i as int) =~= ps);
    records
}

/// Parse `.lvdb` bytes back into a database's state.
pub fn decode(bytes: &[u8]) -> (r: Result<DecodedDb, VectorDbError>)
    ensures
        match parse_file(bytes@) {
            Err(e) => r == Err::<DecodedDb, VectorDbError>(e),
            Ok(file) => r matches Ok(db) && view_decoded(db) == file,
        },
{
    let header = parse_header(bytes)?;
    let index_kind = match header.kind_tag {
        0 => IndexKind::Exact,
        1 => IndexKind::Hnsw(header.params),
        _ => {
            return Err(VectorDbError::Corrupt("unknown index kind"));
        },
    };
    let body = vstd::slice::slice_subrange(bytes, HEADER_LEN, bytes.len());
    assert(body@ =~= bytes@.skip(HEADER_LEN as int));
    if crc32(body) != header.body_crc {
        return Err(VectorDbError::Corrupt("body checksum mismatch"));
    }
    if header.count > 0 && header.stride == 0 {
        return Err(VectorDbError::Corrupt("records present but zero stride"));
    }
    let mut reader = Reader::new(body);
    let ids = take_ids(&mut reader, header.count)?;
    let ghost p = reader.pos as nat;
    let vectors = take_vectors(
        &mut reader,
        header.encoding,
        header.range,
        header.stride,
        header.count,
    )?;
    let ghost q = reader.pos as nat;
    let payloads = take_payloads(&mut reader, header.count)?;
    let index: Option<IndexData> = if header.has_index {
        Some(take_index(&mut reader)?)
    } else {
        None
    };
    proof {
        let n = header.count as nat;
        lemma_many_len(read_u64(), body@, 0, n);
        lemma_many_len(
            read_vector(header.encoding, header.range, header.stride as nat),
            body@,
            p,
            n,
        );
        lemma_many_len(read_payload(), body@, q, n);
    }
    let records = gather(ids, vectors, payloads);
    Ok((header.dimension, index_kind, header.encoding, records, index))
}

/// The parts of a `.lvdb` file needed to search it in place: the small owned
/// sections (ids, payloads) plus where the big vectors block lives.
///
/// The vectors themselves stay in the mapped bytes and are read on demand.
#[derive(Debug)]
pub struct MmapLayout {
    pub dimension: Option<usize>,
    pub ids: Vec<u64>,
    pub payloads: Vec<(String, Metadata)>,
    /// Byte offset of the contiguous vectors block within the mapped file.
    pub vectors_offset: usize,
    /// Vector stride (number of components per vector).
    pub stride: usize,
    /// How each component is encoded in the map.
    pub encoding: Encoding,
    /// Scalar-quantization `(min, max)` range (unused for `Float32`).
    pub bounds: (F32, F32),
}

impl View for MmapLayout {
    type V = LayoutView;

    open spec fn view(&self) -> LayoutView {
        LayoutView {
            dimension: self.dimension,
            ids: self.ids@,
            payloads: view_payloads(self.payloads@),
            vectors_offset: self.vectors_offset as nat,
            stride: self.stride as nat,
            encoding: self.encoding,
            range: self.bounds,
        }
    }
}

/// A row of eight-byte numbers ends within the bytes.
pub proof fn lemma_ids_end(buf: Seq<u8>, n: nat)
    ensures
        parse_many(read_u64(), buf, 0, n) matches Ok((_, end)) ==> end == 8 * n && (n > 0 ==> end
            <= buf.len()),
    decreases n,
{
    reveal(parse_many);
    if n > 0 {
        lemma_ids_end(buf, (n - 1) as nat);
    }
}

/// Parse the header, ids, and payloads of mapped `.lvdb` bytes, leaving the
/// vectors block untouched.
///
/// Verifies the header checksum but deliberately **not** the body checksum:
/// that would read every vector page and defeat the point of memory-mapping.
/// The vectors region is bounds-checked so on-demand reads stay in range.
pub fn parse_mmap(bytes: &[u8]) -> (r: Result<MmapLayout, VectorDbError>)
    ensures
        match parse_layout(bytes@) {
            Err(e) => r == Err::<MmapLayout, VectorDbError>(e),
            Ok(layout) => r matches Ok(found) && found@ == layout,
        },
{
    let header = parse_header(bytes)?;
    if header.count > 0 && header.stride == 0 {
        return Err(VectorDbError::Corrupt("records present but zero stride"));
    }
    let len: usize = bytes.len();
    let body = vstd::slice::slice_subrange(bytes, HEADER_LEN, len);
    assert(body@ =~= bytes@.skip(HEADER_LEN as int));
    // Ids come first, right after the header.
    let mut reader = Reader::new(body);
    let ids = take_ids(&mut reader, header.count)?;
    proof {
        lemma_ids_end(body@, header.count as nat);
        lemma_many_len(read_u64(), body@, 0, header.count as nat);
    }
    // The vectors block follows the ids; bounds-check it, then skip over it.
    let count: usize = ids.len();
    let size: usize = component_bytes(header.encoding);
    let ghost n = count as nat;
    let ghost full = n * header.stride as nat * component_size(header.encoding);
    proof {
        assert(full == (count * header.stride) * size) by (nonlinear_arith)
            requires
                full == n * header.stride as nat * component_size(header.encoding),
                n == count,
                size == component_size(header.encoding),
        ;
        assert((count * header.stride) * size >= count * header.stride) by (nonlinear_arith)
            requires
                size >= 1,
                count >= 0,
                header.stride >= 0,
        ;
    }
    let vectors_offset: usize = HEADER_LEN + 8 * count;
    let components: usize = match count.checked_mul(header.stride) {
        Some(components) => components,
        None => {
            return Err(VectorDbError::Corrupt("size overflow"));
        },
    };
    let vectors_len: usize = match components.checked_mul(size) {
        Some(vectors_len) => vectors_len,
        None => {
            return Err(VectorDbError::Corrupt("size overflow"));
        },
    };
    let payloads_offset: usize = match vectors_offset.checked_add(vectors_len) {
        Some(payloads_offset) => payloads_offset,
        None => {
            return Err(VectorDbError::Corrupt("size overflow"));
        },
    };
    if payloads_offset > len {
        return Err(VectorDbError::Corrupt("vectors section out of range"));
    }
    // Payloads follow the vectors block.
    let rest = vstd::slice::slice_subrange(bytes, payloads_offset, len);
    assert(rest@ =~= bytes@.skip(payloads_offset as int));
    let mut reader = Reader::new(rest);
    let payloads = take_payloads(&mut reader, header.count)?;
    Ok(
        MmapLayout {
            dimension: header.dimension,
            ids,
            payloads,
            vectors_offset,
            stride: header.stride,
            encoding: header.encoding,
            bounds: header.range,
        },
    )
}

} // verus!
