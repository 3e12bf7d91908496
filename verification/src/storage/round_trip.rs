//! What is written is read back.

use super::crc::checksum;
use super::format::lemma_listed;
use super::layout::{
    body_bytes, collected, component_form, dimension_field, encoding_range, encoding_tag, field,
    file_bytes, flags_of, gathered, header_bytes, header_form, id_bytes, index_bytes, kind_tag,
    list_bytes, magic, metadata_bytes, optional_index_bytes, pair_bytes, params_bytes, parse_body,
    parse_file, parse_index, payload_bytes, read_component, read_header, read_list, read_pair,
    read_payload, read_u32, read_u64, read_vector, stride_of, u32_bytes, u64_bytes, vector_bytes,
    zeros, FileView, Header, HEADER_LEN, VERSION_MAJOR, VERSION_MINOR,
};
use super::quantize::{dequantized, quantized};
use super::wire::{
    joined, le_bytes, lemma_le_bytes_len, lemma_le_round_trip, lemma_parse_joined,
    lemma_parse_numbers, lemma_parse_string, lemma_stands_at_parts, parse_many, stands_at,
    string_bytes,
};
use crate::db::{Encoding, IndexKind};
use crate::error::VectorDbError;
use crate::float::F32;
use crate::index::IndexView;
use crate::record::{keys_ascending, lemma_key_rank_is, RecordView};
use crate::records::{in_order, lemma_in_order, listed};
use vstd::arithmetic::power::pow;
use vstd::prelude::*;
use vstd::utf8::encode_utf8;

verus! {

/// A string whose length fits its prefix.
#[verifier::opaque]
pub open spec fn text_fits(text: Seq<char>) -> bool {
    encode_utf8(text).len() <= u32::MAX
}

/// Metadata in the order of its keys, whose lengths fit their prefixes.
#[verifier::opaque]
pub open spec fn metadata_fits(pairs: Seq<(Seq<char>, Seq<char>)>) -> bool {
    &&& keys_ascending(pairs)
    &&& pairs.len() <= u32::MAX
    &&& forall|i: int|
        0 <= i < pairs.len() ==> text_fits((#[trigger] pairs[i]).0) && text_fits(pairs[i].1)
}

/// A record of the given stride, whose lengths fit their prefixes.
pub open spec fn record_fits(r: RecordView, stride: nat) -> bool {
    &&& r.vector.len() == stride
    &&& text_fits(r.text)
    &&& metadata_fits(r.metadata)
}

/// A graph structure with links for every node, whose lengths fit their
/// prefixes.
#[verifier::opaque]
pub open spec fn index_fits(index: IndexView) -> bool {
    &&& index.neighbors.len() == index.node_ids.len()
    &&& index.node_ids.len() <= u32::MAX
    &&& forall|i: int|
        0 <= i < index.neighbors.len() ==> (#[trigger] index.neighbors[i]).len() <= u32::MAX
}

/// Parameters that fit their fields.
pub open spec fn kind_fits(kind: IndexKind) -> bool {
    kind matches IndexKind::Hnsw(params) ==> params.max_neighbors <= u32::MAX
        && params.ef_construction <= u32::MAX && params.ef_search <= u32::MAX
}

/// A state that a file can carry: records under their own ids and of one
/// stride, and every length within its field.
pub open spec fn storable(
    dimension: Option<usize>,
    kind: IndexKind,
    records: Map<u64, RecordView>,
    index: Option<IndexView>,
) -> bool {
    let stride = stride_of(dimension, listed(records));
    &&& records.dom().finite()
    &&& forall|id: u64| #[trigger]
        records.dom().contains(id) ==> records[id].id == id && record_fits(records[id], stride)
    &&& records.len() > 0 ==> stride > 0
    &&& stride <= u32::MAX
    &&& dimension_field(dimension) <= u32::MAX
    &&& kind_fits(kind)
    &&& index matches Some(index) ==> index_fits(index)
}

/// What becomes of a component when it is written and read back.
pub open spec fn stored_component(encoding: Encoding, range: (F32, F32), x: F32) -> F32 {
    match encoding {
        Encoding::Float32 => x,
        Encoding::ScalarU8 => dequantized(quantized(x, range.0, range.1), range.0, range.1),
    }
}

pub open spec fn stored_vector(encoding: Encoding, range: (F32, F32), v: Seq<F32>) -> Seq<F32> {
    v.map_values(|x: F32| stored_component(encoding, range, x))
}

/// What becomes of records when they are written and read back: nothing at full
/// precision, and otherwise what quantization leaves of their vectors.
pub open spec fn stored_records(encoding: Encoding, records: Map<u64, RecordView>) -> Map<
    u64,
    RecordView,
> {
    let range = encoding_range(encoding, listed(records));
    records.map_values(
        |r: RecordView| RecordView { vector: stored_vector(encoding, range, r.vector), ..r },
    )
}

proof fn lemma_parse_component(
    encoding: Encoding,
    range: (F32, F32),
    x: F32,
    buf: Seq<u8>,
    pos: nat,
)
    requires
        buf.len() <= usize::MAX,
        stands_at(buf, pos, (component_form(encoding, range))(x)),
    ensures
        (read_component(encoding, range))(buf, pos) == Ok::<(F32, nat), VectorDbError>(
            (
                stored_component(encoding, range, x),
                pos + (component_form(encoding, range))(x).len(),
            ),
        ),
{
    match encoding {
        Encoding::Float32 => {
            lemma_le_bytes_len(x.bits as nat, 4);
            lemma_parse_numbers(buf, pos, x.bits as nat);
        },
        Encoding::ScalarU8 => {
            lemma_parse_numbers(buf, pos, quantized(x, range.0, range.1) as nat);
        },
    }
}

proof fn lemma_parse_vector(
    encoding: Encoding,
    range: (F32, F32),
    r: RecordView,
    buf: Seq<u8>,
    pos: nat,
)
    requires
        buf.len() <= usize::MAX,
        stands_at(buf, pos, (vector_bytes(encoding, range))(r)),
    ensures
        (read_vector(encoding, range, r.vector.len()))(buf, pos) == Ok::<
            (Seq<F32>, nat),
            VectorDbError,
        >(
            (
                stored_vector(encoding, range, r.vector),
                pos + (vector_bytes(encoding, range))(r).len(),
            ),
        ),
{
    let form = component_form(encoding, range);
    let item = read_component(encoding, range);
    let back = stored_vector(encoding, range, r.vector);
    assert forall|i: int, p: nat|
        0 <= i < r.vector.len() && stands_at(buf, p, form(r.vector[i])) implies #[trigger] item(
        buf,
        p,
    ) == Ok::<(F32, nat), VectorDbError>((back[i], p + form(#[trigger] r.vector[i]).len())) by {
        lemma_parse_component(encoding, range, r.vector[i], buf, p);
    }
    lemma_parse_joined(r.vector, form, item, back, buf, pos);
}

/// Pairs put in in the order of their keys stay in that order.
proof fn lemma_collected(pairs: Seq<(Seq<char>, Seq<char>)>)
    requires
        keys_ascending(pairs),
    ensures
        collected(pairs) == pairs,
    decreases pairs.len(),
{
    if pairs.len() == 0 {
        assert(pairs =~= Seq::empty());
    } else {
        let front = pairs.drop_last();
        let last = pairs.last();
        assert(pairs[pairs.len() - 1] == last);
        assert forall|i: int, j: int| 0 <= i < j < front.len() implies crate::record::key_less(
            #[trigger] front[i].0,
            #[trigger] front[j].0,
        ) by {
            assert(front[i] == pairs[i] && front[j] == pairs[j]);
        }
        lemma_collected(front);
        assert forall|i: int| 0 <= i < front.len() implies crate::record::key_less(
            #[trigger] front[i].0,
            last.0,
        ) by {
            assert(crate::record::key_less(pairs[i].0, pairs[pairs.len() - 1].0));
        }
        lemma_key_rank_is(front, last.0, front.len() as int);
        assert(front.insert(front.len() as int, (last.0, last.1)) =~= pairs);
    }
}

proof fn lemma_parse_pair(pair: (Seq<char>, Seq<char>), buf: Seq<u8>, pos: nat)
    requires
        buf.len() <= usize::MAX,
        text_fits(pair.0),
        text_fits(pair.1),
        stands_at(buf, pos, (pair_bytes())(pair)),
    ensures
        (read_pair())(buf, pos) == Ok::<((Seq<char>, Seq<char>), nat), VectorDbError>(
            (pair, pos + (pair_bytes())(pair).len()),
        ),
{
    reveal(text_fits);
    lemma_stands_at_parts(buf, pos, string_bytes(pair.0), string_bytes(pair.1));
    lemma_parse_string(buf, pos, pair.0);
    lemma_parse_string(buf, pos + string_bytes(pair.0).len(), pair.1);
}

proof fn lemma_parse_payload(r: RecordView, buf: Seq<u8>, pos: nat)
    requires
        buf.len() <= usize::MAX,
        text_fits(r.text),
        metadata_fits(r.metadata),
        stands_at(buf, pos, (payload_bytes())(r)),
    ensures
        (read_payload())(buf, pos) == Ok::<
            ((Seq<char>, Seq<(Seq<char>, Seq<char>)>), nat),
            VectorDbError,
        >(((r.text, r.metadata), pos + (payload_bytes())(r).len())),
{
    reveal(text_fits);
    reveal(metadata_fits);
    let m = r.metadata;
    let text = string_bytes(r.text);
    let rows = joined(m, pair_bytes());
    lemma_stands_at_parts(buf, pos, text, metadata_bytes(m));
    let p = pos + text.len();
    lemma_stands_at_parts(buf, p, le_bytes(m.len(), 4), rows);
    lemma_le_bytes_len(m.len(), 4);
    lemma_parse_string(buf, pos, r.text);
    lemma_parse_numbers(buf, p, m.len());
    assert forall|i: int, q: nat|
        0 <= i < m.len() && stands_at(buf, q, (pair_bytes())(m[i])) implies #[trigger] (
    read_pair())(buf, q) == Ok::<((Seq<char>, Seq<char>), nat), VectorDbError>(
        (m[i], q + (pair_bytes())(#[trigger] m[i]).len()),
    ) by {
        lemma_parse_pair(m[i], buf, q);
    }
    lemma_parse_joined(m, pair_bytes(), read_pair(), m, buf, p + 4);
    lemma_collected(m);
}

proof fn lemma_parse_list(list: Seq<u32>, buf: Seq<u8>, pos: nat)
    requires
        buf.len() <= usize::MAX,
        list.len() <= u32::MAX,
        stands_at(buf, pos, (list_bytes())(list)),
    ensures
        (read_list())(buf, pos) == Ok::<(Seq<u32>, nat), VectorDbError>(
            (list, pos + (list_bytes())(list).len()),
        ),
{
    lemma_le_bytes_len(list.len(), 4);
    lemma_stands_at_parts(buf, pos, le_bytes(list.len(), 4), joined(list, u32_bytes()));
    lemma_parse_numbers(buf, pos, list.len());
    assert forall|i: int, q: nat|
        0 <= i < list.len() && stands_at(buf, q, (u32_bytes())(list[i])) implies #[trigger] (
    read_u32())(buf, q) == Ok::<(u32, nat), VectorDbError>(
        (list[i], q + (u32_bytes())(#[trigger] list[i]).len()),
    ) by {
        lemma_le_bytes_len(list[i] as nat, 4);
        lemma_parse_numbers(buf, q, list[i] as nat);
    }
    lemma_parse_joined(list, u32_bytes(), read_u32(), list, buf, pos + 4);
}

proof fn lemma_parse_ids(ids: Seq<u64>, buf: Seq<u8>, pos: nat)
    requires
        buf.len() <= usize::MAX,
        stands_at(buf, pos, joined(ids, u64_bytes())),
    ensures
        parse_many(read_u64(), buf, pos, ids.len()) == Ok::<(Seq<u64>, nat), VectorDbError>(
            (ids, pos + joined(ids, u64_bytes()).len()),
        ),
{
    assert forall|i: int, q: nat|
        0 <= i < ids.len() && stands_at(buf, q, (u64_bytes())(ids[i])) implies #[trigger] (
    read_u64())(buf, q) == Ok::<(u64, nat), VectorDbError>(
        (ids[i], q + (u64_bytes())(#[trigger] ids[i]).len()),
    ) by {
        lemma_le_bytes_len(ids[i] as nat, 8);
        lemma_parse_numbers(buf, q, ids[i] as nat);
    }
    lemma_parse_joined(ids, u64_bytes(), read_u64(), ids, buf, pos);
}

/// The structure of a graph is read back as it was written.
pub proof fn lemma_parse_index(index: IndexView, buf: Seq<u8>, pos: nat)
    requires
        buf.len() <= usize::MAX,
        index_fits(index),
        stands_at(buf, pos, index_bytes(index)),
    ensures
        parse_index(buf, pos) == Ok::<(IndexView, nat), VectorDbError>(
            (index, pos + index_bytes(index).len()),
        ),
{
    reveal(index_bytes);
    reveal(parse_index);
    reveal(index_fits);
    let n = index.node_ids.len();
    let flag = if index.entry is Some {
        1u8
    } else {
        0u8
    };
    let raw: nat = match index.entry {
        Some(e) => e as nat,
        None => 0,
    };
    let entry = seq![flag] + le_bytes(raw, 4);
    let ids = joined(index.node_ids, u64_bytes());
    let lists = joined(index.neighbors, list_bytes());
    assert(index_bytes(index) == entry + le_bytes(n, 4) + ids + lists);
    lemma_le_bytes_len(raw, 4);
    lemma_le_bytes_len(n, 4);
    lemma_stands_at_parts(buf, pos, entry + le_bytes(n, 4) + ids, lists);
    lemma_stands_at_parts(buf, pos, entry + le_bytes(n, 4), ids);
    lemma_stands_at_parts(buf, pos, entry, le_bytes(n, 4));
    lemma_stands_at_parts(buf, pos, seq![flag], le_bytes(raw, 4));
    lemma_parse_numbers(buf, pos, flag as nat);
    lemma_parse_numbers(buf, pos + 1, raw);
    lemma_parse_numbers(buf, pos + 5, n);
    lemma_parse_ids(index.node_ids, buf, pos + 9);
    assert forall|i: int, q: nat|
        0 <= i < index.neighbors.len() && stands_at(
            buf,
            q,
            (list_bytes())(index.neighbors[i]),
        ) implies #[trigger] (read_list())(buf, q) == Ok::<(Seq<u32>, nat), VectorDbError>(
        (index.neighbors[i], q + (list_bytes())(#[trigger] index.neighbors[i]).len()),
    ) by {
        lemma_parse_list(index.neighbors[i], buf, q);
    }
    lemma_parse_joined(
        index.neighbors,
        list_bytes(),
        read_list(),
        index.neighbors,
        buf,
        pos + 9 + ids.len(),
    );
}

/// Sections put together give each record under its id.
proof fn lemma_gathered(
    ids: Seq<u64>,
    vectors: Seq<Seq<F32>>,
    payloads: Seq<(Seq<char>, Seq<(Seq<char>, Seq<char>)>)>,
    id: u64,
)
    requires
        ids.no_duplicates(),
        ids.len() >= payloads.len(),
        vectors.len() >= payloads.len(),
    ensures
        gathered(ids, vectors, payloads).dom().contains(id) <==> exists|i: int|
            0 <= i < payloads.len() && ids[i] == id,
        forall|i: int|
            0 <= i < payloads.len() && #[trigger] ids[i] == id ==> gathered(
                ids,
                vectors,
                payloads,
            )[id] == (RecordView {
                id,
                vector: vectors[i],
                text: payloads[i].0,
                metadata: payloads[i].1,
            }),
    decreases payloads.len(),
{
    if payloads.len() > 0 {
        let n = payloads.len() - 1;
        lemma_gathered(ids, vectors, payloads.drop_last(), id);
        assert forall|i: int| 0 <= i < payloads.len() && #[trigger] ids[i] == id implies gathered(
            ids,
            vectors,
            payloads,
        )[id] == (RecordView {
            id,
            vector: vectors[i],
            text: payloads[i].0,
            metadata: payloads[i].1,
        }) by {
            if i < n {
                assert(ids[i] != ids[n]);
                assert(payloads.drop_last()[i] == payloads[i]);
            }
        }
        if exists|i: int| 0 <= i < payloads.len() && ids[i] == id {
            let i = choose|i: int| 0 <= i < payloads.len() && ids[i] == id;
            if i < n {
                assert(0 <= i < payloads.drop_last().len() && ids[i] == id);
            }
        }
        if ids[n] == id {
            assert(0 <= n < payloads.len() && ids[n] == id);
        }
    }
}

pub proof fn lemma_section_ids(list: Seq<RecordView>, ids: Seq<u64>, buf: Seq<u8>, pos: nat)
    requires
        buf.len() <= usize::MAX,
        ids.len() == list.len(),
        forall|i: int| 0 <= i < list.len() ==> (#[trigger] list[i]).id == ids[i],
        stands_at(buf, pos, joined(list, id_bytes())),
    ensures
        parse_many(read_u64(), buf, pos, list.len()) == Ok::<(Seq<u64>, nat), VectorDbError>(
            (ids, pos + joined(list, id_bytes()).len()),
        ),
{
    assert forall|i: int, q: nat|
        0 <= i < list.len() && stands_at(buf, q, (id_bytes())(list[i])) implies #[trigger] (
    read_u64())(buf, q) == Ok::<(u64, nat), VectorDbError>(
        (ids[i], q + (id_bytes())(#[trigger] list[i]).len()),
    ) by {
        lemma_le_bytes_len(list[i].id as nat, 8);
        lemma_parse_numbers(buf, q, list[i].id as nat);
    }
    lemma_parse_joined(list, id_bytes(), read_u64(), ids, buf, pos);
}

/// The vectors of records, as they are read back.
pub open spec fn stored_vectors(
    encoding: Encoding,
    range: (F32, F32),
    list: Seq<RecordView>,
) -> Seq<Seq<F32>> {
    list.map_values(|r: RecordView| stored_vector(encoding, range, r.vector))
}

pub proof fn lemma_section_vectors(
    encoding: Encoding,
    range: (F32, F32),
    list: Seq<RecordView>,
    stride: nat,
    buf: Seq<u8>,
    pos: nat,
)
    requires
        buf.len() <= usize::MAX,
        forall|i: int| 0 <= i < list.len() ==> (#[trigger] list[i]).vector.len() == stride,
        stands_at(buf, pos, joined(list, vector_bytes(encoding, range))),
    ensures
        parse_many(read_vector(encoding, range, stride), buf, pos, list.len()) == Ok::<
            (Seq<Seq<F32>>, nat),
            VectorDbError,
        >(
            (
                stored_vectors(encoding, range, list),
                pos + joined(list, vector_bytes(encoding, range)).len(),
            ),
        ),
{
    let vectors = stored_vectors(encoding, range, list);
    let item = read_vector(encoding, range, stride);
    assert forall|i: int, q: nat|
        0 <= i < list.len() && stands_at(
            buf,
            q,
            (vector_bytes(encoding, range))(list[i]),
        ) implies #[trigger] item(buf, q) == Ok::<(Seq<F32>, nat), VectorDbError>(
        (vectors[i], q + (vector_bytes(encoding, range))(#[trigger] list[i]).len()),
    ) by {
        lemma_parse_vector(encoding, range, list[i], buf, q);
    }
    lemma_parse_joined(list, vector_bytes(encoding, range), item, vectors, buf, pos);
}

/// The payloads of records.
pub open spec fn payloads_of(list: Seq<RecordView>) -> Seq<
    (Seq<char>, Seq<(Seq<char>, Seq<char>)>),
> {
    list.map_values(|r: RecordView| (r.text, r.metadata))
}

pub proof fn lemma_section_payloads(list: Seq<RecordView>, buf: Seq<u8>, pos: nat)
    requires
        buf.len() <= usize::MAX,
        forall|i: int|
            0 <= i < list.len() ==> text_fits((#[trigger] list[i]).text) && metadata_fits(
                list[i].metadata,
            ),
        stands_at(buf, pos, joined(list, payload_bytes())),
    ensures
        parse_many(read_payload(), buf, pos, list.len()) == Ok::<
            (Seq<(Seq<char>, Seq<(Seq<char>, Seq<char>)>)>, nat),
            VectorDbError,
        >((payloads_of(list), pos + joined(list, payload_bytes()).len())),
{
    let payloads = payloads_of(list);
    assert forall|i: int, q: nat|
        0 <= i < list.len() && stands_at(buf, q, (payload_bytes())(list[i])) implies #[trigger] (
    read_payload())(buf, q) == Ok::<
        ((Seq<char>, Seq<(Seq<char>, Seq<char>)>), nat),
        VectorDbError,
    >((payloads[i], q + (payload_bytes())(#[trigger] list[i]).len())) by {
        lemma_parse_payload(list[i], buf, q);
    }
    lemma_parse_joined(list, payload_bytes(), read_payload(), payloads, buf, pos);
}

proof fn lemma_gathered_records(
    encoding: Encoding,
    range: (F32, F32),
    records: Map<u64, RecordView>,
)
    requires
        records.dom().finite(),
        range == encoding_range(encoding, listed(records)),
        forall|id: u64| #[trigger] records.dom().contains(id) ==> records[id].id == id,
    ensures
        gathered(
            in_order(records.dom()),
            stored_vectors(encoding, range, listed(records)),
            payloads_of(listed(records)),
        ) == stored_records(encoding, records),
{
    let list = listed(records);
    let ids = in_order(records.dom());
    lemma_listed(records);
    lemma_in_order(records.dom());
    let vectors = stored_vectors(encoding, range, list);
    let payloads = payloads_of(list);
    let back = gathered(ids, vectors, payloads);
    let expected = stored_records(encoding, records);
    assert forall|id: u64| back.dom().contains(id) <==> expected.dom().contains(id) by {
        lemma_gathered(ids, vectors, payloads, id);
        if records.dom().contains(id) {
            assert(ids.to_set().contains(id));
            let i = choose|i: int| 0 <= i < ids.len() && ids[i] == id;
            assert(0 <= i < payloads.len() && ids[i] == id);
        }
    }
    assert forall|id: u64| back.dom().contains(id) implies back[id] == expected[id] by {
        lemma_gathered(ids, vectors, payloads, id);
        let i = choose|i: int| 0 <= i < payloads.len() && ids[i] == id;
        assert(ids[i] == id);
        assert(list[i] == records[id]);
        assert(records.dom().contains(ids[i]));
    }
    assert(back =~= expected);
}

/// Where the sections stand in a body.
pub proof fn lemma_body_parts(
    encoding: Encoding,
    list: Seq<RecordView>,
    index: Option<IndexView>,
    body: Seq<u8>,
)
    requires
        body == body_bytes(encoding, list, index),
    ensures
        ({
            let range = encoding_range(encoding, list);
            let a = joined(list, id_bytes());
            let b = joined(list, vector_bytes(encoding, range));
            let c = joined(list, payload_bytes());
            &&& stands_at(body, 0, a)
            &&& stands_at(body, a.len(), b)
            &&& stands_at(body, a.len() + b.len(), c)
            &&& index matches Some(index) ==> stands_at(
                body,
                a.len() + b.len() + c.len(),
                index_bytes(index),
            )
        }),
{
    let range = encoding_range(encoding, list);
    let a = joined(list, id_bytes());
    let b = joined(list, vector_bytes(encoding, range));
    let c = joined(list, payload_bytes());
    let d = optional_index_bytes(index);
    assert(body.subrange(0, body.len() as int) =~= body);
    assert(stands_at(body, 0, a + b + c + d));
    lemma_stands_at_parts(body, 0, a + b + c, d);
    lemma_stands_at_parts(body, 0, a + b, c);
    lemma_stands_at_parts(body, 0, a, b);
}

/// The sections of a body are read back as they were written.
proof fn lemma_parse_sections(
    header: Header,
    list: Seq<RecordView>,
    ids: Seq<u64>,
    index: Option<IndexView>,
    body: Seq<u8>,
)
    requires
        body.len() <= usize::MAX,
        body == body_bytes(header.encoding, list, index),
        header.range == encoding_range(header.encoding, list),
        header.count as nat == list.len(),
        header.has_index == (index is Some),
        ids.len() == list.len(),
        forall|i: int| 0 <= i < list.len() ==> (#[trigger] list[i]).id == ids[i],
        forall|i: int|
            0 <= i < list.len() ==> record_fits(#[trigger] list[i], header.stride as nat),
        index matches Some(index) ==> index_fits(index),
    ensures
        parse_body(header, body) == Ok::<
            (Map<u64, RecordView>, Option<IndexView>),
            VectorDbError,
        >(
            (
                gathered(
                    ids,
                    stored_vectors(header.encoding, header.range, list),
                    payloads_of(list),
                ),
                index,
            ),
        ),
{
    let a = joined(list, id_bytes()).len();
    let b = joined(list, vector_bytes(header.encoding, header.range)).len();
    let c = joined(list, payload_bytes()).len();
    lemma_body_parts(header.encoding, list, index, body);
    lemma_section_ids(list, ids, body, 0);
    lemma_section_vectors(
        header.encoding,
        header.range,
        list,
        header.stride as nat,
        body,
        a,
    );
    lemma_section_payloads(list, body, a + b);
    match index {
        Some(index) => {
            lemma_parse_index(index, body, a + b + c);
        },
        None => {},
    }
}

/// The body of a file is read back as it was written.
proof fn lemma_parse_body(
    header: Header,
    encoding: Encoding,
    records: Map<u64, RecordView>,
    index: Option<IndexView>,
    body: Seq<u8>,
    stride: nat,
)
    requires
        body.len() <= usize::MAX,
        body == body_bytes(encoding, listed(records), index),
        header.encoding == encoding,
        header.range == encoding_range(encoding, listed(records)),
        header.stride == stride,
        header.count as nat == records.len(),
        header.has_index == (index is Some),
        records.dom().finite(),
        forall|id: u64| #[trigger]
            records.dom().contains(id) ==> records[id].id == id && record_fits(
                records[id],
                stride,
            ),
        index matches Some(index) ==> index_fits(index),
    ensures
        parse_body(header, body) == Ok::<
            (Map<u64, RecordView>, Option<IndexView>),
            VectorDbError,
        >((stored_records(encoding, records), index)),
{
    let list = listed(records);
    let ids = in_order(records.dom());
    lemma_listed(records);
    assert forall|i: int| 0 <= i < list.len() implies (#[trigger] list[i]).id == ids[i]
        && record_fits(list[i], stride) by {
        assert(records.dom().contains(ids[i]));
    }
    lemma_parse_sections(header, list, ids, index, body);
    lemma_gathered_records(encoding, header.range, records);
}

/// A number written in `n` bytes at a place is the field there.
pub proof fn lemma_field(bytes: Seq<u8>, at: nat, x: nat, n: nat)
    requires
        stands_at(bytes, at, le_bytes(x, n)),
        n == 2 || n == 4 || n == 8,
        n == 2 ==> x <= u16::MAX,
        n == 4 ==> x <= u32::MAX,
        n == 8 ==> x <= u64::MAX,
    ensures
        field(bytes, at as int, n as int) == x,
{
    lemma_le_bytes_len(x, n);
    reveal_with_fuel(pow, 9);
    assert(pow(256, 2) == 0x1_0000 && pow(256, 4) == 0x1_0000_0000 && pow(256, 8)
        == 0x1_0000_0000_0000_0000);
    lemma_le_round_trip(x, n);
}

/// The fields of a header as it was written.
pub proof fn lemma_read_header(
    bytes: Seq<u8>,
    flags: nat,
    dimension: nat,
    encoding: Encoding,
    kind: IndexKind,
    count: nat,
    stride: nat,
    body_crc: u32,
    range: (F32, F32),
)
    requires
        ({
            let h = header_form(
                flags,
                dimension,
                encoding,
                kind,
                count,
                stride,
                body_crc,
                range,
            );
            stands_at(bytes, 0, h + le_bytes(checksum(h) as nat, 4))
        }),
        flags <= 3,
        dimension <= u32::MAX,
        count <= u64::MAX,
        stride <= u32::MAX,
        kind_fits(kind),
    ensures
        read_header(bytes) matches Ok(header) && {
            &&& header.dimension == if flags % 2 == 1 {
                Some(dimension as usize)
            } else {
                None
            }
            &&& header.has_index == (flags / 2 == 1)
            &&& header.encoding == encoding
            &&& header.range == if encoding == Encoding::Float32 {
                (F32 { bits: 0 }, F32 { bits: 0 })
            } else {
                range
            }
            &&& header.kind_tag == kind_tag(kind)
            &&& kind matches IndexKind::Hnsw(params) ==> header.params == params
            &&& header.count == count
            &&& header.stride == stride
            &&& header.body_crc == body_crc
        },
{
    reveal(read_header);
    let h0 = magic();
    let h1 = h0 + le_bytes(VERSION_MAJOR as nat, 2);
    let h2 = h1 + le_bytes(VERSION_MINOR as nat, 2);
    let h3 = h2 + le_bytes(flags, 4);
    let h4 = h3 + le_bytes(dimension, 4);
    let tags = seq![0u8, encoding_tag(encoding), kind_tag(kind), 0u8];
    let h5 = h4 + tags;
    let h6 = h5 + le_bytes(count, 8);
    let h7 = h6 + le_bytes(stride, 4);
    let h8 = h7 + params_bytes(kind);
    let h9 = h8 + le_bytes(body_crc as nat, 4);
    let h10 = h9 + le_bytes(range.0.bits as nat, 4);
    let h11 = h10 + le_bytes(range.1.bits as nat, 4);
    let h = h11 + zeros(4);
    assert(h == header_form(flags, dimension, encoding, kind, count, stride, body_crc, range));
    lemma_le_bytes_len(VERSION_MAJOR as nat, 2);
    lemma_le_bytes_len(VERSION_MINOR as nat, 2);
    lemma_le_bytes_len(flags, 4);
    lemma_le_bytes_len(dimension, 4);
    lemma_le_bytes_len(count, 8);
    lemma_le_bytes_len(stride, 4);
    lemma_le_bytes_len(body_crc as nat, 4);
    lemma_le_bytes_len(range.0.bits as nat, 4);
    lemma_le_bytes_len(range.1.bits as nat, 4);
    lemma_le_bytes_len(checksum(h) as nat, 4);
    lemma_params_len(kind);
    lemma_stands_at_parts(bytes, 0, h, le_bytes(checksum(h) as nat, 4));
    lemma_stands_at_parts(bytes, 0, h11, zeros(4));
    lemma_stands_at_parts(bytes, 0, h10, le_bytes(range.1.bits as nat, 4));
    lemma_stands_at_parts(bytes, 0, h9, le_bytes(range.0.bits as nat, 4));
    lemma_stands_at_parts(bytes, 0, h8, le_bytes(body_crc as nat, 4));
    lemma_stands_at_parts(bytes, 0, h7, params_bytes(kind));
    lemma_stands_at_parts(bytes, 0, h6, le_bytes(stride, 4));
    lemma_stands_at_parts(bytes, 0, h5, le_bytes(count, 8));
    lemma_stands_at_parts(bytes, 0, h4, tags);
    lemma_stands_at_parts(bytes, 0, h3, le_bytes(dimension, 4));
    lemma_stands_at_parts(bytes, 0, h2, le_bytes(flags, 4));
    lemma_stands_at_parts(bytes, 0, h1, le_bytes(VERSION_MINOR as nat, 2));
    lemma_stands_at_parts(bytes, 0, h0, le_bytes(VERSION_MAJOR as nat, 2));
    assert(bytes.take(4) == magic()) by {
        assert(bytes.subrange(0, 4) =~= bytes.take(4));
    }
    assert(bytes.take(60) == h) by {
        assert(bytes.subrange(0, 60) =~= bytes.take(60));
    }
    lemma_field(bytes, 60, checksum(h) as nat, 4);
    lemma_field(bytes, 4, VERSION_MAJOR as nat, 2);
    lemma_field(bytes, 8, flags, 4);
    lemma_field(bytes, 12, dimension, 4);
    lemma_field(bytes, 20, count, 8);
    lemma_field(bytes, 28, stride, 4);
    lemma_field(bytes, 44, body_crc as nat, 4);
    lemma_field(bytes, 48, range.0.bits as nat, 4);
    lemma_field(bytes, 52, range.1.bits as nat, 4);
    let t = bytes.subrange(16, 20);
    assert(t == tags);
    assert(bytes[17] == t[1] && bytes[18] == t[2]);
    if let IndexKind::Hnsw(params) = kind {
        let a = le_bytes(params.max_neighbors as nat, 4);
        let b = le_bytes(params.ef_construction as nat, 4);
        let c = le_bytes(params.ef_search as nat, 4);
        lemma_le_bytes_len(params.max_neighbors as nat, 4);
        lemma_le_bytes_len(params.ef_construction as nat, 4);
        lemma_le_bytes_len(params.ef_search as nat, 4);
        lemma_stands_at_parts(bytes, 32, a + b, c);
        lemma_stands_at_parts(bytes, 32, a, b);
        lemma_field(bytes, 32, params.max_neighbors as nat, 4);
        lemma_field(bytes, 36, params.ef_construction as nat, 4);
        lemma_field(bytes, 40, params.ef_search as nat, 4);
    }
}

proof fn lemma_params_len(kind: IndexKind)
    ensures
        params_bytes(kind).len() == 12,
{
    if let IndexKind::Hnsw(params) = kind {
        lemma_le_bytes_len(params.max_neighbors as nat, 4);
        lemma_le_bytes_len(params.ef_construction as nat, 4);
        lemma_le_bytes_len(params.ef_search as nat, 4);
    }
}

/// The header of a saved state, and where its body stands.
pub proof fn lemma_saved_header(
    dimension: Option<usize>,
    kind: IndexKind,
    encoding: Encoding,
    records: Map<u64, RecordView>,
    index: Option<IndexView>,
)
    requires
        storable(dimension, kind, records, index),
        file_bytes(dimension, kind, encoding, listed(records), index).len() <= usize::MAX,
    ensures
        ({
            let list = listed(records);
            let bytes = file_bytes(dimension, kind, encoding, list, index);
            let body = body_bytes(encoding, list, index);
            &&& bytes.len() == HEADER_LEN + body.len()
            &&& bytes.skip(HEADER_LEN as int) == body
            &&& read_header(bytes) matches Ok(header) && {
                &&& header.dimension == dimension
                &&& header.has_index == (index is Some)
                &&& header.encoding == encoding
                &&& header.range == encoding_range(encoding, list)
                &&& header.kind_tag == kind_tag(kind)
                &&& kind matches IndexKind::Hnsw(params) ==> header.params == params
                &&& header.count as nat == list.len()
                &&& header.stride as nat == stride_of(dimension, list)
                &&& header.body_crc == checksum(body)
            }
        }),
{
    let list = listed(records);
    let bytes = file_bytes(dimension, kind, encoding, list, index);
    let body = body_bytes(encoding, list, index);
    lemma_listed(records);
    lemma_header_len(dimension, kind, encoding, list, index);
    let h = header_bytes(dimension, kind, encoding, list, index);
    let sealed = h + le_bytes(checksum(h) as nat, 4);
    lemma_le_bytes_len(checksum(h) as nat, 4);
    assert(bytes == sealed + body);
    assert(bytes.subrange(0, 64) =~= sealed);
    assert(bytes.skip(64) =~= body);
    lemma_ids_len(list);
    lemma_read_header(
        bytes,
        flags_of(dimension, index),
        dimension_field(dimension),
        encoding,
        kind,
        list.len(),
        stride_of(dimension, list),
        checksum(body),
        encoding_range(encoding, list),
    );
}

/// A file gives back what was stored in it: the dimension, the kind of index,
/// the encoding, every record and the structure of the graph. At full precision
/// the records come back bit for bit; otherwise only their vectors change, to
/// what quantization leaves of them.
pub proof fn lemma_decode_encode(
    dimension: Option<usize>,
    kind: IndexKind,
    encoding: Encoding,
    records: Map<u64, RecordView>,
    index: Option<IndexView>,
)
    requires
        storable(dimension, kind, records, index),
        file_bytes(dimension, kind, encoding, listed(records), index).len() <= usize::MAX,
    ensures
        parse_file(file_bytes(dimension, kind, encoding, listed(records), index)) == Ok::<
            FileView,
            VectorDbError,
        >(
            FileView {
                dimension,
                index_kind: kind,
                encoding,
                records: stored_records(encoding, records),
                index,
            },
        ),
        encoding == Encoding::Float32 ==> stored_records(encoding, records) == records,
{
    let list = listed(records);
    let bytes = file_bytes(dimension, kind, encoding, list, index);
    let body = body_bytes(encoding, list, index);
    let range = encoding_range(encoding, list);
    let stride = stride_of(dimension, list);
    lemma_listed(records);
    lemma_saved_header(dimension, kind, encoding, records, index);
    let header = read_header(bytes)->Ok_0;
    lemma_parse_body(header, encoding, records, index, body, stride);
    if encoding == Encoding::Float32 {
        assert forall|id: u64| records.dom().contains(id) implies #[trigger] stored_records(
            encoding,
            records,
        )[id] == records[id] by {
            assert(stored_vector(encoding, range, records[id].vector) =~= records[id].vector);
        }
        assert(stored_records(encoding, records) =~= records);
    }
}

/// The ids take eight bytes each.
pub proof fn lemma_ids_len(list: Seq<RecordView>)
    ensures
        joined(list, id_bytes()).len() == 8 * list.len(),
    decreases list.len(),
{
    if list.len() > 0 {
        lemma_ids_len(list.drop_last());
        lemma_le_bytes_len(list.last().id as nat, 8);
    }
}

pub proof fn lemma_header_len(
    dimension: Option<usize>,
    kind: IndexKind,
    encoding: Encoding,
    list: Seq<RecordView>,
    index: Option<IndexView>,
)
    ensures
        header_bytes(dimension, kind, encoding, list, index).len() == 60,
{
    let range = encoding_range(encoding, list);
    lemma_le_bytes_len(VERSION_MAJOR as nat, 2);
    lemma_le_bytes_len(VERSION_MINOR as nat, 2);
    lemma_le_bytes_len(flags_of(dimension, index), 4);
    lemma_le_bytes_len(dimension_field(dimension), 4);
    lemma_le_bytes_len(list.len(), 8);
    lemma_le_bytes_len(stride_of(dimension, list), 4);
    lemma_le_bytes_len(checksum(body_bytes(encoding, list, index)) as nat, 4);
    lemma_le_bytes_len(range.0.bits as nat, 4);
    lemma_le_bytes_len(range.1.bits as nat, 4);
    lemma_params_len(kind);
}

} // verus!
