//! The form of a `.lvdb` file, byte by byte.

use super::format::lemma_listed;
use super::layout::{
    body_bytes, collected, component_form, component_size, encoding_range, field, file_bytes,
    gathered, id_bytes, index_bytes, list_bytes, pair_bytes, parse_file, payload_bytes, read_header,
    stride_of, u32_bytes, u64_bytes, vector_bytes, Header,
};
use super::quantize::{quantized, value_range};
use super::round_trip::{
    index_fits, lemma_body_parts, lemma_field, lemma_ids_len, lemma_saved_header, metadata_fits,
    record_fits, storable, text_fits,
};
use super::wire::{
    joined, le_bytes, le_value, lemma_joined_at, lemma_joined_len, lemma_le_bytes_len,
    lemma_stands_at_parts, stands_at,
};
use crate::db::{Encoding, IndexKind};
use crate::error::VectorDbError;
use crate::float::F32;
use crate::index::IndexView;
use crate::record::{keys_ascending, lemma_insert_membership, RecordView};
use crate::records::{in_order, listed};
use vstd::prelude::*;
use vstd::utf8::encode_utf8;

verus! {

/// The number in four bytes, the least significant first.
pub open spec fn u32_at(bytes: Seq<u8>, at: int) -> int {
    bytes[at] + 0x100 * bytes[at + 1] + 0x1_0000 * bytes[at + 2] + 0x100_0000 * bytes[at + 3]
}

/// The number in eight bytes, the least significant first.
pub open spec fn u64_at(bytes: Seq<u8>, at: int) -> int {
    u32_at(bytes, at) + 0x1_0000_0000 * u32_at(bytes, at + 4)
}

proof fn lemma_value(bytes: Seq<u8>)
    ensures
        bytes.len() == 2 ==> le_value(bytes) == bytes[0] + 0x100 * bytes[1],
        bytes.len() == 4 ==> le_value(bytes) == u32_at(bytes, 0),
        bytes.len() == 8 ==> le_value(bytes) == u64_at(bytes, 0),
{
    reveal_with_fuel(le_value, 9);
    if bytes.len() == 8 {
        let b1 = bytes.skip(1);
        let b2 = b1.skip(1);
        let b3 = b2.skip(1);
        let b4 = b3.skip(1);
        let b5 = b4.skip(1);
        let b6 = b5.skip(1);
        let b7 = b6.skip(1);
        assert(b7.skip(1).len() == 0);
    } else if bytes.len() == 4 {
        let b1 = bytes.skip(1);
        let b2 = b1.skip(1);
        let b3 = b2.skip(1);
        assert(b3.skip(1).len() == 0);
    } else if bytes.len() == 2 {
        assert(bytes.skip(1).skip(1).len() == 0);
    }
}

proof fn lemma_field_bytes(bytes: Seq<u8>, at: int)
    ensures
        0 <= at && at + 2 <= bytes.len() ==> field(bytes, at, 2) == bytes[at] + 0x100 * bytes[at
            + 1],
        0 <= at && at + 4 <= bytes.len() ==> field(bytes, at, 4) == u32_at(bytes, at),
        0 <= at && at + 8 <= bytes.len() ==> field(bytes, at, 8) == u64_at(bytes, at),
{
    if 0 <= at && at + 2 <= bytes.len() {
        lemma_value(bytes.subrange(at, at + 2));
    }
    if 0 <= at && at + 4 <= bytes.len() {
        lemma_value(bytes.subrange(at, at + 4));
    }
    if 0 <= at && at + 8 <= bytes.len() {
        lemma_value(bytes.subrange(at, at + 8));
    }
}

/// Whatever the bytes, a file that is read begins with `LVDB` and the major version
/// one.
pub proof fn lemma_marked(bytes: Seq<u8>)
    requires
        parse_file(bytes) is Ok,
    ensures
        bytes.len() >= 64,
        bytes[0] == 0x4c && bytes[1] == 0x56 && bytes[2] == 0x44 && bytes[3] == 0x42,
        bytes[4] == 1 && bytes[5] == 0,
{
    reveal(read_header);
    lemma_field_bytes(bytes, 4);
    let m = bytes.take(4);
    assert(m[0] == bytes[0] && m[1] == bytes[1] && m[2] == bytes[2] && m[3] == bytes[3]);
}

/// What a header that was read says of the bytes.
proof fn lemma_header_fields(bytes: Seq<u8>, header: Header)
    requires
        read_header(bytes) == Ok::<Header, VectorDbError>(header),
    ensures
        bytes.len() >= 64,
        bytes[0] == 0x4c && bytes[1] == 0x56 && bytes[2] == 0x44 && bytes[3] == 0x42,
        bytes[4] == 1 && bytes[5] == 0,
        u32_at(bytes, 8) % 2 == 1 <==> header.dimension is Some,
        (u32_at(bytes, 8) / 2) % 2 == 1 <==> header.has_index,
        header.dimension matches Some(d) ==> u32_at(bytes, 12) == d,
        bytes[17] == if header.encoding == Encoding::Float32 {
            0u8
        } else {
            1
        },
        bytes[18] == header.kind_tag,
        u64_at(bytes, 20) == header.count,
        u32_at(bytes, 28) == header.stride,
        u32_at(bytes, 32) == header.params.max_neighbors,
        u32_at(bytes, 36) == header.params.ef_construction,
        u32_at(bytes, 40) == header.params.ef_search,
        header.encoding == Encoding::ScalarU8 ==> u32_at(bytes, 48) == header.range.0.bits
            && u32_at(bytes, 52) == header.range.1.bits,
{
    reveal(read_header);
    let m = bytes.take(4);
    assert(m[0] == bytes[0] && m[1] == bytes[1] && m[2] == bytes[2] && m[3] == bytes[3]);
    lemma_field_bytes(bytes, 4);
    lemma_field_bytes(bytes, 8);
    lemma_field_bytes(bytes, 12);
    lemma_field_bytes(bytes, 20);
    lemma_field_bytes(bytes, 28);
    lemma_field_bytes(bytes, 32);
    lemma_field_bytes(bytes, 36);
    lemma_field_bytes(bytes, 40);
    lemma_field_bytes(bytes, 48);
    lemma_field_bytes(bytes, 52);
}

/// The header of a saved state: the mark and the major version, whether a dimension
/// is fixed and a graph stored, the dimension, the encoding, the kind of index, the
/// number of records, the components per vector, the parameters of a graph and the
/// range of quantized components, each in its place.
pub proof fn lemma_header_form(
    dimension: Option<usize>,
    kind: IndexKind,
    encoding: Encoding,
    records: Map<u64, RecordView>,
    index: Option<IndexView>,
)
    requires
        storable(dimension, kind, records, index),
        file_bytes(dimension, kind, encoding, listed(records), index).len() <= usize::MAX,
    ensures
        ({
            let bytes = file_bytes(dimension, kind, encoding, listed(records), index);
            &&& bytes[0] == 0x4c && bytes[1] == 0x56 && bytes[2] == 0x44 && bytes[3] == 0x42
            &&& bytes[4] == 1 && bytes[5] == 0
            &&& u32_at(bytes, 8) % 2 == 1 <==> dimension is Some
            &&& (u32_at(bytes, 8) / 2) % 2 == 1 <==> index is Some
            &&& dimension matches Some(d) ==> u32_at(bytes, 12) == d
            &&& bytes[17] == if encoding == Encoding::Float32 {
                0u8
            } else {
                1
            }
            &&& bytes[18] == if kind == IndexKind::Exact {
                0u8
            } else {
                1
            }
            &&& u64_at(bytes, 20) == records.len()
            &&& forall|id: u64| #[trigger]
                records.dom().contains(id) ==> u32_at(bytes, 28) == records[id].vector.len()
            &&& kind matches IndexKind::Hnsw(params) ==> {
                &&& u32_at(bytes, 32) == params.max_neighbors
                &&& u32_at(bytes, 36) == params.ef_construction
                &&& u32_at(bytes, 40) == params.ef_search
            }
            &&& encoding == Encoding::ScalarU8 ==> {
                &&& u32_at(bytes, 48) == value_range(listed(records)).0.bits
                &&& u32_at(bytes, 52) == value_range(listed(records)).1.bits
            }
        }),
{
    let list = listed(records);
    let bytes = file_bytes(dimension, kind, encoding, list, index);
    lemma_listed(records);
    lemma_saved_header(dimension, kind, encoding, records, index);
    lemma_header_fields(bytes, read_header(bytes)->Ok_0);
    assert forall|id: u64| #[trigger] records.dom().contains(id) implies u32_at(bytes, 28)
        == records[id].vector.len() by {
        assert(record_fits(records[id], stride_of(dimension, list)));
    }
}

/// The sections behind the header: the ids of the records in ascending order, eight
/// bytes each, and then their vectors, one after the other, each component in four
/// bytes (its bit pattern) or one (what it is quantized to).
pub proof fn lemma_section_form(
    dimension: Option<usize>,
    kind: IndexKind,
    encoding: Encoding,
    records: Map<u64, RecordView>,
    index: Option<IndexView>,
    i: int,
    j: int,
)
    requires
        storable(dimension, kind, records, index),
        file_bytes(dimension, kind, encoding, listed(records), index).len() <= usize::MAX,
        0 <= i < records.len(),
        0 <= j < records[in_order(records.dom())[i]].vector.len(),
    ensures
        ({
            let bytes = file_bytes(dimension, kind, encoding, listed(records), index);
            let (n, id) = (records.len(), in_order(records.dom())[i]);
            let v = records[id].vector;
            let at = i * v.len() + j;
            &&& u64_at(bytes, 64 + 8 * i) == id
            &&& encoding == Encoding::Float32 ==> u32_at(bytes, 64 + 8 * n + 4 * at) == v[j].bits
            &&& encoding == Encoding::ScalarU8 ==> {
                let (min, max) = value_range(listed(records));
                bytes[64 + 8 * n + at] == quantized(v[j], min, max)
            }
        }),
{
    let list = listed(records);
    let bytes = file_bytes(dimension, kind, encoding, list, index);
    let body = body_bytes(encoding, list, index);
    let range = encoding_range(encoding, list);
    let n = list.len();
    lemma_listed(records);
    lemma_saved_header(dimension, kind, encoding, records, index);
    lemma_body_parts(encoding, list, index, body);
    lemma_ids_len(list);
    let (id, r) = (in_order(records.dom())[i], list[i]);
    let v = r.vector;
    let d = v.len();
    assert(records.dom().contains(id));
    // The ids.
    assert forall|k: int| 0 <= k < list.len() implies (id_bytes())(#[trigger] list[k]).len()
        == 8 by {
        lemma_le_bytes_len(list[k].id as nat, 8);
    }
    lemma_joined_len(list, id_bytes(), 8);
    lemma_joined_at(list, id_bytes(), 8, body, 0, i);
    lemma_field(body, (8 * i) as nat, r.id as nat, 8);
    lemma_shifted(bytes, body, 8 * i, 8);
    lemma_field_bytes(bytes, 64 + 8 * i);
    // The vectors.
    let size = component_size(encoding);
    let form = component_form(encoding, range);
    let width = d * size;
    assert forall|x: F32| (#[trigger] form(x)).len() == size by {
        lemma_le_bytes_len(x.bits as nat, 4);
    }
    assert forall|k: int| 0 <= k < list.len() implies (vector_bytes(encoding, range))(
        #[trigger] list[k],
    ).len() == width by {
        assert(records.dom().contains(in_order(records.dom())[k]));
        assert(record_fits(list[k], stride_of(dimension, list)));
        lemma_joined_len(list[k].vector, form, size);
    }
    let start = 8 * n;
    lemma_joined_at(list, vector_bytes(encoding, range), width, body, start, i);
    let row = (start + i * width) as nat;
    assert(stands_at(body, row, joined(v, form)));
    lemma_joined_at(v, form, size, body, row, j);
    let cell = (row + j * size) as nat;
    let at = i * d + j;
    assert(i * width + j * size == at * size) by (nonlinear_arith)
        requires
            width == d * size,
            at == i * d + j,
    ;
    assert(at >= 0) by (nonlinear_arith)
        requires
            at == i * d + j,
            i >= 0,
            j >= 0,
            d >= 0,
    ;
    match encoding {
        Encoding::Float32 => {
            assert(cell == start + 4 * at);
            lemma_le_bytes_len(v[j].bits as nat, 4);
            lemma_field(body, cell, v[j].bits as nat, 4);
            lemma_shifted(bytes, body, cell as int, 4);
            lemma_field_bytes(bytes, 64 + cell as int);
        },
        Encoding::ScalarU8 => {
            assert(cell == start + at);
            let piece = body.subrange(cell as int, cell as int + 1);
            assert(piece[0] == body[cell as int]);
            assert(bytes.skip(64)[cell as int] == bytes[64 + cell as int]);
        },
    }
}

proof fn lemma_shifted(bytes: Seq<u8>, body: Seq<u8>, at: int, n: int)
    requires
        bytes.len() >= 64,
        bytes.skip(64) == body,
        0 <= at,
        0 <= n,
        at + n <= body.len(),
    ensures
        field(bytes, 64 + at, n) == field(body, at, n),
{
    assert(bytes.subrange(64 + at, 64 + at + n) =~= body.subrange(at, at + n));
}

/// Records put together from sections: under each id stands the last one with it, as
/// the sections have it, and nothing stands under any other id.
pub proof fn lemma_gathered(
    ids: Seq<u64>,
    vectors: Seq<Seq<F32>>,
    payloads: Seq<(Seq<char>, Seq<(Seq<char>, Seq<char>)>)>,
    i: int,
    id: u64,
)
    requires
        0 <= i < payloads.len(),
        forall|j: int| i < j < payloads.len() ==> #[trigger] ids[j] != ids[i],
    ensures
        ({
            let all = gathered(ids, vectors, payloads);
            &&& all.dom().contains(ids[i])
            &&& all[ids[i]] == (RecordView {
                id: ids[i],
                vector: vectors[i],
                text: payloads[i].0,
                metadata: payloads[i].1,
            })
            &&& all.dom().contains(id) ==> exists|j: int|
                0 <= j < payloads.len() && #[trigger] ids[j] == id
        }),
    decreases payloads.len(),
{
    let n = payloads.len() - 1;
    let front = payloads.drop_last();
    if i < n {
        lemma_gathered(ids, vectors, front, i, id);
        assert(ids[n] != ids[i]);
        assert(front[i] == payloads[i]);
        if gathered(ids, vectors, payloads).dom().contains(id) && id != ids[n] {
            let j = choose|j: int| 0 <= j < front.len() && #[trigger] ids[j] == id;
            assert(ids[j] == id);
        }
    } else {
        lemma_gathered_ids(ids, vectors, payloads, id);
    }
}

proof fn lemma_gathered_ids(
    ids: Seq<u64>,
    vectors: Seq<Seq<F32>>,
    payloads: Seq<(Seq<char>, Seq<(Seq<char>, Seq<char>)>)>,
    id: u64,
)
    ensures
        gathered(ids, vectors, payloads).dom().contains(id) ==> exists|j: int|
            0 <= j < payloads.len() && #[trigger] ids[j] == id,
    decreases payloads.len(),
{
    if payloads.len() > 0 {
        let n = payloads.len() - 1;
        lemma_gathered_ids(ids, vectors, payloads.drop_last(), id);
        if id == ids[n] {
            assert(ids[n] == id);
        }
    }
}

/// Metadata put together from the pairs of a file: a pair is among it exactly where
/// it is the last one with its key.
pub proof fn lemma_collected(
    pairs: Seq<(Seq<char>, Seq<char>)>,
    key: Seq<char>,
    value: Seq<char>,
)
    ensures
        keys_ascending(collected(pairs)),
        collected(pairs).contains((key, value)) <==> exists|i: int|
            0 <= i < pairs.len() && #[trigger] pairs[i] == (key, value) && forall|j: int|
                i < j < pairs.len() ==> (#[trigger] pairs[j]).0 != key,
    decreases pairs.len(),
{
    if pairs.len() > 0 {
        let front = pairs.drop_last();
        let last = pairs.last();
        let n = pairs.len() - 1;
        assert(pairs[n] == last);
        lemma_collected(front, key, value);
        lemma_insert_membership(collected(front), last.0, last.1, key, value);
        if last.0 == key {
            if last.1 == value {
                assert(pairs[n] == (key, value));
            }
        } else {
            if exists|i: int|
                0 <= i < front.len() && #[trigger] front[i] == (key, value) && forall|j: int|
                    i < j < front.len() ==> (#[trigger] front[j]).0 != key {
                let i = choose|i: int|
                    0 <= i < front.len() && #[trigger] front[i] == (key, value) && forall|j: int|
                        i < j < front.len() ==> (#[trigger] front[j]).0 != key;
                assert(pairs[i] == (key, value));
                assert forall|j: int| i < j < pairs.len() implies (
                #[trigger] pairs[j]).0 != key by {
                    if j < n {
                        assert(pairs[j] == front[j]);
                    }
                }
            }
            if exists|i: int|
                0 <= i < pairs.len() && #[trigger] pairs[i] == (key, value) && forall|j: int|
                    i < j < pairs.len() ==> (#[trigger] pairs[j]).0 != key {
                let i = choose|i: int|
                    0 <= i < pairs.len() && #[trigger] pairs[i] == (key, value) && forall|j: int|
                        i < j < pairs.len() ==> (#[trigger] pairs[j]).0 != key;
                assert(i < n);
                assert(front[i] == (key, value));
                assert forall|j: int| i < j < front.len() implies (
                #[trigger] front[j]).0 != key by {
                    assert(pairs[j] == front[j]);
                }
            }
        }
    } else {
        assert(collected(pairs) =~= Seq::empty());
    }
}

/// The payload of the first record stands behind the vectors: the length of its text
/// in bytes, the text, and the number of its pairs.
pub proof fn lemma_payload_form(
    dimension: Option<usize>,
    kind: IndexKind,
    encoding: Encoding,
    records: Map<u64, RecordView>,
    index: Option<IndexView>,
)
    requires
        storable(dimension, kind, records, index),
        file_bytes(dimension, kind, encoding, listed(records), index).len() <= usize::MAX,
        records.len() > 0,
    ensures
        ({
            let bytes = file_bytes(dimension, kind, encoding, listed(records), index);
            let r = records[in_order(records.dom())[0]];
            let size: int = if encoding == Encoding::Float32 {
                4
            } else {
                1
            };
            let at = 64 + 8 * records.len() + records.len() * (r.vector.len() * size);
            let text = encode_utf8(r.text);
            &&& u32_at(bytes, at) == text.len()
            &&& bytes.subrange(at + 4, at + 4 + text.len()) == text
            &&& u32_at(bytes, at + 4 + text.len()) == r.metadata.len()
        }),
{
    let list = listed(records);
    let bytes = file_bytes(dimension, kind, encoding, list, index);
    let body = body_bytes(encoding, list, index);
    let range = encoding_range(encoding, list);
    let n = list.len();
    lemma_listed(records);
    lemma_saved_header(dimension, kind, encoding, records, index);
    lemma_body_parts(encoding, list, index, body);
    lemma_ids_len(list);
    let r = list[0];
    assert(records.dom().contains(in_order(records.dom())[0]));
    let d = r.vector.len();
    let size = component_size(encoding);
    let form = component_form(encoding, range);
    let width = d * size;
    assert forall|x: F32| (#[trigger] form(x)).len() == size by {
        lemma_le_bytes_len(x.bits as nat, 4);
    }
    assert forall|k: int| 0 <= k < list.len() implies (vector_bytes(encoding, range))(
        #[trigger] list[k],
    ).len() == width by {
        assert(records.dom().contains(in_order(records.dom())[k]));
        assert(record_fits(list[k], stride_of(dimension, list)));
        lemma_joined_len(list[k].vector, form, size);
    }
    lemma_joined_len(list, vector_bytes(encoding, range), width);
    assert forall|k: int| 0 <= k < list.len() implies (id_bytes())(#[trigger] list[k]).len()
        == 8 by {
        lemma_le_bytes_len(list[k].id as nat, 8);
    }
    lemma_joined_len(list, id_bytes(), 8);
    let at = (8 * n + n * width) as nat;
    assert(record_fits(r, stride_of(dimension, list)));
    assert(stands_at(body, at, joined(list, payload_bytes())));
    lemma_first_payload(bytes, body, at, list);
    assert(n * width == records.len() * (d * size));
}

proof fn lemma_first_payload(bytes: Seq<u8>, body: Seq<u8>, at: nat, list: Seq<RecordView>)
    requires
        bytes.len() >= 64,
        bytes.skip(64) == body,
        list.len() > 0,
        stands_at(body, at, joined(list, payload_bytes())),
        text_fits(list[0].text),
        metadata_fits(list[0].metadata),
    ensures
        ({
            let text = encode_utf8(list[0].text);
            let from = 64 + at as int;
            &&& u32_at(bytes, from) == text.len()
            &&& bytes.subrange(from + 4, from + 4 + text.len()) == text
            &&& u32_at(bytes, from + 4 + text.len()) == list[0].metadata.len()
        }),
{
    let r = list[0];
    let all = joined(list, payload_bytes());
    lemma_joined_first(list, payload_bytes());
    let rest = all.skip((payload_bytes())(r).len() as int);
    assert(all =~= (payload_bytes())(r) + rest);
    lemma_stands_at_parts(body, at, (payload_bytes())(r), rest);
    let text = encode_utf8(r.text);
    let head = le_bytes(text.len(), 4);
    let count = le_bytes(r.metadata.len(), 4);
    let pairs = joined(r.metadata, pair_bytes());
    lemma_le_bytes_len(text.len(), 4);
    lemma_le_bytes_len(r.metadata.len(), 4);
    assert((payload_bytes())(r) == (head + text) + (count + pairs));
    lemma_stands_at_parts(body, at, head + text, count + pairs);
    lemma_stands_at_parts(body, at, head, text);
    lemma_stands_at_parts(body, at + 4 + text.len(), count, pairs);
    reveal(text_fits);
    reveal(metadata_fits);
    lemma_field(body, at, text.len(), 4);
    lemma_field(body, at + 4 + text.len(), r.metadata.len(), 4);
    lemma_shifted(bytes, body, at as int, 4);
    lemma_shifted(bytes, body, (at + 4 + text.len()) as int, 4);
    lemma_field_bytes(bytes, 64 + at as int);
    lemma_field_bytes(bytes, (64 + at + 4 + text.len()) as int);
    let from = (at + 4) as int;
    assert(bytes.subrange(64 + from, 64 + from + text.len()) =~= body.subrange(
        from,
        from + text.len(),
    ));
}

proof fn lemma_joined_first<T>(items: Seq<T>, bytes: spec_fn(T) -> Seq<u8>)
    requires
        items.len() > 0,
    ensures
        bytes(items[0]).len() <= joined(items, bytes).len(),
        joined(items, bytes).take(bytes(items[0]).len() as int) == bytes(items[0]),
    decreases items.len(),
{
    let front = items.drop_last();
    let first = bytes(items[0]);
    if items.len() == 1 {
        assert(front =~= Seq::empty());
        assert(joined(items, bytes) =~= first);
        assert(joined(items, bytes).take(first.len() as int) =~= first);
    } else {
        lemma_joined_first(front, bytes);
        assert(front[0] == items[0]);
        assert(joined(items, bytes).take(first.len() as int) =~= joined(front, bytes).take(
            first.len() as int,
        ));
    }
}

/// The structure of a graph stands at the end: whether there is an entry and which,
/// the number of nodes, their ids, and for each node in turn the number of its links
/// and the links; here as far as the number of links of the first node.
pub proof fn lemma_index_form(
    dimension: Option<usize>,
    kind: IndexKind,
    encoding: Encoding,
    records: Map<u64, RecordView>,
    index: IndexView,
    i: int,
)
    requires
        storable(dimension, kind, records, Some(index)),
        file_bytes(dimension, kind, encoding, listed(records), Some(index)).len() <= usize::MAX,
        0 <= i < index.node_ids.len(),
    ensures
        ({
            let bytes = file_bytes(dimension, kind, encoding, listed(records), Some(index));
            let at = bytes.len() - index_bytes(index).len();
            let n = index.node_ids.len();
            &&& bytes[at] == if index.entry is Some {
                1u8
            } else {
                0
            }
            &&& index.entry matches Some(e) ==> u32_at(bytes, at + 1) == e
            &&& u32_at(bytes, at + 5) == n
            &&& u64_at(bytes, at + 9 + 8 * i) == index.node_ids[i]
            &&& u32_at(bytes, at + 9 + 8 * n) == index.neighbors[0].len()
        }),
{
    let list = listed(records);
    let bytes = file_bytes(dimension, kind, encoding, list, Some(index));
    let body = body_bytes(encoding, list, Some(index));
    lemma_listed(records);
    lemma_saved_header(dimension, kind, encoding, records, Some(index));
    lemma_body_parts(encoding, list, Some(index), body);
    let at = (body.len() - index_bytes(index).len()) as nat;
    assert(stands_at(body, at, index_bytes(index)));
    lemma_index_fields(bytes, body, at, index, i);
}

proof fn lemma_index_fields(bytes: Seq<u8>, body: Seq<u8>, at: nat, index: IndexView, i: int)
    requires
        bytes.len() >= 64,
        bytes.skip(64) == body,
        stands_at(body, at, index_bytes(index)),
        index_fits(index),
        0 <= i < index.node_ids.len(),
    ensures
        ({
            let from = 64 + at as int;
            let n = index.node_ids.len();
            &&& bytes[from] == if index.entry is Some {
                1u8
            } else {
                0
            }
            &&& index.entry matches Some(e) ==> u32_at(bytes, from + 1) == e
            &&& u32_at(bytes, from + 5) == n
            &&& u64_at(bytes, from + 9 + 8 * i) == index.node_ids[i]
            &&& u32_at(bytes, from + 9 + 8 * n) == index.neighbors[0].len()
        }),
{
    reveal(index_bytes);
    reveal(index_fits);
    let n = index.node_ids.len();
    let (flag, entry): (u8, nat) = match index.entry {
        Some(e) => (1, e as nat),
        None => (0, 0),
    };
    let a = seq![flag];
    let b = le_bytes(entry, 4);
    let c = le_bytes(n, 4);
    let d = joined(index.node_ids, u64_bytes());
    let e = joined(index.neighbors, list_bytes());
    lemma_le_bytes_len(entry, 4);
    lemma_le_bytes_len(n, 4);
    assert(index_bytes(index) == a + b + c + d + e);
    lemma_stands_at_parts(body, at, a + b + c + d, e);
    lemma_stands_at_parts(body, at, a + b + c, d);
    lemma_stands_at_parts(body, at, a + b, c);
    lemma_stands_at_parts(body, at, a, b);
    assert(body.subrange(at as int, (at + 1) as int)[0] == body[at as int]);
    assert(bytes.skip(64)[at as int] == bytes[64 + at as int]);
    lemma_field(body, at + 1, entry, 4);
    lemma_field(body, at + 5, n, 4);
    lemma_shifted(bytes, body, (at + 1) as int, 4);
    lemma_shifted(bytes, body, (at + 5) as int, 4);
    lemma_field_bytes(bytes, (64 + at + 1) as int);
    lemma_field_bytes(bytes, (64 + at + 5) as int);
    // The ids.
    assert forall|k: int| 0 <= k < n implies (u64_bytes())(
        #[trigger] index.node_ids[k],
    ).len() == 8 by {
        lemma_le_bytes_len(index.node_ids[k] as nat, 8);
    }
    lemma_joined_len(index.node_ids, u64_bytes(), 8);
    lemma_joined_at(index.node_ids, u64_bytes(), 8, body, at + 9, i);
    let cell = (at + 9 + 8 * i) as nat;
    lemma_field(body, cell, index.node_ids[i] as nat, 8);
    lemma_le_bytes_len(index.node_ids[i] as nat, 8);
    lemma_shifted(bytes, body, cell as int, 8);
    lemma_field_bytes(bytes, 64 + cell as int);
    // The first list.
    let first = index.neighbors[0];
    lemma_joined_first(index.neighbors, list_bytes());
    let piece = (list_bytes())(first);
    let rest = e.skip(piece.len() as int);
    assert(e =~= piece + rest);
    let place = (at + 9 + 8 * n) as nat;
    lemma_stands_at_parts(body, place, piece, rest);
    let count = le_bytes(first.len(), 4);
    lemma_le_bytes_len(first.len(), 4);
    lemma_stands_at_parts(body, place, count, joined(first, u32_bytes()));
    lemma_field(body, place, first.len(), 4);
    lemma_shifted(bytes, body, place as int, 4);
    lemma_field_bytes(bytes, 64 + place as int);
}

} // verus!
