//! A file that was cut short is never taken for a whole one.

use super::format::lemma_listed;
use super::integrity::lemma_same_header;
use super::layout::{
    body_bytes, encoding_range, file_bytes, id_bytes, index_bytes, parse_body, parse_file,
    parse_index, payload_bytes, read_component, read_header, read_list, read_pair, read_payload,
    read_u32, read_u64, read_vector, vector_bytes, Header, HEADER_LEN,
};
use super::round_trip::{
    lemma_body_parts, lemma_parse_index, lemma_saved_header, lemma_section_ids,
    lemma_section_payloads, lemma_section_vectors, record_fits, storable,
};
use super::wire::{joined, parse_many, parse_string, parse_take, parse_u32, parse_u8, Reading};
use crate::db::{Encoding, IndexKind};
use crate::error::VectorDbError;
use crate::float::F32;
use crate::index::IndexView;
use crate::record::RecordView;
use crate::records::{in_order, listed};
use vstd::prelude::*;

verus! {

/// What a reader gets from the first `k` bytes, ending within them, it gets
/// from all of them; and a refusal is always one of a corrupt file.
pub open spec fn steady_at<T>(
    item: spec_fn(Seq<u8>, nat) -> Reading<T>,
    buf: Seq<u8>,
    k: int,
    pos: nat,
) -> bool {
    &&& item(buf.take(k), pos) matches Ok((value, end)) ==> end <= k && item(buf, pos) == Ok::<
        (T, nat),
        VectorDbError,
    >((value, end))
    &&& item(buf.take(k), pos) matches Err(e) ==> e is Corrupt
}

/// A reader that is steady wherever it starts within the first `k` bytes.
pub open spec fn steady<T>(
    item: spec_fn(Seq<u8>, nat) -> Reading<T>,
    buf: Seq<u8>,
    k: int,
) -> bool {
    forall|pos: nat| pos <= k ==> #[trigger] steady_at(item, buf, k, pos)
}

proof fn lemma_take_steady(buf: Seq<u8>, k: int, pos: nat, n: nat)
    requires
        0 <= k <= buf.len(),
    ensures
        parse_take(buf.take(k), pos, n) matches Ok((value, end)) ==> end <= k && parse_take(
            buf,
            pos,
            n,
        ) == Ok::<(Seq<u8>, nat), VectorDbError>((value, end)),
        parse_take(buf.take(k), pos, n) matches Err(e) ==> e is Corrupt,
{
    if pos + n <= k {
        assert(buf.take(k).subrange(pos as int, (pos + n) as int) =~= buf.subrange(
            pos as int,
            (pos + n) as int,
        ));
    }
}

/// Rows are read as steadily as their items.
proof fn lemma_many_steady<T>(
    item: spec_fn(Seq<u8>, nat) -> Reading<T>,
    buf: Seq<u8>,
    k: int,
    pos: nat,
    n: nat,
)
    requires
        0 <= k <= buf.len(),
        pos <= k,
        steady(item, buf, k),
    ensures
        parse_many(item, buf.take(k), pos, n) matches Ok((value, end)) ==> end <= k && parse_many(
            item,
            buf,
            pos,
            n,
        ) == Ok::<(Seq<T>, nat), VectorDbError>((value, end)),
        parse_many(item, buf.take(k), pos, n) matches Err(e) ==> e is Corrupt,
    decreases n,
{
    reveal(parse_many);
    if n > 0 {
        lemma_many_steady(item, buf, k, pos, (n - 1) as nat);
        if let Ok((_, start)) = parse_many(item, buf.take(k), pos, (n - 1) as nat) {
            assert(steady_at(item, buf, k, start));
        }
    }
}

proof fn lemma_numbers_steady(buf: Seq<u8>, k: int)
    requires
        0 <= k <= buf.len(),
    ensures
        steady(read_u64(), buf, k),
        steady(read_u32(), buf, k),
        forall|pos: nat|
            #![trigger parse_u8(buf.take(k), pos)]
            {
                &&& parse_u8(buf.take(k), pos) matches Ok((value, end)) ==> end <= k && parse_u8(
                    buf,
                    pos,
                ) == Ok::<(u8, nat), VectorDbError>((value, end))
                &&& parse_u8(buf.take(k), pos) matches Err(e) ==> e is Corrupt
            },
{
    assert forall|pos: nat| pos <= k implies #[trigger] steady_at(read_u64(), buf, k, pos) by {
        lemma_take_steady(buf, k, pos, 8);
    }
    assert forall|pos: nat| pos <= k implies #[trigger] steady_at(read_u32(), buf, k, pos) by {
        lemma_take_steady(buf, k, pos, 4);
    }
    assert forall|pos: nat|
        #![trigger parse_u8(buf.take(k), pos)]
        {
            &&& parse_u8(buf.take(k), pos) matches Ok((value, end)) ==> end <= k && parse_u8(
                buf,
                pos,
            ) == Ok::<(u8, nat), VectorDbError>((value, end))
            &&& parse_u8(buf.take(k), pos) matches Err(e) ==> e is Corrupt
        } by {
        lemma_take_steady(buf, k, pos, 1);
    }
}

proof fn lemma_component_steady(encoding: Encoding, range: (F32, F32), buf: Seq<u8>, k: int)
    requires
        0 <= k <= buf.len(),
    ensures
        steady(read_component(encoding, range), buf, k),
{
    let item = read_component(encoding, range);
    assert forall|pos: nat| pos <= k implies #[trigger] steady_at(item, buf, k, pos) by {
        lemma_take_steady(buf, k, pos, 4);
        lemma_take_steady(buf, k, pos, 1);
    }
}

proof fn lemma_vector_steady(
    encoding: Encoding,
    range: (F32, F32),
    stride: nat,
    buf: Seq<u8>,
    k: int,
)
    requires
        0 <= k <= buf.len(),
    ensures
        steady(read_vector(encoding, range, stride), buf, k),
{
    let item = read_vector(encoding, range, stride);
    lemma_component_steady(encoding, range, buf, k);
    assert forall|pos: nat| pos <= k implies #[trigger] steady_at(item, buf, k, pos) by {
        lemma_many_steady(read_component(encoding, range), buf, k, pos, stride);
    }
}

proof fn lemma_string_steady(buf: Seq<u8>, k: int, pos: nat)
    requires
        0 <= k <= buf.len(),
    ensures
        parse_string(buf.take(k), pos) matches Ok((value, end)) ==> end <= k && parse_string(
            buf,
            pos,
        ) == Ok::<(Seq<char>, nat), VectorDbError>((value, end)),
        parse_string(buf.take(k), pos) matches Err(e) ==> e is Corrupt,
{
    lemma_take_steady(buf, k, pos, 4);
    if let Ok((len, start)) = parse_u32(buf.take(k), pos) {
        lemma_take_steady(buf, k, start, len as nat);
    }
}

proof fn lemma_pair_steady(buf: Seq<u8>, k: int)
    requires
        0 <= k <= buf.len(),
    ensures
        steady(read_pair(), buf, k),
{
    assert forall|pos: nat| pos <= k implies #[trigger] steady_at(read_pair(), buf, k, pos) by {
        lemma_string_steady(buf, k, pos);
        if let Ok((_, middle)) = parse_string(buf.take(k), pos) {
            lemma_string_steady(buf, k, middle);
        }
    }
}

proof fn lemma_payload_steady(buf: Seq<u8>, k: int)
    requires
        0 <= k <= buf.len(),
    ensures
        steady(read_payload(), buf, k),
{
    lemma_pair_steady(buf, k);
    assert forall|pos: nat| pos <= k implies #[trigger] steady_at(read_payload(), buf, k, pos) by {
        lemma_string_steady(buf, k, pos);
        if let Ok((_, p)) = parse_string(buf.take(k), pos) {
            lemma_take_steady(buf, k, p, 4);
            if let Ok((n, q)) = parse_u32(buf.take(k), p) {
                lemma_many_steady(read_pair(), buf, k, q, n as nat);
            }
        }
    }
}

proof fn lemma_list_steady(buf: Seq<u8>, k: int)
    requires
        0 <= k <= buf.len(),
    ensures
        steady(read_list(), buf, k),
{
    lemma_numbers_steady(buf, k);
    assert forall|pos: nat| pos <= k implies #[trigger] steady_at(read_list(), buf, k, pos) by {
        lemma_take_steady(buf, k, pos, 4);
        if let Ok((n, p)) = parse_u32(buf.take(k), pos) {
            lemma_many_steady(read_u32(), buf, k, p, n as nat);
        }
    }
}

proof fn lemma_index_steady(buf: Seq<u8>, k: int, pos: nat)
    requires
        0 <= k <= buf.len(),
        pos <= k,
    ensures
        parse_index(buf.take(k), pos) matches Ok((value, end)) ==> end <= k && parse_index(
            buf,
            pos,
        ) == Ok::<(IndexView, nat), VectorDbError>((value, end)),
        parse_index(buf.take(k), pos) matches Err(e) ==> e is Corrupt,
{
    reveal(parse_index);
    let cut = buf.take(k);
    lemma_numbers_steady(buf, k);
    lemma_list_steady(buf, k);
    if let Ok((_, p)) = parse_u8(cut, pos) {
        lemma_take_steady(buf, k, p, 4);
        if let Ok((_, q)) = parse_u32(cut, p) {
            lemma_take_steady(buf, k, q, 4);
            if let Ok((n, r)) = parse_u32(cut, q) {
                lemma_many_steady(read_u64(), buf, k, r, n as nat);
                if let Ok((_, s)) = parse_many(read_u64(), cut, r, n as nat) {
                    lemma_many_steady(read_list(), buf, k, s, n as nat);
                }
            }
        }
    }
}

/// A body that was cut short is refused: some section of it ends too early.
proof fn lemma_cut_body(
    header: Header,
    list: Seq<RecordView>,
    ids: Seq<u64>,
    index: Option<IndexView>,
    body: Seq<u8>,
    k: int,
)
    requires
        body.len() <= usize::MAX,
        body == body_bytes(header.encoding, list, index),
        header.range == encoding_range(header.encoding, list),
        header.count as nat == list.len(),
        header.has_index == (index is Some),
        ids.len() == list.len(),
        forall|i: int| 0 <= i < list.len() ==> (#[trigger] list[i]).id == ids[i],
        forall|i: int|
            0 <= i < list.len() ==> record_fits(#[trigger] list[i], header.stride as nat),
        index matches Some(index) ==> super::round_trip::index_fits(index),
        0 <= k < body.len(),
    ensures
        parse_body(header, body.take(k)) matches Err(VectorDbError::Corrupt(_)),
{
    let n = list.len();
    let cut = body.take(k);
    let a = joined(list, id_bytes()).len();
    let b = joined(list, vector_bytes(header.encoding, header.range)).len();
    let c = joined(list, payload_bytes()).len();
    let item = read_vector(header.encoding, header.range, header.stride as nat);
    lemma_body_parts(header.encoding, list, index, body);
    lemma_section_ids(list, ids, body, 0);
    lemma_section_vectors(
        header.encoding,
        header.range,
        list,
        header.stride as nat,
        body,
        a,
    );
    lemma_section_payloads(list, body, a + b);
    lemma_numbers_steady(body, k);
    lemma_vector_steady(header.encoding, header.range, header.stride as nat, body, k);
    lemma_payload_steady(body, k);
    lemma_many_steady(read_u64(), body, k, 0, n);
    if let Ok((_, p)) = parse_many(read_u64(), cut, 0, n) {
        lemma_many_steady(item, body, k, p, n);
        if let Ok((_, q)) = parse_many(item, cut, p, n) {
            lemma_many_steady(read_payload(), body, k, q, n);
            if let Ok((_, r)) = parse_many(read_payload(), cut, q, n) {
                assert(r == a + b + c);
                match index {
                    Some(index) => {
                        lemma_parse_index(index, body, r);
                        lemma_index_steady(body, k, r);
                        assert(body.len() == r + index_bytes(index).len());
                    },
                    None => {
                        assert(body.len() == r);
                    },
                }
            }
        }
    }
}

/// A saved file of which anything is missing at the end is refused as corrupt,
/// wherever it was cut.
pub proof fn lemma_truncation_detected(
    dimension: Option<usize>,
    kind: IndexKind,
    encoding: Encoding,
    records: Map<u64, RecordView>,
    index: Option<IndexView>,
    k: int,
)
    requires
        storable(dimension, kind, records, index),
        file_bytes(dimension, kind, encoding, listed(records), index).len() <= usize::MAX,
        0 <= k < file_bytes(dimension, kind, encoding, listed(records), index).len(),
    ensures
        parse_file(
            file_bytes(dimension, kind, encoding, listed(records), index).take(k),
        ) matches Err(VectorDbError::Corrupt(_)),
{
    let list = listed(records);
    let ids = in_order(records.dom());
    let bytes = file_bytes(dimension, kind, encoding, list, index);
    let body = body_bytes(encoding, list, index);
    let cut = bytes.take(k);
    if k < HEADER_LEN {
        reveal(read_header);
    } else {
        lemma_saved_header(dimension, kind, encoding, records, index);
        lemma_same_header(bytes, cut);
        let header = read_header(bytes)->Ok_0;
        let m = k - HEADER_LEN;
        assert(cut.skip(HEADER_LEN as int) =~= body.take(m));
        lemma_listed(records);
        assert forall|i: int| 0 <= i < list.len() implies (#[trigger] list[i]).id == ids[i]
            && record_fits(list[i], header.stride as nat) by {
            assert(records.dom().contains(ids[i]));
        }
        lemma_cut_body(header, list, ids, index, body, m);
    }
}

} // verus!
