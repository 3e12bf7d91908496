//! What saving and loading promise.

use crate::consistency::{
    consistent, lemma_loaded_consistent, lemma_no_dimension, lemma_rebuild_consistent, record_fits,
};
use crate::db::{assembled, rebuilt, saved, searched, vetted, DbView, Encoding, IndexKind};
use crate::error::VectorDbError;
use crate::exactness::lemma_search_exact;
use crate::float::F32;
use crate::index::hnsw::{
    lemma_pack_graph, names_records, node_entries, node_vectors, pack_graph, restore, unpack_graph,
};
use crate::index::model::{restored, IndexModel};
use crate::index::IndexView;
use crate::mmap::{mapped_component, mapped_records, mapped_vector};
use crate::query::exact_hits;
use crate::record::{accept_all, all_finite, check_vector, RecordView};
use crate::records::{in_order, listed};
use crate::storage::format::{lemma_ids_end, lemma_listed, lemma_many_len};
use crate::storage::layout::{
    body_bytes, component_form, component_size, encoding_range, file_bytes, gathered, id_bytes,
    parse_file, parse_layout, payload_bytes, read_header, read_payload, read_u64, read_vector,
    stride_of, vector_bytes, FileView, LayoutView, HEADER_LEN,
};
use crate::storage::round_trip::{
    lemma_body_parts, lemma_decode_encode, lemma_field, lemma_ids_len, lemma_saved_header,
    lemma_section_ids, lemma_section_payloads, metadata_fits, payloads_of, storable,
    stored_component, stored_records, stored_vector, text_fits,
};
use crate::storage::wire::{
    joined, lemma_joined_at, lemma_joined_len, lemma_le_bytes_len, lemma_stands_at_shift,
    parse_many, stands_at,
};
use vstd::prelude::*;

verus! {

/// The bytes that a collection is saved as.
pub open spec fn saved_bytes(s: DbView) -> Seq<u8> {
    file_bytes(
        s.dimension,
        s.kind,
        s.encoding,
        listed(s.records),
        saved(s).index,
    )
}

/// A collection that a file can hold, and that can be read back: every length
/// fits its field, the file fits in memory, and what quantization leaves of the
/// vectors is finite.
pub open spec fn savable(s: DbView) -> bool {
    &&& storable(s.dimension, s.kind, s.records, saved(s).index)
    &&& saved_bytes(s).len() <= usize::MAX
    &&& forall|id: u64| #[trigger]
        s.records.dom().contains(id) ==> all_finite(
            stored_records(s.encoding, s.records)[id].vector,
        )
}

/// An index over the vectors of the given records.
pub open spec fn with_vectors(m: IndexModel, records: Map<u64, RecordView>) -> IndexModel {
    IndexModel {
        entries: m.entries.map_values(|e: (u64, Seq<F32>)| (e.0, records[e.0].vector)),
        ..m
    }
}

proof fn lemma_vetted(dimension: Option<usize>, list: Seq<RecordView>)
    requires
        forall|i: int|
            0 <= i < list.len() ==> check_vector(dimension, (#[trigger] list[i]).vector) is Ok,
    ensures
        vetted(dimension, list) is Ok,
    decreases list.len(),
{
    if list.len() > 0 {
        let front = list.drop_last();
        assert forall|i: int| 0 <= i < front.len() implies check_vector(
            dimension,
            (#[trigger] front[i]).vector,
        ) is Ok by {
            assert(front[i] == list[i]);
        }
        lemma_vetted(dimension, front);
        assert(list[list.len() - 1] == list.last());
    }
}

proof fn lemma_accept(dimension: Option<usize>, vectors: Seq<Seq<F32>>)
    requires
        dimension is None ==> vectors.len() == 0,
        forall|i: int|
            0 <= i < vectors.len() ==> check_vector(dimension, #[trigger] vectors[i]) is Ok,
    ensures
        accept_all(dimension, vectors) == Ok::<Option<usize>, VectorDbError>(dimension),
    decreases vectors.len(),
{
    if vectors.len() > 0 {
        let front = vectors.drop_last();
        assert forall|i: int| 0 <= i < front.len() implies check_vector(
            dimension,
            #[trigger] front[i],
        ) is Ok by {
            assert(front[i] == vectors[i]);
        }
        lemma_accept(dimension, front);
        assert(vectors[vectors.len() - 1] == vectors.last());
    }
}

/// A stored graph is taken up again as it was, over the vectors that were
/// stored.
proof fn lemma_restore(s: DbView, records: Map<u64, RecordView>)
    requires
        consistent(s),
        s.kind is Hnsw,
        s.tombstones == Set::<u64>::empty(),
        s.index.snapshot() is Some,
        records.dom() == s.records.dom(),
        forall|id: u64| #[trigger]
            records.dom().contains(id) ==> records[id].id == id && check_vector(
                s.dimension,
                records[id].vector,
            ) is Ok,
    ensures
        restore(s.dimension, s.index.snapshot()->0, records) == Ok::<
            Option<usize>,
            VectorDbError,
        >(s.dimension),
        restored(s.dimension, s.kind->Hnsw_0, s.index.snapshot()->0, records) == with_vectors(
            s.index,
            records,
        ),
        consistent(DbView { records, index: with_vectors(s.index, records), ..s }),
{
    let data = s.index.snapshot()->0;
    let g = s.index.graph();
    let ids = s.index.ids();
    assert(s.records.dom().union(s.tombstones) =~= records.dom());
    lemma_pack_graph(ids, g);
    assert(data == pack_graph(ids, g));
    assert(names_records(data, records.dom()));
    let vectors = node_vectors(data, records);
    assert forall|i: int| 0 <= i < vectors.len() implies check_vector(
        s.dimension,
        #[trigger] vectors[i],
    ) is Ok by {
        assert(ids.to_set().contains(ids[i]));
    }
    if s.dimension is None {
        lemma_no_dimension(s);
        assert(ids.len() == 0);
    }
    lemma_accept(s.dimension, vectors);
    let m = with_vectors(s.index, records);
    assert(node_entries(data, records) =~= m.entries);
    let back = unpack_graph(data, vectors);
    assert(back.neighbors == unpack_graph(data, g.vectors).neighbors);
    assert(m.ids() =~= ids);
    assert forall|i: int| 0 <= i < m.entries.len() implies check_vector(
        m.dimension,
        (#[trigger] m.entries[i]).1,
    ) is Ok by {
        assert(ids.to_set().contains(ids[i]));
    }
    let t = DbView { records, index: m, ..s };
    assert forall|id: u64| #[trigger] t.records.dom().contains(id) implies record_fits(t, id) by {}
}

/// A consistent collection is read back from the bytes it was saved as: the
/// same dimension, kind and encoding, every record as it was stored (at full
/// precision, as it was; otherwise all but the components of its vector), no deleted
/// ids, and the collection is consistent again. A graph with no deleted ids in it,
/// of a size that its file can hold, keeps its nodes, links and entry, and takes
/// the vectors as they were stored; any other index is built anew.
pub proof fn lemma_save_load(s: DbView)
    requires
        consistent(s),
        savable(s),
    ensures
        ({
            let stored = stored_records(s.encoding, s.records);
            let plain = DbView { records: stored, ..s };
            parse_file(saved_bytes(s)) matches Ok(file) && assembled(file) matches Ok(t) && {
                &&& consistent(t)
                &&& t.dimension == s.dimension
                &&& t.kind == s.kind
                &&& t.encoding == s.encoding
                &&& t.records == stored
                &&& s.encoding == Encoding::Float32 ==> t.records == s.records
                &&& t.records.dom() == s.records.dom()
                &&& forall|id: u64| #[trigger]
                    s.records.dom().contains(id) ==> {
                        let (r, back) = (s.records[id], t.records[id]);
                        &&& back.id == r.id
                        &&& back.text == r.text
                        &&& back.metadata == r.metadata
                        &&& back.vector.len() == r.vector.len()
                    }
                &&& t.tombstones == Set::<u64>::empty()
                &&& if s.kind is Hnsw && s.tombstones.len() == 0 && s.index.entries.len()
                    <= u32::MAX {
                    t.index == with_vectors(s.index, stored)
                } else {
                    t == rebuilt(plain).0
                }
            }
        }),
{
    let stored = stored_records(s.encoding, s.records);
    let plain = DbView { records: stored, ..s };
    let index = saved(s).index;
    assert(s.tombstones.len() == 0 <==> s.tombstones == Set::<u64>::empty()) by {
        if s.tombstones.len() == 0 {
            assert(s.tombstones =~= Set::<u64>::empty());
        }
    }
    lemma_decode_encode(s.dimension, s.kind, s.encoding, s.records, index);
    let file = parse_file(saved_bytes(s))->Ok_0;
    let range = encoding_range(s.encoding, listed(s.records));
    assert(stored.dom() =~= s.records.dom());
    assert forall|id: u64| #[trigger] stored.dom().contains(id) implies record_fits(plain, id) by {
        assert(s.records.dom().contains(id));
        assert(record_fits(s, id));
        assert(stored[id].vector == stored_vector(s.encoding, range, s.records[id].vector));
    }
    // The records fit.
    let list = listed(stored);
    lemma_listed(stored);
    assert forall|i: int| 0 <= i < list.len() implies check_vector(
        s.dimension,
        (#[trigger] list[i]).vector,
    ) is Ok by {
        assert(stored.dom().contains(in_order(stored.dom())[i]));
    }
    lemma_vetted(s.dimension, list);
    if s.dimension is None {
        lemma_no_dimension(s);
    }
    // The number of records is within the size of the file.
    lemma_listed(s.records);
    lemma_ids_len(listed(s.records));
    assert(s.records.len() <= usize::MAX);
    if index is Some {
        lemma_restore(s, stored);
    } else {
        lemma_rebuild_consistent(plain);
        assert(rebuilt(plain).0 == assembled(file)->Ok_0);
    }
}

/// At full precision, with no deletions pending, and with no more vectors than a
/// file can hold nodes, a collection with a graph comes back exactly as it was,
/// the graph and all: every search gives the same as before it was saved.
pub proof fn lemma_save_load_graph(
    s: DbView,
    query: Seq<F32>,
    limit: nat,
    filter: Seq<(Seq<char>, Seq<char>)>,
)
    requires
        consistent(s),
        savable(s),
        s.kind is Hnsw,
        s.encoding == Encoding::Float32,
        s.tombstones.len() == 0,
        s.index.entries.len() <= u32::MAX,
    ensures
        parse_file(saved_bytes(s)) matches Ok(file) && assembled(file) matches Ok(t) && {
            &&& t.index.entries == s.index.entries
            &&& t.index.links == s.index.links
            &&& t.index.entry == s.index.entry
            &&& t == s
            &&& searched(t, query, limit, filter) == searched(s, query, limit, filter)
        },
{
    assert(s.tombstones =~= Set::<u64>::empty());
    lemma_save_load(s);
    lemma_decode_encode(s.dimension, s.kind, s.encoding, s.records, saved(s).index);
    let m = with_vectors(s.index, s.records);
    assert(s.records.dom().union(s.tombstones) =~= s.records.dom());
    assert forall|e: int| 0 <= e < s.index.entries.len() implies m.entries[e]
        == s.index.entries[e] by {
        assert(s.index.ids()[e] == s.index.entries[e].0);
        assert(s.index.ids().to_set().contains(s.index.ids()[e]));
    }
    assert(m.entries =~= s.index.entries);
}

/// At full precision a collection with an exact index answers every query after
/// loading as it did before it was saved, whatever the filter; and every
/// collection so answers every query with a filter.
pub proof fn lemma_save_load_exact(
    s: DbView,
    query: Seq<F32>,
    limit: nat,
    filter: Seq<(Seq<char>, Seq<char>)>,
)
    requires
        consistent(s),
        savable(s),
        s.encoding == Encoding::Float32,
        s.kind == IndexKind::Exact || filter.len() > 0,
        check_vector(s.dimension, query) is Ok,
        s.index.entries.len() <= usize::MAX,
    ensures
        parse_file(saved_bytes(s)) matches Ok(file) && assembled(file) matches Ok(t) && searched(
            t,
            query,
            limit,
            filter,
        ) == searched(s, query, limit, filter),
{
    lemma_save_load(s);
    lemma_decode_encode(s.dimension, s.kind, s.encoding, s.records, saved(s).index);
    let t = assembled(parse_file(saved_bytes(s))->Ok_0)->Ok_0;
    lemma_listed(s.records);
    lemma_ids_len(listed(s.records));
    assert(t.records.dom().union(t.tombstones) =~= t.records.dom());
    t.index.ids().unique_seq_to_set();
    lemma_search_exact(s, query, limit, filter);
    lemma_search_exact(t, query, limit, filter);
}

/// The parts of a consistent collection, without its index, make up the same
/// collection at full precision with an index built anew: this is what a copy
/// in another format gives back.
pub proof fn lemma_reassemble(s: DbView)
    requires
        consistent(s),
        s.records.len() <= usize::MAX,
    ensures
        assembled(
            FileView {
                dimension: s.dimension,
                index_kind: s.kind,
                encoding: Encoding::Float32,
                records: s.records,
                index: None,
            },
        ) == Ok::<DbView, VectorDbError>(DbView { encoding: Encoding::Float32, ..rebuilt(s).0 }),
        consistent(rebuilt(s).0),
{
    let list = listed(s.records);
    lemma_listed(s.records);
    assert forall|i: int| 0 <= i < list.len() implies check_vector(
        s.dimension,
        (#[trigger] list[i]).vector,
    ) is Ok by {
        assert(s.records.dom().contains(in_order(s.records.dom())[i]));
        assert(record_fits(s, in_order(s.records.dom())[i]));
    }
    lemma_vetted(s.dimension, list);
    if s.dimension is None {
        lemma_no_dimension(s);
    }
    lemma_rebuild_consistent(s);
}

/// The bytes of one component.
proof fn lemma_component_size(encoding: Encoding, range: (F32, F32), x: F32)
    ensures
        (component_form(encoding, range))(x).len() == component_size(encoding),
{
    lemma_le_bytes_len(x.bits as nat, 4);
}

/// A component is read in place as it would be read back.
proof fn lemma_mapped_component(
    bytes: Seq<u8>,
    encoding: Encoding,
    range: (F32, F32),
    at: nat,
    x: F32,
)
    requires
        stands_at(bytes, at, (component_form(encoding, range))(x)),
    ensures
        mapped_component(bytes, encoding, range, at as int) == stored_component(
            encoding,
            range,
            x,
        ),
{
    match encoding {
        Encoding::Float32 => {
            lemma_field(bytes, at, x.bits as nat, 4);
        },
        Encoding::ScalarU8 => {
            let part = bytes.subrange(at as int, (at + 1) as int);
            assert(part[0] == bytes[at as int]);
        },
    }
}

/// The vectors of the records take one stride each.
proof fn lemma_vector_size(
    encoding: Encoding,
    range: (F32, F32),
    list: Seq<RecordView>,
    stride: nat,
)
    requires
        forall|i: int| 0 <= i < list.len() ==> (#[trigger] list[i]).vector.len() == stride,
    ensures
        forall|i: int|
            0 <= i < list.len() ==> (vector_bytes(encoding, range))(#[trigger] list[i]).len()
                == stride * component_size(encoding),
        joined(list, vector_bytes(encoding, range)).len() == list.len() * stride * component_size(
            encoding,
        ),
{
    let form = component_form(encoding, range);
    let size = component_size(encoding);
    assert forall|i: int| 0 <= i < list.len() implies (vector_bytes(encoding, range))(
        #[trigger] list[i],
    ).len() == stride * size by {
        let v = list[i].vector;
        assert forall|j: int| 0 <= j < v.len() implies form(#[trigger] v[j]).len() == size by {
            lemma_component_size(encoding, range, v[j]);
        }
        lemma_joined_len(v, form, size);
    }
    lemma_joined_len(list, vector_bytes(encoding, range), stride * size);
    let n = list.len();
    assert(n * (stride * size) == n * stride * size) by (nonlinear_arith);
}

/// A vector is read in place as it would be read back.
proof fn lemma_mapped_vector(
    bytes: Seq<u8>,
    layout: LayoutView,
    list: Seq<RecordView>,
    i: int,
)
    requires
        forall|k: int| 0 <= k < list.len() ==> (#[trigger] list[k]).vector.len() == layout.stride,
        stands_at(
            bytes,
            layout.vectors_offset,
            joined(list, vector_bytes(layout.encoding, layout.range)),
        ),
        0 <= i < list.len(),
    ensures
        mapped_vector(bytes, layout, i) == stored_vector(
            layout.encoding,
            layout.range,
            list[i].vector,
        ),
{
    let form = component_form(layout.encoding, layout.range);
    let size = component_size(layout.encoding);
    let v = list[i].vector;
    let row = layout.stride * size;
    lemma_vector_size(layout.encoding, layout.range, list, layout.stride);
    lemma_joined_at(
        list,
        vector_bytes(layout.encoding, layout.range),
        row,
        bytes,
        layout.vectors_offset,
        i,
    );
    let start = (layout.vectors_offset + i * row) as nat;
    assert forall|j: int| 0 <= j < v.len() implies form(#[trigger] v[j]).len() == size by {
        lemma_component_size(layout.encoding, layout.range, v[j]);
    }
    let back = stored_vector(layout.encoding, layout.range, v);
    let mapped = mapped_vector(bytes, layout, i);
    assert forall|j: int| 0 <= j < layout.stride implies mapped[j] == back[j] by {
        lemma_joined_at(v, form, size, bytes, start, j);
        let at = (start + j * size) as nat;
        assert(start + j * size == layout.vectors_offset + (i * layout.stride + j) * size)
            by (nonlinear_arith)
            requires
                start == layout.vectors_offset + i * row,
                row == layout.stride * size,
        ;
        lemma_mapped_component(bytes, layout.encoding, layout.range, at, v[j]);
    }
    assert(mapped =~= back);
}

/// Where the sections of a saved state stand, and what is read there.
proof fn lemma_layout_sections(
    bytes: Seq<u8>,
    encoding: Encoding,
    list: Seq<RecordView>,
    ids: Seq<u64>,
    index: Option<IndexView>,
    stride: nat,
)
    requires
        bytes.len() <= usize::MAX,
        bytes.len() >= HEADER_LEN,
        bytes.skip(HEADER_LEN as int) == body_bytes(encoding, list, index),
        ids.len() == list.len(),
        forall|i: int| 0 <= i < list.len() ==> (#[trigger] list[i]).id == ids[i],
        forall|i: int| 0 <= i < list.len() ==> (#[trigger] list[i]).vector.len() == stride,
        forall|i: int|
            0 <= i < list.len() ==> text_fits((#[trigger] list[i]).text) && metadata_fits(
                list[i].metadata,
            ),
    ensures
        ({
            let start = (HEADER_LEN + 8 * list.len()) as nat;
            let size = list.len() * stride * component_size(encoding);
            &&& parse_many(read_u64(), bytes.skip(HEADER_LEN as int), 0, list.len()) == Ok::<
                (Seq<u64>, nat),
                VectorDbError,
            >((ids, 8 * list.len()))
            &&& start + size <= bytes.len()
            &&& stands_at(
                bytes,
                start,
                joined(list, vector_bytes(encoding, encoding_range(encoding, list))),
            )
            &&& parse_many(
                read_payload(),
                bytes.skip((start + size) as int),
                0,
                list.len(),
            ) matches Ok((payloads, _)) && payloads == payloads_of(list)
        }),
{
    let range = encoding_range(encoding, list);
    let body = body_bytes(encoding, list, index);
    let a = joined(list, id_bytes());
    let b = joined(list, vector_bytes(encoding, range));
    let c = joined(list, payload_bytes());
    lemma_body_parts(encoding, list, index, body);
    lemma_section_ids(list, ids, body, 0);
    lemma_ids_len(list);
    lemma_vector_size(encoding, range, list, stride);
    let at = (HEADER_LEN as nat + a.len() + b.len()) as nat;
    // The payloads stand behind the vectors.
    assert(bytes.skip(at as int) =~= body.skip((a.len() + b.len()) as int));
    lemma_stands_at_shift(body, a.len() + b.len(), 0, c);
    lemma_section_payloads(list, bytes.skip(at as int), 0);
    lemma_stands_at_shift(bytes, HEADER_LEN as nat, a.len(), b);
}

/// A file is seen in place as it would be loaded: the same dimension, and the
/// same records in ascending order of their ids.
pub proof fn lemma_mapped_file(
    dimension: Option<usize>,
    kind: IndexKind,
    encoding: Encoding,
    records: Map<u64, RecordView>,
    index: Option<IndexView>,
)
    requires
        storable(dimension, kind, records, index),
        file_bytes(dimension, kind, encoding, listed(records), index).len() <= usize::MAX,
    ensures
        ({
            let bytes = file_bytes(dimension, kind, encoding, listed(records), index);
            parse_layout(bytes) matches Ok(layout) && {
                &&& layout.dimension == dimension
                &&& mapped_records(bytes, layout) == listed(stored_records(encoding, records))
            }
        }),
{
    let list = listed(records);
    let ids = in_order(records.dom());
    let bytes = file_bytes(dimension, kind, encoding, list, index);
    let stride = stride_of(dimension, list);
    let stored = stored_records(encoding, records);
    lemma_saved_header(dimension, kind, encoding, records, index);
    let header = read_header(bytes)->Ok_0;
    lemma_listed(records);
    assert forall|i: int| 0 <= i < list.len() implies (#[trigger] list[i]).id == ids[i]
        && list[i].vector.len() == stride && text_fits(list[i].text) && metadata_fits(
        list[i].metadata,
    ) by {
        assert(records.dom().contains(ids[i]));
    }
    lemma_layout_sections(bytes, encoding, list, ids, index, stride);
    let layout = LayoutView {
        dimension,
        ids,
        payloads: payloads_of(list),
        vectors_offset: (HEADER_LEN + 8 * list.len()) as nat,
        stride,
        encoding,
        range: encoding_range(encoding, list),
    };
    assert(parse_layout(bytes) == Ok::<LayoutView, VectorDbError>(layout));
    assert(stored.dom() =~= records.dom());
    let mapped = mapped_records(bytes, layout);
    let expected = listed(stored);
    assert forall|i: int| 0 <= i < list.len() implies mapped[i] == expected[i] by {
        lemma_mapped_vector(bytes, layout, list, i);
        assert(records.dom().contains(ids[i]));
        assert(list[i].id == ids[i]);
    }
    assert(mapped =~= expected);
}

/// Searching a saved file in place gives, for every filter, what an exact search
/// of the collection that is loaded from it gives, and of its records as they
/// were stored.
pub proof fn lemma_mapped_loaded_search(
    s: DbView,
    query: Seq<F32>,
    limit: nat,
    filter: Seq<(Seq<char>, Seq<char>)>,
)
    requires
        consistent(s),
        savable(s),
        s.kind == IndexKind::Exact || filter.len() > 0,
        check_vector(s.dimension, query) is Ok,
    ensures
        parse_layout(saved_bytes(s)) matches Ok(layout) && parse_file(saved_bytes(s)) matches Ok(
            file,
        ) && assembled(file) matches Ok(t) && {
            &&& layout.dimension == t.dimension
            &&& mapped_records(saved_bytes(s), layout) == listed(t.records)
            &&& searched(t, query, limit, filter) == Ok::<Seq<(F32, RecordView)>, VectorDbError>(
                exact_hits(mapped_records(saved_bytes(s), layout), query, limit, filter),
            )
        },
{
    lemma_save_load(s);
    lemma_mapped_file(s.dimension, s.kind, s.encoding, s.records, saved(s).index);
    let t = assembled(parse_file(saved_bytes(s))->Ok_0)->Ok_0;
    lemma_listed(s.records);
    lemma_ids_len(listed(s.records));
    assert(t.records.dom() =~= s.records.dom());
    assert(t.records.dom().union(t.tombstones) =~= t.records.dom());
    t.index.ids().unique_seq_to_set();
    lemma_search_exact(t, query, limit, filter);
}

/// Searching in place the file of a collection at full precision gives what the
/// collection itself gives: for every filter where its index is exact, and for
/// every filter that is not empty whatever its index.
pub proof fn lemma_mapped_search(
    s: DbView,
    query: Seq<F32>,
    limit: nat,
    filter: Seq<(Seq<char>, Seq<char>)>,
)
    requires
        consistent(s),
        savable(s),
        s.encoding == Encoding::Float32,
        s.kind == IndexKind::Exact || filter.len() > 0,
        check_vector(s.dimension, query) is Ok,
        s.index.entries.len() <= usize::MAX,
    ensures
        parse_layout(saved_bytes(s)) matches Ok(layout) && searched(
            s,
            query,
            limit,
            filter,
        ) == Ok::<Seq<(F32, RecordView)>, VectorDbError>(
            exact_hits(mapped_records(saved_bytes(s), layout), query, limit, filter),
        ),
{
    lemma_mapped_file(s.dimension, s.kind, s.encoding, s.records, saved(s).index);
    lemma_decode_encode(s.dimension, s.kind, s.encoding, s.records, saved(s).index);
    lemma_listed(s.records);
    lemma_ids_len(listed(s.records));
    lemma_search_exact(s, query, limit, filter);
}

/// Records put together from sections stand under their own ids, and are no
/// more than the sections hold.
proof fn lemma_gathered_own_ids(
    ids: Seq<u64>,
    vectors: Seq<Seq<F32>>,
    payloads: Seq<(Seq<char>, Seq<(Seq<char>, Seq<char>)>)>,
)
    ensures
        gathered(ids, vectors, payloads).dom().finite(),
        gathered(ids, vectors, payloads).len() <= payloads.len(),
        forall|id: u64| #[trigger]
            gathered(ids, vectors, payloads).dom().contains(id) ==> gathered(
                ids,
                vectors,
                payloads,
            )[id].id == id,
    decreases payloads.len(),
{
    if payloads.len() > 0 {
        lemma_gathered_own_ids(ids, vectors, payloads.drop_last());
    }
}

/// Whatever the bytes, a collection that is loaded from them is consistent,
/// where its dimension is fixed or it has no records.
pub proof fn lemma_load_consistent(bytes: Seq<u8>)
    requires
        bytes.len() <= usize::MAX,
        parse_file(bytes) matches Ok(file) && (file.dimension is Some || file.records.len() == 0)
            && assembled(file) is Ok,
    ensures
        consistent(assembled(parse_file(bytes)->Ok_0)->Ok_0),
{
    let file = parse_file(bytes)->Ok_0;
    let header = read_header(bytes)->Ok_0;
    let body = bytes.skip(HEADER_LEN as int);
    let n = header.count as nat;
    assert(bytes.len() >= HEADER_LEN) by {
        reveal(read_header);
    }
    lemma_ids_end(body, n);
    let (ids, p) = parse_many(read_u64(), body, 0, n)->Ok_0;
    let item = read_vector(header.encoding, header.range, header.stride as nat);
    let (vectors, q) = parse_many(item, body, p, n)->Ok_0;
    let (payloads, _) = parse_many(read_payload(), body, q, n)->Ok_0;
    lemma_many_len(read_payload(), body, q, n);
    lemma_gathered_own_ids(ids, vectors, payloads);
    assert(file.records == gathered(ids, vectors, payloads));
    lemma_loaded_consistent(file);
}

} // verus!
