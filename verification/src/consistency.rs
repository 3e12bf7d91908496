//! What holds of a collection whatever is done to it.

use crate::db::{
    assembled, deleted, empty_db, entries_of, inserted, rebuilt, upserted, vetted, DbView,
    IndexKind,
};
use crate::error::VectorDbError;
use crate::float::F32;
use crate::index::entries_fit;
use crate::index::graph::below;
use crate::index::hnsw::{node_vectors, AnnParams};
use crate::index::linking::lemma_grown;
use crate::index::model::{blank, filled, IndexModel};
use crate::record::{accept_all, check_vector, RecordView};
use crate::records::{in_order, lemma_in_order, listed};
use crate::storage::format::lemma_listed;
use crate::storage::layout::FileView;
use vstd::prelude::*;

verus! {

/// An index that holds what it was given: vectors of its dimension and, for a
/// graph, links that lead somewhere.
pub open spec fn index_sound(m: IndexModel) -> bool {
    &&& entries_fit(m.dimension, m.entries)
    &&& m.kind matches IndexKind::Hnsw(_) ==> m.graph().valid()
}

/// The index holds each of the given ids once, and nothing else.
pub open spec fn index_covers(m: IndexModel, ids: Set<u64>) -> bool {
    &&& m.ids().no_duplicates()
    &&& m.ids().to_set() == ids
}

/// A record under its own id, with a vector of the collection's dimension.
pub open spec fn record_fits(s: DbView, id: u64) -> bool {
    s.records[id].id == id && check_vector(s.dimension, s.records[id].vector) is Ok
}

/// A collection in order: records under their own ids and of one dimension, and
/// an index that holds the vectors of the records, and besides them only those
/// of deleted ids.
pub open spec fn consistent(s: DbView) -> bool {
    &&& s.records.dom().finite()
    &&& s.tombstones.finite()
    &&& s.records.dom().disjoint(s.tombstones)
    &&& s.index.kind == s.kind
    &&& s.index.dimension == s.dimension
    &&& s.dimension != Some(0usize)
    &&& index_sound(s.index)
    &&& index_covers(s.index, s.records.dom().union(s.tombstones))
    &&& forall|id: u64| #[trigger] s.records.dom().contains(id) ==> record_fits(s, id)
    &&& forall|e: int|
        0 <= e < s.index.entries.len() && s.records.dom().contains(
            (#[trigger] s.index.entries[e]).0,
        ) ==> s.index.entries[e].1 == s.records[s.index.entries[e].0].vector
}

/// A collection of a size that memory can hold, as every one in use is.
pub open spec fn fits_memory(s: DbView) -> bool {
    &&& s.records.len() <= usize::MAX
    &&& s.index.entries.len() <= usize::MAX
}

/// A new collection is consistent.
pub proof fn lemma_empty_consistent(dimension: Option<usize>, kind: IndexKind)
    requires
        dimension != Some(0usize),
    ensures
        consistent(empty_db(dimension, kind)),
{
    let s = empty_db(dimension, kind);
    assert(s.index.ids() =~= Seq::empty());
    assert(s.index.ids().to_set() =~= s.records.dom().union(s.tombstones));
    assert(s.index.vectors() =~= Seq::empty());
}

/// Taking in a vector that it accepts keeps an index sound.
proof fn lemma_push_sound(m: IndexModel, id: u64, vector: Seq<F32>)
    requires
        index_sound(m),
        check_vector(m.dimension, vector) is Ok,
        vector.len() <= usize::MAX,
        m.entries.len() < usize::MAX,
    ensures
        index_sound(m.push(id, vector)),
        m.push(id, vector).ids() == m.ids().push(id),
        m.push(id, vector).entries == m.entries.push((id, vector)),
{
    let next = m.push(id, vector);
    assert(next.ids() =~= m.ids().push(id));
    assert(next.vectors() =~= m.vectors().push(vector));
    assert forall|i: int| 0 <= i < next.entries.len() implies check_vector(
        next.dimension,
        (#[trigger] next.entries[i]).1,
    ) is Ok by {
        if i < m.entries.len() {
            assert(next.entries[i] == m.entries[i]);
            assert(check_vector(m.dimension, m.entries[i].1) is Ok);
        }
    }
    if let IndexKind::Hnsw(params) = m.kind {
        lemma_grown(
            m.graph(),
            vector,
            params.max_neighbors as nat,
            params.ef_construction as nat,
        );
    }
}

/// Vectors of one dimension all go into an empty index of that dimension.
proof fn lemma_filled(kind: IndexKind, dimension: Option<usize>, entries: Seq<(u64, Seq<F32>)>)
    requires
        dimension != Some(0usize),
        dimension is None ==> entries.len() == 0,
        entries.len() <= usize::MAX,
        forall|i: int|
            0 <= i < entries.len() ==> check_vector(dimension, (#[trigger] entries[i]).1) is Ok,
    ensures
        filled(blank(kind, dimension), entries) matches Ok(m) && {
            &&& m.kind == kind
            &&& m.dimension == dimension
            &&& m.entries == entries
            &&& index_sound(m)
        },
    decreases entries.len(),
{
    let start = blank(kind, dimension);
    if entries.len() == 0 {
        assert(entries =~= Seq::empty());
        assert(start.vectors() =~= Seq::empty());
    } else {
        let front = entries.drop_last();
        assert forall|i: int| 0 <= i < front.len() implies check_vector(
            dimension,
            (#[trigger] front[i]).1,
        ) is Ok by {
            assert(front[i] == entries[i]);
        }
        lemma_filled(kind, dimension, front);
        let last = entries.last();
        assert(entries[entries.len() - 1] == last);
        lemma_push_sound(filled(start, front)->Ok_0, last.0, last.1);
        assert(front.push(last) =~= entries);
    }
}

/// The index of a consistent collection can always be built anew: the records
/// stay, the deleted ids go, and the collection is consistent again.
pub proof fn lemma_rebuild_consistent(s: DbView)
    requires
        s.records.dom().finite(),
        s.records.len() <= usize::MAX,
        s.dimension != Some(0usize),
        s.dimension is None ==> s.records.len() == 0,
        forall|id: u64| #[trigger] s.records.dom().contains(id) ==> record_fits(s, id),
    ensures
        rebuilt(s).1 is Ok,
        consistent(rebuilt(s).0),
        rebuilt(s).0.records == s.records,
        rebuilt(s).0.dimension == s.dimension,
        rebuilt(s).0.kind == s.kind,
        rebuilt(s).0.encoding == s.encoding,
        rebuilt(s).0.tombstones == Set::<u64>::empty(),
        rebuilt(s).0.index.ids() == in_order(s.records.dom()),
{
    let entries = entries_of(s.records);
    let ids = in_order(s.records.dom());
    lemma_listed(s.records);
    lemma_in_order(s.records.dom());
    assert forall|i: int| 0 <= i < entries.len() implies check_vector(
        s.dimension,
        (#[trigger] entries[i]).1,
    ) is Ok && entries[i].0 == ids[i] by {
        assert(s.records.dom().contains(ids[i]));
    }
    lemma_filled(s.kind, s.dimension, entries);
    let t = rebuilt(s).0;
    assert(t.index.ids() =~= ids);
    assert(s.records.dom().union(t.tombstones) =~= s.records.dom());
    assert forall|e: int|
        0 <= e < t.index.entries.len() && t.records.dom().contains(
            (#[trigger] t.index.entries[e]).0,
        ) implies t.index.entries[e].1 == t.records[t.index.entries[e].0].vector by {
        assert(s.records.dom().contains(ids[e]));
    }
    assert forall|id: u64| #[trigger] t.records.dom().contains(id) implies record_fits(t, id) by {
        assert(record_fits(s, id));
    }
}

/// Where a dimension is not fixed, there is nothing yet.
pub proof fn lemma_no_dimension(s: DbView)
    requires
        consistent(s),
        s.dimension is None,
    ensures
        s.records.dom() == Set::<u64>::empty(),
        s.tombstones == Set::<u64>::empty(),
{
    assert(s.index.entries.len() == 0);
    assert(s.index.ids() =~= Seq::empty());
    assert forall|id: u64| !s.records.dom().contains(id) && !s.tombstones.contains(id) by {
        if s.records.dom().contains(id) || s.tombstones.contains(id) {
            assert(s.records.dom().union(s.tombstones).contains(id));
            assert(s.index.ids().to_set().contains(id));
        }
    }
    assert(s.records.dom() =~= Set::<u64>::empty());
    assert(s.tombstones =~= Set::<u64>::empty());
}

/// The collection that holds one record more, or another in its place, with the
/// dimension that the record fixes.
pub open spec fn holding(s: DbView, r: RecordView) -> DbView {
    DbView {
        dimension: Some(r.vector.len() as usize),
        records: s.records.insert(r.id, r),
        ..s
    }
}

proof fn lemma_holding_fits(s: DbView, r: RecordView)
    requires
        consistent(s),
        check_vector(s.dimension, r.vector) is Ok,
        r.vector.len() <= usize::MAX,
    ensures
        forall|id: u64| #[trigger]
            holding(s, r).records.dom().contains(id) ==> record_fits(holding(s, r), id),
        holding(s, r).dimension != Some(0usize),
{
    let t = holding(s, r);
    assert forall|id: u64| #[trigger] t.records.dom().contains(id) implies record_fits(t, id) by {
        if id != r.id {
            assert(s.records.dom().contains(id));
            assert(record_fits(s, id));
            if s.dimension is None {
                lemma_no_dimension(s);
            }
        }
    }
}

/// Adding a record under an id that the index does not hold.
proof fn lemma_add_consistent(s: DbView, r: RecordView)
    requires
        consistent(s),
        !s.records.dom().contains(r.id),
        !s.tombstones.contains(r.id),
        check_vector(s.dimension, r.vector) is Ok,
        r.vector.len() <= usize::MAX,
        s.index.entries.len() < usize::MAX,
    ensures
        consistent(DbView { index: s.index.push(r.id, r.vector), ..holding(s, r) }),
{
    let t = DbView { index: s.index.push(r.id, r.vector), ..holding(s, r) };
    let ids = s.index.ids();
    lemma_push_sound(s.index, r.id, r.vector);
    lemma_holding_fits(s, r);
    assert(!ids.contains(r.id)) by {
        assert(!ids.to_set().contains(r.id));
    }
    let next = ids.push(r.id);
    assert(next.no_duplicates()) by {
        assert forall|i: int, j: int| 0 <= i < next.len() && 0 <= j < next.len() && i != j implies
            next[i] != next[j] by {
            if i < ids.len() && j < ids.len() {
            } else if i < ids.len() {
                assert(ids.contains(ids[i]));
            } else {
                assert(ids.contains(ids[j]));
            }
        }
    }
    let all = t.records.dom().union(t.tombstones);
    assert forall|id: u64| next.contains(id) <==> all.contains(id) by {
        if next.contains(id) && id != r.id {
            let k = choose|k: int| 0 <= k < next.len() && next[k] == id;
            assert(ids[k] == id);
            assert(ids.to_set().contains(id));
        }
        if all.contains(id) {
            if id == r.id {
                assert(next[ids.len() as int] == id);
            } else {
                assert(ids.to_set().contains(id));
                let k = choose|k: int| 0 <= k < ids.len() && ids[k] == id;
                assert(next[k] == id);
            }
        }
    }
    assert(next.to_set() =~= all);
    assert(t.index.ids() == next);
    assert forall|e: int|
        0 <= e < t.index.entries.len() && t.records.dom().contains(
            (#[trigger] t.index.entries[e]).0,
        ) implies t.index.entries[e].1 == t.records[t.index.entries[e].0].vector by {
        if e < s.index.entries.len() {
            assert(t.index.entries[e] == s.index.entries[e]);
            assert(ids[e] == s.index.entries[e].0);
            assert(ids.contains(ids[e]));
        }
    }
    assert forall|id: u64| #[trigger] t.records.dom().contains(id) implies record_fits(t, id) by {
        assert(record_fits(holding(s, r), id));
    }
    assert(t.records.dom().disjoint(t.tombstones));
}

/// In a consistent collection an insertion succeeds exactly where the id is new
/// and the vector fits. It then adds the record and changes no other, and the
/// collection stays consistent; a refused insertion changes nothing.
pub proof fn lemma_insert(s: DbView, r: RecordView)
    requires
        consistent(s),
        r.vector.len() <= usize::MAX,
        fits_memory(inserted(s, r).0),
    ensures
        consistent(inserted(s, r).0),
        s.records.dom().contains(r.id) ==> inserted(s, r) == (
            s,
            Err::<(), VectorDbError>(VectorDbError::DuplicateId(r.id)),
        ),
        !s.records.dom().contains(r.id) ==> inserted(s, r).1 == check_vector(s.dimension, r.vector),
        inserted(s, r).1 is Err ==> inserted(s, r).0 == s,
        inserted(s, r).1 is Ok ==> {
            let t = inserted(s, r).0;
            &&& t.records == s.records.insert(r.id, r)
            &&& t.records.len() == s.records.len() + 1
            &&& t.dimension == Some(r.vector.len() as usize)
            &&& t.kind == s.kind
            &&& t.encoding == s.encoding
        },
{
    if !s.records.dom().contains(r.id) && check_vector(s.dimension, r.vector) is Ok {
        if s.tombstones.contains(r.id) {
            lemma_holding_fits(s, r);
            lemma_rebuild_consistent(holding(s, r));
        } else {
            lemma_add_consistent(s, r);
        }
    }
}

/// In a consistent collection an upsert succeeds exactly where the vector fits.
/// It then puts the record under its id and changes no other, and the collection
/// stays consistent; a refused upsert changes nothing.
pub proof fn lemma_upsert(s: DbView, r: RecordView)
    requires
        consistent(s),
        r.vector.len() <= usize::MAX,
        fits_memory(upserted(s, r).0),
    ensures
        consistent(upserted(s, r).0),
        upserted(s, r).1 == check_vector(s.dimension, r.vector),
        upserted(s, r).1 is Err ==> upserted(s, r).0 == s,
        upserted(s, r).1 is Ok ==> {
            let t = upserted(s, r).0;
            &&& t.records == s.records.insert(r.id, r)
            &&& t.records.len() == s.records.len() + if s.records.dom().contains(r.id) {
                0nat
            } else {
                1
            }
            &&& t.dimension == Some(r.vector.len() as usize)
            &&& t.kind == s.kind
            &&& t.encoding == s.encoding
        },
{
    if check_vector(s.dimension, r.vector) is Ok {
        if s.records.dom().contains(r.id) || s.tombstones.contains(r.id) {
            lemma_holding_fits(s, r);
            lemma_rebuild_consistent(holding(s, r));
        } else {
            lemma_add_consistent(s, r);
        }
    }
}

/// Deleting a record keeps a collection consistent, takes out that record and no
/// other, and leaves one more id to reclaim.
pub proof fn lemma_delete(s: DbView, id: u64)
    requires
        consistent(s),
        s.records.dom().contains(id),
    ensures
        consistent(deleted(s, id)),
        !deleted(s, id).records.dom().contains(id),
        deleted(s, id).records.len() + 1 == s.records.len(),
        deleted(s, id).tombstones.len() == s.tombstones.len() + 1,
        deleted(s, id).dimension == s.dimension,
        deleted(s, id).kind == s.kind,
        deleted(s, id).encoding == s.encoding,
        forall|other: u64|
            other != id ==> (#[trigger] deleted(s, id).records.dom().contains(other)
                <==> s.records.dom().contains(other)),
        forall|other: u64|
            other != id && s.records.dom().contains(other) ==> #[trigger] deleted(
                s,
                id,
            ).records[other] == s.records[other],
{
    let t = deleted(s, id);
    assert(t.records.dom().union(t.tombstones) =~= s.records.dom().union(s.tombstones));
    assert(t.records.dom().disjoint(t.tombstones));
    assert forall|x: u64| #[trigger] t.records.dom().contains(x) implies record_fits(t, x) by {
        assert(record_fits(s, x));
    }
}

/// Compacting a consistent collection succeeds, keeps every record, leaves
/// nothing to reclaim and keeps the collection consistent; its index then holds the
/// vectors in ascending order of their ids.
pub proof fn lemma_compact(s: DbView)
    requires
        consistent(s),
        s.records.len() <= usize::MAX,
    ensures
        rebuilt(s).1 is Ok,
        consistent(rebuilt(s).0),
        rebuilt(s).0.records == s.records,
        rebuilt(s).0.dimension == s.dimension,
        rebuilt(s).0.kind == s.kind,
        rebuilt(s).0.encoding == s.encoding,
        rebuilt(s).0.tombstones == Set::<u64>::empty(),
        rebuilt(s).0.index.entries.len() == s.records.len(),
        forall|i: int, j: int|
            0 <= i < j < s.records.len() ==> (#[trigger] rebuilt(s).0.index.entries[i]).0 < (
            #[trigger] rebuilt(s).0.index.entries[j]).0,
{
    if s.dimension is None {
        lemma_no_dimension(s);
    }
    lemma_rebuild_consistent(s);
    let t = rebuilt(s).0;
    assert(t.records.dom().union(t.tombstones) =~= t.records.dom());
    t.index.ids().unique_seq_to_set();
    lemma_in_order(s.records.dom());
    assert forall|i: int, j: int| 0 <= i < j < s.records.len() implies (
    #[trigger] t.index.entries[i]).0 < (#[trigger] t.index.entries[j]).0 by {
        assert(t.index.ids()[i] < t.index.ids()[j]);
    }
}

/// However many vectors go into a graph, no node of it ever links to more than
/// `max_neighbors` others.
pub proof fn lemma_degrees_bounded(
    params: AnnParams,
    dimension: Option<usize>,
    entries: Seq<(u64, Seq<F32>)>,
)
    requires
        dimension != Some(0usize),
        entries.len() <= usize::MAX,
        forall|i: int| 0 <= i < entries.len() ==> (#[trigger] entries[i]).1.len() <= usize::MAX,
    ensures
        filled(blank(IndexKind::Hnsw(params), dimension), entries) matches Ok(m) ==> {
            &&& index_sound(m)
            &&& m.entries == entries
            &&& m.kind == IndexKind::Hnsw(params)
            &&& m.graph().degrees_within(params.max_neighbors as nat)
        },
    decreases entries.len(),
{
    let start = blank(IndexKind::Hnsw(params), dimension);
    if entries.len() == 0 {
        assert(entries =~= Seq::empty());
        assert(start.vectors() =~= Seq::empty());
    } else {
        let front = entries.drop_last();
        assert forall|i: int| 0 <= i < front.len() implies (#[trigger] front[i]).1.len()
            <= usize::MAX by {
            assert(front[i] == entries[i]);
        }
        lemma_degrees_bounded(params, dimension, front);
        let last = entries.last();
        assert(entries[entries.len() - 1] == last);
        if let Ok(m) = filled(start, front) {
            if check_vector(m.dimension, last.1) is Ok {
                lemma_push_sound(m, last.0, last.1);
                lemma_grown(
                    m.graph(),
                    last.1,
                    params.max_neighbors as nat,
                    params.ef_construction as nat,
                );
                assert(m.push(last.0, last.1).vectors() =~= m.vectors().push(last.1));
                assert(front.push(last) =~= entries);
            }
        }
    }
}

/// Every vector that was taken in fits the dimension in the end.
proof fn lemma_accepted(dimension: Option<usize>, vectors: Seq<Seq<F32>>)
    requires
        accept_all(dimension, vectors) is Ok,
        forall|i: int| 0 <= i < vectors.len() ==> (#[trigger] vectors[i]).len() <= usize::MAX,
    ensures
        vectors.len() == 0 ==> accept_all(dimension, vectors)->Ok_0 == dimension,
        vectors.len() > 0 ==> accept_all(dimension, vectors)->Ok_0 is Some,
        dimension is Some ==> accept_all(dimension, vectors)->Ok_0 == dimension,
        forall|i: int|
            0 <= i < vectors.len() ==> check_vector(
                accept_all(dimension, vectors)->Ok_0,
                #[trigger] vectors[i],
            ) is Ok,
    decreases vectors.len(),
{
    if vectors.len() > 0 {
        let front = vectors.drop_last();
        assert forall|i: int| 0 <= i < front.len() implies (#[trigger] front[i]).len()
            <= usize::MAX by {
            assert(front[i] == vectors[i]);
        }
        lemma_accepted(dimension, front);
        assert(vectors.last() == vectors[vectors.len() - 1]);
        assert forall|i: int| 0 <= i < vectors.len() implies check_vector(
            accept_all(dimension, vectors)->Ok_0,
            #[trigger] vectors[i],
        ) is Ok by {
            if i < front.len() {
                assert(front[i] == vectors[i]);
            }
        }
    }
}

proof fn lemma_vetted_fits(dimension: Option<usize>, list: Seq<RecordView>, i: int)
    requires
        vetted(dimension, list) is Ok,
        0 <= i < list.len(),
    ensures
        check_vector(dimension, list[i].vector) is Ok,
    decreases list.len(),
{
    if i < list.len() - 1 {
        lemma_vetted_fits(dimension, list.drop_last(), i);
    }
}

/// Whatever the file, a collection that is loaded from it is consistent, where
/// its records stand under their own ids and its dimension is fixed or it has no
/// records.
pub proof fn lemma_loaded_consistent(file: FileView)
    requires
        file.records.dom().finite(),
        file.records.len() <= usize::MAX,
        forall|id: u64| #[trigger]
            file.records.dom().contains(id) ==> file.records[id].id == id,
        file.dimension is Some || file.records.len() == 0,
        assembled(file) is Ok,
    ensures
        consistent(assembled(file)->Ok_0),
{
    let t = assembled(file)->Ok_0;
    let list = listed(file.records);
    let ids = in_order(file.records.dom());
    lemma_listed(file.records);
    lemma_in_order(file.records.dom());
    assert forall|id: u64| #[trigger] t.records.dom().contains(id) implies record_fits(t, id) by {
        assert(ids.to_set().contains(id));
        let i = choose|i: int| 0 <= i < ids.len() && ids[i] == id;
        lemma_vetted_fits(file.dimension, list, i);
        assert(list[i] == file.records[id]);
    }
    let rebuilds = !(file.index_kind is Hnsw && file.index is Some);
    if rebuilds {
        lemma_rebuild_consistent(t);
        assert(rebuilt(t).0 == t);
    } else {
        let data = file.index->0;
        let vectors = node_vectors(data, file.records);
        let m = t.index;
        assert forall|i: int| 0 <= i < vectors.len() implies (#[trigger] vectors[i]).len()
            <= usize::MAX && file.records.dom().contains(data.node_ids[i]) by {
            assert(data.node_ids.to_set().contains(data.node_ids[i]));
            assert(record_fits(t, data.node_ids[i]));
        }
        lemma_accepted(file.dimension, vectors);
        data.node_ids.unique_seq_to_set();
        assert(m.ids() =~= data.node_ids);
        assert(m.vectors() =~= vectors);
        assert(t.records.dom().union(t.tombstones) =~= t.records.dom());
        let g = m.graph();
        assert forall|i: int| 0 <= i < g.neighbors.len() implies below(
            #[trigger] g.neighbors[i],
            g.vectors.len(),
        ) by {
            assert forall|j: int| 0 <= j < g.neighbors[i].len() implies
                #[trigger] g.neighbors[i][j] < g.vectors.len() by {
                assert(data.neighbors[i][j] < data.node_ids.len());
            }
        }
        assert(g.valid());
        assert forall|i: int| 0 <= i < m.entries.len() implies check_vector(
            m.dimension,
            (#[trigger] m.entries[i]).1,
        ) is Ok by {
            assert(m.entries[i].1 == vectors[i]);
        }
    }
}

} // verus!
