//! What checksums and sizes guarantee of a file.

use super::crc::{checksum, lemma_checksum_detects_change};
use super::layout::{
    component_form, encoding_range, field, file_bytes, header_bytes, magic, parse_file,
    parse_layout, read_header, vector_bytes, FileView, LayoutView, HEADER_CRC_OFFSET, HEADER_LEN,
    VERSION_MAJOR,
};
use super::quantize::components;
use super::round_trip::lemma_header_len;
use super::wire::{joined, le_value, lemma_joined_len, lemma_le_bytes_len};
use crate::db::{Encoding, IndexKind};
use crate::error::VectorDbError;
use crate::float::F32;
use crate::index::IndexView;
use crate::record::RecordView;
use vstd::prelude::*;

verus! {

/// Two files of one length that differ in the byte at `i` and nowhere else.
pub open spec fn differ_at(a: Seq<u8>, b: Seq<u8>, i: int) -> bool {
    &&& a.len() == b.len()
    &&& 0 <= i < a.len()
    &&& a[i] != b[i]
    &&& forall|j: int| 0 <= j < a.len() && j != i ==> a[j] == b[j]
}

proof fn lemma_le_value_injective(a: Seq<u8>, b: Seq<u8>)
    requires
        a.len() == b.len(),
        le_value(a) == le_value(b),
    ensures
        a == b,
    decreases a.len(),
{
    if a.len() > 0 {
        lemma_le_value_injective(a.skip(1), b.skip(1));
        assert(a =~= seq![a[0]] + a.skip(1));
        assert(b =~= seq![b[0]] + b.skip(1));
    } else {
        assert(a =~= b);
    }
}

proof fn lemma_same_field(a: Seq<u8>, b: Seq<u8>, at: int, n: int)
    requires
        0 <= at,
        0 <= n,
        at + n <= a.len(),
        at + n <= b.len(),
        forall|j: int| at <= j < at + n ==> a[j] == b[j],
    ensures
        field(a, at, n) == field(b, at, n),
{
    assert(a.subrange(at, at + n) =~= b.subrange(at, at + n));
}

/// The header of a file does not depend on what follows it.
pub proof fn lemma_same_header(a: Seq<u8>, b: Seq<u8>)
    requires
        a.len() >= HEADER_LEN,
        b.len() >= HEADER_LEN,
        forall|j: int| 0 <= j < HEADER_LEN ==> a[j] == b[j],
    ensures
        read_header(a) == read_header(b),
{
    reveal(read_header);
    assert(a.take(4) =~= b.take(4));
    assert(a.take(60) =~= b.take(60));
    lemma_same_field(a, b, 4, 2);
    lemma_same_field(a, b, 6, 2);
    lemma_same_field(a, b, 8, 4);
    lemma_same_field(a, b, 12, 4);
    lemma_same_field(a, b, 20, 8);
    lemma_same_field(a, b, 28, 4);
    lemma_same_field(a, b, 32, 4);
    lemma_same_field(a, b, 36, 4);
    lemma_same_field(a, b, 40, 4);
    lemma_same_field(a, b, 44, 4);
    lemma_same_field(a, b, 48, 4);
    lemma_same_field(a, b, 52, 4);
    lemma_same_field(a, b, 60, 4);
}

/// Damage to any one byte of a readable file is noticed: the file is then
/// refused as corrupt.
pub proof fn lemma_damage_detected(a: Seq<u8>, b: Seq<u8>, i: int)
    requires
        parse_file(a) is Ok,
        differ_at(a, b, i),
    ensures
        parse_file(b) matches Err(VectorDbError::Corrupt(_)),
{
    reveal(read_header);
    let n = HEADER_CRC_OFFSET as int;
    if i < n {
        let (x, y) = (a.take(n), b.take(n));
        assert(x[i] != y[i]);
        lemma_checksum_detects_change(x, y, i);
        lemma_same_field(a, b, n, 4);
    } else if i < HEADER_LEN {
        let (x, y) = (a.subrange(n, n + 4), b.subrange(n, n + 4));
        assert(a.take(n) =~= b.take(n));
        assert(x[i - n] == a[i] && y[i - n] == b[i]);
        if le_value(x) == le_value(y) {
            lemma_le_value_injective(x, y);
        }
    } else {
        lemma_same_header(a, b);
        let (x, y) = (a.skip(HEADER_LEN as int), b.skip(HEADER_LEN as int));
        assert(x[i - HEADER_LEN] != y[i - HEADER_LEN]);
        lemma_checksum_detects_change(x, y, i - HEADER_LEN);
    }
}

/// A file cut short of its header, or that does not start with the magic, is
/// refused as corrupt.
pub proof fn lemma_not_a_file(bytes: Seq<u8>)
    requires
        bytes.len() < HEADER_LEN || bytes.take(4) != magic(),
    ensures
        parse_file(bytes) matches Err(VectorDbError::Corrupt(_)),
{
    reveal(read_header);
}

/// A sound header of another major version is refused as such, with the version
/// it names, whether the file is loaded or searched in place.
pub proof fn lemma_other_major_refused(bytes: Seq<u8>)
    requires
        bytes.len() >= HEADER_LEN,
        bytes.take(4) == magic(),
        checksum(bytes.take(HEADER_CRC_OFFSET as int)) == field(
            bytes,
            HEADER_CRC_OFFSET as int,
            4,
        ),
        field(bytes, 4, 2) as u16 != VERSION_MAJOR,
    ensures
        ({
            let refusal = VectorDbError::UnsupportedVersion {
                major: field(bytes, 4, 2) as u16,
                minor: field(bytes, 6, 2) as u16,
            };
            &&& parse_file(bytes) == Err::<FileView, VectorDbError>(refusal)
            &&& parse_layout(bytes) == Err::<LayoutView, VectorDbError>(refusal)
        }),
{
    reveal(read_header);
}

proof fn lemma_vectors_len(list: Seq<RecordView>, range: (F32, F32), other: (F32, F32))
    ensures
        joined(list, vector_bytes(Encoding::Float32, range)).len() == 4 * components(list).len(),
        joined(list, vector_bytes(Encoding::ScalarU8, other)).len() == components(list).len(),
    decreases list.len(),
{
    if list.len() > 0 {
        lemma_vectors_len(list.drop_last(), range, other);
        let v = list.last().vector;
        let f = component_form(Encoding::Float32, range);
        let q = component_form(Encoding::ScalarU8, other);
        assert forall|i: int| 0 <= i < v.len() implies f(#[trigger] v[i]).len() == 4 by {
            lemma_le_bytes_len(v[i].bits as nat, 4);
        }
        lemma_joined_len(v, f, 4);
        lemma_joined_len(v, q, 1);
        assert(v.len() * 4 == 4 * v.len() && v.len() * 1 == v.len());
    }
}

/// Quantization takes three bytes off every component, and nothing else: a
/// quantized file is smaller as soon as there is a component.
pub proof fn lemma_quantized_size(
    dimension: Option<usize>,
    kind: IndexKind,
    list: Seq<RecordView>,
    index: Option<IndexView>,
)
    ensures
        file_bytes(dimension, kind, Encoding::Float32, list, index).len() == file_bytes(
            dimension,
            kind,
            Encoding::ScalarU8,
            list,
            index,
        ).len() + 3 * components(list).len(),
{
    lemma_header_len(dimension, kind, Encoding::Float32, list, index);
    lemma_header_len(dimension, kind, Encoding::ScalarU8, list, index);
    lemma_le_bytes_len(
        checksum(header_bytes(dimension, kind, Encoding::Float32, list, index)) as nat,
        4,
    );
    lemma_le_bytes_len(
        checksum(header_bytes(dimension, kind, Encoding::ScalarU8, list, index)) as nat,
        4,
    );
    lemma_vectors_len(
        list,
        encoding_range(Encoding::Float32, list),
        encoding_range(Encoding::ScalarU8, list),
    );
}

} // verus!
