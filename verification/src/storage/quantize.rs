//! Scalar quantization: components as bytes against a global range.

use crate::float::F32;
use crate::record::RecordView;
use crate::records::{in_order, lemma_in_order, listed, Records};
use vstd::prelude::*;

verus! {

/// The bit pattern of 255, the largest code.
pub const MAX_CODE_BITS: u32 = 0x437f_0000;

/// The bit pattern of positive infinity.
pub const INFINITY_BITS: u32 = 0x7f80_0000;

/// The bit pattern of negative infinity.
pub const NEG_INFINITY_BITS: u32 = 0xff80_0000;

/// The least of the values; a NaN counts for nothing.
pub open spec fn lowest(values: Seq<F32>) -> F32
    decreases values.len(),
{
    if values.len() == 0 {
        F32 { bits: INFINITY_BITS }
    } else {
        let rest = lowest(values.drop_last());
        if F32::less(values.last(), rest) {
            values.last()
        } else {
            rest
        }
    }
}

/// The greatest of the values; a NaN counts for nothing.
pub open spec fn highest(values: Seq<F32>) -> F32
    decreases values.len(),
{
    if values.len() == 0 {
        F32 { bits: NEG_INFINITY_BITS }
    } else {
        let rest = highest(values.drop_last());
        if F32::less(rest, values.last()) {
            values.last()
        } else {
            rest
        }
    }
}

/// The components of the vectors of all records, in order.
pub open spec fn components(records: Seq<RecordView>) -> Seq<F32>
    decreases records.len(),
{
    if records.len() == 0 {
        Seq::empty()
    } else {
        components(records.drop_last()) + records.last().vector
    }
}

/// The range of the components of all records, and `(0, 0)` where there are
/// none.
#[verifier::opaque]
pub open spec fn value_range(records: Seq<RecordView>) -> (F32, F32) {
    let min = lowest(components(records));
    let max = highest(components(records));
    if min.finite() && max.finite() {
        (min, max)
    } else {
        (F32 { bits: 0 }, F32 { bits: 0 })
    }
}

/// The byte that stands for a component against the range.
pub open spec fn quantized(value: F32, min: F32, max: F32) -> u8 {
    let span = F32::difference(max, min);
    if !span.nan() && span.level() <= 0 {
        0
    } else {
        F32::nearest_byte(
            F32::product(
                F32::quotient(F32::difference(value, min), span),
                F32 { bits: MAX_CODE_BITS },
            ),
        )
    }
}

/// The component that a byte stands for against the range.
pub open spec fn dequantized(code: u8, min: F32, max: F32) -> F32 {
    F32::sum(
        min,
        F32::product(
            F32::quotient(F32::whole(code as nat), F32 { bits: MAX_CODE_BITS }),
            F32::difference(max, min),
        ),
    )
}

/// Global `(min, max)` across every component of every record's vector, used as
/// the scalar-quantization range. `(0, 0)` when there are no components.
pub fn scalar_bounds(records: &Records) -> (r: (F32, F32))
    ensures
        r == value_range(listed(records@)),
{
    proof {
        reveal(value_range);
    }
    let mut min = F32 { bits: INFINITY_BITS };
    let mut max = F32 { bits: NEG_INFINITY_BITS };
    let ids = records.ids();
    let ghost list = listed(records@);
    let mut i: usize = 0;
    proof {
        lemma_in_order(records@.dom());
        assert(list.take(0) =~= Seq::empty());
    }
    while i < ids.len()
        invariant
            i <= ids@.len(),
            ids@ == in_order(records@.dom()),
            list == listed(records@),
            forall|n: int| 0 <= n < ids@.len() ==> records@.dom().contains(#[trigger] ids@[n]),
            min == lowest(components(list.take(i as int))),
            max == highest(components(list.take(i as int))),
        decreases ids@.len() - i,
    {
        let ghost done = components(list.take(i as int));
        assert(records@.dom().contains(ids@[i as int]));
        if let Some(record) = records.get(ids[i]) {
            let ghost v = record.vector@;
            let mut j: usize = 0;
            assert(done + v.take(0) =~= done);
            while j < record.vector.len()
                invariant
                    j <= v.len(),
                    v == record.vector@,
                    min == lowest(done + v.take(j as int)),
                    max == highest(done + v.take(j as int)),
                decreases v.len() - j,
            {
                let value = record.vector[j];
                assert((done + v.take(j + 1)).drop_last() =~= done + v.take(j as int));
                if value.lt(min) {
                    min = value;
                }
                if max.lt(value) {
                    max = value;
                }
                j = j + 1;
            }
            assert(v.take(j as int) =~= v);
            assert(list[i as int].vector == v);
        }
        assert(list.take(i + 1).drop_last() =~= list.take(i as int));
        i = i + 1;
    }
    assert(list.take(i as int) =~= list);
    if min.is_finite() && max.is_finite() {
        (min, max)
    } else {
        (F32 { bits: 0 }, F32 { bits: 0 })
    }
}

/// Quantize one component to a byte against the `[min, max]` range.
pub fn quantize(value: F32, min: F32, max: F32) -> (r: u8)
    ensures
        r == quantized(value, min, max),
{
    let span = max.minus(min);
    let zero = F32 { bits: 0 };
    if !span.is_nan() && !zero.lt(span) {
        return 0;
    }
    value.minus(min).over(span).times(F32 { bits: MAX_CODE_BITS }).to_u8()
}

/// Reconstruct a component from its quantized byte (lossy).
pub fn dequantize(code: u8, min: F32, max: F32) -> (r: F32)
    ensures
        r == dequantized(code, min, max),
{
    min.plus(F32::from_u8(code).over(F32 { bits: MAX_CODE_BITS }).times(max.minus(min)))
}

} // verus!
