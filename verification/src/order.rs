//! The order of values, and the smallest and the largest value of a column.

use crate::data::{bytes_lt, Scalar};
use vstd::prelude::*;
use vstd::utf8::encode_utf8;

verus! {

/// The smallest of `values` in the order of [`Scalar::lt`]; the earliest
/// such value where several are equally small.
pub open spec fn column_min(values: Seq<Scalar>) -> Scalar
    recommends
        values.len() > 0,
    decreases values.len(),
{
    if values.len() <= 1 {
        values[0]
    } else {
        column_min(values.drop_last()).min(values.last())
    }
}

/// The largest of `values` in the order of [`Scalar::lt`]; the earliest
/// such value where several are equally large.
pub open spec fn column_max(values: Seq<Scalar>) -> Scalar
    recommends
        values.len() > 0,
    decreases values.len(),
{
    if values.len() <= 1 {
        values[0]
    } else {
        column_max(values.drop_last()).max(values.last())
    }
}

/// No byte string comes before itself.
pub proof fn lemma_bytes_lt_irreflexive(a: Seq<u8>)
    ensures
        !bytes_lt(a, a),
    decreases a.len(),
{
    if a.len() > 0 {
        lemma_bytes_lt_irreflexive(a.drop_first());
    }
}

/// No value is smaller than itself.
pub proof fn lemma_lt_irreflexive(v: Scalar)
    ensures
        !v.lt(v),
        v.min(v) == v,
        v.max(v) == v,
{
    match v {
        Scalar::Text(s) => lemma_bytes_lt_irreflexive(encode_utf8(s)),
        Scalar::Number(_) => {},
    }
}

/// The order of byte strings is transitive.
pub proof fn lemma_bytes_lt_transitive(a: Seq<u8>, b: Seq<u8>, c: Seq<u8>)
    requires
        bytes_lt(a, b),
        bytes_lt(b, c),
    ensures
        bytes_lt(a, c),
    decreases a.len(),
{
    if a.len() > 0 && b.len() > 0 && c.len() > 0 && a[0] == b[0] && b[0] == c[0] {
        lemma_bytes_lt_transitive(a.drop_first(), b.drop_first(), c.drop_first());
    }
}

/// Of two different byte strings one comes before the other.
pub proof fn lemma_bytes_lt_total(a: Seq<u8>, b: Seq<u8>)
    ensures
        bytes_lt(a, b) || bytes_lt(b, a) || a == b,
    decreases a.len(),
{
    if a.len() == 0 || b.len() == 0 {
        if a.len() == 0 && b.len() == 0 {
            assert(a =~= b);
        }
    } else if a[0] == b[0] {
        let x = a.drop_first();
        let y = b.drop_first();
        lemma_bytes_lt_total(x, y);
        if x == y {
            assert(a.len() == b.len());
            assert forall|i: int| 0 <= i < a.len() implies a[i] == b[i] by {
                if i > 0 {
                    assert(x[i - 1] == a[i]);
                    assert(y[i - 1] == b[i]);
                }
            }
            assert(a =~= b);
        }
    }
}

/// The order of values of one type is transitive.
pub proof fn lemma_lt_transitive(a: Scalar, b: Scalar, c: Scalar)
    requires
        a.lt(b),
        b.lt(c),
    ensures
        a.lt(c),
{
    match (a, b, c) {
        (Scalar::Text(x), Scalar::Text(y), Scalar::Text(z)) => {
            lemma_bytes_lt_transitive(encode_utf8(x), encode_utf8(y), encode_utf8(z));
        },
        _ => {},
    }
}

/// Whether `m` is a smallest of `values`: it is one of them, and none of
/// them is smaller.
pub open spec fn is_minimum(values: Seq<Scalar>, m: Scalar) -> bool {
    &&& exists|i: int| 0 <= i < values.len() && #[trigger] values[i] == m
    &&& forall|i: int| 0 <= i < values.len() ==> !(#[trigger] values[i]).lt(m)
}

/// Whether `m` is a largest of `values`: it is one of them, and none of
/// them is larger.
pub open spec fn is_maximum(values: Seq<Scalar>, m: Scalar) -> bool {
    &&& exists|i: int| 0 <= i < values.len() && #[trigger] values[i] == m
    &&& forall|i: int| 0 <= i < values.len() ==> !m.lt(#[trigger] values[i])
}

/// The smallest value of a column of values of one type is a smallest of
/// them, and has their type.
pub proof fn lemma_column_min_is_minimum(values: Seq<Scalar>)
    requires
        values.len() > 0,
        forall|i: int|
            0 <= i < values.len() ==> (#[trigger] values[i]).dtype() == values[0].dtype(),
    ensures
        is_minimum(values, column_min(values)),
        column_min(values).dtype() == values[0].dtype(),
    decreases values.len(),
{
    if values.len() <= 1 {
        lemma_lt_irreflexive(values[0]);
        assert(values[0] == column_min(values));
    } else {
        let front = values.drop_last();
        let last = values.last();
        let m = column_min(front);
        assert forall|i: int| 0 <= i < front.len() implies (#[trigger] front[i]).dtype()
            == front[0].dtype() by {
            assert(front[i] == values[i]);
            assert(front[0] == values[0]);
        }
        lemma_column_min_is_minimum(front);
        let i0 = choose|i: int| 0 <= i < front.len() && #[trigger] front[i] == m;
        assert(values[i0] == m);
        assert(values[values.len() - 1] == last);
        if last.lt(m) {
            assert forall|i: int| 0 <= i < values.len() implies !(#[trigger] values[i]).lt(
                last,
            ) by {
                if i < front.len() {
                    assert(front[i] == values[i]);
                    if values[i].lt(last) {
                        lemma_lt_transitive(values[i], last, m);
                    }
                } else {
                    lemma_lt_irreflexive(last);
                }
            }
        } else {
            assert forall|i: int| 0 <= i < values.len() implies !(#[trigger] values[i]).lt(m) by {
                if i < front.len() {
                    assert(front[i] == values[i]);
                }
            }
        }
    }
}

/// The largest value of a column of values of one type is a largest of
/// them, and has their type.
pub proof fn lemma_column_max_is_maximum(values: Seq<Scalar>)
    requires
        values.len() > 0,
        forall|i: int|
            0 <= i < values.len() ==> (#[trigger] values[i]).dtype() == values[0].dtype(),
    ensures
        is_maximum(values, column_max(values)),
        column_max(values).dtype() == values[0].dtype(),
    decreases values.len(),
{
    if values.len() <= 1 {
        lemma_lt_irreflexive(values[0]);
        assert(values[0] == column_max(values));
    } else {
        let front = values.drop_last();
        let last = values.last();
        let m = column_max(front);
        assert forall|i: int| 0 <= i < front.len() implies (#[trigger] front[i]).dtype()
            == front[0].dtype() by {
            assert(front[i] == values[i]);
            assert(front[0] == values[0]);
        }
        lemma_column_max_is_maximum(front);
        let i0 = choose|i: int| 0 <= i < front.len() && #[trigger] front[i] == m;
        assert(values[i0] == m);
        assert(values[values.len() - 1] == last);
        if m.lt(last) {
            assert forall|i: int| 0 <= i < values.len() implies !last.lt(#[trigger] values[i]) by {
                if i < front.len() {
                    assert(front[i] == values[i]);
                    if last.lt(values[i]) {
                        lemma_lt_transitive(m, last, values[i]);
                    }
                } else {
                    lemma_lt_irreflexive(last);
                }
            }
        } else {
            assert forall|i: int| 0 <= i < values.len() implies !m.lt(#[trigger] values[i]) by {
                if i < front.len() {
                    assert(front[i] == values[i]);
                }
            }
        }
    }
}

/// The smallest of a column of integers is one of them and at most each of
/// them; the largest is one of them and at least each of them.
pub proof fn lemma_number_bounds(values: Seq<Scalar>)
    requires
        values.len() > 0,
        forall|i: int| 0 <= i < values.len() ==> (#[trigger] values[i]) is Number,
    ensures
        column_min(values) is Number,
        column_max(values) is Number,
        exists|i: int| 0 <= i < values.len() && #[trigger] values[i] == column_min(values),
        exists|i: int| 0 <= i < values.len() && #[trigger] values[i] == column_max(values),
        forall|i: int|
            0 <= i < values.len() ==> column_min(values)->Number_0 <= (
            #[trigger] values[i])->Number_0 <= column_max(values)->Number_0,
{
    lemma_column_min_is_minimum(values);
    lemma_column_max_is_maximum(values);
    assert forall|i: int| 0 <= i < values.len() implies column_min(values)->Number_0 <= (
    #[trigger] values[i])->Number_0 <= column_max(values)->Number_0 by {
        assert(!values[i].lt(column_min(values)));
        assert(!column_max(values).lt(values[i]));
    }
}

/// A column of texts has one smallest text: a text of the column that none
/// comes before is the smallest value of the column. The same holds of the
/// largest.
pub proof fn lemma_text_bounds_unique(values: Seq<Scalar>, m: Scalar)
    requires
        values.len() > 0,
        forall|i: int| 0 <= i < values.len() ==> (#[trigger] values[i]) is Text,
    ensures
        is_minimum(values, m) ==> m.text_bytes() == column_min(values).text_bytes(),
        is_maximum(values, m) ==> m.text_bytes() == column_max(values).text_bytes(),
{
    lemma_column_min_is_minimum(values);
    lemma_column_max_is_maximum(values);
    if is_minimum(values, m) {
        let lo = column_min(values);
        let i = choose|i: int| 0 <= i < values.len() && #[trigger] values[i] == m;
        let j = choose|i: int| 0 <= i < values.len() && #[trigger] values[i] == lo;
        assert(!values[i].lt(lo));
        assert(!values[j].lt(m));
        lemma_bytes_lt_total(m.text_bytes(), lo.text_bytes());
    }
    if is_maximum(values, m) {
        let hi = column_max(values);
        let i = choose|i: int| 0 <= i < values.len() && #[trigger] values[i] == m;
        let j = choose|i: int| 0 <= i < values.len() && #[trigger] values[i] == hi;
        assert(!hi.lt(values[i]));
        assert(!m.lt(values[j]));
        lemma_bytes_lt_total(m.text_bytes(), hi.text_bytes());
    }
}

} // verus!
