//! The canonical order of tagged values, by which KeyBy sorts its groups.

use crate::value::{type_of, DataTypeEnum, TaggedValue, ValueView};
use crate::value::{fields_view, lemma_fields_view, lemma_values_view, values_view};
use vstd::prelude::*;
use vstd::utf8::{encode_utf8, encode_utf8_decode_utf8};

verus! {

/// Where one value stands against another in the canonical order.
#[derive(Clone, Copy, Debug, PartialEq, Eq, Structural)]
pub enum Order {
    Before,
    Same,
    After,
}

/// The order of two integers.
pub open spec fn int_order(a: int, b: int) -> Order {
    if a < b {
        Order::Before
    } else if a == b {
        Order::Same
    } else {
        Order::After
    }
}

/// The result of asking the other way round.
pub open spec fn reversed(o: Order) -> Order {
    match o {
        Order::Before => Order::After,
        Order::Same => Order::Same,
        Order::After => Order::Before,
    }
}

/// A number's place among the numbers: the key grows as the float that `bits` holds
/// grows. Negative floats have all their bits turned, others get the top bit set; so
/// -0.0 stands just before 0.0, and a NaN stands beyond the infinity of its sign.
pub open spec fn number_key(bits: u64) -> u64 {
    if bits & 0x8000_0000_0000_0000u64 != 0 {
        !bits
    } else {
        bits | 0x8000_0000_0000_0000u64
    }
}

/// The place of a kind among the kinds. `Invalid` stands after all others.
pub open spec fn kind_rank(kind: DataTypeEnum) -> int {
    match kind {
        DataTypeEnum::Number => 1,
        DataTypeEnum::Boolean => 2,
        DataTypeEnum::String => 3,
        DataTypeEnum::Bytes => 4,
        DataTypeEnum::Array => 5,
        DataTypeEnum::Object => 6,
        DataTypeEnum::Invalid => 7,
    }
}

/// Bytes in dictionary order: the first byte that differs decides, and a run stands
/// before every longer run that begins with it.
pub open spec fn bytes_order(a: Seq<u8>, b: Seq<u8>) -> Order
    decreases a.len(),
{
    if a.len() == 0 {
        if b.len() == 0 {
            Order::Same
        } else {
            Order::Before
        }
    } else if b.len() == 0 {
        Order::After
    } else if a[0] != b[0] {
        int_order(a[0] as int, b[0] as int)
    } else {
        bytes_order(a.drop_first(), b.drop_first())
    }
}

/// The canonical order of values. Two values of one kind stand in their natural order:
/// numbers by size, `false` before `true`, strings and blobs in the dictionary order of
/// their bytes, arrays item by item, objects field by field (name, then value). Values
/// of different kinds stand as their kinds do.
pub open spec fn value_order(a: ValueView, b: ValueView) -> Order
    decreases a, 0int,
{
    match (a, b) {
        (ValueView::Number(x), ValueView::Number(y)) => int_order(
            number_key(x) as int,
            number_key(y) as int,
        ),
        (ValueView::Boolean(x), ValueView::Boolean(y)) => int_order(
            if x { 1 } else { 0 },
            if y { 1 } else { 0 },
        ),
        (ValueView::String(x), ValueView::String(y)) => bytes_order(
            encode_utf8(x),
            encode_utf8(y),
        ),
        (ValueView::Bytes(x), ValueView::Bytes(y)) => bytes_order(x, y),
        (ValueView::Array(x), ValueView::Array(y)) => items_order(x, y),
        (ValueView::Object(x), ValueView::Object(y)) => fields_order(x, y),
        _ => int_order(kind_rank(type_of(a)), kind_rank(type_of(b))),
    }
}

/// Runs of values in dictionary order.
pub open spec fn items_order(a: Seq<ValueView>, b: Seq<ValueView>) -> Order
    decreases a, 1int,
{
    if a.len() == 0 {
        if b.len() == 0 {
            Order::Same
        } else {
            Order::Before
        }
    } else if b.len() == 0 {
        Order::After
    } else {
        match value_order(a[0], b[0]) {
            Order::Same => items_order(a.drop_first(), b.drop_first()),
            decided => decided,
        }
    }
}

/// The order of two fields: by name, then by value.
pub open spec fn field_order(a: (Seq<char>, ValueView), b: (Seq<char>, ValueView)) -> Order
    decreases a, 0int,
{
    match bytes_order(encode_utf8(a.0), encode_utf8(b.0)) {
        Order::Same => value_order(a.1, b.1),
        decided => decided,
    }
}

/// Runs of fields in dictionary order.
pub open spec fn fields_order(
    a: Seq<(Seq<char>, ValueView)>,
    b: Seq<(Seq<char>, ValueView)>,
) -> Order
    decreases a, 1int,
{
    if a.len() == 0 {
        if b.len() == 0 {
            Order::Same
        } else {
            Order::Before
        }
    } else if b.len() == 0 {
        Order::After
    } else {
        match field_order(a[0], b[0]) {
            Order::Same => fields_order(a.drop_first(), b.drop_first()),
            decided => decided,
        }
    }
}

/// Two numbers have one key only where they are one number.
pub proof fn lemma_number_key_injective(x: u64, y: u64)
    ensures
        number_key(x) == number_key(y) <==> x == y,
{
    assert((if x & 0x8000_0000_0000_0000u64 != 0 {
        !x
    } else {
        x | 0x8000_0000_0000_0000u64
    }) == (if y & 0x8000_0000_0000_0000u64 != 0 {
        !y
    } else {
        y | 0x8000_0000_0000_0000u64
    }) ==> x == y) by (bit_vector);
}

/// Two runs of bytes stand at the same place only where they are one run.
pub proof fn lemma_bytes_order_same(a: Seq<u8>, b: Seq<u8>)
    ensures
        bytes_order(a, b) == Order::Same <==> a == b,
    decreases a.len(),
{
    if a.len() != 0 && b.len() != 0 {
        lemma_bytes_order_same(a.drop_first(), b.drop_first());
        if a[0] == b[0] && a.drop_first() == b.drop_first() {
            assert(a =~= seq![a[0]] + a.drop_first());
            assert(b =~= seq![b[0]] + b.drop_first());
        }
    } else if a.len() == 0 && b.len() == 0 {
        assert(a =~= b);
    }
}

/// Asked the other way round, the order of two runs of bytes is reversed.
pub proof fn lemma_bytes_order_reversed(a: Seq<u8>, b: Seq<u8>)
    ensures
        bytes_order(b, a) == reversed(bytes_order(a, b)),
    decreases a.len(),
{
    if a.len() != 0 && b.len() != 0 {
        lemma_bytes_order_reversed(a.drop_first(), b.drop_first());
    }
}

/// What stands before a run that stands before a third stands before the third.
pub proof fn lemma_bytes_order_transitive(a: Seq<u8>, b: Seq<u8>, c: Seq<u8>)
    requires
        bytes_order(a, b) == Order::Before,
        bytes_order(b, c) == Order::Before,
    ensures
        bytes_order(a, c) == Order::Before,
    decreases a.len(),
{
    if a.len() != 0 && b.len() != 0 && c.len() != 0 {
        if a[0] == b[0] && b[0] == c[0] {
            lemma_bytes_order_transitive(a.drop_first(), b.drop_first(), c.drop_first());
        }
    }
}

/// Two values stand at the same place only where they are one value.
pub proof fn lemma_value_order_same(a: ValueView, b: ValueView)
    ensures
        value_order(a, b) == Order::Same <==> a == b,
    decreases a, 0int,
{
    match (a, b) {
        (ValueView::Number(x), ValueView::Number(y)) => {
            lemma_number_key_injective(x, y);
        },
        (ValueView::Boolean(x), ValueView::Boolean(y)) => {},
        (ValueView::String(x), ValueView::String(y)) => {
            lemma_bytes_order_same(encode_utf8(x), encode_utf8(y));
            encode_utf8_decode_utf8(x);
            encode_utf8_decode_utf8(y);
        },
        (ValueView::Bytes(x), ValueView::Bytes(y)) => {
            lemma_bytes_order_same(x, y);
        },
        (ValueView::Array(x), ValueView::Array(y)) => {
            lemma_items_order_same(x, y);
        },
        (ValueView::Object(x), ValueView::Object(y)) => {
            lemma_fields_order_same(x, y);
        },
        _ => {},
    }
}

/// Two runs of values stand at the same place only where they are one run.
pub proof fn lemma_items_order_same(a: Seq<ValueView>, b: Seq<ValueView>)
    ensures
        items_order(a, b) == Order::Same <==> a == b,
    decreases a, 1int,
{
    if a.len() != 0 && b.len() != 0 {
        lemma_value_order_same(a[0], b[0]);
        lemma_items_order_same(a.drop_first(), b.drop_first());
        if a[0] == b[0] && a.drop_first() == b.drop_first() {
            assert(a =~= seq![a[0]] + a.drop_first());
            assert(b =~= seq![b[0]] + b.drop_first());
        }
    } else if a.len() == 0 && b.len() == 0 {
        assert(a =~= b);
    }
}

/// Two fields stand at the same place only where they are one field.
pub proof fn lemma_field_order_same(a: (Seq<char>, ValueView), b: (Seq<char>, ValueView))
    ensures
        field_order(a, b) == Order::Same <==> a == b,
    decreases a, 0int,
{
    lemma_bytes_order_same(encode_utf8(a.0), encode_utf8(b.0));
    encode_utf8_decode_utf8(a.0);
    encode_utf8_decode_utf8(b.0);
    lemma_value_order_same(a.1, b.1);
}

/// Two runs of fields stand at the same place only where they are one run.
pub proof fn lemma_fields_order_same(
    a: Seq<(Seq<char>, ValueView)>,
    b: Seq<(Seq<char>, ValueView)>,
)
    ensures
        fields_order(a, b) == Order::Same <==> a == b,
    decreases a, 1int,
{
    if a.len() != 0 && b.len() != 0 {
        lemma_field_order_same(a[0], b[0]);
        lemma_fields_order_same(a.drop_first(), b.drop_first());
        if a[0] == b[0] && a.drop_first() == b.drop_first() {
            assert(a =~= seq![a[0]] + a.drop_first());
            assert(b =~= seq![b[0]] + b.drop_first());
        }
    } else if a.len() == 0 && b.len() == 0 {
        assert(a =~= b);
    }
}

/// Asked the other way round, the order of two values is reversed.
pub proof fn lemma_value_order_reversed(a: ValueView, b: ValueView)
    ensures
        value_order(b, a) == reversed(value_order(a, b)),
    decreases a, 0int,
{
    match (a, b) {
        (ValueView::String(x), ValueView::String(y)) => {
            lemma_bytes_order_reversed(encode_utf8(x), encode_utf8(y));
        },
        (ValueView::Bytes(x), ValueView::Bytes(y)) => {
            lemma_bytes_order_reversed(x, y);
        },
        (ValueView::Array(x), ValueView::Array(y)) => {
            lemma_items_order_reversed(x, y);
        },
        (ValueView::Object(x), ValueView::Object(y)) => {
            lemma_fields_order_reversed(x, y);
        },
        _ => {},
    }
}

/// Asked the other way round, the order of two runs of values is reversed.
pub proof fn lemma_items_order_reversed(a: Seq<ValueView>, b: Seq<ValueView>)
    ensures
        items_order(b, a) == reversed(items_order(a, b)),
    decreases a, 1int,
{
    if a.len() != 0 && b.len() != 0 {
        lemma_value_order_reversed(a[0], b[0]);
        lemma_items_order_reversed(a.drop_first(), b.drop_first());
    }
}

/// Asked the other way round, the order of two fields is reversed.
pub proof fn lemma_field_order_reversed(a: (Seq<char>, ValueView), b: (Seq<char>, ValueView))
    ensures
        field_order(b, a) == reversed(field_order(a, b)),
    decreases a, 0int,
{
    lemma_bytes_order_reversed(encode_utf8(a.0), encode_utf8(b.0));
    lemma_value_order_reversed(a.1, b.1);
}

/// Asked the other way round, the order of two runs of fields is reversed.
pub proof fn lemma_fields_order_reversed(
    a: Seq<(Seq<char>, ValueView)>,
    b: Seq<(Seq<char>, ValueView)>,
)
    ensures
        fields_order(b, a) == reversed(fields_order(a, b)),
    decreases a, 1int,
{
    if a.len() != 0 && b.len() != 0 {
        lemma_field_order_reversed(a[0], b[0]);
        lemma_fields_order_reversed(a.drop_first(), b.drop_first());
    }
}

/// What stands before a value that stands before a third stands before the third.
pub proof fn lemma_value_order_transitive(a: ValueView, b: ValueView, c: ValueView)
    requires
        value_order(a, b) == Order::Before,
        value_order(b, c) == Order::Before,
    ensures
        value_order(a, c) == Order::Before,
    decreases a, 0int,
{
    match (a, b, c) {
        (ValueView::String(x), ValueView::String(y), ValueView::String(z)) => {
            lemma_bytes_order_transitive(encode_utf8(x), encode_utf8(y), encode_utf8(z));
        },
        (ValueView::Bytes(x), ValueView::Bytes(y), ValueView::Bytes(z)) => {
            lemma_bytes_order_transitive(x, y, z);
        },
        (ValueView::Array(x), ValueView::Array(y), ValueView::Array(z)) => {
            lemma_items_order_transitive(x, y, z);
        },
        (ValueView::Object(x), ValueView::Object(y), ValueView::Object(z)) => {
            lemma_fields_order_transitive(x, y, z);
        },
        _ => {},
    }
}

/// The same, of runs of values.
pub proof fn lemma_items_order_transitive(
    a: Seq<ValueView>,
    b: Seq<ValueView>,
    c: Seq<ValueView>,
)
    requires
        items_order(a, b) == Order::Before,
        items_order(b, c) == Order::Before,
    ensures
        items_order(a, c) == Order::Before,
    decreases a, 1int,
{
    if a.len() != 0 && b.len() != 0 && c.len() != 0 {
        let first = value_order(a[0], b[0]);
        let second = value_order(b[0], c[0]);
        lemma_value_order_same(a[0], b[0]);
        lemma_value_order_same(b[0], c[0]);
        lemma_value_order_same(a[0], c[0]);
        if first == Order::Before && second == Order::Before {
            lemma_value_order_transitive(a[0], b[0], c[0]);
        } else if first == Order::Same && second == Order::Same {
            lemma_items_order_transitive(a.drop_first(), b.drop_first(), c.drop_first());
        }
    }
}

/// The same, of fields.
pub proof fn lemma_field_order_transitive(
    a: (Seq<char>, ValueView),
    b: (Seq<char>, ValueView),
    c: (Seq<char>, ValueView),
)
    requires
        field_order(a, b) == Order::Before,
        field_order(b, c) == Order::Before,
    ensures
        field_order(a, c) == Order::Before,
    decreases a, 0int,
{
    let (x, y, z) = (encode_utf8(a.0), encode_utf8(b.0), encode_utf8(c.0));
    let first = bytes_order(x, y);
    let second = bytes_order(y, z);
    lemma_bytes_order_same(x, y);
    lemma_bytes_order_same(y, z);
    lemma_bytes_order_same(x, z);
    if first == Order::Before && second == Order::Before {
        lemma_bytes_order_transitive(x, y, z);
    } else if first == Order::Same && second == Order::Same {
        lemma_value_order_transitive(a.1, b.1, c.1);
    }
}

/// The same, of runs of fields.
pub proof fn lemma_fields_order_transitive(
    a: Seq<(Seq<char>, ValueView)>,
    b: Seq<(Seq<char>, ValueView)>,
    c: Seq<(Seq<char>, ValueView)>,
)
    requires
        fields_order(a, b) == Order::Before,
        fields_order(b, c) == Order::Before,
    ensures
        fields_order(a, c) == Order::Before,
    decreases a, 1int,
{
    if a.len() != 0 && b.len() != 0 && c.len() != 0 {
        let first = field_order(a[0], b[0]);
        let second = field_order(b[0], c[0]);
        lemma_field_order_same(a[0], b[0]);
        lemma_field_order_same(b[0], c[0]);
        lemma_field_order_same(a[0], c[0]);
        if first == Order::Before && second == Order::Before {
            lemma_field_order_transitive(a[0], b[0], c[0]);
        } else if first == Order::Same && second == Order::Same {
            lemma_fields_order_transitive(a.drop_first(), b.drop_first(), c.drop_first());
        }
    }
}

/// The order of two integers.
fn order_of_ints(a: u64, b: u64) -> (o: Order)
    ensures
        o == int_order(a as int, b as int),
{
    if a < b {
        Order::Before
    } else if a == b {
        Order::Same
    } else {
        Order::After
    }
}

/// The key of a number: see [`number_key`].
fn key_of_number(bits: u64) -> (key: u64)
    ensures
        key == number_key(bits),
{
    if bits & 0x8000_0000_0000_0000u64 != 0 {
        !bits
    } else {
        bits | 0x8000_0000_0000_0000u64
    }
}

/// The place of the kind of `v` among the kinds.
fn rank_of(v: &TaggedValue) -> (rank: u64)
    ensures
        rank == kind_rank(type_of(v@)),
{
    match v {
        TaggedValue::Number(_) => 1,
        TaggedValue::Boolean(_) => 2,
        TaggedValue::String(_) => 3,
        TaggedValue::Bytes(_) => 4,
        TaggedValue::Array(_) => 5,
        TaggedValue::Object(_) => 6,
        TaggedValue::Invalid => 7,
    }
}

/// The dictionary order of two runs of bytes.
pub fn order_of_bytes(a: &[u8], b: &[u8]) -> (o: Order)
    ensures
        o == bytes_order(a@, b@),
{
    let mut i: usize = 0;
    assert(a@.skip(0) =~= a@ && b@.skip(0) =~= b@);
    while i < a.len() && i < b.len()
        invariant
            i <= a.len(),
            i <= b.len(),
            bytes_order(a@, b@) == bytes_order(a@.skip(i as int), b@.skip(i as int)),
        decreases a.len() - i,
    {
        if a[i] != b[i] {
            return order_of_ints(a[i] as u64, b[i] as u64);
        }
        proof {
            assert(a@.skip(i as int).drop_first() =~= a@.skip(i + 1));
            assert(b@.skip(i as int).drop_first() =~= b@.skip(i + 1));
        }
        i += 1;
    }
    if i == a.len() {
        if i == b.len() {
            Order::Same
        } else {
            Order::Before
        }
    } else {
        Order::After
    }
}

/// Where `a` stands against `b` in the canonical order.
pub fn canonical_order(a: &TaggedValue, b: &TaggedValue) -> (o: Order)
    ensures
        o == value_order(a@, b@),
    decreases a,
{
    match (a, b) {
        (TaggedValue::Number(x), TaggedValue::Number(y)) => order_of_ints(
            key_of_number(*x),
            key_of_number(*y),
        ),
        (TaggedValue::Boolean(x), TaggedValue::Boolean(y)) => order_of_ints(
            if *x { 1 } else { 0 },
            if *y { 1 } else { 0 },
        ),
        (TaggedValue::String(x), TaggedValue::String(y)) => order_of_bytes(
            x.as_str().as_bytes(),
            y.as_str().as_bytes(),
        ),
        (TaggedValue::Bytes(x), TaggedValue::Bytes(y)) => order_of_bytes(
            x.as_slice(),
            y.as_slice(),
        ),
        (TaggedValue::Array(x), TaggedValue::Array(y)) => {
            let ghost xs = values_view(x@);
            let ghost ys = values_view(y@);
            proof {
                lemma_values_view(x@);
                lemma_values_view(y@);
                assert(xs.skip(0) =~= xs && ys.skip(0) =~= ys);
            }
            let mut i: usize = 0;
            while i < x.len() && i < y.len()
                invariant
                    i <= x.len(),
                    i <= y.len(),
                    xs.len() == x@.len(),
                    ys.len() == y@.len(),
                    forall|j: int| 0 <= j < x@.len() ==> (#[trigger] xs[j]) == x@[j]@,
                    forall|j: int| 0 <= j < y@.len() ==> (#[trigger] ys[j]) == y@[j]@,
                    value_order(a@, b@) == items_order(xs, ys),
                    items_order(xs, ys) == items_order(xs.skip(i as int), ys.skip(i as int)),
                    forall|j: int| 0 <= j < x@.len() ==> decreases_to!(a => #[trigger] x@[j]),
                decreases x.len() - i,
            {
                let decided = canonical_order(&x[i], &y[i]);
                proof {
                    assert(xs.skip(i as int).drop_first() =~= xs.skip(i + 1));
                    assert(ys.skip(i as int).drop_first() =~= ys.skip(i + 1));
                }
                match decided {
                    Order::Same => {},
                    _ => {
                        return decided;
                    },
                }
                i += 1;
            }
            if i == x.len() {
                if i == y.len() {
                    Order::Same
                } else {
                    Order::Before
                }
            } else {
                Order::After
            }
        },
        (TaggedValue::Object(x), TaggedValue::Object(y)) => {
            let ghost xs = fields_view(x@);
            let ghost ys = fields_view(y@);
            proof {
                lemma_fields_view(x@);
                lemma_fields_view(y@);
                assert(xs.skip(0) =~= xs && ys.skip(0) =~= ys);
            }
            let mut i: usize = 0;
            while i < x.len() && i < y.len()
                invariant
                    i <= x.len(),
                    i <= y.len(),
                    xs.len() == x@.len(),
                    ys.len() == y@.len(),
                    forall|j: int|
                        0 <= j < x@.len() ==> (#[trigger] xs[j]) == (x@[j].0@, x@[j].1@),
                    forall|j: int|
                        0 <= j < y@.len() ==> (#[trigger] ys[j]) == (y@[j].0@, y@[j].1@),
                    value_order(a@, b@) == fields_order(xs, ys),
                    fields_order(xs, ys) == fields_order(xs.skip(i as int), ys.skip(i as int)),
                    forall|j: int| 0 <= j < x@.len() ==> decreases_to!(a => #[trigger] x@[j]),
                decreases x.len() - i,
            {
                let by_name = order_of_bytes(
                    x[i].0.as_str().as_bytes(),
                    y[i].0.as_str().as_bytes(),
                );
                proof {
                    assert(xs.skip(i as int).drop_first() =~= xs.skip(i + 1));
                    assert(ys.skip(i as int).drop_first() =~= ys.skip(i + 1));
                    assert(field_order(xs[i as int], ys[i as int]) == match by_name {
                        Order::Same => value_order(x@[i as int].1@, y@[i as int].1@),
                        decided => decided,
                    });
                }
                match by_name {
                    Order::Same => {},
                    _ => {
                        return by_name;
                    },
                }
                let by_value = canonical_order(&x[i].1, &y[i].1);
                match by_value {
                    Order::Same => {},
                    _ => {
                        return by_value;
                    },
                }
                i += 1;
            }
            if i == x.len() {
                if i == y.len() {
                    Order::Same
                } else {
                    Order::Before
                }
            } else {
                Order::After
            }
        },
        _ => order_of_ints(rank_of(a), rank_of(b)),
    }
}

} // verus!
