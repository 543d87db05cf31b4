//! Objects as mappings: names in ascending order, each once, and the making of such
//! an object from fields in any order.

use crate::order::{
    bytes_order, lemma_bytes_order_reversed, lemma_bytes_order_same,
    lemma_bytes_order_transitive, order_of_bytes, reversed, Order,
};
use crate::value::{
    field_of, fields_view, lemma_fields_view, lemma_values_view, values_view, TaggedValue,
    ValueView,
};
use vstd::prelude::*;
use vstd::utf8::{encode_utf8, encode_utf8_decode_utf8};

verus! {

/// The order of two names: the dictionary order of their bytes.
pub open spec fn name_order(a: Seq<char>, b: Seq<char>) -> Order {
    bytes_order(encode_utf8(a), encode_utf8(b))
}

/// True when the name of the field at `i` stands before that of the field at `j`.
pub open spec fn name_before(fields: Seq<(Seq<char>, ValueView)>, i: int, j: int) -> bool {
    name_order(fields[i].0, fields[j].0) == Order::Before
}

/// True when the names of the fields ascend strictly: each name stands once, and
/// the fields stand in the order of their names.
pub open spec fn names_ascending(fields: Seq<(Seq<char>, ValueView)>) -> bool {
    forall|i: int, j: int| 0 <= i < j < fields.len() ==> #[trigger] name_before(fields, i, j)
}

/// True when every object in the value, at every depth, is a mapping: its names
/// ascend strictly.
pub open spec fn normal(v: ValueView) -> bool
    decreases v,
{
    match v {
        ValueView::Array(items) => forall|i: int|
            0 <= i < items.len() ==> normal(#[trigger] items[i]),
        ValueView::Object(fields) => names_ascending(fields) && forall|i: int|
            0 <= i < fields.len() ==> normal((#[trigger] fields[i]).1),
        _ => true,
    }
}

/// The value of the last of `fields` that has the name `name`.
pub open spec fn last_field_of(fields: Seq<(Seq<char>, ValueView)>, name: Seq<char>) -> Option<
    ValueView,
>
    decreases fields.len(),
{
    if fields.len() == 0 {
        None
    } else if fields.last().0 == name {
        Some(fields.last().1)
    } else {
        last_field_of(fields.drop_last(), name)
    }
}

/// True when `sorted` is the mapping that `given` describes: its names ascend, each
/// of its fields is one of those given, and under every name it holds what the last
/// field of that name gave.
pub open spec fn is_mapping_of(
    given: Seq<(Seq<char>, ValueView)>,
    sorted: Seq<(Seq<char>, ValueView)>,
) -> bool {
    &&& names_ascending(sorted)
    &&& forall|k: int| 0 <= k < sorted.len() ==> given.contains(#[trigger] sorted[k])
    &&& forall|name: Seq<char>| #[trigger] field_of(sorted, name) == last_field_of(given, name)
}

/// Two names stand at the same place only where they are one name, and asked the
/// other way round their order is reversed.
pub proof fn lemma_name_order(a: Seq<char>, b: Seq<char>)
    ensures
        name_order(a, b) == Order::Same <==> a == b,
        name_order(b, a) == reversed(name_order(a, b)),
{
    lemma_bytes_order_same(encode_utf8(a), encode_utf8(b));
    lemma_bytes_order_reversed(encode_utf8(a), encode_utf8(b));
    encode_utf8_decode_utf8(a);
    encode_utf8_decode_utf8(b);
}

/// The first field of a name gives the value of the name.
proof fn lemma_field_first(fields: Seq<(Seq<char>, ValueView)>, name: Seq<char>, at: int)
    requires
        0 <= at < fields.len(),
        fields[at].0 == name,
        forall|j: int| 0 <= j < at ==> (#[trigger] fields[j]).0 != name,
    ensures
        field_of(fields, name) == Some(fields[at].1),
    decreases fields.len(),
{
    if at != 0 {
        let tail = fields.drop_first();
        assert(fields[0].0 != name);
        assert forall|j: int| 0 <= j < at - 1 implies (#[trigger] tail[j]).0 != name by {
            assert(tail[j] == fields[j + 1]);
        }
        lemma_field_first(tail, name, at - 1);
    }
}

/// A field of another name, put in or put in the place of one of another name, does
/// not change what a name gives.
proof fn lemma_field_other(
    fields: Seq<(Seq<char>, ValueView)>,
    at: int,
    field: (Seq<char>, ValueView),
    name: Seq<char>,
)
    requires
        0 <= at <= fields.len(),
        field.0 != name,
    ensures
        field_of(fields.insert(at, field), name) == field_of(fields, name),
        at < fields.len() && fields[at].0 != name ==> field_of(fields.update(at, field), name)
            == field_of(fields, name),
    decreases fields.len(),
{
    let put = fields.insert(at, field);
    if at == 0 {
        assert(put.drop_first() =~= fields);
        if fields.len() != 0 {
            assert(fields.update(at, field).drop_first() =~= fields.drop_first());
        }
    } else {
        let tail = fields.drop_first();
        lemma_field_other(tail, at - 1, field, name);
        assert(put.drop_first() =~= tail.insert(at - 1, field));
        assert(put[0] == fields[0]);
        if at < fields.len() {
            assert(fields.update(at, field).drop_first() =~= tail.update(at - 1, field));
            assert(tail[at - 1] == fields[at]);
        }
    }
}

/// How a name that belongs at `p` among ascending names stands against each of them.
proof fn lemma_name_against(
    fields: Seq<(Seq<char>, ValueView)>,
    name: Seq<char>,
    p: int,
    j: int,
)
    requires
        names_ascending(fields),
        0 <= p <= fields.len(),
        forall|i: int| 0 <= i < p ==> name_order(name, (#[trigger] fields[i]).0) == Order::After,
        p < fields.len() ==> name_order(name, fields[p].0) == Order::Before,
        0 <= j < fields.len(),
    ensures
        name_order(fields[j].0, name) == (if j < p {
            Order::Before
        } else {
            Order::After
        }),
        name != fields[j].0,
{
    if j > p {
        assert(name_before(fields, p, j));
        lemma_bytes_order_transitive(
            encode_utf8(name),
            encode_utf8(fields[p].0),
            encode_utf8(fields[j].0),
        );
    }
    lemma_name_order(name, fields[j].0);
}

/// The field `field` takes the place of the field at `p`, which has its name.
proof fn lemma_mapping_replace(
    given: Seq<(Seq<char>, ValueView)>,
    sorted: Seq<(Seq<char>, ValueView)>,
    p: int,
    field: (Seq<char>, ValueView),
)
    requires
        is_mapping_of(given, sorted),
        0 <= p < sorted.len(),
        sorted[p].0 == field.0,
    ensures
        is_mapping_of(given.push(field), sorted.update(p, field)),
{
    let after = sorted.update(p, field);
    let more = given.push(field);
    assert(more.drop_last() =~= given);
    assert forall|i: int, j: int| 0 <= i < j < after.len() implies #[trigger] name_before(
        after,
        i,
        j,
    ) by {
        assert(name_before(sorted, i, j));
    }
    assert forall|k: int| 0 <= k < after.len() implies more.contains(#[trigger] after[k]) by {
        if k == p {
            assert(more[more.len() - 1] == field);
        } else {
            assert(given.contains(sorted[k]));
            let i = choose|i: int| 0 <= i < given.len() && given[i] == sorted[k];
            assert(more[i] == after[k]);
        }
    }
    assert forall|name: Seq<char>| #[trigger] field_of(after, name) == last_field_of(
        more,
        name,
    ) by {
        if name == field.0 {
            assert forall|j: int| 0 <= j < p implies (#[trigger] after[j]).0 != name by {
                assert(name_before(sorted, j, p));
                lemma_name_order(sorted[j].0, sorted[p].0);
            }
            lemma_field_first(after, name, p);
        } else {
            lemma_field_other(sorted, p, field, name);
            assert(field_of(sorted, name) == last_field_of(given, name));
        }
    }
}

/// The field `field` is put at `p`, where its name belongs.
proof fn lemma_mapping_insert(
    given: Seq<(Seq<char>, ValueView)>,
    sorted: Seq<(Seq<char>, ValueView)>,
    p: int,
    field: (Seq<char>, ValueView),
)
    requires
        is_mapping_of(given, sorted),
        0 <= p <= sorted.len(),
        forall|i: int| 0 <= i < p ==> name_order(field.0, (#[trigger] sorted[i]).0) == Order::After,
        p < sorted.len() ==> name_order(field.0, sorted[p].0) == Order::Before,
    ensures
        is_mapping_of(given.push(field), sorted.insert(p, field)),
{
    let after = sorted.insert(p, field);
    let more = given.push(field);
    assert(more.drop_last() =~= given);
    assert forall|i: int, j: int| 0 <= i < j < after.len() implies #[trigger] name_before(
        after,
        i,
        j,
    ) by {
        if i == p {
            assert(after[j] == sorted[j - 1]);
            lemma_name_against(sorted, field.0, p, j - 1);
            lemma_name_order(field.0, sorted[j - 1].0);
        } else if j == p {
            assert(after[i] == sorted[i]);
            lemma_name_against(sorted, field.0, p, i);
        } else {
            let oi = if i < p { i } else { i - 1 };
            let oj = if j < p { j } else { j - 1 };
            assert(after[i] == sorted[oi] && after[j] == sorted[oj]);
            assert(name_before(sorted, oi, oj));
        }
    }
    assert forall|k: int| 0 <= k < after.len() implies more.contains(#[trigger] after[k]) by {
        if k == p {
            assert(more[more.len() - 1] == field);
        } else {
            let ok = if k < p { k } else { k - 1 };
            assert(after[k] == sorted[ok]);
            assert(given.contains(sorted[ok]));
            let i = choose|i: int| 0 <= i < given.len() && given[i] == sorted[ok];
            assert(more[i] == after[k]);
        }
    }
    assert forall|name: Seq<char>| #[trigger] field_of(after, name) == last_field_of(
        more,
        name,
    ) by {
        if name == field.0 {
            assert forall|j: int| 0 <= j < p implies (#[trigger] after[j]).0 != name by {
                assert(after[j] == sorted[j]);
                lemma_name_against(sorted, field.0, p, j);
            }
            lemma_field_first(after, name, p);
        } else {
            lemma_field_other(sorted, p, field, name);
            assert(field_of(sorted, name) == last_field_of(given, name));
        }
    }
}

/// A mapping of fields whose values are normal is normal.
pub proof fn lemma_mapping_normal(
    given: Seq<(Seq<char>, ValueView)>,
    sorted: Seq<(Seq<char>, ValueView)>,
)
    requires
        is_mapping_of(given, sorted),
        forall|i: int| 0 <= i < given.len() ==> normal((#[trigger] given[i]).1),
    ensures
        normal(ValueView::Object(sorted)),
{
    assert forall|k: int| 0 <= k < sorted.len() implies normal((#[trigger] sorted[k]).1) by {
        assert(given.contains(sorted[k]));
        let i = choose|i: int| 0 <= i < given.len() && given[i] == sorted[k];
        assert(normal(given[i].1));
    }
}

/// Where `name` belongs among fields with ascending names: the place of the field
/// that has it, or the place where a field for it is to be put.
fn locate_name(sorted: &Vec<(String, TaggedValue)>, name: &String) -> (place: (usize, bool))
    ensures
        place.0 <= sorted@.len(),
        forall|j: int|
            0 <= j < place.0 ==> name_order(name@, (#[trigger] sorted@[j]).0@) == Order::After,
        place.1 ==> place.0 < sorted@.len() && sorted@[place.0 as int].0@ == name@,
        !place.1 && place.0 < sorted@.len() ==> name_order(name@, sorted@[place.0 as int].0@)
            == Order::Before,
{
    let mut p: usize = 0;
    while p < sorted.len()
        invariant
            p <= sorted.len(),
            forall|j: int|
                0 <= j < p ==> name_order(name@, (#[trigger] sorted@[j]).0@) == Order::After,
        decreases sorted.len() - p,
    {
        match order_of_bytes(name.as_str().as_bytes(), sorted[p].0.as_str().as_bytes()) {
            Order::After => {},
            Order::Same => {
                proof {
                    lemma_name_order(name@, sorted@[p as int].0@);
                }
                return (p, true);
            },
            Order::Before => {
                return (p, false);
            },
        }
        p += 1;
    }
    (p, false)
}

/// A name stands before every name that follows it where it stands before the next.
proof fn lemma_ascending_pair(fields: Seq<(Seq<char>, ValueView)>, i: int, j: int)
    requires
        forall|k: int| 0 <= k < fields.len() - 1 ==> #[trigger] name_before(fields, k, k + 1),
        0 <= i < j < fields.len(),
    ensures
        name_before(fields, i, j),
    decreases j - i,
{
    if j > i + 1 {
        lemma_ascending_pair(fields, i, j - 1);
        assert(name_before(fields, j - 1, j - 1 + 1));
        lemma_bytes_order_transitive(
            encode_utf8(fields[i].0),
            encode_utf8(fields[j - 1].0),
            encode_utf8(fields[j].0),
        );
    } else {
        assert(name_before(fields, i, i + 1));
    }
}

impl TaggedValue {
    /// True when every object in the value, at every depth, is a mapping.
    pub fn is_normal(&self) -> (yes: bool)
        ensures
            yes == normal(self@),
        decreases self,
    {
        match self {
            TaggedValue::Array(items) => {
                let ghost models = values_view(items@);
                proof {
                    lemma_values_view(items@);
                }
                let mut i: usize = 0;
                while i < items.len()
                    invariant
                        i <= items.len(),
                        self@ == ValueView::Array(models),
                        models.len() == items@.len(),
                        forall|j: int| 0 <= j < items@.len() ==> (#[trigger] models[j]) == items@[j]@,
                        forall|j: int| 0 <= j < i ==> normal(#[trigger] models[j]),
                        forall|j: int|
                            0 <= j < items@.len() ==> decreases_to!(self => #[trigger] items@[j]),
                    decreases items.len() - i,
                {
                    if !items[i].is_normal() {
                        proof {
                            let v = ValueView::Array(models);
                            assert(v->Array_0 == models);
                            assert(normal(v) ==> normal(models[i as int]));
                        }
                        return false;
                    }
                    i += 1;
                }
                true
            },
            TaggedValue::Object(fields) => {
                let ghost models = fields_view(fields@);
                proof {
                    lemma_fields_view(fields@);
                }
                let mut i: usize = 0;
                while i < fields.len()
                    invariant
                        i <= fields.len(),
                        self@ == ValueView::Object(models),
                        models.len() == fields@.len(),
                        forall|j: int|
                            0 <= j < fields@.len() ==> (#[trigger] models[j]) == (
                                fields@[j].0@,
                                fields@[j].1@,
                            ),
                        forall|j: int| 0 <= j < i ==> normal((#[trigger] models[j]).1),
                        forall|k: int| 0 <= k < i - 1 ==> #[trigger] name_before(models, k, k + 1),
                        forall|j: int|
                            0 <= j < fields@.len() ==> decreases_to!(self => #[trigger] fields@[j]),
                    decreases fields.len() - i,
                {
                    if !fields[i].1.is_normal() {
                        assert(!normal(models[i as int].1));
                        return false;
                    }
                    if i > 0 {
                        match order_of_bytes(
                            fields[i - 1].0.as_str().as_bytes(),
                            fields[i].0.as_str().as_bytes(),
                        ) {
                            Order::Before => {},
                            _ => {
                                assert(!name_before(models, i - 1, i as int));
                                return false;
                            },
                        }
                    }
                    i += 1;
                }
                proof {
                    assert forall|a: int, b: int| 0 <= a < b < models.len() implies #[trigger] name_before(
                        models,
                        a,
                        b,
                    ) by {
                        lemma_ascending_pair(models, a, b);
                    }
                }
                true
            },
            _ => true,
        }
    }

    /// The object that `fields` describe, as a mapping: the names in ascending order,
    /// each once, with the value that the last field of the name gives.
    pub fn object(fields: Vec<(String, TaggedValue)>) -> (object: TaggedValue)
        ensures
            object@ matches ValueView::Object(sorted) && is_mapping_of(
                fields_view(fields@),
                sorted,
            ),
            (forall|i: int| 0 <= i < fields@.len() ==> normal((#[trigger] fields@[i]).1@))
                ==> normal(object@),
    {
        let ghost given = fields_view(fields@);
        let mut sorted: Vec<(String, TaggedValue)> = Vec::new();
        let mut i: usize = 0;
        proof {
            lemma_fields_view(fields@);
            lemma_fields_view(sorted@);
            assert(given.take(0) =~= Seq::<(Seq<char>, ValueView)>::empty());
            assert(fields_view(sorted@) =~= Seq::<(Seq<char>, ValueView)>::empty());
        }
        while i < fields.len()
            invariant
                i <= fields.len(),
                given == fields_view(fields@),
                given.len() == fields@.len(),
                forall|j: int|
                    0 <= j < fields@.len() ==> (#[trigger] given[j]) == (
                        fields@[j].0@,
                        fields@[j].1@,
                    ),
                is_mapping_of(given.take(i as int), fields_view(sorted@)),
            decreases fields.len() - i,
        {
            let name = fields[i].0.clone();
            let value = fields[i].1.clone();
            let ghost before = fields_view(sorted@);
            let ghost field = (name@, value@);
            proof {
                lemma_fields_view(sorted@);
                assert(given.take(i + 1) =~= given.take(i as int).push(field));
            }
            let (p, found) = locate_name(&sorted, &name);
            if found {
                proof {
                    lemma_mapping_replace(given.take(i as int), before, p as int, field);
                }
                sorted.set(p, (name, value));
                proof {
                    lemma_fields_view(sorted@);
                    assert(fields_view(sorted@) =~= before.update(p as int, field));
                }
            } else {
                proof {
                    assert forall|j: int| 0 <= j < p implies name_order(
                        field.0,
                        (#[trigger] before[j]).0,
                    ) == Order::After by {
                        assert(before[j].0 == sorted@[j].0@);
                    }
                    lemma_mapping_insert(given.take(i as int), before, p as int, field);
                }
                sorted.insert(p, (name, value));
                proof {
                    lemma_fields_view(sorted@);
                    assert(fields_view(sorted@) =~= before.insert(p as int, field));
                }
            }
            i += 1;
        }
        proof {
            assert(given.take(i as int) =~= given);
            if forall|i: int| 0 <= i < fields@.len() ==> normal((#[trigger] fields@[i]).1@) {
                assert forall|k: int| 0 <= k < given.len() implies normal(
                    (#[trigger] given[k]).1,
                ) by {
                    assert(normal(fields@[k].1@));
                }
                lemma_mapping_normal(given, fields_view(sorted@));
            }
        }
        TaggedValue::Object(sorted)
    }
}

} // verus!
