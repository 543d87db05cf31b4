use lightflus::event::Entry;
use lightflus::order::{canonical_order, order_of_bytes, Order};
use lightflus::value::{DataTypeEnum, TaggedValue};

fn number(x: f64) -> TaggedValue {
    TaggedValue::Number(x.to_bits())
}

fn string(s: &str) -> TaggedValue {
    TaggedValue::String(s.to_string())
}

fn sample_values() -> Vec<TaggedValue> {
    vec![
        TaggedValue::Invalid,
        number(0.0),
        number(-1.5),
        number(f64::MAX),
        TaggedValue::Boolean(true),
        TaggedValue::Boolean(false),
        string(""),
        string("bar"),
        string("h\u{e9}llo \u{4e16}\u{754c}"),
        TaggedValue::Bytes(vec![]),
        TaggedValue::Bytes(vec![0, 255, 3, 4]),
        TaggedValue::Array(vec![]),
        TaggedValue::Array(vec![number(1.0), string("x"), TaggedValue::Array(vec![TaggedValue::Invalid])]),
        TaggedValue::Object(vec![]),
        TaggedValue::Object(vec![
            ("foo".to_string(), string("bar")),
            ("n".to_string(), TaggedValue::Object(vec![("deep".to_string(), number(2.0))])),
        ]),
    ]
}

#[test]
fn encode_then_decode_gives_the_value_back() {
    for value in sample_values() {
        let bytes = value.get_data();
        assert_eq!(TaggedValue::from_slice(&bytes), value);
        assert_eq!(TaggedValue::from_vec(&bytes), value);
        assert_eq!(value.clone(), value);
    }
}

#[test]
fn entry_of_a_value_carries_the_value() {
    for value in sample_values() {
        let entry = Entry::from_value(&value);
        assert_eq!(entry.data_type, value.get_type());
        assert_eq!(entry.value, value.get_data());
        assert_eq!(entry.to_value(), value);
    }
}

#[test]
fn encodings_are_as_laid_out() {
    assert_eq!(TaggedValue::Invalid.get_data(), vec![0u8]);
    // 1.0 is 0x3ff0_0000_0000_0000, written from the low byte up
    assert_eq!(number(1.0).get_data(), vec![1u8, 0, 0, 0, 0, 0, 0, 0xf0, 0x3f]);
    assert_eq!(TaggedValue::Boolean(true).get_data(), vec![2u8, 1]);
    assert_eq!(TaggedValue::Boolean(false).get_data(), vec![2u8, 0]);
    assert_eq!(string("bar").get_data(), vec![3u8, b'b', b'a', b'r']);
    assert_eq!(TaggedValue::Bytes(vec![9, 8]).get_data(), vec![4u8, 9, 8]);
    assert_eq!(TaggedValue::Array(vec![]).get_data(), vec![5u8]);
    assert_eq!(
        TaggedValue::Array(vec![TaggedValue::Boolean(true), TaggedValue::Invalid]).get_data(),
        vec![5u8, 2, 0, 0, 0, 0, 0, 0, 0, 2, 1, 1, 0, 0, 0, 0, 0, 0, 0, 0]
    );
    assert_eq!(
        TaggedValue::Object(vec![("k".to_string(), TaggedValue::Boolean(false))]).get_data(),
        vec![6u8, 1, 0, 0, 0, 0, 0, 0, 0, b'k', 2, 0, 0, 0, 0, 0, 0, 0, 2, 0]
    );
}

#[test]
fn type_tags_are_one_byte_each() {
    let kinds = [
        (DataTypeEnum::Invalid, 0u8),
        (DataTypeEnum::Number, 1),
        (DataTypeEnum::Boolean, 2),
        (DataTypeEnum::String, 3),
        (DataTypeEnum::Bytes, 4),
        (DataTypeEnum::Array, 5),
        (DataTypeEnum::Object, 6),
    ];
    for (kind, tag) in kinds {
        assert_eq!(kind.to_byte(), tag);
        assert_eq!(DataTypeEnum::from_byte(tag), kind);
    }
    assert_eq!(DataTypeEnum::from_byte(7), DataTypeEnum::Invalid);
    assert_eq!(DataTypeEnum::from_byte(255), DataTypeEnum::Invalid);
    for value in sample_values() {
        assert_eq!(value.get_data()[0], value.get_type().to_byte());
    }
}

#[test]
fn bytes_that_encode_nothing_read_as_invalid() {
    let broken: Vec<Vec<u8>> = vec![
        vec![],
        vec![0, 0],
        vec![1, 1, 2, 3],
        vec![1, 0, 0, 0, 0, 0, 0, 0, 0, 0],
        vec![2],
        vec![2, 2],
        vec![2, 1, 1],
        vec![3, 0xff],
        vec![3, 0xc3],
        vec![5, 1, 0, 0],
        vec![5, 2, 0, 0, 0, 0, 0, 0, 0, 2],
        vec![5, 1, 0, 0, 0, 0, 0, 0, 0, 9],
        vec![6, 1, 0, 0, 0, 0, 0, 0, 0, b'k'],
        vec![6, 1, 0, 0, 0, 0, 0, 0, 0, 0xff, 1, 0, 0, 0, 0, 0, 0, 0, 0],
        vec![7],
        vec![200, 1, 2],
    ];
    for bytes in broken {
        assert_eq!(TaggedValue::from_slice(&bytes), TaggedValue::Invalid, "{:?}", bytes);
    }
}

#[test]
fn text_is_read_as_utf8() {
    assert_eq!(TaggedValue::from_slice(&[3, b'h', b'i']), string("hi"));
    assert_eq!(TaggedValue::from_slice(&[3, 0xc3, 0xa9]), string("\u{e9}"));
    assert_eq!(TaggedValue::from_slice(&[3]), string(""));
    // a field's name is read as text too
    assert_eq!(
        TaggedValue::from_slice(&[6, 2, 0, 0, 0, 0, 0, 0, 0, 0xc3, 0xa9, 1, 0, 0, 0, 0, 0, 0, 0, 0]),
        TaggedValue::Object(vec![("\u{e9}".to_string(), TaggedValue::Invalid)])
    );
}

#[test]
fn an_entry_of_the_wrong_kind_carries_invalid() {
    let mut entry = Entry::from_value(&number(1.0));
    assert_eq!(entry.to_value(), number(1.0));
    entry.data_type = DataTypeEnum::String;
    assert_eq!(entry.to_value(), TaggedValue::Invalid);
    let empty = Entry::default();
    assert_eq!(empty.data_type, DataTypeEnum::Invalid);
    assert!(empty.value.is_empty());
    assert_eq!(empty.to_value(), TaggedValue::Invalid);
}

#[test]
fn an_object_is_made_a_mapping() {
    let made = TaggedValue::object(vec![
        ("foo2".to_string(), string("bar2")),
        ("foo".to_string(), string("bar")),
        ("b".to_string(), number(1.0)),
        ("foo".to_string(), string("later")),
        ("".to_string(), TaggedValue::Invalid),
        ("Zed".to_string(), TaggedValue::Boolean(true)),
    ]);
    let expected = TaggedValue::Object(vec![
        ("".to_string(), TaggedValue::Invalid),
        ("Zed".to_string(), TaggedValue::Boolean(true)),
        ("b".to_string(), number(1.0)),
        ("foo".to_string(), string("later")),
        ("foo2".to_string(), string("bar2")),
    ]);
    assert_eq!(made, expected);
    assert_eq!(made.get("foo"), Some(&string("later")));
    assert_eq!(TaggedValue::object(vec![]), TaggedValue::Object(vec![]));
    // fields in another order make the same object, and so the same key
    let ab = TaggedValue::object(vec![("a".to_string(), number(1.0)), ("b".to_string(), number(2.0))]);
    let ba = TaggedValue::object(vec![("b".to_string(), number(2.0)), ("a".to_string(), number(1.0))]);
    assert_eq!(ab, ba);
    assert_eq!(canonical_order(&ab, &ba), Order::Same);
    assert_eq!(ab.get_data(), ba.get_data());
}

#[test]
fn a_value_tells_whether_its_objects_are_mappings() {
    let field = |name: &str, value: TaggedValue| (name.to_string(), value);
    assert!(number(1.0).is_normal());
    assert!(TaggedValue::Object(vec![]).is_normal());
    assert!(TaggedValue::Object(vec![field("a", number(1.0)), field("b", number(1.0))]).is_normal());
    assert!(!TaggedValue::Object(vec![field("b", number(1.0)), field("a", number(1.0))]).is_normal());
    assert!(!TaggedValue::Object(vec![field("a", number(1.0)), field("a", number(2.0))]).is_normal());
    let twisted = TaggedValue::Object(vec![field("b", number(1.0)), field("a", number(1.0))]);
    assert!(!TaggedValue::Array(vec![number(1.0), twisted.clone()]).is_normal());
    assert!(!TaggedValue::Object(vec![field("a", twisted.clone())]).is_normal());
    // the maker puts the names in order, and leaves the values as they are
    assert!(TaggedValue::object(vec![field("b", number(1.0)), field("a", number(1.0))]).is_normal());
    assert!(!TaggedValue::object(vec![field("a", twisted)]).is_normal());
    for value in sample_values() {
        assert!(value.is_normal());
    }
}

#[test]
fn a_field_is_found_by_its_name() {
    let object = TaggedValue::Object(vec![
        ("foo".to_string(), string("bar")),
        ("n".to_string(), number(2.0)),
        ("foo".to_string(), string("later")),
        ("".to_string(), TaggedValue::Invalid),
    ]);
    assert_eq!(object.get("foo"), Some(&string("bar")));
    assert_eq!(object.get("n"), Some(&number(2.0)));
    assert_eq!(object.get(""), Some(&TaggedValue::Invalid));
    assert_eq!(object.get("fo"), None);
    assert_eq!(object.get("foo2"), None);
    assert_eq!(TaggedValue::Object(vec![]).get("foo"), None);
    assert_eq!(TaggedValue::Array(vec![string("foo")]).get("foo"), None);
    assert_eq!(string("foo").get("foo"), None);
}

#[test]
fn numbers_stand_by_size() {
    let ascending = [
        f64::NEG_INFINITY,
        -1.0e300,
        -2.5,
        -1.0,
        -f64::MIN_POSITIVE,
        -0.0,
        0.0,
        f64::MIN_POSITIVE,
        1.0,
        1.5,
        2.0,
        1.0e300,
        f64::INFINITY,
    ];
    for i in 0..ascending.len() {
        for j in 0..ascending.len() {
            let expected = if i < j {
                Order::Before
            } else if i == j {
                Order::Same
            } else {
                Order::After
            };
            assert_eq!(
                canonical_order(&number(ascending[i]), &number(ascending[j])),
                expected,
                "{} against {}",
                ascending[i],
                ascending[j]
            );
        }
    }
}

#[test]
fn values_of_one_kind_stand_in_their_natural_order() {
    let f = TaggedValue::Boolean(false);
    let t = TaggedValue::Boolean(true);
    assert_eq!(canonical_order(&f, &t), Order::Before);
    assert_eq!(canonical_order(&t, &f), Order::After);
    assert_eq!(canonical_order(&t, &t), Order::Same);

    assert_eq!(canonical_order(&string("bar"), &string("bar1")), Order::Before);
    assert_eq!(canonical_order(&string("bar1"), &string("bar")), Order::After);
    assert_eq!(canonical_order(&string("bar"), &string("bar")), Order::Same);
    assert_eq!(canonical_order(&string("Zeta"), &string("alpha")), Order::Before);
    assert_eq!(canonical_order(&string(""), &string("a")), Order::Before);

    let blob = |b: &[u8]| TaggedValue::Bytes(b.to_vec());
    assert_eq!(canonical_order(&blob(&[1, 2]), &blob(&[1, 3])), Order::Before);
    assert_eq!(canonical_order(&blob(&[2]), &blob(&[1, 3])), Order::After);
    assert_eq!(canonical_order(&blob(&[]), &blob(&[])), Order::Same);
    assert_eq!(order_of_bytes(&[1, 2, 3], &[1, 2]), Order::After);
    assert_eq!(order_of_bytes(&[0], &[255]), Order::Before);

    let array = |items: Vec<TaggedValue>| TaggedValue::Array(items);
    assert_eq!(
        canonical_order(&array(vec![number(1.0)]), &array(vec![number(1.0), number(0.0)])),
        Order::Before
    );
    assert_eq!(
        canonical_order(&array(vec![number(2.0)]), &array(vec![number(1.0), number(0.0)])),
        Order::After
    );
    assert_eq!(
        canonical_order(&array(vec![string("a"), t.clone()]), &array(vec![string("a"), t.clone()])),
        Order::Same
    );

    let object = |fields: Vec<(&str, TaggedValue)>| {
        TaggedValue::Object(fields.into_iter().map(|(k, v)| (k.to_string(), v)).collect())
    };
    assert_eq!(
        canonical_order(&object(vec![("a", number(1.0))]), &object(vec![("b", number(0.0))])),
        Order::Before
    );
    assert_eq!(
        canonical_order(&object(vec![("a", number(1.0))]), &object(vec![("a", number(0.0))])),
        Order::After
    );
    assert_eq!(
        canonical_order(
            &object(vec![("a", number(1.0))]),
            &object(vec![("a", number(1.0)), ("b", f.clone())])
        ),
        Order::Before
    );
}

#[test]
fn values_of_different_kinds_stand_as_their_kinds_do() {
    let ascending = vec![
        number(1.0e9),
        TaggedValue::Boolean(false),
        string(""),
        TaggedValue::Bytes(vec![]),
        TaggedValue::Array(vec![]),
        TaggedValue::Object(vec![]),
        TaggedValue::Invalid,
    ];
    for i in 0..ascending.len() {
        for j in 0..ascending.len() {
            let expected = if i < j {
                Order::Before
            } else if i == j {
                Order::Same
            } else {
                Order::After
            };
            assert_eq!(canonical_order(&ascending[i], &ascending[j]), expected);
        }
    }
}

#[test]
fn the_order_is_reversed_and_carries_over() {
    let values = sample_values();
    for a in &values {
        for b in &values {
            let forth = canonical_order(a, b);
            let back = canonical_order(b, a);
            let reversed = match forth {
                Order::Before => Order::After,
                Order::Same => Order::Same,
                Order::After => Order::Before,
            };
            assert_eq!(back, reversed);
            assert_eq!(forth == Order::Same, a == b);
            for c in &values {
                if forth == Order::Before && canonical_order(b, c) == Order::Before {
                    assert_eq!(canonical_order(a, c), Order::Before);
                }
            }
        }
    }
}
