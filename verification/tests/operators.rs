use lightflus::dataflow::{
    get_function_name, get_operator_state_key, DataflowTask, FilterOperator, FlatMapOperator,
    KeyByOperator, MapOperator, OperatorImpl, ReduceOperator, RunnableTaskError,
};
use lightflus::event::{Entry, KeyedDataEvent};
use lightflus::graph::{Details, Func, OperatorInfo};
use lightflus::state::{MemoryStateManager, StateManager};
use lightflus::value::TaggedValue;

fn number(x: f64) -> TaggedValue {
    TaggedValue::Number(x.to_bits())
}

fn float_of(v: &TaggedValue) -> Option<f64> {
    match v {
        TaggedValue::Number(bits) => Some(f64::from_bits(*bits)),
        _ => None,
    }
}

fn string(s: &str) -> TaggedValue {
    TaggedValue::String(s.to_string())
}

fn entry_of(v: &TaggedValue) -> Entry {
    let mut entry = Entry::default();
    entry.data_type = v.get_type();
    entry.value = v.get_data();
    entry
}

fn func(code: &str) -> Option<Func> {
    Some(Func { function: code.to_string() })
}

fn unused_two(_a: &TaggedValue, _b: &TaggedValue) -> TaggedValue {
    TaggedValue::Invalid
}

#[test]
fn test_map_operator() {
    let op_info = OperatorInfo {
        operator_id: 0,
        host_addr: None,
        upstreams: Default::default(),
        details: Some(Details::Mapper(func(
            "function _operator_map_process(a) { return a+1 }",
        ))),
    };
    assert_eq!(get_function_name(&op_info), "_operator_map_process");

    let state_manager = MemoryStateManager::new();
    // a => a + 1
    let rt_engine = |a: &TaggedValue| match float_of(a) {
        Some(x) => number(x + 1.0),
        None => TaggedValue::Invalid,
    };

    let operator = MapOperator::new(&op_info, state_manager);
    let mut event = KeyedDataEvent::default();
    event.from_operator_id = 0;

    let val = number(1.0);
    let entry = entry_of(&val);

    event.data = vec![entry.clone(), entry.clone()];

    let result = operator.call_fn(&event, &rt_engine);
    assert!(result.is_ok());
    let new_events = result.expect("");
    assert_eq!(new_events.len(), 1);

    let val = number(2.0);
    let entry = entry_of(&val);
    assert_eq!(new_events[0].data.as_slice(), &[entry.clone(), entry.clone()]);
}

#[test]
fn test_filter_operator() {
    let op_info = OperatorInfo {
        operator_id: 0,
        host_addr: None,
        upstreams: Default::default(),
        details: Some(Details::Filter(func(
            "function _operator_filter_process(a) { return a === 1 }",
        ))),
    };
    assert_eq!(get_function_name(&op_info), "_operator_filter_process");

    let state_manager = MemoryStateManager::new();
    // a => a === 1
    let rt_engine = |a: &TaggedValue| TaggedValue::Boolean(float_of(a) == Some(1.0));

    let operator = FilterOperator::new(&op_info, state_manager);
    let mut event = KeyedDataEvent::default();
    event.from_operator_id = 0;

    let entry = entry_of(&number(1.0));
    let entry_1 = entry_of(&number(2.0));

    event.data = vec![entry.clone(), entry.clone(), entry_1];

    let result = operator.call_fn(&event, &rt_engine);

    {
        assert!(result.is_ok());
        let new_events = result.expect("");
        assert_eq!(new_events.len(), 1);

        assert_eq!(new_events[0].data, vec![entry.clone(), entry.clone()]);
    }
}

#[test]
fn test_keyby_operator() {
    let op_info = OperatorInfo {
        operator_id: 0,
        host_addr: None,
        upstreams: Default::default(),
        details: Some(Details::KeyBy(func(
            "function _operator_keyBy_process(a) { return a.foo }",
        ))),
    };
    assert_eq!(get_function_name(&op_info), "_operator_keyBy_process");

    let state_manager = MemoryStateManager::new();
    // a => a.foo
    let rt_engine = |a: &TaggedValue| match a {
        TaggedValue::Object(fields) => match fields.iter().find(|field| field.0 == "foo") {
            Some(field) => field.1.clone(),
            None => TaggedValue::Invalid,
        },
        _ => TaggedValue::Invalid,
    };
    let operator = KeyByOperator::new(&op_info, state_manager);

    let mut event = KeyedDataEvent::default();
    event.from_operator_id = 0;

    let val = TaggedValue::object(vec![
        ("foo".to_string(), string("bar")),
        ("foo2".to_string(), string("bar")),
    ]);
    let entry = entry_of(&val);

    let val = TaggedValue::object(vec![
        ("foo".to_string(), string("bar1")),
        ("foo2".to_string(), string("bar2")),
    ]);
    let entry_1 = entry_of(&val);

    event.data = vec![entry.clone(), entry.clone(), entry_1.clone()];

    let result = operator.call_fn(&event, &rt_engine);
    {
        assert!(result.is_ok());
        let events = result.unwrap();
        assert_eq!(events.len(), 2);
        assert!(events.iter().any(|event| {
            event.key.is_some() && event.key.as_ref().unwrap().to_value() == string("bar")
        }));
        assert!(events.iter().any(|event| {
            event.key.is_some() && event.key.as_ref().unwrap().to_value() == string("bar1")
        }));
        // "bar" stands before "bar1", and each group keeps its entries
        assert_eq!(events[0].key.as_ref().unwrap().to_value(), string("bar"));
        assert_eq!(events[0].data, vec![entry.clone(), entry.clone()]);
        assert_eq!(events[1].key.as_ref().unwrap().to_value(), string("bar1"));
        assert_eq!(events[1].data, vec![entry_1]);
    }
}

#[test]
fn test_reduce_operator() {
    let op_info = OperatorInfo {
        operator_id: 0,
        host_addr: None,
        upstreams: Default::default(),
        details: Some(Details::Reducer(func(
            "function _operator_reduce_process(accum, val) { return accum + val }",
        ))),
    };
    assert_eq!(get_function_name(&op_info), "_operator_reduce_process");

    let state_manager = MemoryStateManager::new();
    // (accum, val) => accum + val
    let rt_engine = |accum: &TaggedValue, val: &TaggedValue| match (float_of(accum), float_of(val))
    {
        (Some(x), Some(y)) => number(x + y),
        _ => TaggedValue::Invalid,
    };

    let mut operator = ReduceOperator::new(&op_info, state_manager);
    let mut event = KeyedDataEvent::default();
    event.from_operator_id = 0;

    let entry = entry_of(&number(1.0));
    let entry_1 = entry_of(&number(2.0));

    event.data = vec![entry.clone(), entry.clone(), entry_1];
    let result = operator.call_fn(&event, &rt_engine);

    {
        assert!(result.is_ok());
        let new_events = result.expect("");
        assert_eq!(new_events.len(), 1);
        let val = number(4.0);
        let entry = entry_of(&val);

        assert_eq!(new_events[0].data, vec![entry]);
        let state = operator
            .state_manager
            .get_keyed_state(&get_operator_state_key(operator.operator_id, "reduce"));
        assert_eq!(TaggedValue::from_vec(&state), val);
    }

    // with the state kept, a further entry is folded into it
    event.data = vec![entry_of(&number(3.0))];
    let new_events = operator.call_fn(&event, &rt_engine).expect("");
    assert_eq!(new_events[0].data, vec![entry_of(&number(7.0))]);
    let _ = unused_two;
}

#[test]
fn test_flatmap_operator() {
    let op_info = OperatorInfo {
        operator_id: 0,
        host_addr: None,
        upstreams: Default::default(),
        details: Some(Details::FlatMap(func(
            "function _operator_flatMap_process(v) { return [v, v, 2] }",
        ))),
    };
    assert_eq!(get_function_name(&op_info), "_operator_flatMap_process");

    let state_manager = MemoryStateManager::new();
    // v => [v, v, 2]
    let rt_engine = |v: &TaggedValue| TaggedValue::Array(vec![v.clone(), v.clone(), number(2.0)]);
    let operator = FlatMapOperator::new(&op_info, state_manager);

    let mut event = KeyedDataEvent::default();
    event.from_operator_id = 0;

    let entry = entry_of(&number(1.0));

    event.data = vec![entry.clone()];
    let result = operator.call_fn(&event, &rt_engine);

    {
        assert!(result.is_ok());
        let new_events = result.expect("");
        assert_eq!(new_events.len(), 1);
        let entry_1 = entry_of(&number(1.0));
        let entry_2 = entry_of(&number(1.0));
        let entry_3 = entry_of(&number(2.0));

        assert_eq!(new_events[0].data, vec![entry_1, entry_2, entry_3]);
    }
}

fn operator_info(details: Option<Details>) -> OperatorInfo {
    OperatorInfo { operator_id: 7, host_addr: None, upstreams: vec![], details }
}

fn event_of(values: &[TaggedValue]) -> KeyedDataEvent {
    let mut event = KeyedDataEvent::default();
    event.job_id.resource_id = "job".to_string();
    event.key = Some(entry_of(&string("k")));
    event.to_operator_id = Some(7);
    event.event_time = 11;
    event.process_time = 12;
    event.from_operator_id = 3;
    event.window = Some(lightflus::event::Window { start_time: 1, end_time: 9 });
    event.data = values.iter().map(entry_of).collect();
    event
}

fn with_data(event: &KeyedDataEvent, operator_id: u32, data: Vec<Entry>) -> KeyedDataEvent {
    let mut expected = event.clone();
    expected.data = data;
    expected.from_operator_id = operator_id;
    expected
}

fn plus_one(a: &TaggedValue) -> TaggedValue {
    match float_of(a) {
        Some(x) => number(x + 1.0),
        None => TaggedValue::Invalid,
    }
}

fn sum(a: &TaggedValue, b: &TaggedValue) -> TaggedValue {
    match (float_of(a), float_of(b)) {
        (Some(x), Some(y)) => number(x + y),
        _ => TaggedValue::Invalid,
    }
}

#[test]
fn map_keeps_the_event_and_stamps_its_id() {
    let operator = MapOperator::new(&operator_info(None), MemoryStateManager::new());
    let event = event_of(&[number(1.0), string("x"), number(-3.0)]);
    let sent = operator.call_fn(&event, &plus_one).unwrap();
    let expected = with_data(
        &event,
        7,
        vec![entry_of(&number(2.0)), entry_of(&TaggedValue::Invalid), entry_of(&number(-2.0))],
    );
    assert_eq!(sent, vec![expected]);
    assert_eq!(sent[0].data.len(), event.data.len());
    assert_eq!(sent[0].key, event.key);
}

#[test]
fn map_takes_a_missing_answer_as_invalid() {
    let operator = MapOperator::new(&operator_info(None), MemoryStateManager::new());
    let event = event_of(&[number(1.0), number(2.0), number(3.0)]);
    let sent = operator.apply(&event, &vec![number(5.0)]);
    let invalid = entry_of(&TaggedValue::Invalid);
    assert_eq!(sent, with_data(&event, 7, vec![entry_of(&number(5.0)), invalid.clone(), invalid]));
    // answers beyond the entries are not used
    let sent = operator.apply(&event_of(&[number(1.0)]), &vec![number(5.0), number(6.0)]);
    assert_eq!(sent.data, vec![entry_of(&number(5.0))]);
}

#[test]
fn operators_send_on_an_empty_event_for_an_empty_event() {
    let event = event_of(&[]);
    let map = MapOperator::new(&operator_info(None), MemoryStateManager::new());
    assert_eq!(map.call_fn(&event, &plus_one).unwrap(), vec![with_data(&event, 7, vec![])]);
    let filter = FilterOperator::new(&operator_info(None), MemoryStateManager::new());
    assert_eq!(filter.call_fn(&event, &plus_one).unwrap(), vec![with_data(&event, 7, vec![])]);
    let flat_map = FlatMapOperator::new(&operator_info(None), MemoryStateManager::new());
    assert_eq!(flat_map.call_fn(&event, &plus_one).unwrap(), vec![with_data(&event, 7, vec![])]);
    let key_by = KeyByOperator::new(&operator_info(None), MemoryStateManager::new());
    assert_eq!(key_by.call_fn(&event, &plus_one).unwrap(), vec![]);
    let mut reduce = ReduceOperator::new(&operator_info(None), MemoryStateManager::new());
    assert_eq!(
        reduce.call_fn(&event, &sum).unwrap(),
        vec![with_data(&event, 7, vec![entry_of(&TaggedValue::Invalid)])]
    );
}

#[test]
fn filter_drops_what_is_not_true() {
    let operator = FilterOperator::new(&operator_info(None), MemoryStateManager::new());
    let values = [number(1.0), number(2.0), number(3.0), number(4.0), number(5.0), number(6.0)];
    let event = event_of(&values);
    let answers = vec![
        TaggedValue::Boolean(true),
        TaggedValue::Boolean(false),
        number(1.0),
        string("true"),
        TaggedValue::Invalid,
        TaggedValue::Boolean(true),
    ];
    let sent = operator.apply(&event, &answers);
    assert_eq!(sent, with_data(&event, 7, vec![entry_of(&values[0]), entry_of(&values[5])]));
    // an entry without an answer is dropped
    let sent = operator.apply(&event, &vec![TaggedValue::Boolean(true)]);
    assert_eq!(sent.data, vec![entry_of(&values[0])]);
    // through the runtime: a function that answers with the value itself
    let echo = |v: &TaggedValue| v.clone();
    let sent = operator
        .call_fn(&event_of(&[number(1.0), TaggedValue::Boolean(true), TaggedValue::Boolean(false)]), &echo)
        .unwrap();
    assert_eq!(sent[0].data, vec![entry_of(&TaggedValue::Boolean(true))]);
}

#[test]
fn filter_keeps_the_order_of_what_stays() {
    let operator = FilterOperator::new(&operator_info(None), MemoryStateManager::new());
    let values: Vec<TaggedValue> = [5.0, 1.0, 4.0, 1.0, 3.0, 5.0].iter().map(|x| number(*x)).collect();
    let event = event_of(&values);
    let above_two = |v: &TaggedValue| TaggedValue::Boolean(float_of(v).unwrap() > 2.0);
    let sent = operator.call_fn(&event, &above_two).unwrap();
    let expected: Vec<Entry> = [5.0, 4.0, 3.0, 5.0].iter().map(|x| entry_of(&number(*x))).collect();
    assert_eq!(sent[0].data, expected);
}

#[test]
fn flat_map_joins_the_items_of_the_arrays() {
    let operator = FlatMapOperator::new(&operator_info(None), MemoryStateManager::new());
    let event = event_of(&[number(1.0), number(2.0), number(3.0), number(4.0)]);
    let answers = vec![
        TaggedValue::Array(vec![number(10.0), number(11.0)]),
        string("no array"),
        TaggedValue::Array(vec![]),
        TaggedValue::Array(vec![TaggedValue::Array(vec![number(1.0)])]),
    ];
    let sent = operator.apply(&event, &answers);
    assert_eq!(
        sent,
        with_data(
            &event,
            7,
            vec![
                entry_of(&number(10.0)),
                entry_of(&number(11.0)),
                entry_of(&TaggedValue::Array(vec![number(1.0)])),
            ]
        )
    );
    for answer in [TaggedValue::Invalid, number(1.0), TaggedValue::Boolean(true), TaggedValue::Object(vec![])] {
        let sent = operator.apply(&event_of(&[number(1.0)]), &vec![answer]);
        assert!(sent.data.is_empty());
    }
    assert!(operator.apply(&event, &vec![]).data.is_empty());
}

fn first_letter(v: &TaggedValue) -> TaggedValue {
    match v {
        TaggedValue::String(s) => match s.chars().next() {
            Some(c) => TaggedValue::String(c.to_string()),
            None => TaggedValue::Invalid,
        },
        _ => TaggedValue::Invalid,
    }
}

#[test]
fn key_by_parts_the_entries_by_key() {
    let operator = KeyByOperator::new(&operator_info(None), MemoryStateManager::new());
    let words = ["pear", "apple", "plum", "fig", "avocado", "", "peach", "apple"];
    let values: Vec<TaggedValue> = words.iter().map(|w| string(w)).collect();
    let event = event_of(&values);
    let sent = operator.call_fn(&event, &first_letter).unwrap();

    let group = |key: TaggedValue, members: &[&str]| {
        let mut expected = KeyedDataEvent::default();
        expected.from_operator_id = 7;
        expected.key = Some(entry_of(&key));
        expected.data = members.iter().map(|w| entry_of(&string(w))).collect();
        expected
    };
    assert_eq!(
        sent,
        vec![
            group(string("a"), &["apple", "avocado", "apple"]),
            group(string("f"), &["fig"]),
            group(string("p"), &["pear", "plum", "peach"]),
            group(TaggedValue::Invalid, &[""]),
        ]
    );

    // the keys are pairwise distinct, and the entries are those that came in
    for i in 0..sent.len() {
        for j in (i + 1)..sent.len() {
            assert_ne!(sent[i].key, sent[j].key);
        }
    }
    let mut all: Vec<Vec<u8>> = sent.iter().flat_map(|e| e.data.iter().map(|d| d.value.clone())).collect();
    let mut came: Vec<Vec<u8>> = event.data.iter().map(|d| d.value.clone()).collect();
    all.sort();
    came.sort();
    assert_eq!(all, came);
}

#[test]
fn key_by_orders_keys_of_all_kinds() {
    let operator = KeyByOperator::new(&operator_info(None), MemoryStateManager::new());
    let event = event_of(&[number(1.0), number(2.0), number(3.0), number(4.0), number(5.0)]);
    let keys = vec![
        TaggedValue::Invalid,
        string("s"),
        number(-1.0),
        TaggedValue::Boolean(true),
        number(-2.0),
    ];
    let sent = operator.apply(&event, &keys);
    let found: Vec<TaggedValue> = sent.iter().map(|e| e.key.as_ref().unwrap().to_value()).collect();
    assert_eq!(
        found,
        vec![number(-2.0), number(-1.0), TaggedValue::Boolean(true), string("s"), TaggedValue::Invalid]
    );
    // entries without a key of their own go with `Invalid`
    let sent = operator.apply(&event, &vec![number(0.0)]);
    assert_eq!(sent.len(), 2);
    assert_eq!(sent[0].data, vec![entry_of(&number(1.0))]);
    assert_eq!(sent[1].key, Some(entry_of(&TaggedValue::Invalid)));
    assert_eq!(sent[1].data.len(), 4);
}

#[test]
fn key_by_then_flat_map_keeps_the_entries() {
    let key_by = KeyByOperator::new(&operator_info(None), MemoryStateManager::new());
    let flat_map = FlatMapOperator::new(&operator_info(None), MemoryStateManager::new());
    let words = ["pear", "apple", "plum", "fig", "apple"];
    let values: Vec<TaggedValue> = words.iter().map(|w| string(w)).collect();
    let event = event_of(&values);
    let unit = |v: &TaggedValue| TaggedValue::Array(vec![v.clone()]);
    let mut all: Vec<Entry> = vec![];
    for grouped in key_by.call_fn(&event, &first_letter).unwrap() {
        let sent = flat_map.call_fn(&grouped, &unit).unwrap();
        assert_eq!(sent.len(), 1);
        assert_eq!(sent[0].data, grouped.data);
        all.extend(sent[0].data.iter().cloned());
    }
    let mut all: Vec<Vec<u8>> = all.into_iter().map(|e| e.value).collect();
    let mut came: Vec<Vec<u8>> = event.data.iter().map(|e| e.value.clone()).collect();
    all.sort();
    came.sort();
    assert_eq!(all, came);
}

#[test]
fn reduce_folds_from_the_left() {
    // a function for which the order of the fold shows
    let join = |a: &TaggedValue, b: &TaggedValue| match (a, b) {
        (TaggedValue::String(x), TaggedValue::String(y)) => string(&format!("({}{})", x, y)),
        _ => TaggedValue::Invalid,
    };
    let mut operator = ReduceOperator::new(&operator_info(None), MemoryStateManager::new());
    let event = event_of(&[string("a"), string("b"), string("c")]);
    let sent = operator.call_fn(&event, &join).unwrap();
    assert_eq!(sent, vec![with_data(&event, 7, vec![entry_of(&string("((ab)c)"))])]);
    let key = get_operator_state_key(7, "reduce");
    assert_eq!(key, b"reduce-7".to_vec());
    assert_eq!(operator.state_manager.get_keyed_state(&key), string("((ab)c)").get_data());
    // with state, every entry is folded into the state
    let event = event_of(&[string("d"), string("e")]);
    let sent = operator.call_fn(&event, &join).unwrap();
    assert_eq!(sent[0].data, vec![entry_of(&string("((((ab)c)d)e)"))]);
    // with state and no entry, the state is the result
    let sent = operator.call_fn(&event_of(&[]), &join).unwrap();
    assert_eq!(sent[0].data, vec![entry_of(&string("((((ab)c)d)e)"))]);
}

#[test]
fn reduce_with_one_entry_makes_no_call() {
    let never = |_: &TaggedValue, _: &TaggedValue| -> TaggedValue { panic!("no call is due") };
    let mut operator = ReduceOperator::new(&operator_info(None), MemoryStateManager::new());
    let sent = operator.call_fn(&event_of(&[number(5.0)]), &never).unwrap();
    assert_eq!(sent[0].data, vec![entry_of(&number(5.0))]);
}

#[test]
fn reduce_reads_state_that_encodes_nothing_as_invalid() {
    let mut store = MemoryStateManager::new();
    store.set_key_state(b"reduce-7", &[9, 9, 9]).unwrap();
    let mut operator = ReduceOperator::new(&operator_info(None), store);
    let sent = operator.call_fn(&event_of(&[number(1.0)]), &sum).unwrap();
    assert_eq!(sent[0].data, vec![entry_of(&TaggedValue::Invalid)]);
}

/// A store that keeps nothing and takes no write.
struct RefusingStore;

impl StateManager for RefusingStore {
    fn get_keyed_state(&self, _key: &[u8]) -> Vec<u8> {
        vec![]
    }

    fn set_key_state(
        &mut self,
        _key: &[u8],
        _value: &[u8],
    ) -> Result<(), lightflus::state::StateWriteError> {
        Err(lightflus::state::StateWriteError { message: "the store takes no write".to_string() })
    }
}

#[test]
fn reduce_reports_a_refused_write() {
    let mut operator = ReduceOperator::new(&operator_info(None), RefusingStore);
    let result = operator.call_fn(&event_of(&[number(1.0), number(2.0)]), &sum);
    assert_eq!(
        result,
        Err(RunnableTaskError::StateWriteFailed("the store takes no write".to_string()))
    );
}

#[test]
fn state_keys_name_the_operator() {
    assert_eq!(get_operator_state_key(0, "reduce"), b"reduce-0".to_vec());
    assert_eq!(get_operator_state_key(9, "reduce"), b"reduce-9".to_vec());
    assert_eq!(get_operator_state_key(10, "map"), b"map-10".to_vec());
    assert_eq!(get_operator_state_key(4294967295, "keyBy"), b"keyBy-4294967295".to_vec());
    assert_eq!(lightflus::dataflow::decimal_digits(1203), b"1203".to_vec());
}

#[test]
fn the_state_store_keeps_the_last_write() {
    let mut store = MemoryStateManager::new();
    assert_eq!(store.get_keyed_state(b"a"), Vec::<u8>::new());
    store.set_key_state(b"a", &[1]).unwrap();
    store.set_key_state(b"b", &[2, 2]).unwrap();
    store.set_key_state(b"a", &[3]).unwrap();
    assert_eq!(store.get_keyed_state(b"a"), vec![3]);
    assert_eq!(store.get_keyed_state(b"b"), vec![2, 2]);
    assert_eq!(store.get_keyed_state(b"c"), Vec::<u8>::new());
    store.set_key_state(b"", &[]).unwrap();
    assert_eq!(store.get_keyed_state(b""), Vec::<u8>::new());
    assert!(lightflus::state::same_bytes(b"ab", b"ab"));
    assert!(!lightflus::state::same_bytes(b"ab", b"abc"));
    assert!(!lightflus::state::same_bytes(b"ab", b"ac"));
}

#[test]
fn a_task_runs_the_operator_that_the_details_ask_for() {
    let code = "function f(a) { return a }";
    let cases = vec![
        (Details::Mapper(func(code)), "_operator_map_process"),
        (Details::Filter(func(code)), "_operator_filter_process"),
        (Details::KeyBy(func(code)), "_operator_keyBy_process"),
        (Details::Reducer(func(code)), "_operator_reduce_process"),
        (Details::FlatMap(func(code)), "_operator_flatMap_process"),
    ];
    for (details, name) in cases {
        let info = operator_info(Some(details));
        assert_eq!(get_function_name(&info), name);
        let task = DataflowTask::new(info, MemoryStateManager::new());
        assert_eq!(task.function, code);
        assert_eq!(task.function_name, name);
        assert!(!matches!(task.operator, OperatorImpl::Empty));
    }
    let without = vec![
        None,
        Some(Details::Source),
        Some(Details::Sink),
        Some(Details::Mapper(None)),
        Some(Details::Filter(None)),
        Some(Details::KeyBy(None)),
        Some(Details::Reducer(None)),
        Some(Details::FlatMap(None)),
    ];
    for details in without {
        let mut task = DataflowTask::new(operator_info(details), MemoryStateManager::new());
        assert!(matches!(task.operator, OperatorImpl::Empty));
        assert_eq!(task.function, "");
        assert_eq!(task.function_name, "");
        assert_eq!(
            task.process(&event_of(&[number(1.0)]), &plus_one, &sum),
            Err(RunnableTaskError::UnsupportedOperator)
        );
    }
    assert_eq!(get_function_name(&operator_info(None)), "");
    assert_eq!(get_function_name(&operator_info(Some(Details::Source))), "");
    assert_eq!(get_function_name(&operator_info(Some(Details::Mapper(None)))), "_operator_map_process");
}

#[test]
fn a_task_hands_the_event_to_its_operator() {
    let event = event_of(&[number(1.0), number(2.0)]);
    let mut map = DataflowTask::new(
        operator_info(Some(Details::Mapper(func("m")))),
        MemoryStateManager::new(),
    );
    assert_eq!(
        map.process(&event, &plus_one, &sum).unwrap(),
        vec![with_data(&event, 7, vec![entry_of(&number(2.0)), entry_of(&number(3.0))])]
    );
    let mut reduce = DataflowTask::new(
        operator_info(Some(Details::Reducer(func("r")))),
        MemoryStateManager::new(),
    );
    assert_eq!(
        reduce.process(&event, &plus_one, &sum).unwrap(),
        vec![with_data(&event, 7, vec![entry_of(&number(3.0))])]
    );
    assert_eq!(
        reduce.process(&event, &plus_one, &sum).unwrap()[0].data,
        vec![entry_of(&number(6.0))]
    );
}
