//! The operators: Map, Filter, FlatMap, KeyBy and Reduce. Each takes an event and the
//! scripting runtime's calls, and gives the events that it sends on.

use crate::event::{
    clone_entries, empty_event, entries_of, entries_view, entry_of, value_of, values_of, Entry,
    EntryView, KeyedDataEvent, KeyedDataEventView,
};
use crate::order::{
    canonical_order, lemma_value_order_reversed, lemma_value_order_same,
    lemma_value_order_transitive, value_order, Order,
};
use crate::graph::{Details, DetailsView, OperatorInfo, OperatorKind};
use crate::state::{state_at, StateManager};
use crate::value::{decode_value, encode_value, lemma_values_view, values_view, TaggedValue, ValueView};
use vstd::string::{StrSliceExecFns, StringSliceAdditionalSpecFns};
use vstd::multiset::Multiset;
use vstd::prelude::*;

verus! {

/// Why an operator could not process an event.
#[derive(Debug, PartialEq, Eq)]
pub enum RunnableTaskError {
    /// The operator has no function to run.
    UnsupportedOperator,
    /// The state store refused a write.
    StateWriteFailed(String),
}

/// The runtime's answer for the entry at `i`: a missing answer counts as `Invalid`.
pub open spec fn answer_at(results: Seq<ValueView>, i: int) -> ValueView {
    if 0 <= i < results.len() {
        results[i]
    } else {
        ValueView::Invalid
    }
}

/// `event` as the operator `operator_id` sends it on, with `data` in place of its entries.
pub open spec fn with_data(
    event: KeyedDataEventView,
    operator_id: u32,
    data: Seq<EntryView>,
) -> KeyedDataEventView {
    KeyedDataEventView { data, from_operator_id: operator_id, ..event }
}

/// True when `calls` records one call of the runtime for each of `entries`, in order:
/// the value that the entry carries went in, and what came back is an answer that the
/// runtime may give to it.
pub open spec fn answered<F: Fn(&TaggedValue) -> TaggedValue>(
    call_one: &F,
    entries: Seq<EntryView>,
    calls: Seq<(TaggedValue, TaggedValue)>,
) -> bool {
    &&& calls.len() == entries.len()
    &&& forall|i: int|
        0 <= i < calls.len() ==> (#[trigger] calls[i]).0@ == value_of(entries[i]) && call_ensures(
            *call_one,
            (&calls[i].0,),
            calls[i].1,
        )
}

/// What came back from each of `calls`.
pub open spec fn results_of(calls: Seq<(TaggedValue, TaggedValue)>) -> Seq<ValueView> {
    Seq::new(calls.len(), |i: int| calls[i].1@)
}

/// Calls the runtime once for each entry, in order, with the value that the entry carries.
fn evaluate<F: Fn(&TaggedValue) -> TaggedValue>(entries: &Vec<Entry>, call_one: &F) -> (out: (
    Vec<TaggedValue>,
    Ghost<Seq<(TaggedValue, TaggedValue)>>,
))
    requires
        forall|v: &TaggedValue| call_requires(*call_one, (v,)),
    ensures
        answered(call_one, entries_view(entries@), out.1@),
        values_view(out.0@) == results_of(out.1@),
        out.0@.len() == entries@.len(),
{
    let mut results: Vec<TaggedValue> = Vec::new();
    let ghost mut calls: Seq<(TaggedValue, TaggedValue)> = Seq::empty();
    let mut i: usize = 0;
    while i < entries.len()
        invariant
            i <= entries.len(),
            forall|v: &TaggedValue| call_requires(*call_one, (v,)),
            answered(call_one, entries_view(entries@).take(i as int), calls),
            results@.len() == i,
            forall|j: int| 0 <= j < i ==> (#[trigger] results@[j]) == calls[j].1,
        decreases entries.len() - i,
    {
        let argument = entries[i].to_value();
        let answer = call_one(&argument);
        proof {
            let before = calls;
            calls = calls.push((argument, answer));
            assert forall|j: int| 0 <= j < calls.len() implies (#[trigger] calls[j]).0@
                == value_of(entries_view(entries@).take(i + 1)[j]) && call_ensures(
                *call_one,
                (&calls[j].0,),
                calls[j].1,
            ) by {
                if j < i {
                    assert(calls[j] == before[j]);
                    assert(entries_view(entries@).take(i as int)[j] == entries_view(entries@)[j]);
                }
            }
        }
        results.push(answer);
        i += 1;
    }
    proof {
        assert(entries_view(entries@).take(i as int) =~= entries_view(entries@));
        lemma_values_view(results@);
        assert(values_view(results@) =~= results_of(calls));
    }
    (results, Ghost(calls))
}

/// True when each of the values is read back from the entry that carries it.
pub open spec fn read_back(values: Seq<ValueView>) -> bool {
    forall|j: int| 0 <= j < values.len() ==> value_of(entry_of(#[trigger] values[j])) == values[j]
}

/// The runtime's answers for `n` entries, a missing answer counted as `Invalid`.
pub open spec fn answers_for(n: nat, results: Seq<ValueView>) -> Seq<ValueView> {
    Seq::new(n, |i: int| answer_at(results, i))
}

/// What Map sends on: the entries that carry the runtime's answers, one for each entry
/// that came in, in the event that came in.
pub open spec fn map_output(
    operator_id: u32,
    event: KeyedDataEventView,
    results: Seq<ValueView>,
) -> KeyedDataEventView {
    with_data(
        event,
        operator_id,
        Seq::new(event.data.len(), |i: int| entry_of(answer_at(results, i))),
    )
}

/// Map: each entry is replaced by what the user's function makes of it.
pub struct MapOperator<S: StateManager> {
    pub state_manager: S,
    pub operator_id: u32,
}

impl<S: StateManager> MapOperator<S> {
    pub fn new(op_info: &OperatorInfo, state_manager: S) -> (operator: Self)
        ensures
            operator.operator_id == op_info.operator_id,
            operator.state_manager == state_manager,
    {
        MapOperator { state_manager, operator_id: op_info.operator_id }
    }

    /// The event that Map sends on, given the runtime's answer for each entry.
    pub fn apply(&self, event: &KeyedDataEvent, results: &Vec<TaggedValue>) -> (out: KeyedDataEvent)
        ensures
            out@ == map_output(self.operator_id, event@, values_view(results@)),
            read_back(answers_for(event@.data.len(), values_view(results@))),
    {
        let ghost answers = values_view(results@);
        proof {
            lemma_values_view(results@);
        }
        let mut data: Vec<Entry> = Vec::new();
        let mut i: usize = 0;
        while i < event.data.len()
            invariant
                i <= event.data.len(),
                answers == values_view(results@),
                answers.len() == results@.len(),
                forall|j: int| 0 <= j < results@.len() ==> (#[trigger] answers[j]) == results@[j]@,
                data@.len() == i,
                forall|j: int| 0 <= j < i ==> (#[trigger] data@[j])@ == entry_of(answer_at(answers, j)),
                forall|j: int|
                    0 <= j < i ==> value_of(entry_of(#[trigger] answer_at(answers, j)))
                        == answer_at(answers, j),
            decreases event.data.len() - i,
        {
            let entry = if i < results.len() {
                Entry::from_value(&results[i])
            } else {
                Entry::from_value(&TaggedValue::Invalid)
            };
            data.push(entry);
            i += 1;
        }
        let mut out = event.clone();
        out.data = data;
        out.from_operator_id = self.operator_id;
        assert(out@.data =~= map_output(self.operator_id, event@, answers).data);
        assert forall|j: int| 0 <= j < event@.data.len() implies value_of(
            entry_of(#[trigger] answers_for(event@.data.len(), answers)[j]),
        ) == answers_for(event@.data.len(), answers)[j] by {
            assert(value_of(entry_of(answer_at(answers, j))) == answer_at(answers, j));
        }
        out
    }

    /// Processes one event: asks the runtime about each entry, and sends on one event
    /// with the answers.
    pub fn call_fn<F: Fn(&TaggedValue) -> TaggedValue>(
        &self,
        event: &KeyedDataEvent,
        call_one: &F,
    ) -> (out: Result<Vec<KeyedDataEvent>, RunnableTaskError>)
        requires
            forall|v: &TaggedValue| call_requires(*call_one, (v,)),
        ensures
            out matches Ok(events) && events@.len() == 1 && exists|
                calls: Seq<(TaggedValue, TaggedValue)>,
            |
                answered(call_one, event@.data, calls) && events@[0]@ == map_output(
                    self.operator_id,
                    event@,
                    results_of(calls),
                ) && read_back(answers_for(event@.data.len(), results_of(calls))),
            out matches Ok(events) && events@[0]@.data.len() == event@.data.len()
                && events@[0]@.key == event@.key,
    {
        let (results, Ghost(calls)) = evaluate(&event.data, call_one);
        let sent = self.apply(event, &results);
        let mut events: Vec<KeyedDataEvent> = Vec::new();
        events.push(sent);
        Ok(events)
    }
}

/// True when the runtime's answer lets an entry through: only `true` does.
pub open spec fn passes(result: ValueView) -> bool {
    result == ValueView::Boolean(true)
}

/// The entries that Filter lets through: those whose answer is `true`, in the order
/// in which they came.
pub open spec fn kept(entries: Seq<EntryView>, results: Seq<ValueView>) -> Seq<EntryView>
    decreases entries.len(),
{
    if entries.len() == 0 {
        Seq::empty()
    } else {
        let before = kept(entries.drop_last(), results);
        if passes(answer_at(results, entries.len() - 1)) {
            before.push(entries.last())
        } else {
            before
        }
    }
}

/// What Filter sends on.
pub open spec fn filter_output(
    operator_id: u32,
    event: KeyedDataEventView,
    results: Seq<ValueView>,
) -> KeyedDataEventView {
    with_data(event, operator_id, kept(event.data, results))
}

/// True when `part` can be had from `whole` by leaving entries out.
pub open spec fn is_subsequence(part: Seq<EntryView>, whole: Seq<EntryView>) -> bool
    decreases whole.len(),
{
    if part.len() == 0 {
        true
    } else if whole.len() == 0 {
        false
    } else {
        (part.last() == whole.last() && is_subsequence(part.drop_last(), whole.drop_last()))
            || is_subsequence(part, whole.drop_last())
    }
}

/// What Filter lets through is part of what came in: no entry is added or changed, none
/// more often than it came, and those that stay keep their order.
pub proof fn lemma_filter_keeps_order(entries: Seq<EntryView>, results: Seq<ValueView>)
    ensures
        is_subsequence(kept(entries, results), entries),
        kept(entries, results).to_multiset().subset_of(entries.to_multiset()),
        kept(entries, results).len() <= entries.len(),
    decreases entries.len(),
{
    broadcast use vstd::seq_lib::group_to_multiset_ensures;

    if entries.len() != 0 {
        let shorter = entries.drop_last();
        lemma_filter_keeps_order(shorter, results);
        assert(entries =~= shorter.push(entries.last()));
        if passes(answer_at(results, entries.len() - 1)) {
            assert(kept(entries, results).drop_last() =~= kept(shorter, results));
        }
    }
}

/// Filter: lets through the entries of which the user's function says `true`.
pub struct FilterOperator<S: StateManager> {
    pub state_manager: S,
    pub operator_id: u32,
}

impl<S: StateManager> FilterOperator<S> {
    pub fn new(op_info: &OperatorInfo, state_manager: S) -> (operator: Self)
        ensures
            operator.operator_id == op_info.operator_id,
            operator.state_manager == state_manager,
    {
        FilterOperator { state_manager, operator_id: op_info.operator_id }
    }

    /// The event that Filter sends on, given the runtime's answer for each entry.
    pub fn apply(&self, event: &KeyedDataEvent, results: &Vec<TaggedValue>) -> (out: KeyedDataEvent)
        ensures
            out@ == filter_output(self.operator_id, event@, values_view(results@)),
    {
        let ghost answers = values_view(results@);
        let ghost entries = entries_view(event.data@);
        proof {
            lemma_values_view(results@);
        }
        let mut data: Vec<Entry> = Vec::new();
        let mut i: usize = 0;
        assert(entries.take(0) =~= Seq::<EntryView>::empty());
        while i < event.data.len()
            invariant
                i <= event.data.len(),
                entries == entries_view(event.data@),
                answers == values_view(results@),
                answers.len() == results@.len(),
                forall|j: int| 0 <= j < results@.len() ==> (#[trigger] answers[j]) == results@[j]@,
                entries_view(data@) == kept(entries.take(i as int), answers),
            decreases event.data.len() - i,
        {
            let keep = i < results.len() && match &results[i] {
                TaggedValue::Boolean(flag) => *flag,
                _ => false,
            };
            proof {
                assert(entries.take(i + 1).drop_last() =~= entries.take(i as int));
                assert(keep == passes(answer_at(answers, i as int)));
            }
            if keep {
                let ghost before = entries_view(data@);
                data.push(event.data[i].clone());
                assert(entries_view(data@) =~= before.push(entries[i as int]));
            }
            i += 1;
        }
        assert(entries.take(i as int) =~= entries);
        let mut out = event.clone();
        out.data = data;
        out.from_operator_id = self.operator_id;
        out
    }

    /// Processes one event: asks the runtime about each entry, and sends on one event
    /// with the entries that pass.
    pub fn call_fn<F: Fn(&TaggedValue) -> TaggedValue>(
        &self,
        event: &KeyedDataEvent,
        call_one: &F,
    ) -> (out: Result<Vec<KeyedDataEvent>, RunnableTaskError>)
        requires
            forall|v: &TaggedValue| call_requires(*call_one, (v,)),
        ensures
            out matches Ok(events) && events@.len() == 1 && exists|
                calls: Seq<(TaggedValue, TaggedValue)>,
            |
                answered(call_one, event@.data, calls) && events@[0]@ == filter_output(
                    self.operator_id,
                    event@,
                    results_of(calls),
                ),
            out matches Ok(events) && is_subsequence(events@[0]@.data, event@.data)
                && events@[0]@.data.to_multiset().subset_of(event@.data.to_multiset()),
    {
        let (results, Ghost(calls)) = evaluate(&event.data, call_one);
        let sent = self.apply(event, &results);
        proof {
            lemma_filter_keeps_order(event@.data, results_of(calls));
        }
        let mut events: Vec<KeyedDataEvent> = Vec::new();
        events.push(sent);
        Ok(events)
    }
}

/// What one answer of the runtime adds to what FlatMap sends on: the items of an
/// array, and nothing for any other answer.
pub open spec fn elements_of(result: ValueView) -> Seq<ValueView> {
    match result {
        ValueView::Array(items) => items,
        _ => Seq::empty(),
    }
}

/// The items of the answers for the first `n` entries, one answer after the other.
pub open spec fn expanded(n: nat, results: Seq<ValueView>) -> Seq<ValueView>
    decreases n,
{
    if n == 0 {
        Seq::empty()
    } else {
        expanded((n - 1) as nat, results) + elements_of(answer_at(results, n - 1))
    }
}

/// What FlatMap sends on.
pub open spec fn flat_map_output(
    operator_id: u32,
    event: KeyedDataEventView,
    results: Seq<ValueView>,
) -> KeyedDataEventView {
    with_data(event, operator_id, entries_of(expanded(event.data.len(), results)))
}

/// FlatMap: each entry is replaced by the items of the array that the user's function
/// makes of it.
pub struct FlatMapOperator<S: StateManager> {
    pub state_manager: S,
    pub operator_id: u32,
}

impl<S: StateManager> FlatMapOperator<S> {
    pub fn new(op_info: &OperatorInfo, state_manager: S) -> (operator: Self)
        ensures
            operator.operator_id == op_info.operator_id,
            operator.state_manager == state_manager,
    {
        FlatMapOperator { state_manager, operator_id: op_info.operator_id }
    }

    /// The event that FlatMap sends on, given the runtime's answer for each entry.
    pub fn apply(&self, event: &KeyedDataEvent, results: &Vec<TaggedValue>) -> (out: KeyedDataEvent)
        ensures
            out@ == flat_map_output(self.operator_id, event@, values_view(results@)),
            read_back(expanded(event@.data.len(), values_view(results@))),
    {
        let ghost answers = values_view(results@);
        proof {
            lemma_values_view(results@);
        }
        let mut data: Vec<Entry> = Vec::new();
        let mut i: usize = 0;
        assert(entries_view(data@) =~= entries_of(expanded(0, answers)));
        while i < event.data.len()
            invariant
                i <= event.data.len(),
                answers == values_view(results@),
                answers.len() == results@.len(),
                forall|j: int| 0 <= j < results@.len() ==> (#[trigger] answers[j]) == results@[j]@,
                entries_view(data@) == entries_of(expanded(i as nat, answers)),
                read_back(expanded(i as nat, answers)),
            decreases event.data.len() - i,
        {
            let ghost done = expanded(i as nat, answers);
            if i < results.len() {
                match &results[i] {
                    TaggedValue::Array(items) => {
                        let ghost models = values_view(items@);
                        proof {
                            lemma_values_view(items@);
                            assert(done + models.take(0) =~= done);
                        }
                        let mut j: usize = 0;
                        while j < items.len()
                            invariant
                                j <= items.len(),
                                models == values_view(items@),
                                models.len() == items@.len(),
                                forall|k: int|
                                    0 <= k < items@.len() ==> (#[trigger] models[k]) == items@[k]@,
                                entries_view(data@) == entries_of(done + models.take(j as int)),
                                read_back(done + models.take(j as int)),
                            decreases items.len() - j,
                        {
                            let ghost before = entries_view(data@);
                            data.push(Entry::from_value(&items[j]));
                            proof {
                                assert(done + models.take(j + 1) =~= (done + models.take(
                                    j as int,
                                )).push(models[j as int]));
                                assert(entries_view(data@) =~= before.push(
                                    entry_of(models[j as int]),
                                ));
                                assert(entries_view(data@) =~= entries_of(
                                    done + models.take(j + 1),
                                ));
                                assert forall|k: int|
                                    0 <= k < (done + models.take(j + 1)).len() implies value_of(
                                    entry_of(#[trigger] (done + models.take(j + 1))[k]),
                                ) == (done + models.take(j + 1))[k] by {
                                    if k < (done + models.take(j as int)).len() {
                                        assert((done + models.take(j + 1))[k] == (done
                                            + models.take(j as int))[k]);
                                    }
                                }
                            }
                            j += 1;
                        }
                        assert(models.take(j as int) =~= models);
                    },
                    _ => {
                        assert(done + elements_of(answer_at(answers, i as int)) =~= done);
                    },
                }
            } else {
                assert(done + elements_of(answer_at(answers, i as int)) =~= done);
            }
            i += 1;
        }
        let mut out = event.clone();
        out.data = data;
        out.from_operator_id = self.operator_id;
        out
    }

    /// Processes one event: asks the runtime about each entry, and sends on one event
    /// with the items of the arrays that came back.
    pub fn call_fn<F: Fn(&TaggedValue) -> TaggedValue>(
        &self,
        event: &KeyedDataEvent,
        call_one: &F,
    ) -> (out: Result<Vec<KeyedDataEvent>, RunnableTaskError>)
        requires
            forall|v: &TaggedValue| call_requires(*call_one, (v,)),
        ensures
            out matches Ok(events) && events@.len() == 1 && exists|
                calls: Seq<(TaggedValue, TaggedValue)>,
            |
                answered(call_one, event@.data, calls) && events@[0]@ == flat_map_output(
                    self.operator_id,
                    event@,
                    results_of(calls),
                ) && read_back(expanded(event@.data.len(), results_of(calls))),
    {
        let (results, Ghost(calls)) = evaluate(&event.data, call_one);
        let sent = self.apply(event, &results);
        let mut events: Vec<KeyedDataEvent> = Vec::new();
        events.push(sent);
        Ok(events)
    }
}

/// The entries whose key is `key`, in the order in which they came.
pub open spec fn members(entries: Seq<EntryView>, keys: Seq<ValueView>, key: ValueView) -> Seq<
    EntryView,
>
    decreases entries.len(),
{
    if entries.len() == 0 {
        Seq::empty()
    } else {
        let before = members(entries.drop_last(), keys, key);
        if answer_at(keys, entries.len() - 1) == key {
            before.push(entries.last())
        } else {
            before
        }
    }
}

/// The event that KeyBy sends on for one key: a fresh event from this operator, with
/// the key's entry as its key.
pub open spec fn group_event(
    operator_id: u32,
    key: ValueView,
    data: Seq<EntryView>,
) -> KeyedDataEventView {
    KeyedDataEventView {
        key: Some(entry_of(key)),
        data,
        from_operator_id: operator_id,
        ..empty_event()
    }
}

/// True when the key at `i` stands before the key at `j` in the canonical order.
pub open spec fn stands_before(keys: Seq<ValueView>, i: int, j: int) -> bool {
    value_order(keys[i], keys[j]) == Order::Before
}

/// True when each key stands before all that follow it in the canonical order.
pub open spec fn strictly_ascending(keys: Seq<ValueView>) -> bool {
    forall|i: int, j: int| 0 <= i < j < keys.len() ==> #[trigger] stands_before(keys, i, j)
}

/// True when `key` is the key of one of the first `n` entries.
pub open spec fn occurs(keys: Seq<ValueView>, n: int, key: ValueView) -> bool {
    exists|i: int| 0 <= i < n && #[trigger] answer_at(keys, i) == key
}

/// True when `group_keys` holds the keys of the first `n` entries, each once, in the
/// canonical order.
pub open spec fn is_grouping(keys: Seq<ValueView>, n: int, group_keys: Seq<ValueView>) -> bool {
    &&& strictly_ascending(group_keys)
    &&& forall|i: int| 0 <= i < n ==> group_keys.contains(#[trigger] answer_at(keys, i))
    &&& forall|j: int| 0 <= j < group_keys.len() ==> occurs(keys, n, #[trigger] group_keys[j])
}

/// What KeyBy sends on, given the keys of the groups: for each, one event with the
/// entries of that key.
pub open spec fn key_by_output(
    operator_id: u32,
    entries: Seq<EntryView>,
    keys: Seq<ValueView>,
    group_keys: Seq<ValueView>,
) -> Seq<KeyedDataEventView> {
    Seq::new(
        group_keys.len(),
        |j: int| group_event(operator_id, group_keys[j], members(entries, keys, group_keys[j])),
    )
}

/// The models of a run of events.
pub open spec fn events_view(events: Seq<KeyedDataEvent>) -> Seq<KeyedDataEventView> {
    Seq::new(events.len(), |i: int| events[i]@)
}

/// Keys in strictly ascending order are pairwise distinct.
pub proof fn lemma_ascending_distinct(keys: Seq<ValueView>, i: int, j: int)
    requires
        strictly_ascending(keys),
        0 <= i < keys.len(),
        0 <= j < keys.len(),
        i != j,
    ensures
        keys[i] != keys[j],
{
    if i < j {
        assert(stands_before(keys, i, j));
        lemma_value_order_same(keys[i], keys[j]);
    } else {
        assert(stands_before(keys, j, i));
        lemma_value_order_same(keys[j], keys[i]);
    }
}

/// One more entry adds itself to the group of its key and to no other.
pub proof fn lemma_members_step(
    entries: Seq<EntryView>,
    keys: Seq<ValueView>,
    key: ValueView,
    n: int,
)
    requires
        0 <= n < entries.len(),
    ensures
        members(entries.take(n + 1), keys, key) == if answer_at(keys, n) == key {
            members(entries.take(n), keys, key).push(entries[n])
        } else {
            members(entries.take(n), keys, key)
        },
{
    assert(entries.take(n + 1).drop_last() =~= entries.take(n));
}

/// A key that none of the entries has has no members.
pub proof fn lemma_members_none(entries: Seq<EntryView>, keys: Seq<ValueView>, key: ValueView)
    requires
        forall|i: int| 0 <= i < entries.len() ==> #[trigger] answer_at(keys, i) != key,
    ensures
        members(entries, keys, key) == Seq::<EntryView>::empty(),
    decreases entries.len(),
{
    if entries.len() != 0 {
        lemma_members_none(entries.drop_last(), keys, key);
    }
}

/// What the groups hold after the first `n` entries: see [`is_grouping`] and [`members`].
#[verifier::opaque]
spec fn grouped(
    entries: Seq<EntryView>,
    keys: Seq<ValueView>,
    n: int,
    group_keys: Seq<ValueView>,
    group_data: Seq<Seq<EntryView>>,
) -> bool {
    &&& group_keys.len() == group_data.len()
    &&& is_grouping(keys, n, group_keys)
    &&& forall|j: int|
        0 <= j < group_keys.len() ==> #[trigger] group_data[j] == members(
            entries.take(n),
            keys,
            group_keys[j],
        )
}

/// The entry `n` joins the group at `p`, which has its key.
proof fn lemma_grouped_join(
    entries: Seq<EntryView>,
    keys: Seq<ValueView>,
    n: int,
    group_keys: Seq<ValueView>,
    group_data: Seq<Seq<EntryView>>,
    p: int,
)
    requires
        0 <= n < entries.len(),
        grouped(entries, keys, n, group_keys, group_data),
        0 <= p < group_keys.len(),
        group_keys[p] == answer_at(keys, n),
    ensures
        grouped(
            entries,
            keys,
            n + 1,
            group_keys,
            group_data.update(p, group_data[p].push(entries[n])),
        ),
{
    reveal(grouped);
    let after = group_data.update(p, group_data[p].push(entries[n]));
    assert forall|j: int| 0 <= j < group_keys.len() implies #[trigger] after[j] == members(
        entries.take(n + 1),
        keys,
        group_keys[j],
    ) by {
        lemma_members_step(entries, keys, group_keys[j], n);
        assert(group_data[j] == members(entries.take(n), keys, group_keys[j]));
        if j != p {
            lemma_ascending_distinct(group_keys, j, p);
        }
    }
    assert forall|i: int| 0 <= i < n + 1 implies group_keys.contains(
        #[trigger] answer_at(keys, i),
    ) by {
        if i == n {
            assert(group_keys[p] == answer_at(keys, n));
        }
    }
    assert forall|j: int| 0 <= j < group_keys.len() implies occurs(
        keys,
        n + 1,
        #[trigger] group_keys[j],
    ) by {
        assert(occurs(keys, n, group_keys[j]));
        let i = choose|i: int| 0 <= i < n && #[trigger] answer_at(keys, i) == group_keys[j];
        assert(0 <= i < n + 1 && answer_at(keys, i) == group_keys[j]);
    }
}

/// How a key that is put at `p` among ascending keys stands against each of them:
/// after those before `p`, before those from `p` on.
proof fn lemma_key_against(group_keys: Seq<ValueView>, key: ValueView, p: int, j: int)
    requires
        strictly_ascending(group_keys),
        0 <= p <= group_keys.len(),
        forall|i: int| 0 <= i < p ==> value_order(key, #[trigger] group_keys[i]) == Order::After,
        p < group_keys.len() ==> value_order(key, group_keys[p]) == Order::Before,
        0 <= j < group_keys.len(),
    ensures
        value_order(key, group_keys[j]) == (if j < p {
            Order::After
        } else {
            Order::Before
        }),
        value_order(group_keys[j], key) == (if j < p {
            Order::Before
        } else {
            Order::After
        }),
        key != group_keys[j],
{
    if j > p {
        assert(stands_before(group_keys, p, j));
        lemma_value_order_transitive(key, group_keys[p], group_keys[j]);
    }
    lemma_value_order_reversed(key, group_keys[j]);
    lemma_value_order_same(key, group_keys[j]);
}

/// A key put where it belongs among ascending keys leaves them ascending, and is none
/// of them.
#[verifier::rlimit(40)]
proof fn lemma_insert_ascending(group_keys: Seq<ValueView>, key: ValueView, p: int)
    requires
        strictly_ascending(group_keys),
        0 <= p <= group_keys.len(),
        forall|j: int| 0 <= j < p ==> value_order(key, #[trigger] group_keys[j]) == Order::After,
        p < group_keys.len() ==> value_order(key, group_keys[p]) == Order::Before,
    ensures
        strictly_ascending(group_keys.insert(p, key)),
        forall|j: int| 0 <= j < group_keys.len() ==> key != #[trigger] group_keys[j],
{
    let new_keys = group_keys.insert(p, key);
    assert forall|j: int| 0 <= j < group_keys.len() implies key != #[trigger] group_keys[j] by {
        lemma_key_against(group_keys, key, p, j);
    }
    assert forall|i: int, j: int| 0 <= i < j < new_keys.len() implies #[trigger] stands_before(
        new_keys,
        i,
        j,
    ) by {
        if i == p {
            assert(new_keys[i] == key);
            assert(new_keys[j] == group_keys[j - 1]);
            lemma_key_against(group_keys, key, p, j - 1);
        } else if j == p {
            assert(new_keys[j] == key);
            assert(new_keys[i] == group_keys[i]);
            lemma_key_against(group_keys, key, p, i);
        } else {
            let oi = if i < p { i } else { i - 1 };
            let oj = if j < p { j } else { j - 1 };
            assert(new_keys[i] == group_keys[oi] && new_keys[j] == group_keys[oj]);
            assert(stands_before(group_keys, oi, oj));
        }
    }
}

/// With the key of entry `n` added, the keys of the groups are those of the first
/// `n + 1` entries.
proof fn lemma_insert_covers(keys: Seq<ValueView>, n: int, group_keys: Seq<ValueView>, p: int)
    requires
        0 <= n,
        0 <= p <= group_keys.len(),
        forall|i: int| 0 <= i < n ==> group_keys.contains(#[trigger] answer_at(keys, i)),
        forall|j: int| 0 <= j < group_keys.len() ==> occurs(keys, n, #[trigger] group_keys[j]),
    ensures
        forall|i: int|
            0 <= i < n + 1 ==> group_keys.insert(p, answer_at(keys, n)).contains(
                #[trigger] answer_at(keys, i),
            ),
        forall|j: int|
            0 <= j < group_keys.len() + 1 ==> occurs(
                keys,
                n + 1,
                #[trigger] group_keys.insert(p, answer_at(keys, n))[j],
            ),
{
    let key = answer_at(keys, n);
    let new_keys = group_keys.insert(p, key);
    assert forall|i: int| 0 <= i < n + 1 implies new_keys.contains(
        #[trigger] answer_at(keys, i),
    ) by {
        if i == n {
            assert(new_keys[p] == key);
        } else {
            assert(group_keys.contains(answer_at(keys, i)));
            let j = choose|j: int| 0 <= j < group_keys.len() && group_keys[j] == answer_at(keys, i);
            let nj = if j < p { j } else { j + 1 };
            assert(new_keys[nj] == group_keys[j]);
        }
    }
    assert forall|j: int| 0 <= j < group_keys.len() + 1 implies occurs(
        keys,
        n + 1,
        #[trigger] new_keys[j],
    ) by {
        if j == p {
            assert(0 <= n < n + 1 && answer_at(keys, n) == new_keys[j]);
        } else {
            let oj = if j < p { j } else { j - 1 };
            assert(new_keys[j] == group_keys[oj]);
            assert(occurs(keys, n, group_keys[oj]));
            let i = choose|i: int| 0 <= i < n && #[trigger] answer_at(keys, i) == group_keys[oj];
            assert(0 <= i < n + 1 && answer_at(keys, i) == new_keys[j]);
        }
    }
}

/// The entry `n` opens a new group at `p`, where its key belongs.
#[verifier::rlimit(40)]
proof fn lemma_grouped_open(
    entries: Seq<EntryView>,
    keys: Seq<ValueView>,
    n: int,
    group_keys: Seq<ValueView>,
    group_data: Seq<Seq<EntryView>>,
    p: int,
)
    requires
        0 <= n < entries.len(),
        grouped(entries, keys, n, group_keys, group_data),
        0 <= p <= group_keys.len(),
        forall|j: int|
            0 <= j < p ==> value_order(answer_at(keys, n), #[trigger] group_keys[j])
                == Order::After,
        p < group_keys.len() ==> value_order(answer_at(keys, n), group_keys[p]) == Order::Before,
    ensures
        grouped(
            entries,
            keys,
            n + 1,
            group_keys.insert(p, answer_at(keys, n)),
            group_data.insert(p, seq![entries[n]]),
        ),
{
    reveal(grouped);
    let key = answer_at(keys, n);
    let new_keys = group_keys.insert(p, key);
    let new_data = group_data.insert(p, seq![entries[n]]);
    lemma_insert_ascending(group_keys, key, p);
    lemma_insert_covers(keys, n, group_keys, p);
    lemma_insert_data(entries, keys, n, group_keys, group_data, p);
}

/// With a group opened for the key of entry `n`, each group holds the members of its
/// key among the first `n + 1` entries.
proof fn lemma_insert_data(
    entries: Seq<EntryView>,
    keys: Seq<ValueView>,
    n: int,
    group_keys: Seq<ValueView>,
    group_data: Seq<Seq<EntryView>>,
    p: int,
)
    requires
        0 <= n < entries.len(),
        0 <= p <= group_keys.len(),
        group_keys.len() == group_data.len(),
        forall|j: int|
            0 <= j < group_keys.len() ==> #[trigger] group_data[j] == members(
                entries.take(n),
                keys,
                group_keys[j],
            ),
        forall|i: int| 0 <= i < n ==> group_keys.contains(#[trigger] answer_at(keys, i)),
        forall|j: int| 0 <= j < group_keys.len() ==> answer_at(keys, n) != #[trigger] group_keys[j],
    ensures
        forall|j: int|
            0 <= j < group_keys.len() + 1 ==> #[trigger] group_data.insert(p, seq![entries[n]])[j]
                == members(entries.take(n + 1), keys, group_keys.insert(p, answer_at(keys, n))[j]),
{
    let key = answer_at(keys, n);
    let new_keys = group_keys.insert(p, key);
    let new_data = group_data.insert(p, seq![entries[n]]);
    assert forall|i: int| 0 <= i < entries.take(n).len() implies #[trigger] answer_at(keys, i)
        != key by {
        assert(group_keys.contains(answer_at(keys, i)));
    }
    lemma_members_none(entries.take(n), keys, key);
    assert forall|j: int| 0 <= j < group_keys.len() + 1 implies #[trigger] new_data[j] == members(
        entries.take(n + 1),
        keys,
        new_keys[j],
    ) by {
        lemma_members_step(entries, keys, new_keys[j], n);
        if j == p {
            assert(new_data[j] =~= Seq::<EntryView>::empty().push(entries[n]));
        } else {
            let oj = if j < p { j } else { j - 1 };
            assert(new_keys[j] == group_keys[oj]);
            assert(new_data[j] == group_data[oj]);
        }
    }
}

/// The models of the keys of the groups.
spec fn group_keys_view(group_keys: Seq<TaggedValue>) -> Seq<ValueView> {
    Seq::new(group_keys.len(), |j: int| group_keys[j]@)
}

/// The models of the entries of the groups.
spec fn group_data_view(group_data: Seq<Vec<Entry>>) -> Seq<Seq<EntryView>> {
    Seq::new(group_data.len(), |j: int| entries_view(group_data[j]@))
}

/// Where `key` belongs among keys in ascending order: the place of the group that has
/// it, or the place where a group for it is to be opened.
fn locate(group_keys: &Vec<TaggedValue>, key: &TaggedValue) -> (place: (usize, bool))
    ensures
        place.0 <= group_keys@.len(),
        forall|j: int|
            0 <= j < place.0 ==> value_order(key@, (#[trigger] group_keys@[j])@) == Order::After,
        place.1 ==> place.0 < group_keys@.len() && group_keys@[place.0 as int]@ == key@,
        !place.1 && place.0 < group_keys@.len() ==> value_order(
            key@,
            group_keys@[place.0 as int]@,
        ) == Order::Before,
{
    let mut p: usize = 0;
    while p < group_keys.len()
        invariant
            p <= group_keys.len(),
            forall|j: int|
                0 <= j < p ==> value_order(key@, (#[trigger] group_keys@[j])@) == Order::After,
        decreases group_keys.len() - p,
    {
        match canonical_order(key, &group_keys[p]) {
            Order::After => {},
            Order::Same => {
                proof {
                    lemma_value_order_same(key@, group_keys@[p as int]@);
                }
                return (p, true);
            },
            Order::Before => {
                return (p, false);
            },
        }
        p += 1;
    }
    (p, false)
}

/// KeyBy: sorts the entries into groups by the key that the user's function gives each.
pub struct KeyByOperator<S: StateManager> {
    pub state_manager: S,
    pub operator_id: u32,
}

impl<S: StateManager> KeyByOperator<S> {
    pub fn new(op_info: &OperatorInfo, state_manager: S) -> (operator: Self)
        ensures
            operator.operator_id == op_info.operator_id,
            operator.state_manager == state_manager,
    {
        KeyByOperator { state_manager, operator_id: op_info.operator_id }
    }

    /// The events that KeyBy sends on, given the key that the runtime gave each entry:
    /// one event for each key, in the canonical order of the keys, each with the
    /// entries of its key in the order in which they came. The key of each event is
    /// carried by an entry from which it is read back.
    #[verifier::rlimit(40)]
    pub fn apply(&self, event: &KeyedDataEvent, results: &Vec<TaggedValue>) -> (out: Vec<
        KeyedDataEvent,
    >)
        ensures
            exists|group_keys: Seq<ValueView>|
                is_grouping(values_view(results@), event@.data.len() as int, group_keys)
                    && read_back(group_keys) && events_view(out@) == key_by_output(
                    self.operator_id,
                    event@.data,
                    values_view(results@),
                    group_keys,
                ),
    {
        let ghost keys = values_view(results@);
        let ghost entries = entries_view(event.data@);
        proof {
            lemma_values_view(results@);
        }
        let mut group_keys: Vec<TaggedValue> = Vec::new();
        let mut group_data: Vec<Vec<Entry>> = Vec::new();
        let mut i: usize = 0;
        proof {
            reveal(grouped);
        }
        while i < event.data.len()
            invariant
                i <= event.data.len(),
                entries == entries_view(event.data@),
                keys == values_view(results@),
                keys.len() == results@.len(),
                forall|j: int| 0 <= j < results@.len() ==> (#[trigger] keys[j]) == results@[j]@,
                group_keys@.len() == group_data@.len(),
                grouped(
                    entries,
                    keys,
                    i as int,
                    group_keys_view(group_keys@),
                    group_data_view(group_data@),
                ),
            decreases event.data.len() - i,
        {
            let key = if i < results.len() {
                results[i].clone()
            } else {
                TaggedValue::Invalid
            };
            assert(key@ == answer_at(keys, i as int));
            let entry = event.data[i].clone();
            let ghost old_keys = group_keys_view(group_keys@);
            let ghost old_data = group_data_view(group_data@);
            let (p, found) = locate(&group_keys, &key);
            if found {
                group_data[p].push(entry);
                proof {
                    lemma_grouped_join(entries, keys, i as int, old_keys, old_data, p as int);
                    assert(entries_view(group_data@[p as int]@) =~= old_data[p as int].push(
                        entries[i as int],
                    ));
                    assert(group_data_view(group_data@) =~= old_data.update(
                        p as int,
                        old_data[p as int].push(entries[i as int]),
                    ));
                }
            } else {
                let mut first: Vec<Entry> = Vec::new();
                first.push(entry);
                group_keys.insert(p, key);
                group_data.insert(p, first);
                proof {
                    assert forall|j: int| 0 <= j < p implies value_order(
                        answer_at(keys, i as int),
                        #[trigger] old_keys[j],
                    ) == Order::After by {
                    }
                    lemma_grouped_open(entries, keys, i as int, old_keys, old_data, p as int);
                    assert(group_keys_view(group_keys@) =~= old_keys.insert(p as int, key@));
                    assert(entries_view(first@) =~= seq![entries[i as int]]);
                    assert(group_data_view(group_data@) =~= old_data.insert(
                        p as int,
                        seq![entries[i as int]],
                    ));
                }
            }
            i += 1;
        }
        proof {
            assert(entries.len() == i);
            reveal(grouped);
        }
        let ghost keys_of_groups = group_keys_view(group_keys@);
        let mut out: Vec<KeyedDataEvent> = Vec::new();
        let mut j: usize = 0;
        while j < group_keys.len()
            invariant
                j <= group_keys.len(),
                group_keys@.len() == group_data@.len(),
                keys_of_groups == group_keys_view(group_keys@),
                grouped(
                    entries,
                    keys,
                    entries.len() as int,
                    keys_of_groups,
                    group_data_view(group_data@),
                ),
                out@.len() == j,
                forall|k: int|
                    0 <= k < j ==> (#[trigger] out@[k])@ == group_event(
                        self.operator_id,
                        keys_of_groups[k],
                        entries_view(group_data@[k]@),
                    ),
                forall|k: int|
                    0 <= k < j ==> value_of(entry_of(#[trigger] keys_of_groups[k]))
                        == keys_of_groups[k],
            decreases group_keys.len() - j,
        {
            let mut sent = KeyedDataEvent::default();
            sent.from_operator_id = self.operator_id;
            sent.key = Some(Entry::from_value(&group_keys[j]));
            sent.data = clone_entries(&group_data[j]);
            out.push(sent);
            j += 1;
        }
        proof {
            reveal(grouped);
            assert(entries.take(entries.len() as int) =~= entries);
            assert forall|k: int| 0 <= k < out@.len() implies events_view(out@)[k]
                == key_by_output(self.operator_id, entries, keys, keys_of_groups)[k] by {
                assert(group_data_view(group_data@)[k] == members(
                    entries.take(entries.len() as int),
                    keys,
                    keys_of_groups[k],
                ));
            }
            assert(events_view(out@) =~= key_by_output(
                self.operator_id,
                entries,
                keys,
                keys_of_groups,
            ));
            assert(is_grouping(keys, event@.data.len() as int, keys_of_groups));
            assert(read_back(keys_of_groups));
        }
        out
    }

    /// Processes one event: asks the runtime for the key of each entry, and sends on
    /// one event for each key.
    pub fn call_fn<F: Fn(&TaggedValue) -> TaggedValue>(
        &self,
        event: &KeyedDataEvent,
        call_one: &F,
    ) -> (out: Result<Vec<KeyedDataEvent>, RunnableTaskError>)
        requires
            forall|v: &TaggedValue| call_requires(*call_one, (v,)),
        ensures
            out matches Ok(events) && exists|
                calls: Seq<(TaggedValue, TaggedValue)>,
                group_keys: Seq<ValueView>,
            |
                answered(call_one, event@.data, calls) && is_grouping(
                    results_of(calls),
                    event@.data.len() as int,
                    group_keys,
                ) && read_back(group_keys) && events_view(events@) == key_by_output(
                    self.operator_id,
                    event@.data,
                    results_of(calls),
                    group_keys,
                ),
            out matches Ok(events) && total_data(events_view(events@))
                == event@.data.to_multiset(),
    {
        let (results, Ghost(calls)) = evaluate(&event.data, call_one);
        let events = self.apply(event, &results);
        proof {
            let group_keys = choose|group_keys: Seq<ValueView>|
                is_grouping(values_view(results@), event@.data.len() as int, group_keys)
                    && read_back(group_keys) && events_view(events@) == key_by_output(
                    self.operator_id,
                    event@.data,
                    values_view(results@),
                    group_keys,
                );
            lemma_key_by_partitions(self.operator_id, event@.data, results_of(calls), group_keys);
        }
        Ok(events)
    }
}

/// All the entries of a run of events, counted as often as they occur.
pub open spec fn total_data(events: Seq<KeyedDataEventView>) -> Multiset<EntryView>
    decreases events.len(),
{
    if events.len() == 0 {
        Multiset::empty()
    } else {
        total_data(events.drop_last()).add(events.last().data.to_multiset())
    }
}

/// The members of each of `group_keys`, counted together.
spec fn members_total(
    entries: Seq<EntryView>,
    keys: Seq<ValueView>,
    group_keys: Seq<ValueView>,
) -> Multiset<EntryView>
    decreases group_keys.len(),
{
    if group_keys.len() == 0 {
        Multiset::empty()
    } else {
        members_total(entries, keys, group_keys.drop_last()).add(
            members(entries, keys, group_keys.last()).to_multiset(),
        )
    }
}

/// The entries of what KeyBy sends on are the members of the groups.
proof fn lemma_total_data_of_groups(
    operator_id: u32,
    entries: Seq<EntryView>,
    keys: Seq<ValueView>,
    group_keys: Seq<ValueView>,
)
    ensures
        total_data(key_by_output(operator_id, entries, keys, group_keys)) == members_total(
            entries,
            keys,
            group_keys,
        ),
    decreases group_keys.len(),
{
    let events = key_by_output(operator_id, entries, keys, group_keys);
    if group_keys.len() != 0 {
        lemma_total_data_of_groups(operator_id, entries, keys, group_keys.drop_last());
        assert(events.drop_last() =~= key_by_output(
            operator_id,
            entries,
            keys,
            group_keys.drop_last(),
        ));
    }
}

/// The last entry is one more member of its own key, and of no other.
proof fn lemma_members_last(entries: Seq<EntryView>, keys: Seq<ValueView>, key: ValueView)
    requires
        entries.len() > 0,
    ensures
        members(entries, keys, key).to_multiset() == if answer_at(keys, entries.len() - 1) == key {
            members(entries.drop_last(), keys, key).to_multiset().insert(entries.last())
        } else {
            members(entries.drop_last(), keys, key).to_multiset()
        },
{
    broadcast use vstd::seq_lib::group_to_multiset_ensures;

}

/// True when no key occurs twice.
spec fn all_distinct(group_keys: Seq<ValueView>) -> bool
    decreases group_keys.len(),
{
    group_keys.len() == 0 || (!group_keys.drop_last().contains(group_keys.last()) && all_distinct(
        group_keys.drop_last(),
    ))
}

/// Keys in strictly ascending order are all distinct.
proof fn lemma_ascending_all_distinct(group_keys: Seq<ValueView>)
    requires
        strictly_ascending(group_keys),
    ensures
        all_distinct(group_keys),
    decreases group_keys.len(),
{
    if group_keys.len() != 0 {
        let shorter = group_keys.drop_last();
        assert(strictly_ascending(shorter)) by {
            assert forall|i: int, j: int| 0 <= i < j < shorter.len() implies #[trigger] stands_before(
                shorter,
                i,
                j,
            ) by {
                assert(shorter[i] == group_keys[i] && shorter[j] == group_keys[j]);
                assert(stands_before(group_keys, i, j));
            }
        }
        lemma_ascending_all_distinct(shorter);
        if shorter.contains(group_keys.last()) {
            let j = choose|j: int| 0 <= j < shorter.len() && shorter[j] == group_keys.last();
            assert(group_keys[j] == shorter[j]);
            lemma_ascending_distinct(group_keys, j, group_keys.len() - 1);
        }
    }
}

/// A key is among keys where it is the last of them or among the others.
proof fn lemma_contains_last(group_keys: Seq<ValueView>, key: ValueView)
    requires
        group_keys.len() > 0,
    ensures
        group_keys.contains(key) == (group_keys.drop_last().contains(key) || group_keys.last()
            == key),
{
    let shorter = group_keys.drop_last();
    if group_keys.contains(key) && group_keys.last() != key {
        let j = choose|j: int| 0 <= j < group_keys.len() && group_keys[j] == key;
        assert(shorter[j] == key);
    }
    if shorter.contains(key) {
        let j = choose|j: int| 0 <= j < shorter.len() && shorter[j] == key;
        assert(group_keys[j] == key);
    }
    if group_keys.last() == key {
        assert(group_keys[group_keys.len() - 1] == key);
    }
}

/// One more entry adds itself once to the members of distinct keys that hold its key,
/// and not at all to those of keys that do not.
#[verifier::rlimit(40)]
proof fn lemma_members_total_step(
    entries: Seq<EntryView>,
    keys: Seq<ValueView>,
    group_keys: Seq<ValueView>,
)
    requires
        entries.len() > 0,
        all_distinct(group_keys),
    ensures
        members_total(entries, keys, group_keys) == if group_keys.contains(
            answer_at(keys, entries.len() - 1),
        ) {
            members_total(entries.drop_last(), keys, group_keys).insert(entries.last())
        } else {
            members_total(entries.drop_last(), keys, group_keys)
        },
    decreases group_keys.len(),
{
    let key = answer_at(keys, entries.len() - 1);
    if group_keys.len() != 0 {
        let shorter = group_keys.drop_last();
        let last = group_keys.last();
        lemma_members_total_step(entries, keys, shorter);
        lemma_members_last(entries, keys, last);
        lemma_contains_last(group_keys, key);
        let before = members_total(entries.drop_last(), keys, shorter);
        let part = members(entries.drop_last(), keys, last).to_multiset();
        assert(members_total(entries.drop_last(), keys, group_keys) == before.add(part));
        if shorter.contains(key) {
            assert(before.insert(entries.last()).add(part) =~= before.add(part).insert(
                entries.last(),
            ));
        } else if last == key {
            assert(before.add(part.insert(entries.last())) =~= before.add(part).insert(
                entries.last(),
            ));
        }
    }
}

/// No entries, no members.
proof fn lemma_members_total_empty(keys: Seq<ValueView>, group_keys: Seq<ValueView>)
    ensures
        members_total(Seq::<EntryView>::empty(), keys, group_keys) == Multiset::<
            EntryView,
        >::empty(),
    decreases group_keys.len(),
{
    broadcast use vstd::seq_lib::group_to_multiset_ensures;

    if group_keys.len() != 0 {
        lemma_members_total_empty(keys, group_keys.drop_last());
        assert(members(Seq::<EntryView>::empty(), keys, group_keys.last()).to_multiset()
            =~= Multiset::<EntryView>::empty());
        assert(members_total(Seq::<EntryView>::empty(), keys, group_keys) =~= Multiset::<
            EntryView,
        >::empty());
    }
}

/// Where every entry's key is among distinct keys, the members of those keys are the
/// entries, each as often as it came.
proof fn lemma_members_total(
    entries: Seq<EntryView>,
    keys: Seq<ValueView>,
    group_keys: Seq<ValueView>,
)
    requires
        all_distinct(group_keys),
        forall|i: int| 0 <= i < entries.len() ==> group_keys.contains(#[trigger] answer_at(keys, i)),
    ensures
        members_total(entries, keys, group_keys) == entries.to_multiset(),
    decreases entries.len(),
{
    broadcast use vstd::seq_lib::group_to_multiset_ensures;

    if entries.len() == 0 {
        lemma_members_total_empty(keys, group_keys);
        assert(entries =~= Seq::<EntryView>::empty());
    } else {
        lemma_members_total_step(entries, keys, group_keys);
        lemma_members_total(entries.drop_last(), keys, group_keys);
        assert(entries =~= entries.drop_last().push(entries.last()));
        assert(group_keys.contains(answer_at(keys, entries.len() - 1)));
    }
}

/// KeyBy parts the entries: the keys of the events that it sends on are pairwise
/// distinct, and the entries of those events together are the entries that came in,
/// each as often as it came.
pub proof fn lemma_key_by_partitions(
    operator_id: u32,
    entries: Seq<EntryView>,
    keys: Seq<ValueView>,
    group_keys: Seq<ValueView>,
)
    requires
        is_grouping(keys, entries.len() as int, group_keys),
    ensures
        forall|i: int, j: int|
            0 <= i < j < group_keys.len() ==> #[trigger] group_keys[i] != #[trigger] group_keys[j],
        total_data(key_by_output(operator_id, entries, keys, group_keys))
            == entries.to_multiset(),
{
    assert forall|i: int, j: int| 0 <= i < j < group_keys.len() implies #[trigger] group_keys[i]
        != #[trigger] group_keys[j] by {
        lemma_ascending_distinct(group_keys, i, j);
    }
    lemma_total_data_of_groups(operator_id, entries, keys, group_keys);
    lemma_ascending_all_distinct(group_keys);
    lemma_members_total(entries, keys, group_keys);
}

/// The decimal digits of `n`, in ASCII.
pub open spec fn decimal(n: nat) -> Seq<u8>
    decreases n,
{
    if n < 10 {
        seq![(48 + n) as u8]
    } else {
        decimal(n / 10).push((48 + n % 10) as u8)
    }
}

/// The key under which an operator keeps its state: the operator's name, a hyphen,
/// and the operator's id in decimal digits.
pub open spec fn state_key(operator: Seq<u8>, operator_id: u32) -> Seq<u8> {
    operator + seq![45u8] + decimal(operator_id as nat)
}

/// The decimal digits of `n`, in ASCII.
pub fn decimal_digits(n: u32) -> (digits: Vec<u8>)
    ensures
        digits@ == decimal(n as nat),
    decreases n,
{
    if n < 10 {
        let mut digits: Vec<u8> = Vec::new();
        digits.push(48 + n as u8);
        assert(digits@ =~= decimal(n as nat));
        digits
    } else {
        let mut digits = decimal_digits(n / 10);
        digits.push(48 + (n % 10) as u8);
        digits
    }
}

/// The key under which the operator `operator_id`, of the kind named `operator`, keeps
/// its state.
pub fn get_operator_state_key(operator_id: u32, operator: &str) -> (key: Vec<u8>)
    ensures
        key@ == state_key(operator.spec_bytes(), operator_id),
{
    let mut key = operator.as_bytes_vec();
    key.push(45);
    let mut digits = decimal_digits(operator_id);
    key.append(&mut digits);
    key
}

/// The accumulator that Reduce starts from: what the state reads as, where there is
/// state; else the first value; else, with no value either, `Invalid`.
pub open spec fn reduce_start(state: Seq<u8>, values: Seq<ValueView>) -> ValueView {
    if state.len() != 0 {
        decode_value(state)
    } else if values.len() != 0 {
        values[0]
    } else {
        ValueView::Invalid
    }
}

/// The values that Reduce folds into the accumulator it starts from: all of them where
/// there is state, all but the first where there is none.
pub open spec fn reduce_rest(state: Seq<u8>, values: Seq<ValueView>) -> Seq<ValueView> {
    if state.len() == 0 && values.len() != 0 {
        values.drop_first()
    } else {
        values
    }
}

/// True when `steps` records the calls of one fold, in order: each call got the
/// accumulator that the call before it gave (the first got `start`) and the next of
/// `values`, and gave an answer that the runtime may give.
pub open spec fn folded<F: Fn(&TaggedValue, &TaggedValue) -> TaggedValue>(
    call_two: &F,
    start: ValueView,
    values: Seq<ValueView>,
    steps: Seq<(TaggedValue, TaggedValue, TaggedValue)>,
) -> bool {
    &&& steps.len() == values.len()
    &&& forall|i: int|
        0 <= i < steps.len() ==> {
            &&& (#[trigger] steps[i]).1@ == values[i]
            &&& steps[i].0@ == fold_end(start, steps.take(i))
            &&& call_ensures(*call_two, (&steps[i].0, &steps[i].1), steps[i].2)
        }
}

/// The accumulator at the end of a fold.
pub open spec fn fold_end(
    start: ValueView,
    steps: Seq<(TaggedValue, TaggedValue, TaggedValue)>,
) -> ValueView {
    if steps.len() == 0 {
        start
    } else {
        steps.last().2@
    }
}

/// True when the runtime's two-argument call always gives what `f` gives.
pub open spec fn computes<F: Fn(&TaggedValue, &TaggedValue) -> TaggedValue>(
    call_two: &F,
    f: spec_fn(ValueView, ValueView) -> ValueView,
) -> bool {
    forall|a: TaggedValue, b: TaggedValue, r: TaggedValue| #[trigger]
        call_ensures(*call_two, (&a, &b), r) ==> r@ == f(a@, b@)
}

/// Where the runtime computes a function, the accumulator at the end is the left fold
/// of that function over the values, from the accumulator at the start.
pub proof fn lemma_reduce_is_fold<F: Fn(&TaggedValue, &TaggedValue) -> TaggedValue>(
    call_two: &F,
    f: spec_fn(ValueView, ValueView) -> ValueView,
    start: ValueView,
    values: Seq<ValueView>,
    steps: Seq<(TaggedValue, TaggedValue, TaggedValue)>,
)
    requires
        folded(call_two, start, values, steps),
        computes(call_two, f),
    ensures
        fold_end(start, steps) == values.fold_left(start, f),
    decreases steps.len(),
{
    if steps.len() != 0 {
        let n = steps.len() - 1;
        let earlier = steps.drop_last();
        assert forall|i: int| 0 <= i < earlier.len() implies {
            &&& (#[trigger] earlier[i]).1@ == values.drop_last()[i]
            &&& earlier[i].0@ == fold_end(start, earlier.take(i))
            &&& call_ensures(*call_two, (&earlier[i].0, &earlier[i].1), earlier[i].2)
        } by {
            assert(earlier[i] == steps[i]);
            assert(earlier.take(i) =~= steps.take(i));
        }
        lemma_reduce_is_fold(call_two, f, start, values.drop_last(), earlier);
        assert(steps.take(n) =~= earlier);
        assert(steps[n].0@ == fold_end(start, earlier));
    }
}

/// What Reduce sends on: the event that came in, with the accumulator as its one entry.
pub open spec fn reduce_output(
    operator_id: u32,
    event: KeyedDataEventView,
    accumulator: ValueView,
) -> KeyedDataEventView {
    with_data(event, operator_id, seq![entry_of(accumulator)])
}

/// The name under which Reduce keeps its state.
pub open spec fn reduce_state_key(operator_id: u32) -> Seq<u8> {
    state_key("reduce".spec_bytes(), operator_id)
}

/// The state of the Reduce operator `operator_id`: no bytes where it has none.
pub open spec fn reduce_state(states: Map<Seq<u8>, Seq<u8>>, operator_id: u32) -> Seq<u8> {
    state_at(states, reduce_state_key(operator_id))
}

/// How Reduce ends, with `accumulator` as the end of its fold. It ends well exactly
/// where the state store takes the write of the accumulator's encoding at the
/// operator's key: that encoding, which reads back as the accumulator, is then the
/// operator's new state, every other key keeps what it had, and one event goes on.
/// Where the store does not take the write, the state stays and the failure is
/// reported with the store's message.
pub open spec fn reduce_outcome<S: StateManager>(
    operator_id: u32,
    before: S,
    after: S,
    event: KeyedDataEventView,
    accumulator: ValueView,
    out: Result<Vec<KeyedDataEvent>, RunnableTaskError>,
) -> bool {
    let key = reduce_state_key(operator_id);
    let written = encode_value(accumulator);
    match out {
        Ok(events) => {
            &&& before.takes(key, written)
            &&& events@.len() == 1
            &&& events@[0]@ == reduce_output(operator_id, event, accumulator)
            &&& value_of(entry_of(accumulator)) == accumulator
            &&& decode_value(written) == accumulator
            &&& after.states() == before.states().insert(key, written)
        },
        Err(error) => {
            &&& !before.takes(key, written)
            &&& error matches RunnableTaskError::StateWriteFailed(message)
            &&& message@ == before.refusal(key, written)
            &&& after.states() == before.states()
        },
    }
}

/// Reduce: folds the entries into one accumulator, which it keeps as its state.
pub struct ReduceOperator<S: StateManager> {
    pub state_manager: S,
    pub operator_id: u32,
}

impl<S: StateManager> ReduceOperator<S> {
    pub fn new(op_info: &OperatorInfo, state_manager: S) -> (operator: Self)
        ensures
            operator.operator_id == op_info.operator_id,
            operator.state_manager == state_manager,
    {
        ReduceOperator { state_manager, operator_id: op_info.operator_id }
    }

    /// Keeps `accumulator` as the operator's state and sends it on as the one entry of
    /// the event. Where the state store refuses the write, nothing is sent.
    pub fn apply(&mut self, event: &KeyedDataEvent, accumulator: &TaggedValue) -> (out: Result<
        Vec<KeyedDataEvent>,
        RunnableTaskError,
    >)
        ensures
            final(self).operator_id == old(self).operator_id,
            reduce_outcome(
                old(self).operator_id,
                old(self).state_manager,
                final(self).state_manager,
                event@,
                accumulator@,
                out,
            ),
            out is Ok <==> old(self).state_manager.takes(
                reduce_state_key(old(self).operator_id),
                encode_value(accumulator@),
            ),
    {
        let key = get_operator_state_key(self.operator_id, "reduce");
        let entry = Entry::from_value(accumulator);
        match self.state_manager.set_key_state(key.as_slice(), entry.value.as_slice()) {
            Ok(()) => {},
            Err(error) => {
                return Err(RunnableTaskError::StateWriteFailed(error.message));
            },
        }
        let mut data: Vec<Entry> = Vec::new();
        data.push(entry);
        let mut sent = event.clone();
        sent.data = data;
        sent.from_operator_id = self.operator_id;
        assert(sent@.data =~= seq![entry_of(accumulator@)]);
        let mut events: Vec<KeyedDataEvent> = Vec::new();
        events.push(sent);
        Ok(events)
    }

    /// Processes one event: folds its entries into the accumulator with the runtime's
    /// two-argument call, keeps the accumulator as state, and sends it on.
    #[verifier::rlimit(40)]
    pub fn call_fn<F: Fn(&TaggedValue, &TaggedValue) -> TaggedValue>(
        &mut self,
        event: &KeyedDataEvent,
        call_two: &F,
    ) -> (out: Result<Vec<KeyedDataEvent>, RunnableTaskError>)
        requires
            forall|a: &TaggedValue, b: &TaggedValue| call_requires(*call_two, (a, b)),
        ensures
            final(self).operator_id == old(self).operator_id,
            exists|steps: Seq<(TaggedValue, TaggedValue, TaggedValue)>|
                #![trigger folded(
                    call_two,
                    reduce_start(
                        reduce_state(old(self).state_manager.states(), old(self).operator_id),
                        values_of(event@.data),
                    ),
                    reduce_rest(
                        reduce_state(old(self).state_manager.states(), old(self).operator_id),
                        values_of(event@.data),
                    ),
                    steps,
                )]
                folded(
                    call_two,
                    reduce_start(
                        reduce_state(old(self).state_manager.states(), old(self).operator_id),
                        values_of(event@.data),
                    ),
                    reduce_rest(
                        reduce_state(old(self).state_manager.states(), old(self).operator_id),
                        values_of(event@.data),
                    ),
                    steps,
                ) && reduce_outcome(
                    old(self).operator_id,
                    old(self).state_manager,
                    final(self).state_manager,
                    event@,
                    fold_end(
                        reduce_start(
                            reduce_state(old(self).state_manager.states(), old(self).operator_id),
                            values_of(event@.data),
                        ),
                        steps,
                    ),
                    out,
                ),
    {
        let key = get_operator_state_key(self.operator_id, "reduce");
        let state = self.state_manager.get_keyed_state(key.as_slice());
        let ghost values = values_of(event@.data);
        assert(state@ == reduce_state(self.state_manager.states(), self.operator_id));
        let (accumulator, Ghost(steps)) = if state.len() != 0 {
            assert(values.skip(0) =~= values);
            fold_entries(TaggedValue::from_vec(&state), &event.data, 0, call_two)
        } else if event.data.len() != 0 {
            fold_entries(event.data[0].to_value(), &event.data, 1, call_two)
        } else {
            assert(values.skip(0) =~= values);
            fold_entries(TaggedValue::Invalid, &event.data, 0, call_two)
        };
        let out = self.apply(event, &accumulator);
        assert(folded(
            call_two,
            reduce_start(state@, values),
            reduce_rest(state@, values),
            steps,
        ));
        out
    }
}

/// Folds the entries from `first` on into `start`, one call of the runtime for each.
fn fold_entries<F: Fn(&TaggedValue, &TaggedValue) -> TaggedValue>(
    start: TaggedValue,
    entries: &Vec<Entry>,
    first: usize,
    call_two: &F,
) -> (out: (TaggedValue, Ghost<Seq<(TaggedValue, TaggedValue, TaggedValue)>>))
    requires
        first <= entries@.len(),
        forall|a: &TaggedValue, b: &TaggedValue| call_requires(*call_two, (a, b)),
    ensures
        folded(call_two, start@, values_of(entries_view(entries@)).skip(first as int), out.1@),
        out.0@ == fold_end(start@, out.1@),
{
    let ghost rest = values_of(entries_view(entries@)).skip(first as int);
    let mut accumulator = start;
    let mut i: usize = first;
    let ghost mut steps: Seq<(TaggedValue, TaggedValue, TaggedValue)> = Seq::empty();
    while i < entries.len()
        invariant
            first <= i <= entries.len(),
            forall|a: &TaggedValue, b: &TaggedValue| call_requires(*call_two, (a, b)),
            rest == values_of(entries_view(entries@)).skip(first as int),
            folded(call_two, start@, rest.take(i - first), steps),
            accumulator@ == fold_end(start@, steps),
        decreases entries.len() - i,
    {
        let value = entries[i].to_value();
        let next = call_two(&accumulator, &value);
        proof {
            let before = steps;
            steps = steps.push((accumulator, value, next));
            let done = rest.take(i + 1 - first);
            assert forall|j: int| 0 <= j < steps.len() implies {
                &&& (#[trigger] steps[j]).1@ == done[j]
                &&& steps[j].0@ == fold_end(start@, steps.take(j))
                &&& call_ensures(*call_two, (&steps[j].0, &steps[j].1), steps[j].2)
            } by {
                if j < before.len() {
                    assert(steps[j] == before[j]);
                    assert(steps.take(j) =~= before.take(j));
                    assert(rest.take(i - first)[j] == done[j]);
                } else {
                    assert(steps.take(j) =~= before);
                }
            }
        }
        accumulator = next;
        i += 1;
    }
    assert(rest.take(i - first) =~= rest);
    (accumulator, Ghost(steps))
}

/// The name that the user's function must have for an operator of the given details.
/// Sources, sinks and operators without details run no function and have no such name.
pub open spec fn function_name_of(details: Option<DetailsView>) -> Seq<char> {
    match details {
        Some(DetailsView::Operator { kind, .. }) => match kind {
            OperatorKind::Mapper => "_operator_map_process"@,
            OperatorKind::Filter => "_operator_filter_process"@,
            OperatorKind::KeyBy => "_operator_keyBy_process"@,
            OperatorKind::Reducer => "_operator_reduce_process"@,
            OperatorKind::FlatMap => "_operator_flatMap_process"@,
        },
        _ => Seq::empty(),
    }
}

/// The name that the user's function must have for the operator `op_info`.
pub fn get_function_name(op_info: &OperatorInfo) -> (name: String)
    ensures
        name@ == function_name_of(op_info@.details),
{
    match &op_info.details {
        Some(Details::Mapper(_)) => "_operator_map_process".to_owned(),
        Some(Details::Filter(_)) => "_operator_filter_process".to_owned(),
        Some(Details::KeyBy(_)) => "_operator_keyBy_process".to_owned(),
        Some(Details::Reducer(_)) => "_operator_reduce_process".to_owned(),
        Some(Details::FlatMap(_)) => "_operator_flatMap_process".to_owned(),
        _ => String::new(),
    }
}

/// How Map ends: see [`MapOperator::call_fn`].
pub open spec fn map_result<F: Fn(&TaggedValue) -> TaggedValue>(
    operator_id: u32,
    event: KeyedDataEventView,
    call_one: &F,
    out: Result<Vec<KeyedDataEvent>, RunnableTaskError>,
) -> bool {
    out matches Ok(events) && events@.len() == 1 && exists|calls: Seq<(TaggedValue, TaggedValue)>|
        answered(call_one, event.data, calls) && events@[0]@ == map_output(
            operator_id,
            event,
            results_of(calls),
        ) && read_back(answers_for(event.data.len(), results_of(calls)))
}

/// How Filter ends: see [`FilterOperator::call_fn`].
pub open spec fn filter_result<F: Fn(&TaggedValue) -> TaggedValue>(
    operator_id: u32,
    event: KeyedDataEventView,
    call_one: &F,
    out: Result<Vec<KeyedDataEvent>, RunnableTaskError>,
) -> bool {
    out matches Ok(events) && events@.len() == 1 && exists|calls: Seq<(TaggedValue, TaggedValue)>|
        answered(call_one, event.data, calls) && events@[0]@ == filter_output(
            operator_id,
            event,
            results_of(calls),
        )
}

/// How FlatMap ends: see [`FlatMapOperator::call_fn`].
pub open spec fn flat_map_result<F: Fn(&TaggedValue) -> TaggedValue>(
    operator_id: u32,
    event: KeyedDataEventView,
    call_one: &F,
    out: Result<Vec<KeyedDataEvent>, RunnableTaskError>,
) -> bool {
    out matches Ok(events) && events@.len() == 1 && exists|calls: Seq<(TaggedValue, TaggedValue)>|
        answered(call_one, event.data, calls) && events@[0]@ == flat_map_output(
            operator_id,
            event,
            results_of(calls),
        ) && read_back(expanded(event.data.len(), results_of(calls)))
}

/// How KeyBy ends: see [`KeyByOperator::call_fn`].
pub open spec fn key_by_result<F: Fn(&TaggedValue) -> TaggedValue>(
    operator_id: u32,
    event: KeyedDataEventView,
    call_one: &F,
    out: Result<Vec<KeyedDataEvent>, RunnableTaskError>,
) -> bool {
    out matches Ok(events) && exists|
        calls: Seq<(TaggedValue, TaggedValue)>,
        group_keys: Seq<ValueView>,
    |
        answered(call_one, event.data, calls) && is_grouping(
            results_of(calls),
            event.data.len() as int,
            group_keys,
        ) && read_back(group_keys) && events_view(events@) == key_by_output(
            operator_id,
            event.data,
            results_of(calls),
            group_keys,
        )
}

/// How Reduce ends: see [`ReduceOperator::call_fn`].
pub open spec fn reduce_result<S: StateManager, F: Fn(&TaggedValue, &TaggedValue) -> TaggedValue>(
    operator_id: u32,
    before: S,
    after: S,
    event: KeyedDataEventView,
    call_two: &F,
    out: Result<Vec<KeyedDataEvent>, RunnableTaskError>,
) -> bool {
    exists|steps: Seq<(TaggedValue, TaggedValue, TaggedValue)>|
        #![trigger folded(
            call_two,
            reduce_start(reduce_state(before.states(), operator_id), values_of(event.data)),
            reduce_rest(reduce_state(before.states(), operator_id), values_of(event.data)),
            steps,
        )]
        folded(
            call_two,
            reduce_start(reduce_state(before.states(), operator_id), values_of(event.data)),
            reduce_rest(reduce_state(before.states(), operator_id), values_of(event.data)),
            steps,
        ) && reduce_outcome(
            operator_id,
            before,
            after,
            event,
            fold_end(
                reduce_start(reduce_state(before.states(), operator_id), values_of(event.data)),
                steps,
            ),
            out,
        )
}

/// An operator of one of the five kinds, or none where the dataflow names no function
/// to run.
pub enum OperatorImpl<S: StateManager> {
    Mapper(MapOperator<S>),
    Filter(FilterOperator<S>),
    KeyBy(KeyByOperator<S>),
    FlatMap(FlatMapOperator<S>),
    Reduce(ReduceOperator<S>),
    Empty,
}

impl<S: StateManager> OperatorImpl<S> {
    /// The kind of the operator, if it is one.
    pub open spec fn kind(self) -> Option<OperatorKind> {
        match self {
            OperatorImpl::Mapper(_) => Some(OperatorKind::Mapper),
            OperatorImpl::Filter(_) => Some(OperatorKind::Filter),
            OperatorImpl::KeyBy(_) => Some(OperatorKind::KeyBy),
            OperatorImpl::FlatMap(_) => Some(OperatorKind::FlatMap),
            OperatorImpl::Reduce(_) => Some(OperatorKind::Reducer),
            OperatorImpl::Empty => None,
        }
    }

    /// The id of the operator; 0 where there is none.
    pub open spec fn id(self) -> u32 {
        match self {
            OperatorImpl::Mapper(op) => op.operator_id,
            OperatorImpl::Filter(op) => op.operator_id,
            OperatorImpl::KeyBy(op) => op.operator_id,
            OperatorImpl::FlatMap(op) => op.operator_id,
            OperatorImpl::Reduce(op) => op.operator_id,
            OperatorImpl::Empty => 0,
        }
    }

    /// What the operator's state store holds; nothing where there is no operator.
    pub open spec fn states(self) -> Map<Seq<u8>, Seq<u8>> {
        match self {
            OperatorImpl::Mapper(op) => op.state_manager.states(),
            OperatorImpl::Filter(op) => op.state_manager.states(),
            OperatorImpl::KeyBy(op) => op.state_manager.states(),
            OperatorImpl::FlatMap(op) => op.state_manager.states(),
            OperatorImpl::Reduce(op) => op.state_manager.states(),
            OperatorImpl::Empty => Map::empty(),
        }
    }

    /// How processing `event` ends, for each kind of operator. Only Reduce changes its
    /// state; where there is no operator, the event is refused.
    pub open spec fn processed<
        F: Fn(&TaggedValue) -> TaggedValue,
        G: Fn(&TaggedValue, &TaggedValue) -> TaggedValue,
    >(
        self,
        after: Self,
        event: KeyedDataEventView,
        call_one: &F,
        call_two: &G,
        out: Result<Vec<KeyedDataEvent>, RunnableTaskError>,
    ) -> bool {
        &&& after.kind() == self.kind()
        &&& after.id() == self.id()
        &&& match self {
            OperatorImpl::Mapper(_) => after.states() == self.states() && map_result(
                self.id(),
                event,
                call_one,
                out,
            ),
            OperatorImpl::Filter(_) => after.states() == self.states() && filter_result(
                self.id(),
                event,
                call_one,
                out,
            ),
            OperatorImpl::KeyBy(_) => after.states() == self.states() && key_by_result(
                self.id(),
                event,
                call_one,
                out,
            ),
            OperatorImpl::FlatMap(_) => after.states() == self.states() && flat_map_result(
                self.id(),
                event,
                call_one,
                out,
            ),
            OperatorImpl::Reduce(op) => after matches OperatorImpl::Reduce(then) && reduce_result(
                op.operator_id,
                op.state_manager,
                then.state_manager,
                event,
                call_two,
                out,
            ),
            OperatorImpl::Empty => out == Err::<Vec<KeyedDataEvent>, RunnableTaskError>(
                RunnableTaskError::UnsupportedOperator,
            ),
        }
    }

    /// Processes one event with the operator at hand. `call_one` is the runtime's
    /// one-argument call, `call_two` its two-argument call.
    pub fn call_fn<
        F: Fn(&TaggedValue) -> TaggedValue,
        G: Fn(&TaggedValue, &TaggedValue) -> TaggedValue,
    >(&mut self, event: &KeyedDataEvent, call_one: &F, call_two: &G) -> (out: Result<
        Vec<KeyedDataEvent>,
        RunnableTaskError,
    >)
        requires
            forall|v: &TaggedValue| call_requires(*call_one, (v,)),
            forall|a: &TaggedValue, b: &TaggedValue| call_requires(*call_two, (a, b)),
        ensures
            old(self).processed(*final(self), event@, call_one, call_two, out),
    {
        match self {
            OperatorImpl::Mapper(op) => op.call_fn(event, call_one),
            OperatorImpl::Filter(op) => op.call_fn(event, call_one),
            OperatorImpl::KeyBy(op) => op.call_fn(event, call_one),
            OperatorImpl::FlatMap(op) => op.call_fn(event, call_one),
            OperatorImpl::Reduce(op) => op.call_fn(event, call_two),
            OperatorImpl::Empty => Err(RunnableTaskError::UnsupportedOperator),
        }
    }
}

/// The operator that `details` asks for, with the text of its function: none where
/// they name no function to run.
pub open spec fn operator_of(details: Option<DetailsView>) -> Option<(OperatorKind, Seq<char>)> {
    match details {
        Some(DetailsView::Operator { kind, function: Some(text) }) => Some((kind, text)),
        _ => None,
    }
}

/// One operator of a subdataflow as a worker runs it: the operator, and the function
/// that the scripting runtime is to be made from.
pub struct DataflowTask<S: StateManager> {
    pub operator: OperatorImpl<S>,
    /// The text of the user's function; empty where there is no operator.
    pub function: String,
    /// The name of the user's function; empty where there is no operator.
    pub function_name: String,
}

impl<S: StateManager> DataflowTask<S> {
    /// The task for the operator `op_info`, with `state_manager` as its state store.
    pub fn new(op_info: OperatorInfo, state_manager: S) -> (task: Self)
        ensures
            task.operator.kind() == match operator_of(op_info@.details) {
                Some((kind, _)) => Some(kind),
                None => None,
            },
            task.function@ == match operator_of(op_info@.details) {
                Some((_, text)) => text,
                None => Seq::empty(),
            },
            task.function_name@ == match operator_of(op_info@.details) {
                Some(_) => function_name_of(op_info@.details),
                None => Seq::empty(),
            },
            operator_of(op_info@.details) is Some ==> task.operator.id() == op_info.operator_id
                && task.operator.states() == state_manager.states(),
    {
        let function_name = get_function_name(&op_info);
        match &op_info.details {
            Some(Details::Mapper(Some(func))) => DataflowTask {
                function: func.function.clone(),
                function_name,
                operator: OperatorImpl::Mapper(MapOperator::new(&op_info, state_manager)),
            },
            Some(Details::Filter(Some(func))) => DataflowTask {
                function: func.function.clone(),
                function_name,
                operator: OperatorImpl::Filter(FilterOperator::new(&op_info, state_manager)),
            },
            Some(Details::KeyBy(Some(func))) => DataflowTask {
                function: func.function.clone(),
                function_name,
                operator: OperatorImpl::KeyBy(KeyByOperator::new(&op_info, state_manager)),
            },
            Some(Details::Reducer(Some(func))) => DataflowTask {
                function: func.function.clone(),
                function_name,
                operator: OperatorImpl::Reduce(ReduceOperator::new(&op_info, state_manager)),
            },
            Some(Details::FlatMap(Some(func))) => DataflowTask {
                function: func.function.clone(),
                function_name,
                operator: OperatorImpl::FlatMap(FlatMapOperator::new(&op_info, state_manager)),
            },
            _ => DataflowTask {
                function: String::new(),
                function_name: String::new(),
                operator: OperatorImpl::Empty,
            },
        }
    }

    /// Processes one event: see [`OperatorImpl::call_fn`].
    pub fn process<
        F: Fn(&TaggedValue) -> TaggedValue,
        G: Fn(&TaggedValue, &TaggedValue) -> TaggedValue,
    >(&mut self, event: &KeyedDataEvent, call_one: &F, call_two: &G) -> (out: Result<
        Vec<KeyedDataEvent>,
        RunnableTaskError,
    >)
        requires
            forall|v: &TaggedValue| call_requires(*call_one, (v,)),
            forall|a: &TaggedValue, b: &TaggedValue| call_requires(*call_two, (a, b)),
        ensures
            old(self).operator.processed(final(self).operator, event@, call_one, call_two, out),
            final(self).function == old(self).function,
            final(self).function_name == old(self).function_name,
    {
        self.operator.call_fn(event, call_one, call_two)
    }
}

/// True when the entry is the entry of the value that it carries.
pub open spec fn canonical(entry: EntryView) -> bool {
    entry_of(value_of(entry)) == entry
}

/// True when every one of the entries is canonical.
pub open spec fn all_canonical(entries: Seq<EntryView>) -> bool {
    forall|i: int| 0 <= i < entries.len() ==> canonical(#[trigger] entries[i])
}

/// The answers of the function that makes of each value the array of that one value.
pub open spec fn unit_answers(entries: Seq<EntryView>) -> Seq<ValueView> {
    Seq::new(entries.len(), |i: int| ValueView::Array(seq![value_of(entries[i])]))
}

/// With the function that makes of each value the array of that one value, the
/// first `n` answers hold the values of the first `n` entries.
proof fn lemma_expanded_unit(entries: Seq<EntryView>, n: nat)
    requires
        n <= entries.len(),
    ensures
        expanded(n, unit_answers(entries)) == values_of(entries.take(n as int)),
    decreases n,
{
    if n == 0 {
        assert(expanded(n, unit_answers(entries)) =~= values_of(entries.take(n as int)));
    } else {
        lemma_expanded_unit(entries, (n - 1) as nat);
        assert(expanded(n, unit_answers(entries)) =~= values_of(entries.take(n as int)));
    }
}

/// FlatMap with the function that makes of each value the array of that one value
/// sends on the canonical entries that came in, as they came.
pub proof fn lemma_flat_map_unit(operator_id: u32, event: KeyedDataEventView)
    requires
        all_canonical(event.data),
    ensures
        flat_map_output(operator_id, event, unit_answers(event.data)).data == event.data,
{
    lemma_expanded_unit(event.data, event.data.len());
    assert(event.data.take(event.data.len() as int) =~= event.data);
    assert(entries_of(values_of(event.data)) =~= event.data);
}

/// The members of a key among canonical entries are canonical.
proof fn lemma_members_canonical(entries: Seq<EntryView>, keys: Seq<ValueView>, key: ValueView)
    requires
        all_canonical(entries),
    ensures
        all_canonical(members(entries, keys, key)),
    decreases entries.len(),
{
    if entries.len() != 0 {
        let shorter = entries.drop_last();
        assert forall|i: int| 0 <= i < shorter.len() implies canonical(#[trigger] shorter[i]) by {
            assert(shorter[i] == entries[i]);
        }
        lemma_members_canonical(shorter, keys, key);
        assert(canonical(entries[entries.len() - 1]));
    }
}

/// Runs of events with the same entries, event by event, have the same entries in all.
proof fn lemma_total_data_same(a: Seq<KeyedDataEventView>, b: Seq<KeyedDataEventView>)
    requires
        a.len() == b.len(),
        forall|j: int| 0 <= j < a.len() ==> (#[trigger] a[j]).data == b[j].data,
    ensures
        total_data(a) == total_data(b),
    decreases a.len(),
{
    if a.len() != 0 {
        assert forall|j: int| 0 <= j < a.drop_last().len() implies (
        #[trigger] a.drop_last()[j]).data == b.drop_last()[j].data by {
            assert(a.drop_last()[j] == a[j]);
        }
        lemma_total_data_same(a.drop_last(), b.drop_last());
        assert(a[a.len() - 1].data == b[b.len() - 1].data);
    }
}

/// What comes of KeyBy's events when FlatMap, with the function that makes of each
/// value the array of that one value, processes each of them.
pub open spec fn key_by_then_flat_map(
    key_by_id: u32,
    flat_map_id: u32,
    entries: Seq<EntryView>,
    keys: Seq<ValueView>,
    group_keys: Seq<ValueView>,
) -> Seq<KeyedDataEventView> {
    Seq::new(
        group_keys.len(),
        |j: int|
            flat_map_output(
                flat_map_id,
                key_by_output(key_by_id, entries, keys, group_keys)[j],
                unit_answers(key_by_output(key_by_id, entries, keys, group_keys)[j].data),
            ),
    )
}

/// KeyBy, then FlatMap with the function that makes of each value the array of that
/// one value: the entries that go on are the canonical entries that came in, each as
/// often as it came.
pub proof fn lemma_key_by_then_flat_map(
    key_by_id: u32,
    flat_map_id: u32,
    entries: Seq<EntryView>,
    keys: Seq<ValueView>,
    group_keys: Seq<ValueView>,
)
    requires
        is_grouping(keys, entries.len() as int, group_keys),
        all_canonical(entries),
    ensures
        total_data(key_by_then_flat_map(key_by_id, flat_map_id, entries, keys, group_keys))
            == entries.to_multiset(),
{
    let grouped = key_by_output(key_by_id, entries, keys, group_keys);
    let sent = key_by_then_flat_map(key_by_id, flat_map_id, entries, keys, group_keys);
    assert forall|j: int| 0 <= j < sent.len() implies (#[trigger] sent[j]).data
        == grouped[j].data by {
        lemma_members_canonical(entries, keys, group_keys[j]);
        lemma_flat_map_unit(flat_map_id, grouped[j]);
    }
    lemma_total_data_same(sent, grouped);
    lemma_key_by_partitions(key_by_id, entries, keys, group_keys);
}

/// An event without entries: Map, Filter and FlatMap send on an event without
/// entries, KeyBy sends on no event, and Reduce, where it has no state, starts and
/// ends with `Invalid`.
pub proof fn lemma_empty_input(
    operator_id: u32,
    event: KeyedDataEventView,
    results: Seq<ValueView>,
    group_keys: Seq<ValueView>,
)
    requires
        event.data.len() == 0,
    ensures
        map_output(operator_id, event, results).data.len() == 0,
        filter_output(operator_id, event, results).data.len() == 0,
        flat_map_output(operator_id, event, results).data.len() == 0,
        is_grouping(results, 0, group_keys) ==> key_by_output(
            operator_id,
            event.data,
            results,
            group_keys,
        ).len() == 0,
        reduce_start(Seq::empty(), values_of(event.data)) == ValueView::Invalid,
        reduce_rest(Seq::empty(), values_of(event.data)).len() == 0,
{
    if is_grouping(results, 0, group_keys) && group_keys.len() != 0 {
        assert(occurs(results, 0, group_keys[0]));
    }
}

/// Filter keeps an entry only where the runtime's answer is `true`: with any other
/// answer, a boolean or not, the entry is dropped.
pub proof fn lemma_filter_drops(entry: EntryView, result: ValueView)
    ensures
        kept(seq![entry], seq![result]) == if result == ValueView::Boolean(true) {
            seq![entry]
        } else {
            Seq::<EntryView>::empty()
        },
{
    reveal_with_fuel(kept, 2);
    assert(seq![entry].drop_last() =~= Seq::<EntryView>::empty());
    assert(kept(seq![entry], seq![result]) =~= if result == ValueView::Boolean(true) {
        seq![entry]
    } else {
        Seq::<EntryView>::empty()
    });
}

/// FlatMap sends on nothing for an answer of the runtime that is no array.
pub proof fn lemma_flat_map_drops(result: ValueView)
    requires
        !(result is Array),
    ensures
        expanded(1, seq![result]) == Seq::<ValueView>::empty(),
{
    reveal_with_fuel(expanded, 2);
    assert(expanded(1, seq![result]) =~= Seq::<ValueView>::empty());
}

} // verus!
