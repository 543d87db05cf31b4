//! Entries and the events that carry them between operators.

use crate::value::{
    decode_value, encodable, encode_value, lemma_parse_encode, type_of, DataTypeEnum, TaggedValue,
    ValueView,
};
use vstd::prelude::*;

verus! {

/// Model of an [`Entry`].
pub struct EntryView {
    pub data_type: DataTypeEnum,
    pub value: Seq<u8>,
}

/// The atomic payload unit: a value's canonical encoding, with its kind beside it.
#[derive(Debug, PartialEq, Eq)]
pub struct Entry {
    pub data_type: DataTypeEnum,
    pub value: Vec<u8>,
}

impl View for Entry {
    type V = EntryView;

    open spec fn view(&self) -> EntryView {
        EntryView { data_type: self.data_type, value: self.value@ }
    }
}

/// The entry that carries `v`.
pub open spec fn entry_of(v: ValueView) -> EntryView {
    EntryView { data_type: type_of(v), value: encode_value(v) }
}

/// The value that an entry carries: what its bytes read as, or `Invalid` where that is
/// not of the kind that the entry names.
pub open spec fn value_of(e: EntryView) -> ValueView {
    let v = decode_value(e.value);
    if type_of(v) == e.data_type {
        v
    } else {
        ValueView::Invalid
    }
}

/// The entries that carry `values`, in order.
pub open spec fn entries_of(values: Seq<ValueView>) -> Seq<EntryView> {
    Seq::new(values.len(), |i: int| entry_of(values[i]))
}

/// The values that `entries` carry, in order.
pub open spec fn values_of(entries: Seq<EntryView>) -> Seq<ValueView> {
    Seq::new(entries.len(), |i: int| value_of(entries[i]))
}

/// The models of a run of entries.
pub open spec fn entries_view(entries: Seq<Entry>) -> Seq<EntryView> {
    Seq::new(entries.len(), |i: int| entries[i]@)
}

/// An entry made from a value carries that value.
pub proof fn lemma_value_of_entry(v: ValueView)
    requires
        encodable(v),
    ensures
        value_of(entry_of(v)) == v,
{
    lemma_parse_encode(v);
}

impl Clone for Entry {
    fn clone(&self) -> (copy: Self)
        ensures
            copy@ == self@,
    {
        Entry { data_type: self.data_type, value: self.value.clone() }
    }
}

impl Default for Entry {
    fn default() -> (entry: Self)
        ensures
            entry@ == (EntryView { data_type: DataTypeEnum::Invalid, value: Seq::empty() }),
    {
        Entry { data_type: DataTypeEnum::Invalid, value: Vec::new() }
    }
}

impl Entry {
    /// The entry that carries `value`.
    pub fn from_value(value: &TaggedValue) -> (entry: Entry)
        ensures
            entry@ == entry_of(value@),
            value_of(entry@) == value@,
    {
        Entry { data_type: value.get_type(), value: value.get_data() }
    }

    /// The value that this entry carries.
    pub fn to_value(&self) -> (value: TaggedValue)
        ensures
            value@ == value_of(self@),
    {
        let value = TaggedValue::from_vec(&self.value);
        if value.get_type() == self.data_type {
            value
        } else {
            TaggedValue::Invalid
        }
    }
}

/// Model of a [`ResourceId`].
pub struct ResourceIdView {
    pub resource_id: Seq<char>,
    pub namespace_id: Seq<char>,
}

/// The identity of a job: a globally unique id and, where the job has one, its
/// namespace (empty where it has none).
#[derive(Debug, PartialEq, Eq)]
pub struct ResourceId {
    pub resource_id: String,
    pub namespace_id: String,
}

impl View for ResourceId {
    type V = ResourceIdView;

    open spec fn view(&self) -> ResourceIdView {
        ResourceIdView { resource_id: self.resource_id@, namespace_id: self.namespace_id@ }
    }
}

impl Clone for ResourceId {
    fn clone(&self) -> (copy: Self)
        ensures
            copy@ == self@,
    {
        ResourceId {
            resource_id: self.resource_id.clone(),
            namespace_id: self.namespace_id.clone(),
        }
    }
}

impl Default for ResourceId {
    fn default() -> (id: Self)
        ensures
            id@ == (ResourceIdView { resource_id: Seq::empty(), namespace_id: Seq::empty() }),
    {
        ResourceId { resource_id: String::new(), namespace_id: String::new() }
    }
}

impl ResourceId {
    /// True when the two name one job.
    pub fn same(&self, other: &ResourceId) -> (same: bool)
        ensures
            same == (self@ == other@),
    {
        self.resource_id == other.resource_id && self.namespace_id == other.namespace_id
    }
}

/// The span of event time that a windowed event belongs to, in milliseconds.
#[derive(Clone, Copy, Debug, PartialEq, Eq, Structural)]
pub struct Window {
    pub start_time: u64,
    pub end_time: u64,
}

/// Model of a [`KeyedDataEvent`].
pub struct KeyedDataEventView {
    pub job_id: ResourceIdView,
    pub key: Option<EntryView>,
    pub to_operator_id: Option<u32>,
    pub data: Seq<EntryView>,
    pub event_time: u64,
    pub process_time: u64,
    pub from_operator_id: u32,
    pub window: Option<Window>,
}

/// A batch of entries that share a job and routing metadata. Times are in milliseconds.
#[derive(Debug, PartialEq, Eq)]
pub struct KeyedDataEvent {
    pub job_id: ResourceId,
    pub key: Option<Entry>,
    pub to_operator_id: Option<u32>,
    pub data: Vec<Entry>,
    pub event_time: u64,
    pub process_time: u64,
    pub from_operator_id: u32,
    pub window: Option<Window>,
}

/// The model of an entry that may be absent.
pub open spec fn option_entry_view(entry: Option<Entry>) -> Option<EntryView> {
    match entry {
        Some(e) => Some(e@),
        None => None,
    }
}

impl View for KeyedDataEvent {
    type V = KeyedDataEventView;

    open spec fn view(&self) -> KeyedDataEventView {
        KeyedDataEventView {
            job_id: self.job_id@,
            key: option_entry_view(self.key),
            to_operator_id: self.to_operator_id,
            data: entries_view(self.data@),
            event_time: self.event_time,
            process_time: self.process_time,
            from_operator_id: self.from_operator_id,
            window: self.window,
        }
    }
}

/// The event that a fresh batch starts from: no job, no key, no entries.
pub open spec fn empty_event() -> KeyedDataEventView {
    KeyedDataEventView {
        job_id: ResourceIdView { resource_id: Seq::empty(), namespace_id: Seq::empty() },
        key: None,
        to_operator_id: None,
        data: Seq::empty(),
        event_time: 0,
        process_time: 0,
        from_operator_id: 0,
        window: None,
    }
}

/// A copy of a run of entries.
pub fn clone_entries(entries: &Vec<Entry>) -> (copy: Vec<Entry>)
    ensures
        entries_view(copy@) == entries_view(entries@),
{
    let mut copy: Vec<Entry> = Vec::new();
    let mut i: usize = 0;
    while i < entries.len()
        invariant
            i <= entries.len(),
            copy@.len() == i,
            forall|j: int| 0 <= j < i ==> (#[trigger] copy@[j])@ == entries@[j]@,
        decreases entries.len() - i,
    {
        copy.push(entries[i].clone());
        i += 1;
    }
    assert(entries_view(copy@) =~= entries_view(entries@));
    copy
}

impl Clone for KeyedDataEvent {
    fn clone(&self) -> (copy: Self)
        ensures
            copy@ == self@,
    {
        KeyedDataEvent {
            job_id: self.job_id.clone(),
            key: match &self.key {
                Some(entry) => Some(entry.clone()),
                None => None,
            },
            to_operator_id: self.to_operator_id,
            data: clone_entries(&self.data),
            event_time: self.event_time,
            process_time: self.process_time,
            from_operator_id: self.from_operator_id,
            window: self.window,
        }
    }
}

impl Default for KeyedDataEvent {
    fn default() -> (event: Self)
        ensures
            event@ == empty_event(),
    {
        let event = KeyedDataEvent {
            job_id: ResourceId::default(),
            key: None,
            to_operator_id: None,
            data: Vec::new(),
            event_time: 0,
            process_time: 0,
            from_operator_id: 0,
            window: None,
        };
        assert(entries_view(event.data@) =~= Seq::<EntryView>::empty());
        event
    }
}

/// `event`, on its way to the operator `to`.
pub open spec fn addressed(event: KeyedDataEventView, to: u32) -> KeyedDataEventView {
    KeyedDataEventView { to_operator_id: Some(to), ..event }
}

impl KeyedDataEvent {
    /// What goes on the edges for one event that an operator sends on: for each of the
    /// operator's neighbors, in order, the event on its way to that neighbor.
    pub fn forward(&self, neighbors: &Vec<u32>) -> (sent: Vec<KeyedDataEvent>)
        ensures
            sent@.len() == neighbors@.len(),
            forall|i: int|
                0 <= i < neighbors@.len() ==> (#[trigger] sent@[i])@ == addressed(
                    self@,
                    neighbors@[i],
                ),
    {
        let mut sent: Vec<KeyedDataEvent> = Vec::new();
        let mut i: usize = 0;
        while i < neighbors.len()
            invariant
                i <= neighbors.len(),
                sent@.len() == i,
                forall|j: int|
                    0 <= j < i ==> (#[trigger] sent@[j])@ == addressed(self@, neighbors@[j]),
            decreases neighbors.len() - i,
        {
            let mut copy = self.clone();
            copy.to_operator_id = Some(neighbors[i]);
            sent.push(copy);
            i += 1;
        }
        sent
    }
}

/// Model of a [`LocalEvent`].
pub enum LocalEventView {
    Terminate { job_id: ResourceIdView, to: u32 },
    KeyedDataStreamEvent(KeyedDataEventView),
}

/// What travels on the edges inside one worker: a batch of data, or the signal that
/// the job ends.
#[derive(Debug, PartialEq, Eq)]
pub enum LocalEvent {
    Terminate { job_id: ResourceId, to: u32 },
    KeyedDataStreamEvent(KeyedDataEvent),
}

impl View for LocalEvent {
    type V = LocalEventView;

    open spec fn view(&self) -> LocalEventView {
        match self {
            LocalEvent::Terminate { job_id, to } => LocalEventView::Terminate {
                job_id: job_id@,
                to: *to,
            },
            LocalEvent::KeyedDataStreamEvent(event) => LocalEventView::KeyedDataStreamEvent(
                event@,
            ),
        }
    }
}

} // verus!
