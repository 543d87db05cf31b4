//! The tagged value that the engine carries end to end, its canonical encoding, and the
//! reading of that encoding.

use crate::state::same_bytes;
use vstd::bytes::{
    lemma_auto_spec_u64_to_from_le_bytes, spec_u64_from_le_bytes, spec_u64_to_le_bytes,
    u64_from_le_bytes, u64_to_le_bytes,
};
use vstd::prelude::*;
use vstd::slice::{slice_subrange, slice_to_vec};
use vstd::string::{StrSliceExecFns, StringSliceAdditionalSpecFns};
use vstd::utf8::{
    decode_utf8, encode_utf8, encode_utf8_decode_utf8, encode_utf8_valid_utf8, valid_utf8,
};

verus! {

/// Mathematical model of a [`TaggedValue`].
///
/// A number is held by its IEEE-754 binary64 bit pattern, a string by its characters,
/// an object by its fields in the order in which they stand.
pub enum ValueView {
    Number(u64),
    Boolean(bool),
    String(Seq<char>),
    Bytes(Seq<u8>),
    Array(Seq<ValueView>),
    Object(Seq<(Seq<char>, ValueView)>),
    Invalid,
}

/// The engine's universal value, carried end to end between operators.
#[derive(Debug, PartialEq, Eq)]
pub enum TaggedValue {
    /// A 64-bit float, held by its IEEE-754 bit pattern.
    Number(u64),
    Boolean(bool),
    String(String),
    Bytes(Vec<u8>),
    Array(Vec<TaggedValue>),
    /// Fields, name and value. An object is a mapping where its names ascend, each
    /// once; [`TaggedValue::object`] makes one of fields in any order.
    Object(Vec<(String, TaggedValue)>),
    /// What a failed evaluation or an unreadable encoding stands for.
    Invalid,
}

/// The models of a run of values, in order.
pub open spec fn values_view(items: Seq<TaggedValue>) -> Seq<ValueView>
    decreases items,
{
    if items.len() == 0 {
        Seq::empty()
    } else {
        values_view(items.drop_last()).push(items.last()@)
    }
}

/// The models of a run of fields, in order.
pub open spec fn fields_view(fields: Seq<(String, TaggedValue)>) -> Seq<(Seq<char>, ValueView)>
    decreases fields,
{
    if fields.len() == 0 {
        Seq::empty()
    } else {
        fields_view(fields.drop_last()).push((fields.last().0@, fields.last().1@))
    }
}

impl View for TaggedValue {
    type V = ValueView;

    open spec fn view(&self) -> ValueView
        decreases self,
    {
        match self {
            TaggedValue::Number(bits) => ValueView::Number(*bits),
            TaggedValue::Boolean(flag) => ValueView::Boolean(*flag),
            TaggedValue::String(text) => ValueView::String(text@),
            TaggedValue::Bytes(blob) => ValueView::Bytes(blob@),
            TaggedValue::Array(items) => ValueView::Array(values_view(items@)),
            TaggedValue::Object(fields) => ValueView::Object(fields_view(fields@)),
            TaggedValue::Invalid => ValueView::Invalid,
        }
    }
}

/// One-byte discriminators of the seven kinds of value.
pub const TAG_INVALID: u8 = 0;

pub const TAG_NUMBER: u8 = 1;

pub const TAG_BOOLEAN: u8 = 2;

pub const TAG_STRING: u8 = 3;

pub const TAG_BYTES: u8 = 4;

pub const TAG_ARRAY: u8 = 5;

pub const TAG_OBJECT: u8 = 6;

/// The kind of a value, as it travels beside the value's bytes.
#[derive(Clone, Copy, Debug, PartialEq, Eq, Structural)]
pub enum DataTypeEnum {
    Invalid,
    Number,
    Boolean,
    String,
    Bytes,
    Array,
    Object,
}

/// The kind of the value `v`.
pub open spec fn type_of(v: ValueView) -> DataTypeEnum {
    match v {
        ValueView::Number(_) => DataTypeEnum::Number,
        ValueView::Boolean(_) => DataTypeEnum::Boolean,
        ValueView::String(_) => DataTypeEnum::String,
        ValueView::Bytes(_) => DataTypeEnum::Bytes,
        ValueView::Array(_) => DataTypeEnum::Array,
        ValueView::Object(_) => DataTypeEnum::Object,
        ValueView::Invalid => DataTypeEnum::Invalid,
    }
}

/// The discriminator byte of a kind.
pub open spec fn tag_byte(kind: DataTypeEnum) -> u8 {
    match kind {
        DataTypeEnum::Invalid => TAG_INVALID,
        DataTypeEnum::Number => TAG_NUMBER,
        DataTypeEnum::Boolean => TAG_BOOLEAN,
        DataTypeEnum::String => TAG_STRING,
        DataTypeEnum::Bytes => TAG_BYTES,
        DataTypeEnum::Array => TAG_ARRAY,
        DataTypeEnum::Object => TAG_OBJECT,
    }
}

/// The kind that a discriminator byte names; bytes above 6 name no kind and read as `Invalid`.
pub open spec fn kind_of_tag(tag: u8) -> DataTypeEnum {
    if tag == TAG_NUMBER {
        DataTypeEnum::Number
    } else if tag == TAG_BOOLEAN {
        DataTypeEnum::Boolean
    } else if tag == TAG_STRING {
        DataTypeEnum::String
    } else if tag == TAG_BYTES {
        DataTypeEnum::Bytes
    } else if tag == TAG_ARRAY {
        DataTypeEnum::Array
    } else if tag == TAG_OBJECT {
        DataTypeEnum::Object
    } else {
        DataTypeEnum::Invalid
    }
}

impl DataTypeEnum {
    /// The discriminator byte of this kind.
    pub fn to_byte(self) -> (tag: u8)
        ensures
            tag == tag_byte(self),
            kind_of_tag(tag) == self,
    {
        match self {
            DataTypeEnum::Invalid => TAG_INVALID,
            DataTypeEnum::Number => TAG_NUMBER,
            DataTypeEnum::Boolean => TAG_BOOLEAN,
            DataTypeEnum::String => TAG_STRING,
            DataTypeEnum::Bytes => TAG_BYTES,
            DataTypeEnum::Array => TAG_ARRAY,
            DataTypeEnum::Object => TAG_OBJECT,
        }
    }

    /// The kind that `tag` names.
    pub fn from_byte(tag: u8) -> (kind: DataTypeEnum)
        ensures
            kind == kind_of_tag(tag),
    {
        if tag == TAG_NUMBER {
            DataTypeEnum::Number
        } else if tag == TAG_BOOLEAN {
            DataTypeEnum::Boolean
        } else if tag == TAG_STRING {
            DataTypeEnum::String
        } else if tag == TAG_BYTES {
            DataTypeEnum::Bytes
        } else if tag == TAG_ARRAY {
            DataTypeEnum::Array
        } else if tag == TAG_OBJECT {
            DataTypeEnum::Object
        } else {
            DataTypeEnum::Invalid
        }
    }
}

/// A run of bytes behind its own length, written as eight little-endian bytes.
pub open spec fn frame(body: Seq<u8>) -> Seq<u8> {
    spec_u64_to_le_bytes(body.len() as u64) + body
}

/// The canonical encoding of a value: its discriminator byte, then its payload.
///
/// A number's payload is its bit pattern in eight little-endian bytes, a boolean's one
/// byte 0 or 1, a string's its UTF-8 bytes, a blob's the blob itself. An array's payload
/// is the frames of its items' encodings; an object's, for each field, the frame of the
/// name's UTF-8 bytes and then the frame of the value's encoding.
pub open spec fn encode_value(v: ValueView) -> Seq<u8>
    decreases v, 0int,
{
    match v {
        ValueView::Invalid => seq![TAG_INVALID],
        ValueView::Number(bits) => seq![TAG_NUMBER] + spec_u64_to_le_bytes(bits),
        ValueView::Boolean(flag) => seq![TAG_BOOLEAN, if flag { 1u8 } else { 0u8 }],
        ValueView::String(text) => seq![TAG_STRING] + encode_utf8(text),
        ValueView::Bytes(blob) => seq![TAG_BYTES] + blob,
        ValueView::Array(items) => seq![TAG_ARRAY] + encode_items(items),
        ValueView::Object(fields) => seq![TAG_OBJECT] + encode_fields(fields),
    }
}

/// The frames of the encodings of `items`, in order.
pub open spec fn encode_items(items: Seq<ValueView>) -> Seq<u8>
    decreases items, 1int,
{
    if items.len() == 0 {
        Seq::empty()
    } else {
        frame(encode_value(items[0])) + encode_items(items.drop_first())
    }
}

/// For each field in order, the frame of its name and the frame of its value's encoding.
pub open spec fn encode_fields(fields: Seq<(Seq<char>, ValueView)>) -> Seq<u8>
    decreases fields, 1int,
{
    if fields.len() == 0 {
        Seq::empty()
    } else {
        frame(encode_utf8(fields[0].0)) + frame(encode_value(fields[0].1)) + encode_fields(
            fields.drop_first(),
        )
    }
}

/// The length of the body of the frame that `bytes` begins with, where a whole frame is there.
pub open spec fn frame_len(bytes: Seq<u8>) -> Option<int> {
    if bytes.len() < 8 {
        None
    } else {
        let n = spec_u64_from_le_bytes(bytes.take(8));
        if 8 + n <= bytes.len() {
            Some(n as int)
        } else {
            None
        }
    }
}

/// The value that `bytes` is the canonical encoding of, if it is one.
pub open spec fn parse_value(bytes: Seq<u8>) -> Option<ValueView>
    decreases bytes.len(), 1int,
{
    if bytes.len() == 0 {
        None
    } else {
        let tag = bytes[0];
        let body = bytes.skip(1);
        if tag == TAG_INVALID {
            if body.len() == 0 {
                Some(ValueView::Invalid)
            } else {
                None
            }
        } else if tag == TAG_NUMBER {
            if body.len() == 8 {
                Some(ValueView::Number(spec_u64_from_le_bytes(body)))
            } else {
                None
            }
        } else if tag == TAG_BOOLEAN {
            if body.len() == 1 && body[0] <= 1 {
                Some(ValueView::Boolean(body[0] == 1))
            } else {
                None
            }
        } else if tag == TAG_STRING {
            if valid_utf8(body) {
                Some(ValueView::String(decode_utf8(body)))
            } else {
                None
            }
        } else if tag == TAG_BYTES {
            Some(ValueView::Bytes(body))
        } else if tag == TAG_ARRAY {
            match parse_items(body) {
                Some(items) => Some(ValueView::Array(items)),
                None => None,
            }
        } else if tag == TAG_OBJECT {
            match parse_fields(body) {
                Some(fields) => Some(ValueView::Object(fields)),
                None => None,
            }
        } else {
            None
        }
    }
}

/// The items whose frames `bytes` is made of, if it is made of such frames.
pub open spec fn parse_items(bytes: Seq<u8>) -> Option<Seq<ValueView>>
    decreases bytes.len(), 0int,
{
    if bytes.len() == 0 {
        Some(Seq::empty())
    } else {
        match frame_len(bytes) {
            None => None,
            Some(n) => match (parse_value(bytes.subrange(8, 8 + n)), parse_items(bytes.skip(8 + n))) {
                (Some(item), Some(rest)) => Some(seq![item] + rest),
                _ => None,
            },
        }
    }
}

/// The fields whose frames `bytes` is made of, if it is made of such frames.
pub open spec fn parse_fields(bytes: Seq<u8>) -> Option<Seq<(Seq<char>, ValueView)>>
    decreases bytes.len(), 0int,
{
    if bytes.len() == 0 {
        Some(Seq::empty())
    } else {
        match frame_len(bytes) {
            None => None,
            Some(k) => {
                let name = bytes.subrange(8, 8 + k);
                let after = bytes.skip(8 + k);
                match frame_len(after) {
                    None => None,
                    Some(n) => match (
                        parse_value(after.subrange(8, 8 + n)),
                        parse_fields(after.skip(8 + n)),
                    ) {
                        (Some(value), Some(rest)) => if valid_utf8(name) {
                            Some(seq![(decode_utf8(name), value)] + rest)
                        } else {
                            None
                        },
                        _ => None,
                    },
                }
            },
        }
    }
}

/// What `bytes` reads as: the value it encodes, or `Invalid` where it encodes none.
pub open spec fn decode_value(bytes: Seq<u8>) -> ValueView {
    match parse_value(bytes) {
        Some(v) => v,
        None => ValueView::Invalid,
    }
}

/// True when every length inside the encoding of `v` can be written in eight bytes.
pub open spec fn encodable(v: ValueView) -> bool
    decreases v,
{
    match v {
        ValueView::Array(items) => forall|i: int|
            0 <= i < items.len() ==> encodable(#[trigger] items[i]) && encode_value(items[i]).len()
                <= u64::MAX,
        ValueView::Object(fields) => forall|i: int|
            0 <= i < fields.len() ==> encodable((#[trigger] fields[i]).1) && encode_value(
                fields[i].1,
            ).len() <= u64::MAX && encode_utf8(fields[i].0).len() <= u64::MAX,
        _ => true,
    }
}

/// True when each of `items` can be encoded and framed.
pub open spec fn items_encodable(items: Seq<ValueView>) -> bool {
    forall|i: int|
        0 <= i < items.len() ==> encodable(#[trigger] items[i]) && encode_value(items[i]).len()
            <= u64::MAX
}

/// True when each of `fields` can be encoded and framed, name and value.
pub open spec fn fields_encodable(fields: Seq<(Seq<char>, ValueView)>) -> bool {
    forall|i: int|
        0 <= i < fields.len() ==> encodable((#[trigger] fields[i]).1) && encode_value(
            fields[i].1,
        ).len() <= u64::MAX && encode_utf8(fields[i].0).len() <= u64::MAX
}

/// A frame in front of other bytes is found again: its length, its body and what follows.
pub proof fn lemma_frame_split(body: Seq<u8>, rest: Seq<u8>)
    requires
        body.len() <= u64::MAX,
    ensures
        (frame(body) + rest).len() == 8 + body.len() + rest.len(),
        frame_len(frame(body) + rest) == Some(body.len() as int),
        (frame(body) + rest).subrange(8, 8 + body.len() as int) == body,
        (frame(body) + rest).skip(8 + body.len() as int) == rest,
{
    lemma_auto_spec_u64_to_from_le_bytes();
    let whole = frame(body) + rest;
    let end = 8 + body.len() as int;
    assert(whole.take(8) =~= spec_u64_to_le_bytes(body.len() as u64));
    assert(whole.subrange(8, end) =~= body);
    assert(whole.skip(end) =~= rest);
}

/// Reading the canonical encoding of a value gives the value back.
pub proof fn lemma_parse_encode(v: ValueView)
    requires
        encodable(v),
    ensures
        parse_value(encode_value(v)) == Some(v),
        decode_value(encode_value(v)) == v,
    decreases v, 0int,
{
    let bytes = encode_value(v);
    match v {
        ValueView::Invalid => {
            assert(bytes.skip(1) =~= Seq::<u8>::empty());
        },
        ValueView::Number(bits) => {
            lemma_auto_spec_u64_to_from_le_bytes();
            assert(bytes.skip(1) =~= spec_u64_to_le_bytes(bits));
        },
        ValueView::Boolean(flag) => {
            assert(bytes.skip(1) =~= seq![if flag { 1u8 } else { 0u8 }]);
        },
        ValueView::String(text) => {
            assert(bytes.skip(1) =~= encode_utf8(text));
            encode_utf8_valid_utf8(text);
            encode_utf8_decode_utf8(text);
        },
        ValueView::Bytes(blob) => {
            assert(bytes.skip(1) =~= blob);
        },
        ValueView::Array(items) => {
            assert(bytes.skip(1) =~= encode_items(items));
            assert(items_encodable(items));
            lemma_parse_encode_items(items);
        },
        ValueView::Object(fields) => {
            assert(bytes.skip(1) =~= encode_fields(fields));
            assert(fields_encodable(fields));
            lemma_parse_encode_fields(fields);
        },
    }
}

/// Reading the frames of a run of items gives the items back.
pub proof fn lemma_parse_encode_items(items: Seq<ValueView>)
    requires
        items_encodable(items),
    ensures
        parse_items(encode_items(items)) == Some(items),
    decreases items, 1int,
{
    if items.len() != 0 {
        let head = encode_value(items[0]);
        let tail = items.drop_first();
        assert forall|i: int| 0 <= i < tail.len() implies encodable(#[trigger] tail[i])
            && encode_value(tail[i]).len() <= u64::MAX by {
            assert(tail[i] == items[i + 1]);
        }
        lemma_frame_split(head, encode_items(tail));
        lemma_parse_encode(items[0]);
        lemma_parse_encode_items(tail);
        assert(seq![items[0]] + tail =~= items);
    }
}

/// Reading the frames of a run of fields gives the fields back.
pub proof fn lemma_parse_encode_fields(fields: Seq<(Seq<char>, ValueView)>)
    requires
        fields_encodable(fields),
    ensures
        parse_fields(encode_fields(fields)) == Some(fields),
    decreases fields, 1int,
{
    if fields.len() != 0 {
        let name = encode_utf8(fields[0].0);
        let value = encode_value(fields[0].1);
        let tail = fields.drop_first();
        assert forall|i: int| 0 <= i < tail.len() implies encodable((#[trigger] tail[i]).1)
            && encode_value(tail[i].1).len() <= u64::MAX && encode_utf8(tail[i].0).len()
            <= u64::MAX by {
            assert(tail[i] == fields[i + 1]);
        }
        let after = frame(value) + encode_fields(tail);
        assert(encode_fields(fields) =~= frame(name) + after);
        lemma_frame_split(name, after);
        lemma_frame_split(value, encode_fields(tail));
        encode_utf8_valid_utf8(fields[0].0);
        encode_utf8_decode_utf8(fields[0].0);
        lemma_parse_encode(fields[0].1);
        lemma_parse_encode_fields(tail);
        assert(seq![fields[0]] + tail =~= fields);
    }
}


/// The models of a run of values are as many, and each is the model of its value.
pub proof fn lemma_values_view(items: Seq<TaggedValue>)
    ensures
        values_view(items).len() == items.len(),
        forall|i: int| 0 <= i < items.len() ==> (#[trigger] values_view(items)[i]) == items[i]@,
    decreases items.len(),
{
    if items.len() != 0 {
        lemma_values_view(items.drop_last());
        assert(values_view(items) == values_view(items.drop_last()).push(items.last()@));
    } else {
        assert(values_view(items) == Seq::<ValueView>::empty());
    }
}

/// The models of a run of fields are as many, and each is the model of its field.
pub proof fn lemma_fields_view(fields: Seq<(String, TaggedValue)>)
    ensures
        fields_view(fields).len() == fields.len(),
        forall|i: int|
            0 <= i < fields.len() ==> (#[trigger] fields_view(fields)[i]) == (
                fields[i].0@,
                fields[i].1@,
            ),
    decreases fields.len(),
{
    if fields.len() != 0 {
        lemma_fields_view(fields.drop_last());
        assert(fields_view(fields) == fields_view(fields.drop_last()).push(
            (fields.last().0@, fields.last().1@),
        ));
    } else {
        assert(fields_view(fields) == Seq::<(Seq<char>, ValueView)>::empty());
    }
}

/// One more item at the end adds its frame at the end.
pub proof fn lemma_encode_items_push(items: Seq<ValueView>, last: ValueView)
    ensures
        encode_items(items.push(last)) == encode_items(items) + frame(encode_value(last)),
    decreases items.len(),
{
    if items.len() == 0 {
        reveal_with_fuel(encode_items, 2);
        assert(items.push(last).drop_first() =~= Seq::<ValueView>::empty());
        assert(encode_items(items.push(last)) =~= frame(encode_value(last)));
    } else {
        assert(items.push(last).drop_first() =~= items.drop_first().push(last));
        lemma_encode_items_push(items.drop_first(), last);
        assert(encode_items(items.push(last)) =~= encode_items(items) + frame(encode_value(last)));
    }
}

/// One more field at the end adds its two frames at the end.
pub proof fn lemma_encode_fields_push(
    fields: Seq<(Seq<char>, ValueView)>,
    last: (Seq<char>, ValueView),
)
    ensures
        encode_fields(fields.push(last)) == encode_fields(fields) + frame(encode_utf8(last.0))
            + frame(encode_value(last.1)),
    decreases fields.len(),
{
    if fields.len() == 0 {
        reveal_with_fuel(encode_fields, 2);
        assert(fields.push(last).drop_first() =~= Seq::<(Seq<char>, ValueView)>::empty());
        assert(encode_fields(fields.push(last)) =~= frame(encode_utf8(last.0)) + frame(
            encode_value(last.1),
        ));
    } else {
        assert(fields.push(last).drop_first() =~= fields.drop_first().push(last));
        lemma_encode_fields_push(fields.drop_first(), last);
        assert(encode_fields(fields.push(last)) =~= encode_fields(fields) + frame(
            encode_utf8(last.0),
        ) + frame(encode_value(last.1)));
    }
}

/// Appends the frame of `body` to `out`.
fn push_frame(out: &mut Vec<u8>, body: &Vec<u8>)
    ensures
        final(out)@ == old(out)@ + frame(body@),
        body@.len() <= u64::MAX,
{
    let mut len = u64_to_le_bytes(body.len() as u64);
    out.append(&mut len);
    let mut i: usize = 0;
    while i < body.len()
        invariant
            i <= body.len(),
            out@ == old(out)@ + spec_u64_to_le_bytes(body@.len() as u64) + body@.take(i as int),
        decreases body.len() - i,
    {
        out.push(body[i]);
        assert(body@.take(i + 1) =~= body@.take(i as int).push(body@[i as int]));
        i += 1;
    }
    assert(body@.take(i as int) =~= body@);
}

/// `String::from_utf8` of std: the text that `bytes` is the UTF-8 encoding of, and `None`
/// exactly where `bytes` is not valid UTF-8.
#[verifier::external_body]
fn text_from_utf8(bytes: Vec<u8>) -> (text: Option<String>)
    ensures
        text is Some <==> valid_utf8(bytes@),
        text matches Some(t) ==> t@ == decode_utf8(bytes@),
{
    match String::from_utf8(bytes) {
        Ok(t) => Some(t),
        Err(_) => None,
    }
}

/// The length of the body of the frame that stands at `pos` in `bytes`, where a whole
/// frame stands there.
fn read_frame_len(bytes: &[u8], pos: usize) -> (len: Option<usize>)
    requires
        pos <= bytes@.len(),
    ensures
        match frame_len(bytes@.skip(pos as int)) {
            Some(n) => len == Some(n as usize) && pos + 8 + n <= bytes@.len(),
            None => len is None,
        },
{
    if bytes.len() - pos < 8 {
        return None;
    }
    let n = u64_from_le_bytes(slice_subrange(bytes, pos, pos + 8));
    assert(bytes@.skip(pos as int).take(8) =~= bytes@.subrange(pos as int, pos + 8));
    if n > (bytes.len() - pos - 8) as u64 {
        None
    } else {
        Some(n as usize)
    }
}

/// Reads the canonical encoding of one value.
fn parse(bytes: &[u8]) -> (parsed: Option<TaggedValue>)
    ensures
        match parse_value(bytes@) {
            Some(v) => parsed matches Some(p) && p@ == v,
            None => parsed is None,
        },
    decreases bytes@.len(), 1int,
{
    if bytes.len() == 0 {
        return None;
    }
    let tag = bytes[0];
    let body = slice_subrange(bytes, 1, bytes.len());
    if tag == TAG_INVALID {
        if body.len() == 0 {
            Some(TaggedValue::Invalid)
        } else {
            None
        }
    } else if tag == TAG_NUMBER {
        if body.len() == 8 {
            Some(TaggedValue::Number(u64_from_le_bytes(body)))
        } else {
            None
        }
    } else if tag == TAG_BOOLEAN {
        if body.len() == 1 && body[0] <= 1 {
            Some(TaggedValue::Boolean(body[0] == 1))
        } else {
            None
        }
    } else if tag == TAG_STRING {
        match text_from_utf8(slice_to_vec(body)) {
            Some(text) => Some(TaggedValue::String(text)),
            None => None,
        }
    } else if tag == TAG_BYTES {
        Some(TaggedValue::Bytes(slice_to_vec(body)))
    } else if tag == TAG_ARRAY {
        match parse_item_frames(body) {
            Some(items) => Some(TaggedValue::Array(items)),
            None => None,
        }
    } else if tag == TAG_OBJECT {
        match parse_field_frames(body) {
            Some(fields) => Some(TaggedValue::Object(fields)),
            None => None,
        }
    } else {
        None
    }
}

/// Reads the frames of a run of items.
fn parse_item_frames(bytes: &[u8]) -> (parsed: Option<Vec<TaggedValue>>)
    ensures
        match parse_items(bytes@) {
            Some(items) => parsed matches Some(p) && values_view(p@) == items,
            None => parsed is None,
        },
    decreases bytes@.len(), 0int,
{
    let mut items: Vec<TaggedValue> = Vec::new();
    let mut pos: usize = 0;
    assert(bytes@.skip(0) =~= bytes@);
    assert(values_view(items@) == Seq::<ValueView>::empty());
    while pos < bytes.len()
        invariant
            pos <= bytes.len(),
            parse_items(bytes@) == match parse_items(bytes@.skip(pos as int)) {
                Some(rest) => Some(values_view(items@) + rest),
                None => None,
            },
        decreases bytes.len() - pos,
    {
        let ghost here = bytes@.skip(pos as int);
        let n = match read_frame_len(bytes, pos) {
            Some(n) => n,
            None => {
                return None;
            },
        };
        let item = match parse(slice_subrange(bytes, pos + 8, pos + 8 + n)) {
            Some(item) => item,
            None => {
                proof {
                    assert(here.subrange(8, 8 + n) =~= bytes@.subrange(pos + 8, pos + 8 + n));
                }
                return None;
            },
        };
        proof {
            assert(here.subrange(8, 8 + n) =~= bytes@.subrange(pos + 8, pos + 8 + n));
            assert(here.skip(8 + n) =~= bytes@.skip(pos + 8 + n));
            let before = values_view(items@);
            assert(items@.push(item).drop_last() =~= items@);
            assert(values_view(items@.push(item)) == before.push(item@));
            match parse_items(bytes@.skip(pos + 8 + n)) {
                Some(rest) => {
                    assert(before + (seq![item@] + rest) =~= before.push(item@) + rest);
                },
                None => {},
            }
        }
        items.push(item);
        pos = pos + 8 + n;
    }
    assert(values_view(items@) + Seq::<ValueView>::empty() =~= values_view(items@));
    Some(items)
}

/// Reads the frames of a run of fields.
fn parse_field_frames(bytes: &[u8]) -> (parsed: Option<Vec<(String, TaggedValue)>>)
    ensures
        match parse_fields(bytes@) {
            Some(fields) => parsed matches Some(p) && fields_view(p@) == fields,
            None => parsed is None,
        },
    decreases bytes@.len(), 0int,
{
    let mut fields: Vec<(String, TaggedValue)> = Vec::new();
    let mut pos: usize = 0;
    assert(bytes@.skip(0) =~= bytes@);
    assert(fields_view(fields@) == Seq::<(Seq<char>, ValueView)>::empty());
    while pos < bytes.len()
        invariant
            pos <= bytes.len(),
            parse_fields(bytes@) == match parse_fields(bytes@.skip(pos as int)) {
                Some(rest) => Some(fields_view(fields@) + rest),
                None => None,
            },
        decreases bytes.len() - pos,
    {
        let ghost here = bytes@.skip(pos as int);
        let k = match read_frame_len(bytes, pos) {
            Some(k) => k,
            None => {
                return None;
            },
        };
        let ghost after = here.skip(8 + k);
        let at = pos + 8 + k;
        assert(after =~= bytes@.skip(at as int));
        let n = match read_frame_len(bytes, at) {
            Some(n) => n,
            None => {
                return None;
            },
        };
        proof {
            assert(here.subrange(8, 8 + k) =~= bytes@.subrange(pos + 8, pos + 8 + k));
            assert(after.subrange(8, 8 + n) =~= bytes@.subrange(at + 8, at + 8 + n));
            assert(after.skip(8 + n) =~= bytes@.skip(at + 8 + n));
        }
        let value = match parse(slice_subrange(bytes, at + 8, at + 8 + n)) {
            Some(value) => value,
            None => {
                return None;
            },
        };
        let name = match text_from_utf8(slice_to_vec(slice_subrange(bytes, pos + 8, at))) {
            Some(name) => name,
            None => {
                return None;
            },
        };
        proof {
            let before = fields_view(fields@);
            let field = (name, value);
            assert(fields@.push(field).drop_last() =~= fields@);
            assert(fields_view(fields@.push(field)) == before.push((name@, value@)));
            match parse_fields(bytes@.skip(at + 8 + n)) {
                Some(rest) => {
                    assert(before + (seq![(name@, value@)] + rest) =~= before.push(
                        (name@, value@),
                    ) + rest);
                },
                None => {},
            }
        }
        fields.push((name, value));
        pos = at + 8 + n;
    }
    assert(fields_view(fields@) + Seq::<(Seq<char>, ValueView)>::empty() =~= fields_view(fields@));
    Some(fields)
}

impl Clone for TaggedValue {
    fn clone(&self) -> (copy: Self)
        ensures
            copy@ == self@,
        decreases self,
    {
        match self {
            TaggedValue::Number(bits) => TaggedValue::Number(*bits),
            TaggedValue::Boolean(flag) => TaggedValue::Boolean(*flag),
            TaggedValue::String(text) => TaggedValue::String(text.clone()),
            TaggedValue::Bytes(blob) => TaggedValue::Bytes(slice_to_vec(blob.as_slice())),
            TaggedValue::Array(items) => {
                let mut copy: Vec<TaggedValue> = Vec::new();
                let mut i: usize = 0;
                while i < items.len()
                    invariant
                        i <= items.len(),
                        copy@.len() == i,
                        forall|j: int| 0 <= j < i ==> (#[trigger] copy@[j])@ == items@[j]@,
                        forall|j: int|
                            0 <= j < items.len() ==> decreases_to!(self => #[trigger] items@[j]),
                    decreases items.len() - i,
                {
                    copy.push(items[i].clone());
                    i += 1;
                }
                proof {
                    lemma_values_view(items@);
                    lemma_values_view(copy@);
                    assert(values_view(copy@) =~= values_view(items@));
                }
                TaggedValue::Array(copy)
            },
            TaggedValue::Object(fields) => {
                let mut copy: Vec<(String, TaggedValue)> = Vec::new();
                let mut i: usize = 0;
                while i < fields.len()
                    invariant
                        i <= fields.len(),
                        copy@.len() == i,
                        forall|j: int|
                            0 <= j < i ==> (#[trigger] copy@[j]).0@ == fields@[j].0@ && copy@[j].1@
                                == fields@[j].1@,
                        forall|j: int|
                            0 <= j < fields.len() ==> decreases_to!(self => #[trigger] fields@[j]),
                    decreases fields.len() - i,
                {
                    copy.push((fields[i].0.clone(), fields[i].1.clone()));
                    i += 1;
                }
                proof {
                    lemma_fields_view(fields@);
                    lemma_fields_view(copy@);
                    assert(fields_view(copy@) =~= fields_view(fields@));
                }
                TaggedValue::Object(copy)
            },
            TaggedValue::Invalid => TaggedValue::Invalid,
        }
    }
}

/// The value of the first of `fields` that has the name `name`.
pub open spec fn field_of(fields: Seq<(Seq<char>, ValueView)>, name: Seq<char>) -> Option<ValueView>
    decreases fields.len(),
{
    if fields.len() == 0 {
        None
    } else if fields[0].0 == name {
        Some(fields[0].1)
    } else {
        field_of(fields.drop_first(), name)
    }
}

impl TaggedValue {
    /// The value of the field `name` of an object: that of the first field of that
    /// name. Nothing for an object without such a field, and for what is no object.
    pub fn get(&self, name: &str) -> (value: Option<&TaggedValue>)
        ensures
            match value {
                Some(found) => self@ matches ValueView::Object(fields) && field_of(fields, name@)
                    == Some(found@),
                None => !(self@ matches ValueView::Object(fields) && field_of(fields, name@)
                    is Some),
            },
    {
        match self {
            TaggedValue::Object(fields) => {
                let ghost models = fields_view(fields@);
                proof {
                    lemma_fields_view(fields@);
                    assert(models.skip(0) =~= models);
                }
                let mut i: usize = 0;
                while i < fields.len()
                    invariant
                        i <= fields.len(),
                        models == fields_view(fields@),
                        models.len() == fields@.len(),
                        forall|j: int|
                            0 <= j < fields@.len() ==> (#[trigger] models[j]) == (
                                fields@[j].0@,
                                fields@[j].1@,
                            ),
                        self@ == ValueView::Object(models),
                        field_of(models, name@) == field_of(models.skip(i as int), name@),
                    decreases fields.len() - i,
                {
                    proof {
                        assert(models.skip(i as int).drop_first() =~= models.skip(i + 1));
                        assert(models.skip(i as int)[0] == models[i as int]);
                        encode_utf8_decode_utf8(fields@[i as int].0@);
                        encode_utf8_decode_utf8(name@);
                    }
                    if same_bytes(fields[i].0.as_str().as_bytes(), name.as_bytes()) {
                        return Some(&fields[i].1);
                    }
                    i += 1;
                }
                None
            },
            _ => None,
        }
    }

    /// Reads a canonical encoding. Bytes that encode no value read as `Invalid`.
    pub fn from_slice(bytes: &[u8]) -> (value: TaggedValue)
        ensures
            value@ == decode_value(bytes@),
    {
        match parse(bytes) {
            Some(value) => value,
            None => TaggedValue::Invalid,
        }
    }

    /// Reads a canonical encoding held in a vector.
    pub fn from_vec(bytes: &Vec<u8>) -> (value: TaggedValue)
        ensures
            value@ == decode_value(bytes@),
    {
        TaggedValue::from_slice(bytes.as_slice())
    }

    /// The kind of this value.
    pub fn get_type(&self) -> (kind: DataTypeEnum)
        ensures
            kind == type_of(self@),
    {
        match self {
            TaggedValue::Number(_) => DataTypeEnum::Number,
            TaggedValue::Boolean(_) => DataTypeEnum::Boolean,
            TaggedValue::String(_) => DataTypeEnum::String,
            TaggedValue::Bytes(_) => DataTypeEnum::Bytes,
            TaggedValue::Array(_) => DataTypeEnum::Array,
            TaggedValue::Object(_) => DataTypeEnum::Object,
            TaggedValue::Invalid => DataTypeEnum::Invalid,
        }
    }

    /// The canonical encoding of this value. Reading it with [`TaggedValue::from_slice`]
    /// gives the value back.
    pub fn get_data(&self) -> (bytes: Vec<u8>)
        ensures
            bytes@ == encode_value(self@),
            encodable(self@),
            decode_value(bytes@) == self@,
        decreases self,
    {
        let mut out: Vec<u8> = Vec::new();
        match self {
            TaggedValue::Invalid => {
                out.push(TAG_INVALID);
                assert(out@ =~= encode_value(self@));
            },
            TaggedValue::Number(bits) => {
                out.push(TAG_NUMBER);
                let mut payload = u64_to_le_bytes(*bits);
                out.append(&mut payload);
                assert(out@ =~= encode_value(self@));
            },
            TaggedValue::Boolean(flag) => {
                out.push(TAG_BOOLEAN);
                out.push(if *flag { 1 } else { 0 });
                assert(out@ =~= encode_value(self@));
            },
            TaggedValue::String(text) => {
                out.push(TAG_STRING);
                let mut payload = text.as_str().as_bytes_vec();
                out.append(&mut payload);
                assert(out@ =~= encode_value(self@));
            },
            TaggedValue::Bytes(blob) => {
                out.push(TAG_BYTES);
                let mut payload = slice_to_vec(blob.as_slice());
                out.append(&mut payload);
                assert(out@ =~= encode_value(self@));
            },
            TaggedValue::Array(items) => {
                out.push(TAG_ARRAY);
                proof {
                    lemma_values_view(items@);
                    assert(values_view(items@).take(0) =~= Seq::<ValueView>::empty());
                }
                let ghost models = values_view(items@);
                let mut i: usize = 0;
                while i < items.len()
                    invariant
                        i <= items.len(),
                        models == values_view(items@),
                        models.len() == items@.len(),
                        forall|j: int| 0 <= j < items@.len() ==> (#[trigger] models[j]) == items@[j]@,
                        out@ == seq![TAG_ARRAY] + encode_items(models.take(i as int)),
                        items_encodable(models.take(i as int)),
                        forall|j: int| 0 <= j < items.len() ==> decreases_to!(self => #[trigger] items@[j]),
                    decreases items.len() - i,
                {
                    let item = items[i].get_data();
                    push_frame(&mut out, &item);
                    proof {
                        lemma_encode_items_push(models.take(i as int), models[i as int]);
                        assert(models.take(i + 1) =~= models.take(i as int).push(models[i as int]));
                        assert(out@ =~= seq![TAG_ARRAY] + encode_items(models.take(i + 1)));
                    }
                    i += 1;
                }
                assert(models.take(i as int) =~= models);
            },
            TaggedValue::Object(fields) => {
                out.push(TAG_OBJECT);
                proof {
                    lemma_fields_view(fields@);
                    assert(fields_view(fields@).take(0) =~= Seq::<(Seq<char>, ValueView)>::empty());
                }
                let ghost models = fields_view(fields@);
                let mut i: usize = 0;
                while i < fields.len()
                    invariant
                        i <= fields.len(),
                        models == fields_view(fields@),
                        models.len() == fields@.len(),
                        forall|j: int|
                            0 <= j < fields@.len() ==> (#[trigger] models[j]) == (
                                fields@[j].0@,
                                fields@[j].1@,
                            ),
                        out@ == seq![TAG_OBJECT] + encode_fields(models.take(i as int)),
                        fields_encodable(models.take(i as int)),
                        forall|j: int| 0 <= j < fields.len() ==> decreases_to!(self => #[trigger] fields@[j]),
                    decreases fields.len() - i,
                {
                    let name = fields[i].0.as_str().as_bytes_vec();
                    let value = fields[i].1.get_data();
                    push_frame(&mut out, &name);
                    push_frame(&mut out, &value);
                    proof {
                        lemma_encode_fields_push(models.take(i as int), models[i as int]);
                        assert(models.take(i + 1) =~= models.take(i as int).push(models[i as int]));
                        assert(out@ =~= seq![TAG_OBJECT] + encode_fields(models.take(i + 1)));
                    }
                    i += 1;
                }
                assert(models.take(i as int) =~= models);
            },
        }
        proof {
            lemma_parse_encode(self@);
        }
        out
    }
}

} // verus!
