//! Decoding of a payload along the field tree of its message type.

use crate::encoding::cdr::{
    after_primitive, after_string, after_wstring, primitive_at, string_at, wstring_at,
    CdrDecoder, StringFault,
};
use crate::endian::{ordered_u16, ordered_u32, ordered_u64, signed16, signed32, signed64, signed8};
use crate::error::{ErrorKind, PybagError};
use crate::schema::ros2msg::{find_schema, place_of};
use crate::schema::scan::{matches_at, stands_at};
use crate::schema::types::{
    field_views, schema_tree_views, FieldType, FieldTypeView, FieldView, PrimitiveType, Schema,
    SchemaField, SchemaTreeView, StringType,
};
use crate::text::{chars_of, text_of_chars};
use vstd::prelude::*;

verus! {

/// A decoded value. Numbers with a fraction are held as the bits of their
/// encoding.
#[derive(Debug, PartialEq)]
pub enum Value {
    Bool(bool),
    Int8(i8),
    Uint8(u8),
    Int16(i16),
    Uint16(u16),
    Int32(i32),
    Uint32(u32),
    Int64(i64),
    Uint64(u64),
    Float32(u32),
    Float64(u64),
    Byte(u8),
    Char(char),
    String(String),
    /// The elements of an array or a sequence, in order.
    List(Vec<Value>),
    /// The fields of a message with their names, in the order of the
    /// definition. No name occurs twice in a message that was read.
    Message(Vec<(String, Value)>),
}

/// What a `Value` holds, as mathematical values.
pub enum ValueView {
    Bool(bool),
    Int8(i8),
    Uint8(u8),
    Int16(i16),
    Uint16(u16),
    Int32(i32),
    Uint32(u32),
    Int64(i64),
    Uint64(u64),
    Float32(u32),
    Float64(u64),
    Byte(u8),
    Char(char),
    String(Seq<char>),
    List(Seq<ValueView>),
    Message(Seq<(Seq<char>, ValueView)>),
}

/// What a value holds, as mathematical values.
pub open spec fn view_of(v: Value) -> ValueView
    decreases v,
{
    match v {
        Value::Bool(x) => ValueView::Bool(x),
        Value::Int8(x) => ValueView::Int8(x),
        Value::Uint8(x) => ValueView::Uint8(x),
        Value::Int16(x) => ValueView::Int16(x),
        Value::Uint16(x) => ValueView::Uint16(x),
        Value::Int32(x) => ValueView::Int32(x),
        Value::Uint32(x) => ValueView::Uint32(x),
        Value::Int64(x) => ValueView::Int64(x),
        Value::Uint64(x) => ValueView::Uint64(x),
        Value::Float32(x) => ValueView::Float32(x),
        Value::Float64(x) => ValueView::Float64(x),
        Value::Byte(x) => ValueView::Byte(x),
        Value::Char(x) => ValueView::Char(x),
        Value::String(s) => ValueView::String(s@),
        Value::List(items) => ValueView::List(
            Seq::new(
                items@.len(),
                |i: int|
                    if 0 <= i < items@.len() {
                        view_of(items@[i])
                    } else {
                        ValueView::Bool(false)
                    },
            ),
        ),
        Value::Message(fields) => ValueView::Message(
            Seq::new(
                fields@.len(),
                |i: int|
                    if 0 <= i < fields@.len() {
                        (fields@[i].0@, view_of(fields@[i].1))
                    } else {
                        (Seq::empty(), ValueView::Bool(false))
                    },
            ),
        ),
    }
}

impl View for Value {
    type V = ValueView;

    open spec fn view(&self) -> ValueView {
        view_of(*self)
    }
}

/// The values by their views.
pub open spec fn list_views(v: Seq<Value>) -> Seq<ValueView> {
    Seq::new(v.len(), |i: int| v[i]@)
}

/// The named values by their views.
pub open spec fn named_views(v: Seq<(String, Value)>) -> Seq<(Seq<char>, ValueView)> {
    Seq::new(v.len(), |i: int| (v[i].0@, v[i].1@))
}

/// The value of the primitive type `p` that the bytes `b` encode.
pub open spec fn primitive_of_bytes(p: PrimitiveType, b: Seq<u8>, little_endian: bool) -> ValueView {
    match p {
        PrimitiveType::Bool => ValueView::Bool(b[0] != 0),
        PrimitiveType::Int8 => ValueView::Int8(signed8(b[0])),
        PrimitiveType::Uint8 => ValueView::Uint8(b[0]),
        PrimitiveType::Int16 => ValueView::Int16(signed16(ordered_u16(b, little_endian))),
        PrimitiveType::Uint16 => ValueView::Uint16(ordered_u16(b, little_endian)),
        PrimitiveType::Int32 => ValueView::Int32(signed32(ordered_u32(b, little_endian))),
        PrimitiveType::Uint32 => ValueView::Uint32(ordered_u32(b, little_endian)),
        PrimitiveType::Int64 => ValueView::Int64(signed64(ordered_u64(b, little_endian))),
        PrimitiveType::Uint64 => ValueView::Uint64(ordered_u64(b, little_endian)),
        PrimitiveType::Float32 => ValueView::Float32(ordered_u32(b, little_endian)),
        PrimitiveType::Float64 => ValueView::Float64(ordered_u64(b, little_endian)),
        PrimitiveType::Byte => ValueView::Byte(b[0]),
        PrimitiveType::Char => ValueView::Char(b[0] as char),
    }
}

/// The name `s` from `pos` on with each `/msg/` replaced by `/`, behind
/// `acc`.
pub open spec fn without_msg_from(s: Seq<char>, pos: int, acc: Seq<char>) -> Seq<char>
    decreases s.len() - pos,
{
    if pos < 0 || pos >= s.len() {
        acc
    } else if matches_at(s, "/msg/"@, pos) && "/msg/"@.len() > 0 {
        without_msg_from(s, pos + "/msg/"@.len(), acc.push('/'))
    } else {
        without_msg_from(s, pos + 1, acc.push(s[pos]))
    }
}

/// The name `s` with each `/msg/` replaced by `/`.
pub open spec fn without_msg(s: Seq<char>) -> Seq<char> {
    without_msg_from(s, 0, Seq::empty())
}

/// The message type that the name `name` refers to among `subs`: the one
/// of that name, or else the one of that name without `/msg/`.
pub open spec fn referred(subs: Seq<SchemaTreeView>, name: Seq<char>) -> Option<SchemaTreeView> {
    match place_of(subs, name, 0) {
        Some(i) => Some(subs[i]),
        None => match place_of(subs, without_msg(name), 0) {
            Some(i) => Some(subs[i]),
            None => None,
        },
    }
}

/// The kind of error that a fault of a string read is reported as.
pub open spec fn string_error(f: StringFault) -> ErrorKind {
    match f {
        StringFault::Short(e) => e@,
        StringFault::NotUtf8 => ErrorKind::CdrDecodeError,
    }
}

/// A type of no consequence, for measures.
pub open spec fn any_type() -> FieldTypeView {
    FieldTypeView::Primitive(PrimitiveType::Bool)
}

/// The value of the type `t` that the payload holds at `pos`, and the
/// position behind it. References to message types are followed at most
/// `depth` deep.
pub open spec fn field_at(
    data: Seq<u8>,
    pos: int,
    little_endian: bool,
    t: FieldTypeView,
    subs: Seq<SchemaTreeView>,
    depth: nat,
) -> Result<(ValueView, int), ErrorKind>
    decreases depth, 0nat, t, 0nat, 0nat,
{
    match t {
        FieldTypeView::Primitive(p) => match primitive_at(data, pos, p.width()) {
            Ok(b) => Ok(
                (primitive_of_bytes(p, b, little_endian), after_primitive(data, pos, p.width())),
            ),
            Err(e) => Err(e@),
        },
        FieldTypeView::String(s) => if s.is_wide {
            match wstring_at(data, pos, little_endian) {
                Ok(text) => Ok((ValueView::String(text), after_wstring(data, pos, little_endian))),
                Err(e) => Err(e@),
            }
        } else {
            match string_at(data, pos, little_endian) {
                Ok(text) => Ok((ValueView::String(text), after_string(data, pos, little_endian))),
                Err(f) => Err(string_error(f)),
            }
        },
        FieldTypeView::Array { element_type, length, .. } => match items_at(
            data,
            pos,
            little_endian,
            *element_type,
            subs,
            depth,
            length as nat,
            Seq::empty(),
        ) {
            Ok((items, next)) => Ok((ValueView::List(items), next)),
            Err(e) => Err(e),
        },
        FieldTypeView::Sequence { element_type, .. } => match primitive_at(data, pos, 4) {
            Err(e) => Err(e@),
            Ok(b) => match items_at(
                data,
                after_primitive(data, pos, 4),
                little_endian,
                *element_type,
                subs,
                depth,
                ordered_u32(b, little_endian) as nat,
                Seq::empty(),
            ) {
                Ok((items, next)) => Ok((ValueView::List(items), next)),
                Err(e) => Err(e),
            },
        },
        FieldTypeView::Complex { full_name } => if depth == 0 {
            Err(ErrorKind::CdrDecodeError)
        } else {
            match referred(subs, full_name) {
                None => Err(ErrorKind::CdrDecodeError),
                Some(schema) => match fields_at(
                    data,
                    pos,
                    little_endian,
                    schema.fields,
                    0,
                    subs,
                    (depth - 1) as nat,
                    Seq::empty(),
                ) {
                    Ok((fields, next)) => Ok((ValueView::Message(fields), next)),
                    Err(e) => Err(e),
                },
            }
        },
    }
}

/// `count` values of the type `element` that the payload holds from `pos`
/// on, behind `acc`, and the position behind them.
pub open spec fn items_at(
    data: Seq<u8>,
    pos: int,
    little_endian: bool,
    element: FieldTypeView,
    subs: Seq<SchemaTreeView>,
    depth: nat,
    count: nat,
    acc: Seq<ValueView>,
) -> Result<(Seq<ValueView>, int), ErrorKind>
    decreases depth, 0nat, element, 1nat, count,
{
    if count == 0 {
        Ok((acc, pos))
    } else {
        match field_at(data, pos, little_endian, element, subs, depth) {
            Err(e) => Err(e),
            Ok((v, next)) => items_at(
                data,
                next,
                little_endian,
                element,
                subs,
                depth,
                (count - 1) as nat,
                acc.push(v),
            ),
        }
    }
}

/// Where the first of `fields` from `from` on with the name `name` stands.
pub open spec fn name_place(fields: Seq<(Seq<char>, ValueView)>, name: Seq<char>, from: int) -> Option<
    int,
>
    decreases fields.len() - from,
{
    if from < 0 || from >= fields.len() {
        None
    } else if fields[from].0 == name {
        Some(from)
    } else {
        name_place(fields, name, from + 1)
    }
}

/// `fields` with `field` among them: in the place of the field of the
/// same name, if there is one, else behind all.
pub open spec fn with_field(fields: Seq<(Seq<char>, ValueView)>, field: (Seq<char>, ValueView)) -> Seq<
    (Seq<char>, ValueView),
> {
    match name_place(fields, field.0, 0) {
        Some(i) => fields.update(i, field),
        None => fields.push(field),
    }
}

/// Whether no name occurs twice among the fields.
pub open spec fn field_names_distinct(fields: Seq<(Seq<char>, ValueView)>) -> bool {
    forall|i: int, j: int|
        0 <= i < j < fields.len() ==> (#[trigger] fields[i]).0 != (#[trigger] fields[j]).0
}

/// Where a name is found, it stands; where it is not found, it stands
/// nowhere.
pub proof fn lemma_name_place(fields: Seq<(Seq<char>, ValueView)>, name: Seq<char>, from: int)
    requires
        0 <= from,
    ensures
        match name_place(fields, name, from) {
            Some(i) => from <= i < fields.len() && fields[i].0 == name,
            None => forall|k: int| from <= k < fields.len() ==> (#[trigger] fields[k]).0 != name,
        },
    decreases fields.len() - from,
{
    if from < fields.len() && fields[from].0 != name {
        lemma_name_place(fields, name, from + 1);
    }
}

/// Putting a field among fields with distinct names leaves the names
/// distinct.
pub proof fn lemma_with_field_distinct(fields: Seq<(Seq<char>, ValueView)>, field: (Seq<char>, ValueView))
    requires
        field_names_distinct(fields),
    ensures
        field_names_distinct(with_field(fields, field)),
{
    lemma_name_place(fields, field.0, 0);
    let out = with_field(fields, field);
    assert forall|i: int, j: int| 0 <= i < j < out.len() implies (#[trigger] out[i]).0 != (
    #[trigger] out[j]).0 by {
        match name_place(fields, field.0, 0) {
            Some(at) => {
                assert(out[i].0 == fields[i].0);
                assert(out[j].0 == fields[j].0);
            },
            None => {
                assert(out[i] == fields[i]);
                if j < fields.len() {
                    assert(out[j] == fields[j]);
                }
            },
        }
    }
}

/// No name occurs twice among the fields of a message that was read.
pub proof fn lemma_fields_distinct(
    data: Seq<u8>,
    pos: int,
    little_endian: bool,
    fields: Seq<FieldView>,
    k: int,
    subs: Seq<SchemaTreeView>,
    depth: nat,
    acc: Seq<(Seq<char>, ValueView)>,
)
    requires
        field_names_distinct(acc),
    ensures
        match fields_at(data, pos, little_endian, fields, k, subs, depth, acc) {
            Ok((all, _)) => field_names_distinct(all),
            Err(_) => true,
        },
    decreases fields.len() - k,
{
    if 0 <= k < fields.len() {
        match field_at(data, pos, little_endian, fields[k].field_type, subs, depth) {
            Err(_) => {},
            Ok((v, next)) => {
                lemma_with_field_distinct(acc, (fields[k].name, v));
                lemma_fields_distinct(
                    data,
                    next,
                    little_endian,
                    fields,
                    k + 1,
                    subs,
                    depth,
                    with_field(acc, (fields[k].name, v)),
                );
            },
        }
    }
}

/// The values of the fields from the `k`-th on that the payload holds
/// from `pos` on, each with the name of its field, put among `acc`, and
/// the position behind them. Each name stands once: where the definition
/// has several fields of one name, all of them are read, and the value of
/// the last counts.
pub open spec fn fields_at(
    data: Seq<u8>,
    pos: int,
    little_endian: bool,
    fields: Seq<FieldView>,
    k: int,
    subs: Seq<SchemaTreeView>,
    depth: nat,
    acc: Seq<(Seq<char>, ValueView)>,
) -> Result<(Seq<(Seq<char>, ValueView)>, int), ErrorKind>
    decreases depth, 1nat, any_type(), 0nat, fields.len() - k,
{
    if k < 0 || k >= fields.len() {
        Ok((acc, pos))
    } else {
        match field_at(data, pos, little_endian, fields[k].field_type, subs, depth) {
            Err(e) => Err(e),
            Ok((v, next)) => fields_at(
                data,
                next,
                little_endian,
                fields,
                k + 1,
                subs,
                depth,
                with_field(acc, (fields[k].name, v)),
            ),
        }
    }
}

/// How deep references to message types are followed.
pub const MAX_DEPTH: usize = 64;

/// The value that the payload `data` holds for the message type `schema`:
/// its fields in the order of the definition. Fewer than 4 bytes hold no
/// payload.
pub open spec fn message_value(data: Seq<u8>, schema: SchemaTreeView, subs: Seq<SchemaTreeView>) -> Result<
    ValueView,
    ErrorKind,
> {
    if data.len() < 4 || data.len() + 16 > usize::MAX {
        Err(ErrorKind::CdrDecodeError)
    } else {
        match fields_at(data, 4, data[1] != 0, schema.fields, 0, subs, 64, Seq::empty()) {
            Ok((fields, _)) => Ok(ValueView::Message(fields)),
            Err(e) => Err(e),
        }
    }
}

/// No name occurs twice among the fields of the value of a message.
pub proof fn lemma_message_names_distinct(data: Seq<u8>, schema: SchemaTreeView, subs: Seq<SchemaTreeView>)
    ensures
        match message_value(data, schema, subs) {
            Ok(ValueView::Message(fields)) => field_names_distinct(fields),
            _ => true,
        },
{
    if !(data.len() < 4 || data.len() + 16 > usize::MAX) {
        lemma_fields_distinct(data, 4, data[1] != 0, schema.fields, 0, subs, 64, Seq::empty());
    }
}

/// Reads a value of the primitive type `p`.
pub fn decode_primitive(decoder: &mut CdrDecoder, p: &PrimitiveType) -> (r: Result<Value, PybagError>)
    requires
        old(decoder).wf(),
    ensures
        final(decoder).wf(),
        final(decoder).same_input(old(decoder)),
        final(decoder).cursor() == after_primitive(
            old(decoder).input(),
            old(decoder).cursor(),
            p.width(),
        ),
        match primitive_at(old(decoder).input(), old(decoder).cursor(), p.width()) {
            Ok(b) => r is Ok && r->Ok_0@ == primitive_of_bytes(*p, b, old(decoder).little_endian()),
            Err(e) => r is Err && r->Err_0@ == e@,
        },
{
    match p {
        PrimitiveType::Bool => Ok(Value::Bool(decoder.read_bool()?)),
        PrimitiveType::Int8 => Ok(Value::Int8(decoder.read_i8()?)),
        PrimitiveType::Uint8 => Ok(Value::Uint8(decoder.read_u8()?)),
        PrimitiveType::Int16 => Ok(Value::Int16(decoder.read_i16()?)),
        PrimitiveType::Uint16 => Ok(Value::Uint16(decoder.read_u16()?)),
        PrimitiveType::Int32 => Ok(Value::Int32(decoder.read_i32()?)),
        PrimitiveType::Uint32 => Ok(Value::Uint32(decoder.read_u32()?)),
        PrimitiveType::Int64 => Ok(Value::Int64(decoder.read_i64()?)),
        PrimitiveType::Uint64 => Ok(Value::Uint64(decoder.read_u64()?)),
        PrimitiveType::Float32 => Ok(Value::Float32(decoder.read_f32_bits()?)),
        PrimitiveType::Float64 => Ok(Value::Float64(decoder.read_f64_bits()?)),
        PrimitiveType::Byte => Ok(Value::Byte(decoder.read_byte()?)),
        PrimitiveType::Char => Ok(Value::Char(decoder.read_char()?)),
    }
}

/// The name `s` with each `/msg/` replaced by `/`.
fn strip_msg(s: &[char]) -> (r: Vec<char>)
    ensures
        r@ == without_msg(s@),
{
    let mark = chars_of("/msg/");
    proof {
        reveal_strlit("/msg/");
    }
    let mut out: Vec<char> = Vec::new();
    let mut pos: usize = 0;
    while pos < s.len()
        invariant
            pos <= s.len(),
            mark@ == "/msg/"@,
            mark@.len() == 5,
            without_msg(s@) == without_msg_from(s@, pos as int, out@),
        decreases s.len() - pos,
    {
        if stands_at(s, mark.as_slice(), pos) {
            out.push('/');
            pos += 5;
        } else {
            out.push(s[pos]);
            pos += 1;
        }
    }
    out
}

/// The message type that the name `name` refers to among `subs`.
fn resolve<'a>(subs: &'a Vec<Schema>, name: &String) -> (r: Option<&'a Schema>)
    ensures
        match referred(schema_tree_views(subs@), name@) {
            Some(schema) => r is Some && r->0@ == schema,
            None => r is None,
        },
{
    match find_schema(subs, name.as_str()) {
        Some(schema) => Some(schema),
        None => {
            let alt = text_of_chars(strip_msg(chars_of(name.as_str()).as_slice()).as_slice());
            find_schema(subs, alt.as_str())
        },
    }
}

/// Reads a value of the type `t`. References to message types are
/// followed at most `depth` deep.
#[verifier::rlimit(50)]
pub fn decode_field(decoder: &mut CdrDecoder, t: &FieldType, subs: &Vec<Schema>, depth: usize) -> (r:
    Result<Value, PybagError>)
    requires
        old(decoder).wf(),
    ensures
        final(decoder).wf(),
        final(decoder).same_input(old(decoder)),
        match field_at(
            old(decoder).input(),
            old(decoder).cursor(),
            old(decoder).little_endian(),
            t@,
            schema_tree_views(subs@),
            depth as nat,
        ) {
            Ok((v, next)) => r is Ok && r->Ok_0@ == v && final(decoder).cursor() == next,
            Err(e) => r is Err && r->Err_0@ == e,
        },
    decreases depth, 0nat, t, 0nat, 0nat,
{
    match t {
        FieldType::Primitive(p) => decode_primitive(decoder, p),
        FieldType::String(s) => {
            if s.is_wide {
                Ok(Value::String(decoder.read_wstring()?))
            } else {
                Ok(Value::String(decoder.read_string()?))
            }
        },
        FieldType::Array { element_type, length, .. } => {
            let items = decode_items(decoder, element_type, subs, depth, *length)?;
            let out = Value::List(items);
            proof {
                assert(out@ matches ValueView::List(seq) && seq =~= list_views(items@));
            }
            Ok(out)
        },
        FieldType::Sequence { element_type, .. } => {
            let count = decoder.read_u32()?;
            let items = decode_items(decoder, element_type, subs, depth, count as usize)?;
            let out = Value::List(items);
            proof {
                assert(out@ matches ValueView::List(seq) && seq =~= list_views(items@));
            }
            Ok(out)
        },
        FieldType::Complex { full_name } => {
            if depth == 0 {
                return Err(PybagError::CdrDecodeError("Types nested too deeply".to_string()));
            }
            match resolve(subs, full_name) {
                Some(schema) => decode_schema_fields(decoder, schema, subs, depth - 1),
                None => Err(PybagError::CdrDecodeError("Unknown complex type".to_string())),
            }
        },
    }
}

/// Reads `count` values of the type `element`.
#[verifier::rlimit(50)]
fn decode_items(
    decoder: &mut CdrDecoder,
    element: &FieldType,
    subs: &Vec<Schema>,
    depth: usize,
    count: usize,
) -> (r: Result<Vec<Value>, PybagError>)
    requires
        old(decoder).wf(),
    ensures
        final(decoder).wf(),
        final(decoder).same_input(old(decoder)),
        match items_at(
            old(decoder).input(),
            old(decoder).cursor(),
            old(decoder).little_endian(),
            element@,
            schema_tree_views(subs@),
            depth as nat,
            count as nat,
            Seq::empty(),
        ) {
            Ok((items, next)) => r is Ok && list_views(r->Ok_0@) == items && final(decoder).cursor()
                == next,
            Err(e) => r is Err && r->Err_0@ == e,
        },
    decreases depth, 0nat, element, 2nat, 0nat,
{
    let mut out: Vec<Value> = Vec::new();
    let mut left = count;
    assert(list_views(out@) =~= Seq::empty());
    while left > 0
        invariant
            decoder.wf(),
            decoder.same_input(old(decoder)),
            items_at(
                old(decoder).input(),
                old(decoder).cursor(),
                old(decoder).little_endian(),
                element@,
                schema_tree_views(subs@),
                depth as nat,
                count as nat,
                Seq::empty(),
            ) == items_at(
                decoder.input(),
                decoder.cursor(),
                decoder.little_endian(),
                element@,
                schema_tree_views(subs@),
                depth as nat,
                left as nat,
                list_views(out@),
            ),
        decreases depth, 0nat, element, 1nat, left,
    {
        let ghost acc = list_views(out@);
        let item = decode_field(decoder, element, subs, depth)?;
        let ghost v = item@;
        out.push(item);
        assert(list_views(out@) =~= acc.push(v));
        left -= 1;
    }
    Ok(out)
}

/// Puts the field among `out`: in the place of the field of the same
/// name, if there is one, else behind all.
fn put_field(out: &mut Vec<(String, Value)>, name: String, value: Value)
    ensures
        named_views(final(out)@) == with_field(named_views(old(out)@), (name@, value@)),
{
    let ghost before = named_views(out@);
    let ghost field = (name@, value@);
    let mut i: usize = 0;
    while i < out.len()
        invariant
            i <= out.len(),
            out@ == old(out)@,
            before == named_views(out@),
            field == (name@, value@),
            name_place(before, name@, 0) == name_place(before, name@, i as int),
        decreases out.len() - i,
    {
        assert(before[i as int] == (out@[i as int].0@, out@[i as int].1@));
        if crate::text::same_text(out[i].0.as_str(), name.as_str()) {
            out.set(i, (name, value));
            assert(named_views(out@) =~= before.update(i as int, field));
            return ;
        }
        i += 1;
    }
    out.push((name, value));
    assert(named_views(out@) =~= before.push(field));
}

/// Reads the fields of the message type `schema`, in the order of the
/// definition.
#[verifier::rlimit(50)]
pub fn decode_schema_fields(
    decoder: &mut CdrDecoder,
    schema: &Schema,
    subs: &Vec<Schema>,
    depth: usize,
) -> (r: Result<Value, PybagError>)
    requires
        old(decoder).wf(),
    ensures
        final(decoder).wf(),
        final(decoder).same_input(old(decoder)),
        match fields_at(
            old(decoder).input(),
            old(decoder).cursor(),
            old(decoder).little_endian(),
            schema@.fields,
            0,
            schema_tree_views(subs@),
            depth as nat,
            Seq::empty(),
        ) {
            Ok((fields, next)) => r is Ok && r->Ok_0@ == ValueView::Message(fields) && final(decoder).cursor() == next,
            Err(e) => r is Err && r->Err_0@ == e,
        },
    decreases depth, 1nat, any_type(), 1nat, 0nat,
{
    let mut out: Vec<(String, Value)> = Vec::new();
    let mut k: usize = 0;
    let ghost fields = schema@.fields;
    assert(named_views(out@) =~= Seq::empty());
    while k < schema.fields.len()
        invariant
            k <= schema.fields.len(),
            fields == field_views(schema.fields@),
            decoder.wf(),
            decoder.same_input(old(decoder)),
            fields_at(
                old(decoder).input(),
                old(decoder).cursor(),
                old(decoder).little_endian(),
                fields,
                0,
                schema_tree_views(subs@),
                depth as nat,
                Seq::empty(),
            ) == fields_at(
                decoder.input(),
                decoder.cursor(),
                decoder.little_endian(),
                fields,
                k as int,
                schema_tree_views(subs@),
                depth as nat,
                named_views(out@),
            ),
        decreases depth, 1nat, any_type(), 0nat, schema.fields.len() - k,
    {
        let ghost acc = named_views(out@);
        let field = &schema.fields[k];
        assert(fields[k as int] == field@);
        let value = decode_field(decoder, &field.field_type, subs, depth)?;
        put_field(&mut out, field.name.clone(), value);
        k += 1;
    }
    let message = Value::Message(out);
    proof {
        assert(message@ matches ValueView::Message(seq) && seq =~= named_views(out@));
    }
    Ok(message)
}

/// Decodes the payload `data` of a message of the type `schema`, whose
/// definition refers to the types `sub_schemas`.
pub fn decode_message(data: &[u8], schema: &Schema, sub_schemas: &Vec<Schema>) -> (r: Result<
    Value,
    PybagError,
>)
    ensures
        match message_value(data@, schema@, schema_tree_views(sub_schemas@)) {
            Ok(v) => r is Ok && r->Ok_0@ == v,
            Err(e) => r is Err && r->Err_0@ == e,
        },
{
    let mut decoder = CdrDecoder::new(data)?;
    decode_schema_fields(&mut decoder, schema, sub_schemas, MAX_DEPTH)
}

} // verus!
