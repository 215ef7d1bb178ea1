//! The field tree of a message type.

use crate::text::same_text;
use vstd::prelude::*;

verus! {

/// The primitive types of the definition language.
#[derive(Debug, Clone, Copy, PartialEq, Eq, Structural)]
pub enum PrimitiveType {
    Bool,
    Int8,
    Uint8,
    Int16,
    Uint16,
    Int32,
    Uint32,
    Int64,
    Uint64,
    Float32,
    Float64,
    Byte,
    Char,
}

/// The primitive type that the keyword `s` names: "byte" and "octet" both
/// name bytes.
pub open spec fn primitive_named(s: Seq<char>) -> Option<PrimitiveType> {
    if s == "bool"@ {
        Some(PrimitiveType::Bool)
    } else if s == "int8"@ {
        Some(PrimitiveType::Int8)
    } else if s == "uint8"@ {
        Some(PrimitiveType::Uint8)
    } else if s == "int16"@ {
        Some(PrimitiveType::Int16)
    } else if s == "uint16"@ {
        Some(PrimitiveType::Uint16)
    } else if s == "int32"@ {
        Some(PrimitiveType::Int32)
    } else if s == "uint32"@ {
        Some(PrimitiveType::Uint32)
    } else if s == "int64"@ {
        Some(PrimitiveType::Int64)
    } else if s == "uint64"@ {
        Some(PrimitiveType::Uint64)
    } else if s == "float32"@ {
        Some(PrimitiveType::Float32)
    } else if s == "float64"@ {
        Some(PrimitiveType::Float64)
    } else if s == "byte"@ || s == "octet"@ {
        Some(PrimitiveType::Byte)
    } else if s == "char"@ {
        Some(PrimitiveType::Char)
    } else {
        None
    }
}

impl PrimitiveType {
    /// The keyword of the type.
    pub open spec fn keyword(self) -> Seq<char> {
        match self {
            PrimitiveType::Bool => "bool"@,
            PrimitiveType::Int8 => "int8"@,
            PrimitiveType::Uint8 => "uint8"@,
            PrimitiveType::Int16 => "int16"@,
            PrimitiveType::Uint16 => "uint16"@,
            PrimitiveType::Int32 => "int32"@,
            PrimitiveType::Uint32 => "uint32"@,
            PrimitiveType::Int64 => "int64"@,
            PrimitiveType::Uint64 => "uint64"@,
            PrimitiveType::Float32 => "float32"@,
            PrimitiveType::Float64 => "float64"@,
            PrimitiveType::Byte => "byte"@,
            PrimitiveType::Char => "char"@,
        }
    }

    /// The number of bytes that a value of the type takes in a payload.
    pub open spec fn width(self) -> int {
        match self {
            PrimitiveType::Bool | PrimitiveType::Int8 | PrimitiveType::Uint8 | PrimitiveType::Byte
            | PrimitiveType::Char => 1,
            PrimitiveType::Int16 | PrimitiveType::Uint16 => 2,
            PrimitiveType::Int32 | PrimitiveType::Uint32 | PrimitiveType::Float32 => 4,
            PrimitiveType::Int64 | PrimitiveType::Uint64 | PrimitiveType::Float64 => 8,
        }
    }

    /// The primitive type that the keyword `s` names, if it names one.
    pub fn from_str(s: &str) -> (r: Option<Self>)
        ensures
            r == primitive_named(s@),
    {
        if same_text(s, "bool") {
            Some(PrimitiveType::Bool)
        } else if same_text(s, "int8") {
            Some(PrimitiveType::Int8)
        } else if same_text(s, "uint8") {
            Some(PrimitiveType::Uint8)
        } else if same_text(s, "int16") {
            Some(PrimitiveType::Int16)
        } else if same_text(s, "uint16") {
            Some(PrimitiveType::Uint16)
        } else if same_text(s, "int32") {
            Some(PrimitiveType::Int32)
        } else if same_text(s, "uint32") {
            Some(PrimitiveType::Uint32)
        } else if same_text(s, "int64") {
            Some(PrimitiveType::Int64)
        } else if same_text(s, "uint64") {
            Some(PrimitiveType::Uint64)
        } else if same_text(s, "float32") {
            Some(PrimitiveType::Float32)
        } else if same_text(s, "float64") {
            Some(PrimitiveType::Float64)
        } else if same_text(s, "byte") || same_text(s, "octet") {
            Some(PrimitiveType::Byte)
        } else if same_text(s, "char") {
            Some(PrimitiveType::Char)
        } else {
            None
        }
    }

    /// The keyword of the type.
    pub fn as_str(&self) -> (r: &'static str)
        ensures
            r@ == self.keyword(),
    {
        match self {
            PrimitiveType::Bool => "bool",
            PrimitiveType::Int8 => "int8",
            PrimitiveType::Uint8 => "uint8",
            PrimitiveType::Int16 => "int16",
            PrimitiveType::Uint16 => "uint16",
            PrimitiveType::Int32 => "int32",
            PrimitiveType::Uint32 => "uint32",
            PrimitiveType::Int64 => "int64",
            PrimitiveType::Uint64 => "uint64",
            PrimitiveType::Float32 => "float32",
            PrimitiveType::Float64 => "float64",
            PrimitiveType::Byte => "byte",
            PrimitiveType::Char => "char",
        }
    }
}

/// A string type: narrow or wide, with a bound on the length if one is
/// given.
#[derive(Debug, Clone, Copy, PartialEq, Eq, Structural)]
pub struct StringType {
    pub is_wide: bool,
    pub max_length: Option<usize>,
}

/// The type of a field.
#[derive(Debug, PartialEq)]
pub enum FieldType {
    /// A primitive.
    Primitive(PrimitiveType),
    /// A string.
    String(StringType),
    /// `length` elements, or at most `length` if `is_bounded` is set.
    Array { element_type: Box<FieldType>, length: usize, is_bounded: bool },
    /// Any number of elements, counted by a prefix.
    Sequence { element_type: Box<FieldType>, max_length: Option<usize> },
    /// A reference to another message type by its full name.
    Complex { full_name: String },
}

/// What a `FieldType` holds, as mathematical values.
pub enum FieldTypeView {
    Primitive(PrimitiveType),
    String(StringType),
    Array { element_type: Box<FieldTypeView>, length: usize, is_bounded: bool },
    Sequence { element_type: Box<FieldTypeView>, max_length: Option<usize> },
    Complex { full_name: Seq<char> },
}

/// What a field type holds, as mathematical values.
pub open spec fn type_view(t: FieldType) -> FieldTypeView
    decreases t,
{
    match t {
        FieldType::Primitive(p) => FieldTypeView::Primitive(p),
        FieldType::String(s) => FieldTypeView::String(s),
        FieldType::Array { element_type, length, is_bounded } => FieldTypeView::Array {
            element_type: Box::new(type_view(*element_type)),
            length,
            is_bounded,
        },
        FieldType::Sequence { element_type, max_length } => FieldTypeView::Sequence {
            element_type: Box::new(type_view(*element_type)),
            max_length,
        },
        FieldType::Complex { full_name } => FieldTypeView::Complex { full_name: full_name@ },
    }
}

impl View for FieldType {
    type V = FieldTypeView;

    open spec fn view(&self) -> FieldTypeView {
        type_view(*self)
    }
}

impl Clone for FieldType {
    fn clone(&self) -> (r: Self)
        ensures
            r@ == self@,
        decreases self,
    {
        match self {
            FieldType::Primitive(p) => FieldType::Primitive(*p),
            FieldType::String(s) => FieldType::String(*s),
            FieldType::Array { element_type, length, is_bounded } => FieldType::Array {
                element_type: Box::new((**element_type).clone()),
                length: *length,
                is_bounded: *is_bounded,
            },
            FieldType::Sequence { element_type, max_length } => FieldType::Sequence {
                element_type: Box::new((**element_type).clone()),
                max_length: *max_length,
            },
            FieldType::Complex { full_name: full } => FieldType::Complex { full_name: full.clone() },
        }
    }
}

/// A value written in a definition: a default or a constant. A number with
/// a fraction is kept as the text that was written.
#[derive(Debug, PartialEq)]
pub enum FieldValue {
    Bool(bool),
    Int(i64),
    Uint(u64),
    Float(String),
    String(String),
    Array(Vec<FieldValue>),
}

/// What a `FieldValue` holds, as mathematical values.
pub enum FieldValueView {
    Bool(bool),
    Int(i64),
    Uint(u64),
    Float(Seq<char>),
    String(Seq<char>),
    Array(Seq<FieldValueView>),
}

/// What a value holds, as mathematical values.
pub open spec fn value_view(v: FieldValue) -> FieldValueView
    decreases v,
{
    match v {
        FieldValue::Bool(b) => FieldValueView::Bool(b),
        FieldValue::Int(i) => FieldValueView::Int(i),
        FieldValue::Uint(u) => FieldValueView::Uint(u),
        FieldValue::Float(t) => FieldValueView::Float(t@),
        FieldValue::String(t) => FieldValueView::String(t@),
        FieldValue::Array(items) => FieldValueView::Array(
            Seq::new(
                items@.len(),
                |i: int|
                    if 0 <= i < items@.len() {
                        value_view(items@[i])
                    } else {
                        FieldValueView::Bool(false)
                    },
            ),
        ),
    }
}

impl View for FieldValue {
    type V = FieldValueView;

    open spec fn view(&self) -> FieldValueView {
        value_view(*self)
    }
}

impl Clone for FieldValue {
    fn clone(&self) -> (r: Self)
        ensures
            r@ == self@,
        decreases self,
    {
        match self {
            FieldValue::Bool(b) => FieldValue::Bool(*b),
            FieldValue::Int(i) => FieldValue::Int(*i),
            FieldValue::Uint(u) => FieldValue::Uint(*u),
            FieldValue::Float(t) => FieldValue::Float(t.clone()),
            FieldValue::String(t) => FieldValue::String(t.clone()),
            FieldValue::Array(items) => {
                let mut out: Vec<FieldValue> = Vec::new();
                let mut i: usize = 0;
                assert(decreases_to!(*self => *items));
                while i < items.len()
                    invariant
                        i <= items.len(),
                        decreases_to!(*self => *items),
                        out@.len() == i,
                        forall|j: int| 0 <= j < i ==> (#[trigger] out@[j])@ == items@[j]@,
                    decreases items.len() - i,
                {
                    proof {
                        vstd::std_specs::vec::axiom_vec_index_decreases(*items, i as int);
                        assert(decreases_to!(*items => items[i as int]));
                        assert(decreases_to!(*self => items[i as int]));
                    }
                    out.push(items[i].clone());
                    i += 1;
                }
                let copy = FieldValue::Array(out);
                proof {
                    assert(copy@ matches FieldValueView::Array(a) && self@ matches FieldValueView::Array(
                        b,
                    ) && a =~= b);
                }
                copy
            },
        }
    }
}

/// The values by their views.
pub open spec fn value_views(v: Seq<FieldValue>) -> Seq<FieldValueView> {
    Seq::new(v.len(), |i: int| v[i]@)
}

/// A field of a message type.
#[derive(Debug)]
pub struct SchemaField {
    pub name: String,
    pub field_type: FieldType,
    pub default_value: Option<FieldValue>,
}

/// What a `SchemaField` holds, as mathematical values.
pub struct FieldView {
    pub name: Seq<char>,
    pub field_type: FieldTypeView,
    pub default_value: Option<FieldValueView>,
}

impl View for SchemaField {
    type V = FieldView;

    open spec fn view(&self) -> FieldView {
        FieldView {
            name: self.name@,
            field_type: self.field_type@,
            default_value: match self.default_value {
                Some(v) => Some(v@),
                None => None,
            },
        }
    }
}

impl Clone for SchemaField {
    fn clone(&self) -> (r: Self)
        ensures
            r@ == self@,
    {
        SchemaField {
            name: self.name.clone(),
            field_type: self.field_type.clone(),
            default_value: match &self.default_value {
                Some(v) => Some(v.clone()),
                None => None,
            },
        }
    }
}

/// A constant of a message type.
#[derive(Debug)]
pub struct SchemaConstant {
    pub name: String,
    pub field_type: FieldType,
    pub value: FieldValue,
}

/// What a `SchemaConstant` holds, as mathematical values.
pub struct ConstantView {
    pub name: Seq<char>,
    pub field_type: FieldTypeView,
    pub value: FieldValueView,
}

impl View for SchemaConstant {
    type V = ConstantView;

    open spec fn view(&self) -> ConstantView {
        ConstantView { name: self.name@, field_type: self.field_type@, value: self.value@ }
    }
}

impl Clone for SchemaConstant {
    fn clone(&self) -> (r: Self)
        ensures
            r@ == self@,
    {
        SchemaConstant {
            name: self.name.clone(),
            field_type: self.field_type.clone(),
            value: self.value.clone(),
        }
    }
}

/// A message type: its name, its fields in the order of the definition,
/// and its constants.
#[derive(Debug)]
pub struct Schema {
    pub name: String,
    pub fields: Vec<SchemaField>,
    pub constants: Vec<SchemaConstant>,
}

/// What a `Schema` holds, as mathematical values.
pub struct SchemaTreeView {
    pub name: Seq<char>,
    pub fields: Seq<FieldView>,
    pub constants: Seq<ConstantView>,
}

/// The fields by their views.
pub open spec fn field_views(v: Seq<SchemaField>) -> Seq<FieldView> {
    Seq::new(v.len(), |i: int| v[i]@)
}

/// The constants by their views.
pub open spec fn constant_views(v: Seq<SchemaConstant>) -> Seq<ConstantView> {
    Seq::new(v.len(), |i: int| v[i]@)
}

impl View for Schema {
    type V = SchemaTreeView;

    open spec fn view(&self) -> SchemaTreeView {
        SchemaTreeView {
            name: self.name@,
            fields: field_views(self.fields@),
            constants: constant_views(self.constants@),
        }
    }
}

impl Clone for Schema {
    fn clone(&self) -> (r: Self)
        ensures
            r@ == self@,
    {
        let mut fields: Vec<SchemaField> = Vec::new();
        let mut i: usize = 0;
        while i < self.fields.len()
            invariant
                i <= self.fields.len(),
                fields@.len() == i,
                forall|j: int| 0 <= j < i ==> (#[trigger] fields@[j])@ == self.fields@[j]@,
            decreases self.fields.len() - i,
        {
            fields.push(self.fields[i].clone());
            i += 1;
        }
        let mut constants: Vec<SchemaConstant> = Vec::new();
        let mut k: usize = 0;
        while k < self.constants.len()
            invariant
                k <= self.constants.len(),
                constants@.len() == k,
                forall|j: int| 0 <= j < k ==> (#[trigger] constants@[j])@ == self.constants@[j]@,
            decreases self.constants.len() - k,
        {
            constants.push(self.constants[k].clone());
            k += 1;
        }
        assert(field_views(fields@) =~= field_views(self.fields@));
        assert(constant_views(constants@) =~= constant_views(self.constants@));
        Schema { name: self.name.clone(), fields, constants }
    }
}

impl Schema {
    /// A message type with the name `name` and neither fields nor
    /// constants.
    pub fn new(name: String) -> (r: Self)
        ensures
            r@ == (SchemaTreeView { name: name@, fields: Seq::empty(), constants: Seq::empty() }),
    {
        let out = Self { name, fields: Vec::new(), constants: Vec::new() };
        assert(field_views(out.fields@) =~= Seq::empty());
        assert(constant_views(out.constants@) =~= Seq::empty());
        out
    }
}

/// The message types by their views.
pub open spec fn schema_tree_views(v: Seq<Schema>) -> Seq<SchemaTreeView> {
    Seq::new(v.len(), |i: int| v[i]@)
}

} // verus!
