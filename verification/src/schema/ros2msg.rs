//! The parser of message definitions: a main definition, and behind
//! divider lines the definitions of the types it refers to.

use crate::encoding::cdr::string_from_utf8;
use crate::error::{ErrorKind, PybagError};
use crate::schema::scan::{
    content_lines, find_char, find_text, float_text, is_float_text, join_words, joined,
    matches_at, parse_signed, parse_unsigned, pieces, position_of, position_of_text, rows,
    signed_number, split_at_char, split_content_lines, split_words, stands_at, strip, stripped,
    trim, trimmed, unsigned_number, words,
};
use crate::schema::types::{
    constant_views, field_views, primitive_named, schema_tree_views, value_views, ConstantView,
    FieldType, FieldTypeView, FieldValue, FieldValueView, FieldView, PrimitiveType, Schema,
    SchemaConstant, SchemaField, SchemaTreeView, StringType,
};
use crate::text::{chars_are, chars_equal, chars_of, text_of_chars};
use vstd::prelude::*;
use vstd::slice::slice_subrange;
use vstd::utf8::{decode_utf8, valid_utf8};

verus! {

/// The package of a message type: its name up to the first `/`.
pub open spec fn package_of(name: Seq<char>) -> Seq<char> {
    match position_of(name, '/', 0) {
        Some(i) => name.take(i),
        None => name,
    }
}

/// The bound of the string type that `s` names with the keyword
/// `keyword`: no bound where `s` is the keyword alone, the number behind
/// `<=` where `s` goes on with `<=`, which must be followed by a number
/// that fits a machine word. Any other word names no string type.
pub open spec fn string_bound(s: Seq<char>, keyword: Seq<char>) -> Option<
    Result<Option<usize>, ErrorKind>,
> {
    if s == keyword {
        Some(Ok(None))
    } else if matches_at(s, keyword + "<="@, 0) {
        match unsigned_number(s.skip(keyword.len() as int + 2), usize::MAX as nat) {
            Some(n) => Some(Ok(Some(n as usize))),
            None => Some(Err(ErrorKind::SchemaParseError)),
        }
    } else {
        None
    }
}

/// The full name of the message type that `s` refers to from within the
/// package `package`: a bare `Header` is the header of the standard
/// messages, and a name without a package belongs to `package`.
pub open spec fn complex_name(s: Seq<char>, package: Seq<char>) -> Seq<char> {
    if s == "Header"@ {
        "std_msgs/Header"@
    } else if position_of(s, '/', 0) is None {
        package + seq!['/'] + s
    } else {
        s
    }
}

/// The type that `s` names, `s` having no brackets: a string type, where
/// `s` is `string` or `wstring`, alone or with a bound; a primitive; or
/// else a reference to a message type.
pub open spec fn scalar_type(s: Seq<char>, package: Seq<char>) -> Result<FieldTypeView, ErrorKind> {
    match string_bound(s, "string"@) {
        Some(Ok(bound)) => Ok(FieldTypeView::String(StringType { is_wide: false, max_length: bound })),
        Some(Err(e)) => Err(e),
        None => match string_bound(s, "wstring"@) {
            Some(Ok(bound)) => Ok(
                FieldTypeView::String(StringType { is_wide: true, max_length: bound }),
            ),
            Some(Err(e)) => Err(e),
            None => match primitive_named(s) {
                Some(p) => Ok(FieldTypeView::Primitive(p)),
                None => Ok(FieldTypeView::Complex { full_name: complex_name(s, package) }),
            },
        },
    }
}

/// The type that `s` names. Brackets behind a type make it an array of
/// the length between them, an array of at most that length if `<=`
/// stands before the length, and a sequence if nothing stands between
/// them.
pub open spec fn field_type_of(s: Seq<char>, package: Seq<char>) -> Result<FieldTypeView, ErrorKind> {
    match position_of(s, '[', 0) {
        None => scalar_type(s, package),
        Some(open) => if s.last() != ']' {
            Err(ErrorKind::SchemaParseError)
        } else {
            match scalar_type(s.take(open), package) {
                Err(e) => Err(e),
                Ok(element) => {
                    let length = s.subrange(open + 1, s.len() - 1);
                    if length.len() == 0 {
                        Ok(
                            FieldTypeView::Sequence {
                                element_type: Box::new(element),
                                max_length: None,
                            },
                        )
                    } else if matches_at(length, "<="@, 0) {
                        match unsigned_number(length.skip(2), usize::MAX as nat) {
                            Some(n) => Ok(
                                FieldTypeView::Array {
                                    element_type: Box::new(element),
                                    length: n as usize,
                                    is_bounded: true,
                                },
                            ),
                            None => Err(ErrorKind::SchemaParseError),
                        }
                    } else {
                        match unsigned_number(length, usize::MAX as nat) {
                            Some(n) => Ok(
                                FieldTypeView::Array {
                                    element_type: Box::new(element),
                                    length: n as usize,
                                    is_bounded: false,
                                },
                            ),
                            None => Err(ErrorKind::SchemaParseError),
                        }
                    }
                },
            }
        },
    }
}

/// The value that `text` writes for a primitive type.
pub open spec fn primitive_value(p: PrimitiveType, text: Seq<char>) -> Result<FieldValueView, ErrorKind> {
    match p {
        PrimitiveType::Bool => Ok(
            FieldValueView::Bool(text == "true"@ || text == "True"@ || text == "1"@),
        ),
        PrimitiveType::Int8 | PrimitiveType::Int16 | PrimitiveType::Int32 | PrimitiveType::Int64 => match signed_number(
            text,
        ) {
            Some(v) => Ok(FieldValueView::Int(v as i64)),
            None => Err(ErrorKind::SchemaParseError),
        },
        PrimitiveType::Uint8 | PrimitiveType::Uint16 | PrimitiveType::Uint32 | PrimitiveType::Uint64 | PrimitiveType::Byte => match unsigned_number(
            text,
            u64::MAX as nat,
        ) {
            Some(v) => Ok(FieldValueView::Uint(v as u64)),
            None => Err(ErrorKind::SchemaParseError),
        },
        PrimitiveType::Float32 | PrimitiveType::Float64 => if is_float_text(text) {
            Ok(FieldValueView::Float(text))
        } else {
            Err(ErrorKind::SchemaParseError)
        },
        PrimitiveType::Char => Ok(
            FieldValueView::Uint(
                if text.len() > 0 {
                    (text[0] as u32) as u64
                } else {
                    0
                },
            ),
        ),
    }
}

/// The value that `text` writes for the type `t`. Values of arrays and
/// sequences stand between brackets with commas between them; references
/// to message types have no values.
pub open spec fn value_of(t: FieldTypeView, text: Seq<char>) -> Result<FieldValueView, ErrorKind>
    decreases t, 0nat, 0nat,
{
    let text = trimmed(text);
    match t {
        FieldTypeView::Primitive(p) => primitive_value(p, text),
        FieldTypeView::String(_) => Ok(FieldValueView::String(stripped(stripped(text, '"'), '\''))),
        FieldTypeView::Array { element_type, .. } => list_value(*element_type, text),
        FieldTypeView::Sequence { element_type, .. } => list_value(*element_type, text),
        FieldTypeView::Complex { .. } => Err(ErrorKind::SchemaParseError),
    }
}

/// The values that `text`, already without white space at its ends,
/// writes for elements of the type `element`.
pub open spec fn list_value(element: FieldTypeView, text: Seq<char>) -> Result<FieldValueView, ErrorKind>
    decreases element, 2nat, 0nat,
{
    if text.len() < 2 || text[0] != '[' || text.last() != ']' {
        Err(ErrorKind::SchemaParseError)
    } else {
        match values_from(element, pieces(text.subrange(1, text.len() - 1), ','), 0, Seq::empty()) {
            Err(e) => Err(e),
            Ok(items) => Ok(FieldValueView::Array(items)),
        }
    }
}

/// The values that the pieces from the `k`-th on write for the type
/// `element`, behind `acc`.
pub open spec fn values_from(
    element: FieldTypeView,
    parts: Seq<Seq<char>>,
    k: int,
    acc: Seq<FieldValueView>,
) -> Result<Seq<FieldValueView>, ErrorKind>
    decreases element, 1nat, parts.len() - k,
{
    if k < 0 || k >= parts.len() {
        Ok(acc)
    } else {
        match value_of(element, parts[k]) {
            Err(e) => Err(e),
            Ok(v) => values_from(element, parts, k + 1, acc.push(v)),
        }
    }
}

/// The primitive type that the keyword names, if it names one.
fn primitive_of(s: &[char]) -> (r: Option<PrimitiveType>)
    ensures
        r == primitive_named(s@),
{
    if chars_are(s, "bool") {
        Some(PrimitiveType::Bool)
    } else if chars_are(s, "int8") {
        Some(PrimitiveType::Int8)
    } else if chars_are(s, "uint8") {
        Some(PrimitiveType::Uint8)
    } else if chars_are(s, "int16") {
        Some(PrimitiveType::Int16)
    } else if chars_are(s, "uint16") {
        Some(PrimitiveType::Uint16)
    } else if chars_are(s, "int32") {
        Some(PrimitiveType::Int32)
    } else if chars_are(s, "uint32") {
        Some(PrimitiveType::Uint32)
    } else if chars_are(s, "int64") {
        Some(PrimitiveType::Int64)
    } else if chars_are(s, "uint64") {
        Some(PrimitiveType::Uint64)
    } else if chars_are(s, "float32") {
        Some(PrimitiveType::Float32)
    } else if chars_are(s, "float64") {
        Some(PrimitiveType::Float64)
    } else if chars_are(s, "byte") || chars_are(s, "octet") {
        Some(PrimitiveType::Byte)
    } else if chars_are(s, "char") {
        Some(PrimitiveType::Char)
    } else {
        None
    }
}

/// An error that says that the definition is malformed.
fn malformed(what: &str) -> (r: PybagError)
    ensures
        r@ == ErrorKind::SchemaParseError,
{
    PybagError::SchemaParseError(what.to_string())
}

/// A length or a bound: a number that fits a machine word.
fn parse_length(s: &[char]) -> (r: Option<usize>)
    ensures
        match unsigned_number(s@, usize::MAX as nat) {
            Some(n) => r == Some(n as usize),
            None => r is None,
        },
{
    match parse_unsigned(s, usize::MAX as u64) {
        Some(n) => Some(n as usize),
        None => None,
    }
}

/// The bound of the string type that `s` names with the keyword
/// `keyword`, if it names one; `bounded` is the keyword with `<=` behind
/// it.
fn parse_string_bound(s: &[char], keyword: &str, bounded: &str) -> (r: Option<
    Result<Option<usize>, PybagError>,
>)
    requires
        bounded@ == keyword@ + "<="@,
    ensures
        match string_bound(s@, keyword@) {
            Some(Ok(b)) => r is Some && r->0 is Ok && r->0->Ok_0 == b,
            Some(Err(e)) => r is Some && r->0 is Err && r->0->Err_0@ == e,
            None => r is None,
        },
{
    proof {
        reveal_strlit("<=");
    }
    if chars_are(s, keyword) {
        return Some(Ok(None));
    }
    let mark = chars_of(bounded);
    if stands_at(s, mark.as_slice(), 0) {
        let rest = slice_subrange(s, mark.len(), s.len());
        assert(rest@ =~= s@.skip(keyword@.len() as int + 2));
        match parse_length(rest) {
            Some(n) => Some(Ok(Some(n))),
            None => Some(Err(malformed("Invalid string bound"))),
        }
    } else {
        None
    }
}

/// The full name of the message type that `s` refers to from within the
/// package `package`.
fn full_name_of(s: &[char], package: &[char]) -> (r: String)
    ensures
        r@ == complex_name(s@, package@),
{
    if chars_are(s, "Header") {
        "std_msgs/Header".to_string()
    } else if find_char(s, '/').is_none() {
        let mut out: Vec<char> = Vec::new();
        let mut i: usize = 0;
        while i < package.len()
            invariant
                i <= package.len(),
                out@ == package@.take(i as int),
            decreases package.len() - i,
        {
            out.push(package[i]);
            assert(out@ =~= package@.take(i + 1));
            i += 1;
        }
        assert(package@.take(package.len() as int) =~= package@);
        out.push('/');
        let ghost base = out@;
        let mut j: usize = 0;
        while j < s.len()
            invariant
                j <= s.len(),
                out@ == base + s@.take(j as int),
            decreases s.len() - j,
        {
            out.push(s[j]);
            assert(out@ =~= base + s@.take(j + 1));
            j += 1;
        }
        assert(s@.take(s.len() as int) =~= s@);
        assert(out@ =~= package@ + seq!['/'] + s@);
        text_of_chars(out.as_slice())
    } else {
        text_of_chars(s)
    }
}

/// The type that `s` names, `s` having no brackets.
fn parse_scalar_type(s: &[char], package: &[char]) -> (r: Result<FieldType, PybagError>)
    ensures
        match scalar_type(s@, package@) {
            Ok(t) => r is Ok && r->Ok_0@ == t,
            Err(e) => r is Err && r->Err_0@ == e,
        },
{
    proof {
        reveal_strlit("string");
        reveal_strlit("wstring");
        reveal_strlit("string<=");
        reveal_strlit("wstring<=");
        reveal_strlit("<=");
        assert("string<="@ =~= "string"@ + "<="@);
        assert("wstring<="@ =~= "wstring"@ + "<="@);
    }
    match parse_string_bound(s, "string", "string<=") {
        Some(Ok(bound)) => {
            return Ok(FieldType::String(StringType { is_wide: false, max_length: bound }));
        },
        Some(Err(e)) => {
            return Err(e);
        },
        None => {},
    }
    match parse_string_bound(s, "wstring", "wstring<=") {
        Some(Ok(bound)) => {
            return Ok(FieldType::String(StringType { is_wide: true, max_length: bound }));
        },
        Some(Err(e)) => {
            return Err(e);
        },
        None => {},
    }
    match primitive_of(s) {
        Some(p) => Ok(FieldType::Primitive(p)),
        None => Ok(FieldType::Complex { full_name: full_name_of(s, package) }),
    }
}

/// The type that `s` names.
#[verifier::rlimit(50)]
pub fn parse_field_type(s: &[char], package: &[char]) -> (r: Result<FieldType, PybagError>)
    ensures
        match field_type_of(s@, package@) {
            Ok(t) => r is Ok && r->Ok_0@ == t,
            Err(e) => r is Err && r->Err_0@ == e,
        },
{
    match find_char(s, '[') {
        None => parse_scalar_type(s, package),
        Some(open) => {
            if s[s.len() - 1] != ']' {
                return Err(malformed("Invalid array type"));
            }
            let head = slice_subrange(s, 0, open);
            assert(head@ =~= s@.take(open as int));
            let element = parse_scalar_type(head, package)?;
            let length = slice_subrange(s, open + 1, s.len() - 1);
            let mark = chars_of("<=");
            if length.len() == 0 {
                Ok(FieldType::Sequence { element_type: Box::new(element), max_length: None })
            } else if stands_at(length, mark.as_slice(), 0) {
                proof {
                    reveal_strlit("<=");
                }
                let rest = slice_subrange(length, 2, length.len());
                assert(rest@ =~= length@.skip(2));
                match parse_length(rest) {
                    Some(n) => Ok(
                        FieldType::Array {
                            element_type: Box::new(element),
                            length: n,
                            is_bounded: true,
                        },
                    ),
                    None => Err(malformed("Invalid bounded length")),
                }
            } else {
                match parse_length(length) {
                    Some(n) => Ok(
                        FieldType::Array {
                            element_type: Box::new(element),
                            length: n,
                            is_bounded: false,
                        },
                    ),
                    None => Err(malformed("Invalid array length")),
                }
            }
        },
    }
}

/// The value that `text` writes for a primitive type.
fn parse_primitive_value(p: PrimitiveType, text: &[char]) -> (r: Result<FieldValue, PybagError>)
    ensures
        match primitive_value(p, text@) {
            Ok(v) => r is Ok && r->Ok_0@ == v,
            Err(e) => r is Err && r->Err_0@ == e,
        },
{
    match p {
        PrimitiveType::Bool => Ok(
            FieldValue::Bool(chars_are(text, "true") || chars_are(text, "True") || chars_are(text, "1")),
        ),
        PrimitiveType::Int8 | PrimitiveType::Int16 | PrimitiveType::Int32 | PrimitiveType::Int64 => match parse_signed(
            text,
        ) {
            Some(v) => Ok(FieldValue::Int(v)),
            None => Err(malformed("Invalid int")),
        },
        PrimitiveType::Uint8 | PrimitiveType::Uint16 | PrimitiveType::Uint32 | PrimitiveType::Uint64 | PrimitiveType::Byte => match parse_unsigned(
            text,
            u64::MAX,
        ) {
            Some(v) => Ok(FieldValue::Uint(v)),
            None => Err(malformed("Invalid uint")),
        },
        PrimitiveType::Float32 | PrimitiveType::Float64 => if float_text(text) {
            Ok(FieldValue::Float(text_of_chars(text)))
        } else {
            Err(malformed("Invalid float"))
        },
        PrimitiveType::Char => Ok(
            FieldValue::Uint(
                if text.len() > 0 {
                    (text[0] as u32) as u64
                } else {
                    0
                },
            ),
        ),
    }
}

/// The value that `text` writes for the type `t`.
pub fn parse_value(t: &FieldType, text: &[char]) -> (r: Result<FieldValue, PybagError>)
    ensures
        match value_of(t@, text@) {
            Ok(v) => r is Ok && r->Ok_0@ == v,
            Err(e) => r is Err && r->Err_0@ == e,
        },
    decreases t, 0nat, 0nat,
{
    let text = trim(text);
    match t {
        FieldType::Primitive(p) => parse_primitive_value(*p, text.as_slice()),
        FieldType::String(_) => {
            let inner = strip(text.as_slice(), '"');
            let inner = strip(inner.as_slice(), '\'');
            Ok(FieldValue::String(text_of_chars(inner.as_slice())))
        },
        FieldType::Array { element_type, .. } => parse_list_value(element_type, text.as_slice()),
        FieldType::Sequence { element_type, .. } => parse_list_value(element_type, text.as_slice()),
        FieldType::Complex { .. } => Err(malformed("Complex types cannot have default values")),
    }
}

/// The values that `text`, already without white space at its ends,
/// writes for elements of the type `element`.
fn parse_list_value(element: &FieldType, text: &[char]) -> (r: Result<FieldValue, PybagError>)
    ensures
        match list_value(element@, text@) {
            Ok(v) => r is Ok && r->Ok_0@ == v,
            Err(e) => r is Err && r->Err_0@ == e,
        },
    decreases element, 2nat, 0nat,
{
    if text.len() < 2 || text[0] != '[' || text[text.len() - 1] != ']' {
        return Err(malformed("Invalid array"));
    }
    let inner = slice_subrange(text, 1, text.len() - 1);
    let parts = split_at_char(inner, ',');
    let mut items: Vec<FieldValue> = Vec::new();
    let mut k: usize = 0;
    assert(value_views(items@) =~= Seq::empty());
    while k < parts.len()
        invariant
            k <= parts.len(),
            text@.len() >= 2,
            text@[0] == '[',
            text@.last() == ']',
            rows(parts@) == pieces(text@.subrange(1, text@.len() - 1), ','),
            values_from(element@, rows(parts@), 0, Seq::empty()) == values_from(
                element@,
                rows(parts@),
                k as int,
                value_views(items@),
            ),
        decreases element, 1nat, parts.len() - k,
    {
        let ghost acc = value_views(items@);
        assert(rows(parts@)[k as int] == parts@[k as int]@);
        let item = parse_value(element, parts[k].as_slice())?;
        let ghost v = item@;
        items.push(item);
        assert(value_views(items@) =~= acc.push(v));
        k += 1;
    }
    let out = FieldValue::Array(items);
    proof {
        assert(out@ matches FieldValueView::Array(seq) && seq =~= value_views(items@));
    }
    Ok(out)
}

/// Whether `line` is a divider: 80 characters `=` and nothing else.
pub open spec fn is_divider(line: Seq<char>) -> bool {
    line.len() == 80 && forall|i: int| 0 <= i < 80 ==> line[i] == '='
}

/// Whether `line` is a divider.
pub fn divider(line: &[char]) -> (r: bool)
    ensures
        r == is_divider(line@),
{
    if line.len() != 80 {
        return false;
    }
    let mut i: usize = 0;
    while i < 80
        invariant
            i <= 80,
            line@.len() == 80,
            forall|j: int| 0 <= j < i ==> line@[j] == '=',
        decreases 80 - i,
    {
        if line[i] != '=' {
            return false;
        }
        i += 1;
    }
    true
}

/// The name of the constant that the words of a line declare: the second
/// word up to its `=`, or all of it.
pub open spec fn constant_name(w: Seq<Seq<char>>) -> Seq<char> {
    match position_of(w[1], '=', 0) {
        Some(i) => w[1].take(i),
        None => w[1],
    }
}

/// The text of the value of the constant that the words of a line declare:
/// what follows `=` in the second word; or, if `=` starts the third word,
/// the words behind the third, or else the rest of the third.
pub open spec fn constant_text(w: Seq<Seq<char>>) -> Seq<char> {
    match position_of(w[1], '=', 0) {
        Some(i) => w[1].skip(i + 1),
        None => if w.len() > 3 {
            joined(w, 3, w.len() as int)
        } else if w.len() > 2 && w[2].len() > 1 {
            w[2].skip(1)
        } else {
            Seq::empty()
        },
    }
}

/// Whether the words of a line declare a constant: `=` stands in the
/// second word or starts the third.
pub open spec fn declares_constant(w: Seq<Seq<char>>) -> bool {
    w.len() >= 2 && (position_of(w[1], '=', 0) is Some || (w.len() > 2 && w[2].len() > 0 && w[2][0]
        == '='))
}

/// The message type `schema` with what `line` declares added to it: a
/// constant, or a field with its default value if one is written. A line
/// of fewer than two words declares nothing.
pub open spec fn line_added(schema: SchemaTreeView, line: Seq<char>, package: Seq<char>) -> Result<
    SchemaTreeView,
    ErrorKind,
> {
    let w = words(line);
    if w.len() < 2 {
        Ok(schema)
    } else {
        match field_type_of(w[0], package) {
            Err(e) => Err(e),
            Ok(t) => if declares_constant(w) {
                match value_of(t, constant_text(w)) {
                    Err(e) => Err(e),
                    Ok(v) => Ok(
                        SchemaTreeView {
                            constants: schema.constants.push(
                                ConstantView { name: constant_name(w), field_type: t, value: v },
                            ),
                            ..schema
                        },
                    ),
                }
            } else if w.len() > 2 {
                match value_of(t, joined(w, 2, w.len() as int)) {
                    Err(e) => Err(e),
                    Ok(v) => Ok(
                        SchemaTreeView {
                            fields: schema.fields.push(
                                FieldView { name: w[1], field_type: t, default_value: Some(v) },
                            ),
                            ..schema
                        },
                    ),
                }
            } else {
                Ok(
                    SchemaTreeView {
                        fields: schema.fields.push(
                            FieldView { name: w[1], field_type: t, default_value: None },
                        ),
                        ..schema
                    },
                )
            },
        }
    }
}

/// Adds to `schema` what `line` declares.
#[verifier::rlimit(50)]
pub fn add_line(schema: &mut Schema, line: &[char], package: &[char]) -> (r: Result<(), PybagError>)
    ensures
        match line_added(old(schema)@, line@, package@) {
            Ok(next) => r is Ok && final(schema)@ == next,
            Err(e) => r is Err && r->Err_0@ == e,
        },
{
    let parts = split_words(line);
    if parts.len() < 2 {
        return Ok(());
    }
    let ghost w = rows(parts@);
    assert(w[0] == parts@[0]@);
    assert(w[1] == parts@[1]@);
    let field_type = parse_field_type(parts[0].as_slice(), package)?;
    let second = parts[1].as_slice();
    let equals = find_char(second, '=');
    let third_starts = parts.len() > 2 && parts[2].len() > 0 && parts[2][0] == '=';
    proof {
        if parts.len() > 2 {
            assert(w[2] == parts@[2]@);
        }
    }
    if equals.is_some() || third_starts {
        let (name, text): (Vec<char>, Vec<char>) = match equals {
            Some(i) => {
                let name = vstd::slice::slice_to_vec(slice_subrange(second, 0, i));
                let text = vstd::slice::slice_to_vec(slice_subrange(second, i + 1, second.len()));
                assert(name@ =~= w[1].take(i as int));
                assert(text@ =~= w[1].skip(i + 1));
                (name, text)
            },
            None => {
                let name = vstd::slice::slice_to_vec(second);
                let text = if parts.len() > 3 {
                    join_words(&parts, 3)
                } else if parts[2].len() > 1 {
                    let rest = vstd::slice::slice_to_vec(
                        slice_subrange(parts[2].as_slice(), 1, parts[2].len()),
                    );
                    assert(rest@ =~= w[2].skip(1));
                    rest
                } else {
                    Vec::new()
                };
                (name, text)
            },
        };
        let value = parse_value(&field_type, text.as_slice())?;
        let ghost before = constant_views(schema.constants@);
        let constant = SchemaConstant { name: text_of_chars(name.as_slice()), field_type, value };
        let ghost v = constant@;
        schema.constants.push(constant);
        assert(constant_views(schema.constants@) =~= before.push(v));
        Ok(())
    } else {
        let default_value = if parts.len() > 2 {
            let text = join_words(&parts, 2);
            Some(parse_value(&field_type, text.as_slice())?)
        } else {
            None
        };
        let ghost before = field_views(schema.fields@);
        let field = SchemaField { name: text_of_chars(second), field_type, default_value };
        let ghost v = field@;
        schema.fields.push(field);
        assert(field_views(schema.fields@) =~= before.push(v));
        Ok(())
    }
}

/// The part of a definition that the parser is in.
pub enum SectionView {
    /// The main definition.
    Main,
    /// Behind a divider, where the line that names the next type is due.
    Awaiting,
    /// The definition of a type that the main one refers to.
    Sub(SchemaTreeView),
    /// A part behind a divider that names no type; it is passed over.
    Skipped,
}

/// How far the parser has come.
pub struct ProgressView {
    pub main: SchemaTreeView,
    pub subs: Seq<SchemaTreeView>,
    pub section: SectionView,
}

/// The place of the first type from `from` on that has the name `name`.
pub open spec fn place_of(subs: Seq<SchemaTreeView>, name: Seq<char>, from: int) -> Option<int>
    decreases subs.len() - from,
{
    if from < 0 || from >= subs.len() {
        None
    } else if subs[from].name == name {
        Some(from)
    } else {
        place_of(subs, name, from + 1)
    }
}

/// `subs` with `s` in it: in the place of the type of the same name, if
/// there is one, else behind all.
pub open spec fn put(subs: Seq<SchemaTreeView>, s: SchemaTreeView) -> Seq<SchemaTreeView> {
    match place_of(subs, s.name, 0) {
        Some(i) => subs.update(i, s),
        None => subs.push(s),
    }
}

/// The types gathered so far, the one in progress among them.
pub open spec fn closed_subs(p: ProgressView) -> Seq<SchemaTreeView> {
    match p.section {
        SectionView::Sub(s) => put(p.subs, s),
        _ => p.subs,
    }
}

/// A message type of the name `name` that declares nothing yet.
pub open spec fn blank(name: Seq<char>) -> SchemaTreeView {
    SchemaTreeView { name, fields: Seq::empty(), constants: Seq::empty() }
}

/// How far the parser has come when it has read `line`.
pub open spec fn stepped(p: ProgressView, line: Seq<char>) -> Result<ProgressView, ErrorKind> {
    if is_divider(line) {
        Ok(ProgressView { subs: closed_subs(p), section: SectionView::Awaiting, ..p })
    } else {
        match p.section {
            SectionView::Main => match line_added(p.main, line, package_of(p.main.name)) {
                Err(e) => Err(e),
                Ok(main) => Ok(ProgressView { main, ..p }),
            },
            SectionView::Awaiting => if matches_at(line, "MSG: "@, 0) {
                Ok(ProgressView { section: SectionView::Sub(blank(line.skip(5))), ..p })
            } else {
                Ok(ProgressView { section: SectionView::Skipped, ..p })
            },
            SectionView::Sub(s) => match line_added(s, line, package_of(s.name)) {
                Err(e) => Err(e),
                Ok(next) => Ok(ProgressView { section: SectionView::Sub(next), ..p }),
            },
            SectionView::Skipped => Ok(p),
        }
    }
}

/// How far the parser has come when it has read the lines from the `k`-th
/// on.
pub open spec fn sections_from(lines: Seq<Seq<char>>, k: int, p: ProgressView) -> Result<
    ProgressView,
    ErrorKind,
>
    decreases lines.len() - k,
{
    if k < 0 || k >= lines.len() {
        Ok(p)
    } else {
        match stepped(p, lines[k]) {
            Err(e) => Err(e),
            Ok(next) => sections_from(lines, k + 1, next),
        }
    }
}

/// A field of a primitive type without a default value.
pub open spec fn plain_field(name: Seq<char>, p: PrimitiveType) -> FieldView {
    FieldView { name, field_type: FieldTypeView::Primitive(p), default_value: None }
}

/// The type of points in time that every definition may refer to.
pub open spec fn time_schema() -> SchemaTreeView {
    SchemaTreeView {
        name: "builtin_interfaces/Time"@,
        fields: seq![
            plain_field("sec"@, PrimitiveType::Int32),
            plain_field("nanosec"@, PrimitiveType::Uint32),
        ],
        constants: Seq::empty(),
    }
}

/// The type of spans of time that every definition may refer to.
pub open spec fn duration_schema() -> SchemaTreeView {
    SchemaTreeView {
        name: "builtin_interfaces/Duration"@,
        fields: seq![
            plain_field("sec"@, PrimitiveType::Int32),
            plain_field("nanosec"@, PrimitiveType::Uint32),
        ],
        constants: Seq::empty(),
    }
}

/// `subs` with `builtin` behind it, if the text names it and `subs` does
/// not define it.
pub open spec fn with_builtin(subs: Seq<SchemaTreeView>, text: Seq<char>, builtin: SchemaTreeView) -> Seq<
    SchemaTreeView,
> {
    if place_of(subs, builtin.name, 0) is None && position_of_text(text, builtin.name, 0) is Some {
        subs.push(builtin)
    } else {
        subs
    }
}

/// What a definition yields.
pub struct ParsedView {
    /// The main message type.
    pub main: SchemaTreeView,
    /// The message types that the definition defines besides, and the
    /// built-in ones that it names.
    pub subs: Seq<SchemaTreeView>,
}

/// The built-in types that every parser knows: points in time, then spans
/// of time.
pub open spec fn standard_builtins() -> Seq<SchemaTreeView> {
    seq![time_schema(), duration_schema()]
}

/// `subs` with the first `upto` of the built-in types `builtins` behind
/// it, each in its turn if the text names it and it is not defined by
/// then.
pub open spec fn with_builtins(
    subs: Seq<SchemaTreeView>,
    text: Seq<char>,
    builtins: Seq<SchemaTreeView>,
    upto: int,
) -> Seq<SchemaTreeView>
    decreases upto,
{
    if upto <= 0 || upto > builtins.len() {
        subs
    } else {
        with_builtin(with_builtins(subs, text, builtins, upto - 1), text, builtins[upto - 1])
    }
}

/// What the definition `data` of the message type `name` yields to a
/// parser that knows the built-in types `builtins`.
pub open spec fn parsed_with(name: Seq<char>, data: Seq<u8>, builtins: Seq<SchemaTreeView>) -> Result<
    ParsedView,
    ErrorKind,
> {
    if !valid_utf8(data) {
        Err(ErrorKind::SchemaParseError)
    } else {
        let text = decode_utf8(data);
        let start = ProgressView { main: blank(name), subs: Seq::empty(), section: SectionView::Main };
        match sections_from(content_lines(text), 0, start) {
            Err(e) => Err(e),
            Ok(p) => Ok(
                ParsedView {
                    main: p.main,
                    subs: with_builtins(closed_subs(p), text, builtins, builtins.len() as int),
                },
            ),
        }
    }
}

/// What the definition `data` of the message type `name` yields.
pub open spec fn parsed(name: Seq<char>, data: Seq<u8>) -> Result<ParsedView, ErrorKind> {
    parsed_with(name, data, standard_builtins())
}

/// Whether no name occurs twice among the types.
pub open spec fn names_distinct(subs: Seq<SchemaTreeView>) -> bool {
    forall|i: int, j: int|
        0 <= i < j < subs.len() ==> (#[trigger] subs[i]).name != (#[trigger] subs[j]).name
}

/// Where a name is found, it stands; where it is not found, it stands
/// nowhere.
pub proof fn lemma_place_of(subs: Seq<SchemaTreeView>, name: Seq<char>, from: int)
    requires
        0 <= from,
    ensures
        match place_of(subs, name, from) {
            Some(i) => from <= i < subs.len() && subs[i].name == name,
            None => forall|k: int| from <= k < subs.len() ==> (#[trigger] subs[k]).name != name,
        },
    decreases subs.len() - from,
{
    if from < subs.len() && subs[from].name != name {
        lemma_place_of(subs, name, from + 1);
    }
}

/// Putting a type among types with distinct names leaves the names
/// distinct.
pub proof fn lemma_put_distinct(subs: Seq<SchemaTreeView>, s: SchemaTreeView)
    requires
        names_distinct(subs),
    ensures
        names_distinct(put(subs, s)),
{
    lemma_place_of(subs, s.name, 0);
    let out = put(subs, s);
    assert forall|i: int, j: int| 0 <= i < j < out.len() implies (#[trigger] out[i]).name != (
    #[trigger] out[j]).name by {
        match place_of(subs, s.name, 0) {
            Some(at) => {
                assert(out[i].name == subs[i].name);
                assert(out[j].name == subs[j].name);
            },
            None => {
                assert(out[i] == subs[i]);
                if j < subs.len() {
                    assert(out[j] == subs[j]);
                }
            },
        }
    }
}

/// Reading lines leaves the names of the types gathered distinct.
proof fn lemma_sections_distinct(lines: Seq<Seq<char>>, k: int, p: ProgressView)
    requires
        names_distinct(p.subs),
    ensures
        match sections_from(lines, k, p) {
            Ok(q) => names_distinct(q.subs),
            Err(_) => true,
        },
    decreases lines.len() - k,
{
    if 0 <= k < lines.len() {
        match stepped(p, lines[k]) {
            Err(_) => {},
            Ok(next) => {
                if is_divider(lines[k]) {
                    if let SectionView::Sub(s) = p.section {
                        lemma_put_distinct(p.subs, s);
                    }
                }
                assert(names_distinct(next.subs));
                lemma_sections_distinct(lines, k + 1, next);
            },
        }
    }
}

/// Adding built-in types leaves the names distinct.
proof fn lemma_with_builtins_distinct(
    subs: Seq<SchemaTreeView>,
    text: Seq<char>,
    builtins: Seq<SchemaTreeView>,
    upto: int,
)
    requires
        names_distinct(subs),
    ensures
        names_distinct(with_builtins(subs, text, builtins, upto)),
    decreases upto,
{
    if !(upto <= 0 || upto > builtins.len()) {
        lemma_with_builtins_distinct(subs, text, builtins, upto - 1);
        let before = with_builtins(subs, text, builtins, upto - 1);
        let b = builtins[upto - 1];
        lemma_place_of(before, b.name, 0);
        let out = with_builtin(before, text, b);
        assert forall|i: int, j: int| 0 <= i < j < out.len() implies (#[trigger] out[i]).name != (
        #[trigger] out[j]).name by {
            assert(out[i] == before[i]);
            if j < before.len() {
                assert(out[j] == before[j]);
            }
        }
    }
}

/// No name occurs twice among the types that a definition yields besides
/// the main one: a type that is defined again takes the place of the
/// earlier definition, and a built-in type is added only where the
/// definition does not define it.
pub proof fn lemma_parsed_names_distinct(name: Seq<char>, data: Seq<u8>, builtins: Seq<SchemaTreeView>)
    ensures
        match parsed_with(name, data, builtins) {
            Ok(v) => names_distinct(v.subs),
            Err(_) => true,
        },
{
    if valid_utf8(data) {
        let text = decode_utf8(data);
        let start = ProgressView { main: blank(name), subs: Seq::empty(), section: SectionView::Main };
        lemma_sections_distinct(content_lines(text), 0, start);
        match sections_from(content_lines(text), 0, start) {
            Err(_) => {},
            Ok(p) => {
                if let SectionView::Sub(s) = p.section {
                    lemma_put_distinct(p.subs, s);
                }
                lemma_with_builtins_distinct(closed_subs(p), text, builtins, builtins.len() as int);
            },
        }
    }
}

/// With the built-in types that every parser knows, points in time are
/// seen to first and spans of time after them.
pub proof fn lemma_standard_builtins(subs: Seq<SchemaTreeView>, text: Seq<char>)
    ensures
        with_builtins(subs, text, standard_builtins(), 2) == with_builtin(
            with_builtin(subs, text, time_schema()),
            text,
            duration_schema(),
        ),
{
    let b = standard_builtins();
    assert(b[0] == time_schema());
    assert(b[1] == duration_schema());
    assert(with_builtins(subs, text, b, 0) == subs);
    assert(with_builtins(subs, text, b, 1) == with_builtin(subs, text, time_schema()));
}

/// The type in `subs` that has the name `name`, if there is one.
pub fn find_schema<'a>(subs: &'a Vec<Schema>, name: &str) -> (r: Option<&'a Schema>)
    ensures
        match place_of(schema_tree_views(subs@), name@, 0) {
            Some(i) => r is Some && 0 <= i < subs@.len() && *r->0 == subs@[i],
            None => r is None,
        },
{
    let mut i: usize = 0;
    while i < subs.len()
        invariant
            i <= subs.len(),
            place_of(schema_tree_views(subs@), name@, 0) == place_of(
                schema_tree_views(subs@),
                name@,
                i as int,
            ),
        decreases subs.len() - i,
    {
        assert(schema_tree_views(subs@)[i as int] == subs@[i as int]@);
        if crate::text::same_text(subs[i].name.as_str(), name) {
            return Some(&subs[i]);
        }
        i += 1;
    }
    None
}

/// Puts `s` into `subs`: in the place of the type of the same name, if
/// there is one, else behind all.
fn put_schema(subs: &mut Vec<Schema>, s: Schema)
    ensures
        schema_tree_views(final(subs)@) == put(schema_tree_views(old(subs)@), s@),
{
    let ghost before = schema_tree_views(subs@);
    let mut i: usize = 0;
    while i < subs.len()
        invariant
            i <= subs.len(),
            subs@ == old(subs)@,
            before == schema_tree_views(subs@),
            place_of(before, s@.name, 0) == place_of(before, s@.name, i as int),
        decreases subs.len() - i,
    {
        assert(before[i as int] == subs@[i as int]@);
        if crate::text::same_text(subs[i].name.as_str(), s.name.as_str()) {
            let ghost v = s@;
            subs.set(i, s);
            assert(schema_tree_views(subs@) =~= before.update(i as int, v));
            return ;
        }
        i += 1;
    }
    let ghost v = s@;
    subs.push(s);
    assert(schema_tree_views(subs@) =~= before.push(v));
}

/// A field of a primitive type without a default value.
fn primitive_field(name: &str, p: PrimitiveType) -> (r: SchemaField)
    ensures
        r@ == plain_field(name@, p),
{
    SchemaField { name: name.to_string(), field_type: FieldType::Primitive(p), default_value: None }
}

/// A built-in type of two fields: seconds and nanoseconds.
fn builtin(name: &str) -> (r: Schema)
    ensures
        r@ == (SchemaTreeView {
            name: name@,
            fields: seq![
                plain_field("sec"@, PrimitiveType::Int32),
                plain_field("nanosec"@, PrimitiveType::Uint32),
            ],
            constants: Seq::empty(),
        }),
{
    let mut schema = Schema::new(name.to_string());
    assert(field_views(schema.fields@).len() == schema.fields@.len());
    assert(constant_views(schema.constants@).len() == schema.constants@.len());
    schema.fields.push(primitive_field("sec", PrimitiveType::Int32));
    schema.fields.push(primitive_field("nanosec", PrimitiveType::Uint32));
    assert(schema.fields@.len() == 2);
    assert(field_views(schema.fields@)[0] == schema.fields@[0]@);
    assert(field_views(schema.fields@)[1] == schema.fields@[1]@);
    assert(constant_views(schema.constants@) =~= Seq::empty());
    assert(field_views(schema.fields@) =~= seq![
        plain_field("sec"@, PrimitiveType::Int32),
        plain_field("nanosec"@, PrimitiveType::Uint32),
    ]);
    schema
}

/// Puts the built-in type behind `subs` if the text names it and `subs`
/// does not define it.
fn add_builtin(subs: &mut Vec<Schema>, text: &[char], builtin: &Schema)
    ensures
        schema_tree_views(final(subs)@) == with_builtin(
            schema_tree_views(old(subs)@),
            text@,
            builtin@,
        ),
{
    let ghost before = schema_tree_views(subs@);
    let name = builtin.name.as_str();
    let pattern = chars_of(name);
    if find_schema(subs, name).is_none() && find_text(text, pattern.as_slice()).is_some() {
        let schema = builtin.clone();
        let ghost v = schema@;
        subs.push(schema);
        assert(schema_tree_views(subs@) =~= before.push(v));
    }
}

/// The package of a message type: its name up to the first `/`.
fn package(name: &[char]) -> (r: Vec<char>)
    ensures
        r@ == package_of(name@),
{
    match find_char(name, '/') {
        Some(i) => {
            let head = slice_subrange(name, 0, i);
            assert(head@ =~= name@.take(i as int));
            vstd::slice::slice_to_vec(head)
        },
        None => vstd::slice::slice_to_vec(name),
    }
}

/// The parser of message definitions. It holds the built-in types, which
/// a definition may name without defining them.
pub struct Ros2MsgParser {
    builtin_schemas: Vec<Schema>,
}

impl Ros2MsgParser {
    /// The built-in types that the parser knows, in the order in which it
    /// sees to them.
    pub closed spec fn builtins(&self) -> Seq<SchemaTreeView> {
        schema_tree_views(self.builtin_schemas@)
    }

    /// A parser that knows the two built-in types of two fields each,
    /// seconds and nanoseconds: points in time and spans of time.
    pub fn new() -> (r: Self)
        ensures
            r.builtins() == standard_builtins(),
    {
        let mut builtin_schemas: Vec<Schema> = Vec::new();
        builtin_schemas.push(builtin("builtin_interfaces/Time"));
        builtin_schemas.push(builtin("builtin_interfaces/Duration"));
        assert(schema_tree_views(builtin_schemas@) =~= standard_builtins());
        Ros2MsgParser { builtin_schemas }
    }

    /// Parses the definition `data` of the message type `name`: the main
    /// type, and the types that the definition defines behind divider
    /// lines or that are built in and named.
    #[verifier::rlimit(50)]
    pub fn parse(&self, name: &str, data: &[u8]) -> (r: Result<(Schema, Vec<Schema>), PybagError>)
        ensures
            match parsed_with(name@, data@, self.builtins()) {
                Ok(expected) => match r {
                    Ok((main, subs)) => main@ == expected.main && schema_tree_views(subs@)
                        == expected.subs,
                    Err(_) => false,
                },
                Err(e) => r is Err && r->Err_0@ == e,
            },
    {
        let text = match string_from_utf8(vstd::slice::slice_to_vec(data)) {
            Some(text) => text,
            None => {
                return Err(malformed("Invalid UTF-8"));
            },
        };
        let chars = chars_of(text.as_str());
        let lines = split_content_lines(chars.as_slice());
        let mut main = Schema::new(name.to_string());
        let main_package = package(chars_of(name).as_slice());
        let mut subs: Vec<Schema> = Vec::new();
        let mut current: Option<Schema> = None;
        let mut current_package: Vec<char> = Vec::new();
        let mut in_main = true;
        let mut awaiting = false;
        let header = chars_of("MSG: ");
        proof {
            reveal_strlit("MSG: ");
        }
        let ghost start = ProgressView {
            main: blank(name@),
            subs: Seq::empty(),
            section: SectionView::Main,
        };
        assert(schema_tree_views(subs@) =~= Seq::empty());
        let mut k: usize = 0;
        while k < lines.len()
            invariant
                k <= lines.len(),
                valid_utf8(data@),
                chars@ == decode_utf8(data@),
                rows(lines@) == content_lines(chars@),
                start == (ProgressView {
                    main: blank(name@),
                    subs: Seq::empty(),
                    section: SectionView::Main,
                }),
                header@ == "MSG: "@,
                header@.len() == 5,
                main@.name == name@,
                main_package@ == package_of(name@),
                current is Some ==> !in_main && !awaiting && current_package@ == package_of(
                    current->0@.name,
                ),
                !(in_main && awaiting),
                sections_from(rows(lines@), 0, start) == sections_from(
                    rows(lines@),
                    k as int,
                    ProgressView {
                        main: main@,
                        subs: schema_tree_views(subs@),
                        section: if in_main {
                            SectionView::Main
                        } else if awaiting {
                            SectionView::Awaiting
                        } else {
                            match current {
                                Some(s) => SectionView::Sub(s@),
                                None => SectionView::Skipped,
                            }
                        },
                    },
                ),
            decreases lines.len() - k,
        {
            let line = lines[k].as_slice();
            assert(rows(lines@)[k as int] == line@);
            if divider(line) {
                match current {
                    Some(s) => {
                        put_schema(&mut subs, s);
                    },
                    None => {},
                }
                current = None;
                in_main = false;
                awaiting = true;
            } else if in_main {
                add_line(&mut main, line, main_package.as_slice())?;
            } else if awaiting {
                awaiting = false;
                if stands_at(line, header.as_slice(), 0) {
                    let sub_name = slice_subrange(line, 5, line.len());
                    assert(sub_name@ =~= line@.skip(5));
                    current_package = package(sub_name);
                    current = Some(Schema::new(text_of_chars(sub_name)));
                } else {
                    current = None;
                }
            } else {
                match current {
                    Some(s) => {
                        let mut s = s;
                        add_line(&mut s, line, current_package.as_slice())?;
                        current = Some(s);
                    },
                    None => {
                        current = None;
                    },
                }
            }
            k += 1;
        }
        match current {
            Some(s) => {
                put_schema(&mut subs, s);
            },
            None => {},
        }
        let ghost defined = schema_tree_views(subs@);
        let mut b: usize = 0;
        while b < self.builtin_schemas.len()
            invariant
                b <= self.builtin_schemas.len(),
                schema_tree_views(subs@) == with_builtins(
                    defined,
                    chars@,
                    self.builtins(),
                    b as int,
                ),
            decreases self.builtin_schemas.len() - b,
        {
            assert(self.builtins()[b as int] == self.builtin_schemas@[b as int]@);
            add_builtin(&mut subs, chars.as_slice(), &self.builtin_schemas[b]);
            b += 1;
        }
        Ok((main, subs))
    }
}

impl Default for Ros2MsgParser {
    /// A parser that knows the two built-in types.
    fn default() -> (r: Self)
        ensures
            r.builtins() == standard_builtins(),
    {
        Self::new()
    }
}

} // verus!
