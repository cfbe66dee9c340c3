//! JSON documents, as far as event data are read from them.

use crate::double::Double;
use crate::text::{
    decimal, decimal_text, joined, law_decimal_reads_back, parse_u64, parsed, same_text,
};
use std::collections::BTreeSet;
use vstd::prelude::*;
use vstd::string::*;

verus! {

/// A number in a JSON document.
#[derive(Debug)]
#[allow(inconsistent_fields)]
pub enum JsonNumber {
    /// An integer from zero to the largest of 64 bits, whose notation is decimal.
    Unsigned {
        /// The integer.
        value: u64,
        /// The integer in double precision.
        number: Double,
    },
    /// Any other number.
    Other {
        /// The number in double precision, where it can be so represented.
        number: Option<Double>,
        /// The number's notation.
        text: String,
    },
}

impl JsonNumber {
    /// The number, where it is an integer from zero to the largest of 64 bits.
    pub open spec fn integer(self) -> Option<u64> {
        match self {
            JsonNumber::Unsigned { value, .. } => Some(value),
            JsonNumber::Other { .. } => None,
        }
    }

    /// The number in double precision, where it can be so represented.
    pub open spec fn precise(self) -> Option<Double> {
        match self {
            JsonNumber::Unsigned { number, .. } => Some(number),
            JsonNumber::Other { number, .. } => number,
        }
    }

    /// The number's notation.
    pub open spec fn notation(self) -> Seq<char> {
        match self {
            JsonNumber::Unsigned { value, .. } => decimal(value as nat),
            JsonNumber::Other { text, .. } => text@,
        }
    }

    /// The number, where it is an integer from zero to the largest of 64 bits.
    pub fn as_u64(&self) -> (value: Option<u64>)
        ensures
            value == self.integer(),
    {
        match self {
            JsonNumber::Unsigned { value, .. } => Some(*value),
            JsonNumber::Other { .. } => None,
        }
    }

    /// The number in double precision, where it can be so represented.
    pub fn as_double(&self) -> (number: Option<Double>)
        ensures
            number == self.precise(),
    {
        match self {
            JsonNumber::Unsigned { number, .. } => Some(*number),
            JsonNumber::Other { number, .. } => *number,
        }
    }

    /// The number's notation.
    pub fn to_text(&self) -> (text: String)
        ensures
            text@ == self.notation(),
    {
        match self {
            JsonNumber::Unsigned { value, .. } => decimal_text(*value),
            JsonNumber::Other { text, .. } => text.clone(),
        }
    }
}

/// Law: an integer reads the same from its value and from its notation.
pub proof fn law_integer_matches_its_notation(number: JsonNumber)
    requires
        number.integer() is Some,
    ensures
        number.notation() == decimal(number.integer()->0 as nat),
        parsed(number.notation()) == number.integer(),
{
    law_decimal_reads_back(number.integer()->0);
}

/// A string in a JSON document.
#[derive(Debug)]
pub struct JsonText {
    /// The string.
    pub text: String,
    /// The double precision number that the string reads as, if it reads as one.
    pub number: Option<Double>,
}

/// A member of a JSON object.
#[derive(Debug)]
pub struct JsonField {
    /// The member's name.
    pub key: String,
    /// The member's value.
    pub value: Json,
}

/// A JSON document.
#[derive(Debug)]
pub enum Json {
    /// `null`.
    Null,
    /// `true` or `false`.
    Bool(bool),
    /// A number.
    Number(JsonNumber),
    /// A string.
    Text(JsonText),
    /// A list.
    Array(Vec<Json>),
    /// An object, its members in the order in which they stand.
    Object(Vec<JsonField>),
}

/// The value of the first member with the given name.
pub open spec fn lookup(fields: Seq<JsonField>, key: Seq<char>) -> Option<Json>
    decreases fields.len(),
{
    if fields.len() == 0 {
        None
    } else if fields[0].key@ == key {
        Some(fields[0].value)
    } else {
        lookup(fields.drop_first(), key)
    }
}

/// The value of the first member with the given name.
pub fn lookup_field<'a>(fields: &'a Vec<JsonField>, key: &str) -> (value: Option<&'a Json>)
    ensures
        match lookup(fields@, key@) {
            Some(expected) => value == Some(&expected),
            None => value is None,
        },
{
    let mut i: usize = 0;
    assert(fields@.skip(0) =~= fields@);
    while i < fields.len()
        invariant
            i <= fields@.len(),
            lookup(fields@, key@) == lookup(fields@.skip(i as int), key@),
        decreases fields@.len() - i,
    {
        assert(fields@.skip(i as int)[0] == fields@[i as int]);
        assert(fields@.skip(i as int).drop_first() =~= fields@.skip(i + 1));
        if same_text(fields[i].key.as_str(), key) {
            return Some(&fields[i].value);
        }
        i += 1;
    }
    None
}

impl Json {
    /// The member of an object with the given name; other documents have none.
    pub open spec fn member(self, key: Seq<char>) -> Option<Json> {
        match self {
            Json::Object(fields) => lookup(fields@, key),
            _ => None,
        }
    }

    /// The string of a string document.
    pub open spec fn string(self) -> Option<Seq<char>> {
        match self {
            Json::Text(text) => Some(text.text@),
            _ => None,
        }
    }

    /// The number of 64 bits that a number or the text of a string denotes.
    pub open spec fn unsigned(self) -> Option<u64> {
        match self {
            Json::Number(number) => number.integer(),
            Json::Text(text) => parsed(text.text@),
            _ => None,
        }
    }

    /// The finite number that a number or the text of a string denotes.
    pub open spec fn double(self) -> Option<Double> {
        let number = match self {
            Json::Number(number) => number.precise(),
            Json::Text(text) => text.number,
            _ => None,
        };
        match number {
            Some(value) => if value.finite() {
                Some(value)
            } else {
                None
            },
            None => None,
        }
    }

    /// The member of an object with the given name.
    pub fn get(&self, key: &str) -> (value: Option<&Json>)
        ensures
            match self.member(key@) {
                Some(expected) => value == Some(&expected),
                None => value is None,
            },
    {
        match self {
            Json::Object(fields) => lookup_field(fields, key),
            _ => None,
        }
    }

    /// The string of a string document.
    pub fn as_str(&self) -> (text: Option<&str>)
        ensures
            match self.string() {
                Some(expected) => text is Some && text->0@ == expected,
                None => text is None,
            },
    {
        match self {
            Json::Text(text) => Some(text.text.as_str()),
            _ => None,
        }
    }

    /// Whether the document is the given string.
    pub fn is_text(&self, expected: &str) -> (same: bool)
        ensures
            same == (self.string() == Some(expected@)),
    {
        match self {
            Json::Text(text) => same_text(text.text.as_str(), expected),
            _ => false,
        }
    }
}

/// The 64 bit number that a document denotes.
pub fn json_u64_value(value: &Json) -> (number: Option<u64>)
    ensures
        number == value.unsigned(),
{
    match value {
        Json::Number(number) => number.as_u64(),
        Json::Text(text) => parse_u64(text.text.as_str()),
        _ => None,
    }
}

/// The 64 bit number that a member of an object denotes.
pub open spec fn member_unsigned(object: Json, field: Seq<char>) -> Option<u64> {
    match object.member(field) {
        Some(value) => value.unsigned(),
        None => None,
    }
}

/// The 64 bit number that a member of an object denotes, if there is an object.
pub fn json_u64(object: Option<&Json>, field: &str) -> (number: Option<u64>)
    ensures
        number == (match object {
            Some(object) => member_unsigned(*object, field@),
            None => None,
        }),
{
    match object {
        Some(object) => match object.get(field) {
            Some(value) => json_u64_value(value),
            None => None,
        },
        None => None,
    }
}

/// The finite number that a document denotes, if there is one.
pub fn json_f64(value: Option<&Json>) -> (number: Option<Double>)
    ensures
        number == (match value {
            Some(value) => value.double(),
            None => None,
        }),
{
    let number = match value {
        Some(Json::Number(number)) => number.as_double(),
        Some(Json::Text(text)) => text.number,
        _ => None,
    };
    match number {
        Some(value) => if value.is_finite() {
            Some(value)
        } else {
            None
        },
        None => None,
    }
}

/// The count of a counter: its member `total`, or the counter itself.
pub open spec fn counter_total(value: Json) -> Option<u64> {
    match member_unsigned(value, "total"@) {
        Some(total) => Some(total),
        None => value.unsigned(),
    }
}

/// The count of a counter: its member `total`, or the counter itself.
pub fn total_counter(value: &Json) -> (total: Option<u64>)
    ensures
        total == counter_total(*value),
{
    match json_u64(Some(value), "total") {
        Some(total) => Some(total),
        None => json_u64_value(value),
    }
}

/// A hexadecimal digit, in lower case.
pub open spec fn hex_char(digit: nat) -> char
    recommends
        digit < 16,
{
    if digit < 10 {
        (48 + digit) as char
    } else {
        (87 + digit) as char
    }
}

/// A character as it stands in a JSON string: quotes, backslashes and control
/// characters are escaped.
pub open spec fn escaped_char(c: char) -> Seq<char> {
    if c == '"' || c == '\\' {
        seq!['\\', c]
    } else if c == '\u{8}' {
        seq!['\\', 'b']
    } else if c == '\u{c}' {
        seq!['\\', 'f']
    } else if c == '\n' {
        seq!['\\', 'n']
    } else if c == '\r' {
        seq!['\\', 'r']
    } else if c == '\t' {
        seq!['\\', 't']
    } else if 32 > c as nat {
        seq!['\\', 'u', '0', '0', hex_char(c as nat / 16), hex_char(c as nat % 16)]
    } else {
        seq![c]
    }
}

/// The characters of a string as they stand in a JSON string.
pub open spec fn escaped(text: Seq<char>) -> Seq<char>
    decreases text.len(),
{
    if text.len() == 0 {
        Seq::empty()
    } else {
        escaped(text.drop_last()) + escaped_char(text.last())
    }
}

/// A string in JSON notation.
pub open spec fn quoted(text: Seq<char>) -> Seq<char> {
    seq!['"'] + escaped(text) + seq!['"']
}

/// A string in JSON notation, by the `Display` implementation of
/// `serde_json::Value` for its variant `String`: the characters between quotes,
/// with `"`, `\` and the characters below U+0020 escaped, and no others.
#[verifier::external_body]
fn quoted_text(text: &str) -> (notation: String)
    ensures
        notation@ == quoted(text@),
{
    serde_json::Value::String(text.to_owned()).to_string()
}

/// A document in compact JSON notation.
pub open spec fn compact(value: Json) -> Seq<char>
    decreases value,
{
    match value {
        Json::Null => "null"@,
        Json::Bool(b) => if b {
            "true"@
        } else {
            "false"@
        },
        Json::Number(number) => number.notation(),
        Json::Text(text) => quoted(text.text@),
        Json::Array(values) => "["@ + compact_values(values@) + "]"@,
        Json::Object(fields) => "{"@ + compact_fields(fields@) + "}"@,
    }
}

/// The elements of a list in compact JSON notation, with commas between them.
pub open spec fn compact_values(values: Seq<Json>) -> Seq<char>
    decreases values,
{
    if values.len() == 0 {
        Seq::empty()
    } else if values.len() == 1 {
        compact(values[0])
    } else {
        compact_values(values.drop_last()) + ","@ + compact(values.last())
    }
}

/// The members of an object in compact JSON notation, with commas between them.
pub open spec fn compact_fields(fields: Seq<JsonField>) -> Seq<char>
    decreases fields,
{
    if fields.len() == 0 {
        Seq::empty()
    } else if fields.len() == 1 {
        quoted(fields[0].key@) + ":"@ + compact(fields[0].value)
    } else {
        compact_fields(fields.drop_last()) + ","@ + (quoted(fields.last().key@) + ":"@ + compact(
            fields.last().value,
        ))
    }
}

/// A document in compact JSON notation.
pub fn compact_text(value: &Json) -> (text: String)
    ensures
        text@ == compact(*value),
    decreases value,
{
    match value {
        Json::Null => "null".to_owned(),
        Json::Bool(b) => if *b {
            "true".to_owned()
        } else {
            "false".to_owned()
        },
        Json::Number(number) => number.to_text(),
        Json::Text(text) => quoted_text(text.text.as_str()),
        Json::Array(values) => {
            let mut inner = String::new();
            let mut i: usize = 0;
            assert(values@.take(0) =~= Seq::<Json>::empty());
            while i < values.len()
                invariant
                    *value == Json::Array(*values),
                    i <= values@.len(),
                    inner@ == compact_values(values@.take(i as int)),
                decreases values@.len() - i,
            {
                let ghost longer = values@.take(i + 1);
                assert(longer.drop_last() =~= values@.take(i as int));
                if i > 0 {
                    inner.append(",");
                }
                assert(decreases_to!(*value => value->Array_0));
                assert(decreases_to!(*values => values@[i as int]));
                let element = compact_text(&values[i]);
                assert(inner@.len() == 0 ==> inner@ + element@ =~= element@);
                inner.append(element.as_str());
                i += 1;
            }
            assert(values@.take(values@.len() as int) =~= values@);
            let mut text = "[".to_owned();
            text.append(inner.as_str());
            text.append("]");
            text
        },
        Json::Object(fields) => {
            let mut inner = String::new();
            let mut i: usize = 0;
            assert(fields@.take(0) =~= Seq::<JsonField>::empty());
            while i < fields.len()
                invariant
                    *value == Json::Object(*fields),
                    i <= fields@.len(),
                    inner@ == compact_fields(fields@.take(i as int)),
                decreases fields@.len() - i,
            {
                let ghost longer = fields@.take(i + 1);
                assert(longer.drop_last() =~= fields@.take(i as int));
                if i > 0 {
                    inner.append(",");
                }
                let mut member = quoted_text(fields[i].key.as_str());
                member.append(":");
                assert(decreases_to!(*value => value->Object_0));
                assert(decreases_to!(*fields => fields@[i as int]));
                assert(decreases_to!(fields@[i as int] => fields@[i as int].value));
                let element = compact_text(&fields[i].value);
                member.append(element.as_str());
                assert(inner@.len() == 0 ==> inner@ + member@ =~= member@);
                inner.append(member.as_str());
                i += 1;
            }
            assert(fields@.take(fields@.len() as int) =~= fields@);
            let mut text = "{".to_owned();
            text.append(inner.as_str());
            text.append("}");
            text
        },
    }
}

/// A document as plain text: nothing for `null`, a string as it is, and anything
/// else in compact JSON notation.
pub open spec fn plain_text(value: Json) -> Option<Seq<char>> {
    match value {
        Json::Null => None,
        Json::Text(text) => Some(text.text@),
        _ => Some(compact(value)),
    }
}

/// A document as plain text.
pub fn json_text(value: &Json) -> (text: Option<String>)
    ensures
        match plain_text(*value) {
            Some(expected) => text is Some && text->0@ == expected,
            None => text is None,
        },
{
    match value {
        Json::Null => None,
        Json::Text(text) => Some(text.text.clone()),
        _ => Some(compact_text(value)),
    }
}

/// The stream that a member of an object names, if it names one: `stream_id` by
/// its number, `quarter_stream_id` by a fourth of it.
pub open spec fn named_stream(field: JsonField) -> Option<u64> {
    if field.key@ == "stream_id"@ {
        field.value.unsigned()
    } else if field.key@ == "quarter_stream_id"@ {
        match field.value.unsigned() {
            Some(quarter) => if quarter * 4 <= u64::MAX {
                Some((quarter * 4) as u64)
            } else {
                None
            },
            None => None,
        }
    } else {
        None
    }
}

/// The set that holds a stream that is named, and is empty if none is.
pub open spec fn singleton(stream: Option<u64>) -> Set<u64> {
    match stream {
        Some(id) => Set::empty().insert(id),
        None => Set::empty(),
    }
}

/// The streams that are named anywhere in a document.
pub open spec fn stream_ids(value: Json) -> Set<u64>
    decreases value,
{
    match value {
        Json::Array(values) => stream_ids_of_values(values@),
        Json::Object(fields) => stream_ids_of_fields(fields@),
        _ => Set::empty(),
    }
}

/// The streams that are named anywhere in a list.
pub open spec fn stream_ids_of_values(values: Seq<Json>) -> Set<u64>
    decreases values,
{
    if values.len() == 0 {
        Set::empty()
    } else {
        stream_ids_of_values(values.drop_last()).union(stream_ids(values.last()))
    }
}

/// The streams that are named anywhere among the members of an object.
pub open spec fn stream_ids_of_fields(fields: Seq<JsonField>) -> Set<u64>
    decreases fields,
{
    if fields.len() == 0 {
        Set::empty()
    } else {
        stream_ids_of_fields(fields.drop_last()).union(singleton(named_stream(fields.last()))).union(
            stream_ids(fields.last().value),
        )
    }
}

/// The stream that a member of an object names.
fn named_stream_id(field: &JsonField) -> (stream: Option<u64>)
    ensures
        stream == named_stream(*field),
{
    if same_text(field.key.as_str(), "stream_id") {
        json_u64_value(&field.value)
    } else if same_text(field.key.as_str(), "quarter_stream_id") {
        match json_u64_value(&field.value) {
            Some(quarter) => quarter.checked_mul(4),
            None => None,
        }
    } else {
        None
    }
}

/// Adds the streams that are named anywhere in a document.
pub fn collect_json_stream_ids(value: &Json, ids: &mut BTreeSet<u64>)
    ensures
        final(ids)@ == old(ids)@.union(stream_ids(*value)),
    decreases value,
{
    broadcast use vstd::std_specs::btree::group_btree_axioms;

    match value {
        Json::Array(values) => {
            let mut i: usize = 0;
            assert(values@.take(0) =~= Seq::<Json>::empty());
            assert(ids@ =~= old(ids)@.union(stream_ids_of_values(values@.take(0))));
            while i < values.len()
                invariant
                    *value == Json::Array(*values),
                    i <= values@.len(),
                    ids@ == old(ids)@.union(stream_ids_of_values(values@.take(i as int))),
                decreases values@.len() - i,
            {
                let ghost longer = values@.take(i + 1);
                assert(longer.drop_last() =~= values@.take(i as int));
                assert(decreases_to!(*value => value->Array_0));
                assert(decreases_to!(*values => values@[i as int]));
                collect_json_stream_ids(&values[i], ids);
                assert(ids@ =~= old(ids)@.union(stream_ids_of_values(longer)));
                i += 1;
            }
            assert(values@.take(values@.len() as int) =~= values@);
        },
        Json::Object(fields) => {
            let mut i: usize = 0;
            assert(fields@.take(0) =~= Seq::<JsonField>::empty());
            assert(ids@ =~= old(ids)@.union(stream_ids_of_fields(fields@.take(0))));
            while i < fields.len()
                invariant
                    *value == Json::Object(*fields),
                    i <= fields@.len(),
                    ids@ == old(ids)@.union(stream_ids_of_fields(fields@.take(i as int))),
                decreases fields@.len() - i,
            {
                let ghost longer = fields@.take(i + 1);
                assert(longer.drop_last() =~= fields@.take(i as int));
                if let Some(id) = named_stream_id(&fields[i]) {
                    ids.insert(id);
                }
                assert(decreases_to!(*value => value->Object_0));
                assert(decreases_to!(*fields => fields@[i as int]));
                assert(decreases_to!(fields@[i as int] => fields@[i as int].value));
                collect_json_stream_ids(&fields[i].value, ids);
                assert(ids@ =~= old(ids)@.union(stream_ids_of_fields(longer)));
                i += 1;
            }
            assert(fields@.take(fields@.len() as int) =~= fields@);
        },
        _ => {
            assert(ids@ =~= old(ids)@.union(stream_ids(*value)));
        },
    }
}

/// A frame of the given type stands somewhere in a document.
pub open spec fn has_frame_type(value: Json, expected: Seq<char>) -> bool
    decreases value,
{
    match value {
        Json::Array(values) => values_have_frame_type(values@, expected),
        Json::Object(fields) => {
            ||| (match lookup(fields@, "frame_type"@) {
                Some(frame_type) => frame_type.string() == Some(expected),
                None => false,
            })
            ||| fields_have_frame_type(fields@, expected)
        },
        _ => false,
    }
}

/// A frame of the given type stands somewhere in a list.
pub open spec fn values_have_frame_type(values: Seq<Json>, expected: Seq<char>) -> bool
    decreases values,
{
    values.len() > 0 && (values_have_frame_type(values.drop_last(), expected) || has_frame_type(
        values.last(),
        expected,
    ))
}

/// A frame of the given type stands somewhere below the members of an object.
pub open spec fn fields_have_frame_type(fields: Seq<JsonField>, expected: Seq<char>) -> bool
    decreases fields,
{
    fields.len() > 0 && (fields_have_frame_type(fields.drop_last(), expected) || has_frame_type(
        fields.last().value,
        expected,
    ))
}

/// Once one of the first elements holds the frame, the list does.
proof fn lemma_values_frame_type(values: Seq<Json>, n: int, expected: Seq<char>)
    requires
        0 <= n <= values.len(),
        values_have_frame_type(values.take(n), expected),
    ensures
        values_have_frame_type(values, expected),
    decreases values.len(),
{
    if n < values.len() {
        assert(values.drop_last().take(n) =~= values.take(n));
        lemma_values_frame_type(values.drop_last(), n, expected);
    } else {
        assert(values.take(n) =~= values);
    }
}

/// Once one of the first members holds the frame, the object does.
proof fn lemma_fields_frame_type(fields: Seq<JsonField>, n: int, expected: Seq<char>)
    requires
        0 <= n <= fields.len(),
        fields_have_frame_type(fields.take(n), expected),
    ensures
        fields_have_frame_type(fields, expected),
    decreases fields.len(),
{
    if n < fields.len() {
        assert(fields.drop_last().take(n) =~= fields.take(n));
        lemma_fields_frame_type(fields.drop_last(), n, expected);
    } else {
        assert(fields.take(n) =~= fields);
    }
}

/// Whether a frame of the given type stands somewhere in a document.
pub fn contains_frame_type(value: &Json, expected: &str) -> (found: bool)
    ensures
        found == has_frame_type(*value, expected@),
    decreases value,
{
    match value {
        Json::Array(values) => {
            let mut i: usize = 0;
            while i < values.len()
                invariant
                    *value == Json::Array(*values),
                    i <= values@.len(),
                    !values_have_frame_type(values@.take(i as int), expected@),
                decreases values@.len() - i,
            {
                let ghost longer = values@.take(i + 1);
                assert(longer.drop_last() =~= values@.take(i as int));
                assert(decreases_to!(*value => value->Array_0));
                assert(decreases_to!(*values => values@[i as int]));
                if contains_frame_type(&values[i], expected) {
                    proof {
                        lemma_values_frame_type(values@, i + 1, expected@);
                    }
                    return true;
                }
                i += 1;
            }
            assert(values@.take(values@.len() as int) =~= values@);
            false
        },
        Json::Object(fields) => {
            if let Some(frame_type) = lookup_field(fields, "frame_type") {
                if frame_type.is_text(expected) {
                    return true;
                }
            }
            let mut i: usize = 0;
            while i < fields.len()
                invariant
                    *value == Json::Object(*fields),
                    i <= fields@.len(),
                    !fields_have_frame_type(fields@.take(i as int), expected@),
                decreases fields@.len() - i,
            {
                let ghost longer = fields@.take(i + 1);
                assert(longer.drop_last() =~= fields@.take(i as int));
                assert(decreases_to!(*value => value->Object_0));
                assert(decreases_to!(*fields => fields@[i as int]));
                assert(decreases_to!(fields@[i as int] => fields@[i as int].value));
                if contains_frame_type(&fields[i].value, expected) {
                    proof {
                        lemma_fields_frame_type(fields@, i + 1, expected@);
                    }
                    return true;
                }
                i += 1;
            }
            assert(fields@.take(fields@.len() as int) =~= fields@);
            false
        },
        _ => false,
    }
}

/// The streams of a list are those of its elements.
proof fn lemma_streams_of_values(values: Seq<Json>, id: u64)
    ensures
        stream_ids_of_values(values).contains(id) <==> exists|i: int|
            0 <= i < values.len() && stream_ids(#[trigger] values[i]).contains(id),
    decreases values.len(),
{
    if values.len() > 0 {
        let shorter = values.drop_last();
        lemma_streams_of_values(shorter, id);
        let n = values.len() - 1;
        assert(values[n] == values.last());
        assert forall|i: int| 0 <= i < n implies #[trigger] values[i] == shorter[i] by {}
        assert forall|i: int| 0 <= i < n implies values[i] == #[trigger] shorter[i] by {}
    }
}

/// The streams of an object are those that its members name or hold.
proof fn lemma_streams_of_fields(fields: Seq<JsonField>, id: u64)
    ensures
        stream_ids_of_fields(fields).contains(id) <==> exists|i: int|
            0 <= i < fields.len() && (named_stream(#[trigger] fields[i]) == Some(id)
                || stream_ids(fields[i].value).contains(id)),
    decreases fields.len(),
{
    if fields.len() > 0 {
        let shorter = fields.drop_last();
        lemma_streams_of_fields(shorter, id);
        let n = fields.len() - 1;
        assert(fields[n] == fields.last());
        assert forall|i: int| 0 <= i < n implies #[trigger] fields[i] == shorter[i] by {}
        assert forall|i: int| 0 <= i < n implies fields[i] == #[trigger] shorter[i] by {}
    }
}

/// Law: a list names a stream if and only if one of its elements does.
pub proof fn law_list_names_streams(values: Vec<Json>, id: u64)
    ensures
        stream_ids(Json::Array(values)).contains(id) <==> exists|i: int|
            0 <= i < values@.len() && stream_ids(#[trigger] values@[i]).contains(id),
{
    lemma_streams_of_values(values@, id);
}

/// Law: an object names a stream if and only if one of its members does, by its
/// own name or anywhere in its value.
pub proof fn law_object_names_streams(fields: Vec<JsonField>, id: u64)
    ensures
        stream_ids(Json::Object(fields)).contains(id) <==> exists|i: int|
            0 <= i < fields@.len() && (named_stream(#[trigger] fields@[i]) == Some(id)
                || stream_ids(fields@[i].value).contains(id)),
{
    lemma_streams_of_fields(fields@, id);
}

/// Law: a list holds a frame of a type if and only if one of its elements does.
pub proof fn law_list_holds_frames(values: Vec<Json>, expected: Seq<char>)
    ensures
        has_frame_type(Json::Array(values), expected) <==> exists|i: int|
            0 <= i < values@.len() && has_frame_type(#[trigger] values@[i], expected),
{
    lemma_frames_of_values(values@, expected);
}

/// A list holds the frames of its elements.
proof fn lemma_frames_of_values(values: Seq<Json>, expected: Seq<char>)
    ensures
        values_have_frame_type(values, expected) <==> exists|i: int|
            0 <= i < values.len() && has_frame_type(#[trigger] values[i], expected),
    decreases values.len(),
{
    if values.len() > 0 {
        let shorter = values.drop_last();
        lemma_frames_of_values(shorter, expected);
        let n = values.len() - 1;
        assert(values[n] == values.last());
        assert forall|i: int| 0 <= i < n implies #[trigger] values[i] == shorter[i] by {}
        assert forall|i: int| 0 <= i < n implies values[i] == #[trigger] shorter[i] by {}
    }
}

/// Law: an object holds a frame of a type if and only if it is one itself, by its
/// member `frame_type`, or the value of one of its members holds one.
pub proof fn law_object_holds_frames(fields: Vec<JsonField>, expected: Seq<char>)
    ensures
        has_frame_type(Json::Object(fields), expected) <==> {
            ||| (match lookup(fields@, "frame_type"@) {
                Some(frame_type) => frame_type.string() == Some(expected),
                None => false,
            })
            ||| exists|i: int|
                0 <= i < fields@.len() && has_frame_type(
                    (#[trigger] fields@[i]).value,
                    expected,
                )
        },
{
    lemma_frames_of_fields(fields@, expected);
}

/// An object holds the frames of its members.
proof fn lemma_frames_of_fields(fields: Seq<JsonField>, expected: Seq<char>)
    ensures
        fields_have_frame_type(fields, expected) <==> exists|i: int|
            0 <= i < fields.len() && has_frame_type((#[trigger] fields[i]).value, expected),
    decreases fields.len(),
{
    if fields.len() > 0 {
        let shorter = fields.drop_last();
        lemma_frames_of_fields(shorter, expected);
        let n = fields.len() - 1;
        assert(fields[n] == fields.last());
        assert forall|i: int| 0 <= i < n implies #[trigger] fields[i] == shorter[i] by {}
        assert forall|i: int| 0 <= i < n implies fields[i] == #[trigger] shorter[i] by {}
    }
}

/// Law: the member of an object with a given name is the first of those with that name;
/// there is none where none has it, and other documents have no members.
pub proof fn law_members_are_found_by_name(fields: Vec<JsonField>, key: Seq<char>, i: int)
    requires
        0 <= i <= fields@.len(),
        i < fields@.len() ==> fields@[i].key@ == key,
        forall|k: int| 0 <= k < i ==> (#[trigger] fields@[k]).key@ != key,
    ensures
        Json::Object(fields).member(key) == (if i < fields@.len() {
            Some(fields@[i].value)
        } else {
            None
        }),
{
    lemma_lookup(fields@, key, i);
}

/// The value of the first member with the given name.
proof fn lemma_lookup(fields: Seq<JsonField>, key: Seq<char>, i: int)
    requires
        0 <= i <= fields.len(),
        i < fields.len() ==> fields[i].key@ == key,
        forall|k: int| 0 <= k < i ==> (#[trigger] fields[k]).key@ != key,
    ensures
        lookup(fields, key) == (if i < fields.len() {
            Some(fields[i].value)
        } else {
            None
        }),
    decreases fields.len(),
{
    if i > 0 {
        let rest = fields.drop_first();
        assert(fields[0].key@ != key);
        assert forall|k: int| 0 <= k < i - 1 implies (#[trigger] rest[k]).key@ != key by {
            assert(rest[k] == fields[k + 1]);
        }
        lemma_lookup(rest, key, i - 1);
    }
}

/// Law: documents that are neither lists nor objects have no members, name no streams and
/// hold no frames.
pub proof fn law_plain_documents_hold_nothing(value: Json, key: Seq<char>)
    requires
        !(value is Array),
        !(value is Object),
    ensures
        value.member(key) is None,
        stream_ids(value) == Set::<u64>::empty(),
        !has_frame_type(value, key),
{
}

/// Law: a list has no members of its own.
pub proof fn law_lists_have_no_members(values: Vec<Json>, key: Seq<char>)
    ensures
        Json::Array(values).member(key) is None,
{
}

/// Law: a member of an object names a stream by the integer under `stream_id`, or by a
/// fourth of it under `quarter_stream_id`, and under no other name.
pub proof fn law_members_name_streams(field: JsonField, id: u64)
    ensures
        named_stream(field) == Some(id) <==> {
            ||| field.key@ == "stream_id"@ && field.value.unsigned() == Some(id)
            ||| field.key@ == "quarter_stream_id"@ && (field.value.unsigned() matches Some(quarter)
                && quarter * 4 == id)
        },
{
    reveal_strlit("stream_id");
    reveal_strlit("quarter_stream_id");
    assert("stream_id"@.len() != "quarter_stream_id"@.len());
}

/// Law: a document denotes an integer as a number from zero on that fits in 64 bits, or as
/// the text of one, and in no other way.
pub proof fn law_documents_denote_integers(value: Json)
    ensures
        value.unsigned() == (match value {
            Json::Number(JsonNumber::Unsigned { value, .. }) => Some(value),
            Json::Text(text) => parsed(text.text@),
            _ => None,
        }),
        value.string() == (match value {
            Json::Text(text) => Some(text.text@),
            _ => None,
        }),
        value.double() matches Some(number) ==> number.finite(),
        (value matches Json::Number(JsonNumber::Unsigned { number, .. }) && number.finite())
            ==> value.double() == Some(value->Number_0->Unsigned_number),
        (value matches Json::Number(JsonNumber::Other { number: Some(number), .. })
            && number.finite()) ==> value.double() == value->Number_0->Other_number,
        (value matches Json::Text(JsonText { number: Some(number), .. }) && number.finite())
            ==> value.double() == value->Text_0.number,
{
}

/// Law: a count is the integer of its member `total`, or else its own.
pub proof fn law_totals_come_first(counter: Json, total: u64)
    ensures
        (counter.member("total"@) matches Some(value) && value.unsigned() == Some(total))
            ==> counter_total(counter) == Some(total),
        !(counter.member("total"@) matches Some(value) && value.unsigned() is Some)
            ==> counter_total(counter) == counter.unsigned(),
{
}

/// The documents of a list, each in compact notation.
pub open spec fn compact_parts(values: Seq<Json>) -> Seq<Seq<char>> {
    values.map_values(|value: Json| compact(value))
}

/// The members of an object, each in compact notation.
pub open spec fn compact_members(fields: Seq<JsonField>) -> Seq<Seq<char>> {
    fields.map_values(|field: JsonField| quoted(field.key@) + ":"@ + compact(field.value))
}

/// The elements of a list are separated by commas.
proof fn lemma_compact_values(values: Seq<Json>)
    ensures
        compact_values(values) == joined(compact_parts(values), ","@),
    decreases values.len(),
{
    if values.len() > 1 {
        lemma_compact_values(values.drop_last());
        assert(compact_parts(values).drop_last() =~= compact_parts(values.drop_last()));
    }
}

/// The members of an object are separated by commas.
proof fn lemma_compact_fields(fields: Seq<JsonField>)
    ensures
        compact_fields(fields) == joined(compact_members(fields), ","@),
    decreases fields.len(),
{
    if fields.len() > 1 {
        lemma_compact_fields(fields.drop_last());
        assert(compact_members(fields).drop_last() =~= compact_members(fields.drop_last()));
    }
}

/// Law: in compact notation, lists stand in square brackets and objects in braces, their
/// parts separated by commas and names by colons; a string by itself is put in words
/// without quotes, and `null` not at all.
pub proof fn law_documents_in_words(values: Vec<Json>, fields: Vec<JsonField>, text: JsonText)
    ensures
        plain_text(Json::Array(values)) == Some(
            "["@ + joined(compact_parts(values@), ","@) + "]"@,
        ),
        plain_text(Json::Object(fields)) == Some(
            "{"@ + joined(compact_members(fields@), ","@) + "}"@,
        ),
        plain_text(Json::Text(text)) == Some(text.text@),
        compact(Json::Text(text)) == quoted(text.text@),
        plain_text(Json::Null) is None,
        plain_text(Json::Bool(true)) == Some("true"@),
        plain_text(Json::Bool(false)) == Some("false"@),
{
    lemma_compact_values(values@);
    lemma_compact_fields(fields@);
}

/// Law: a number is put in words by its decimal notation where it is an integer from zero on
/// that fits in 64 bits, and else as it was written.
pub proof fn law_numbers_in_words(number: JsonNumber)
    ensures
        plain_text(Json::Number(number)) == Some(
            match number {
                JsonNumber::Unsigned { value, .. } => decimal(value as nat),
                JsonNumber::Other { text, .. } => text@,
            },
        ),
{
}

} // verus!
