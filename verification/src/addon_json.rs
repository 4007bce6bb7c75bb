//! The `addon.json` of an extracted addon.

use serde_json::{Map as JsonMap, Value};
use vstd::prelude::*;

use crate::text::lossy_text;

verus! {

/// Makes [`serde_json::Map`] known.
#[verifier::external_type_specification]
#[verifier::external_body]
#[verifier::reject_recursive_types(K)]
#[verifier::reject_recursive_types(V)]
pub struct ExJsonMap<K, V>(serde_json::Map<K, V>);

/// Makes [`serde_json::Value`] known.
#[verifier::external_type_specification]
#[verifier::external_body]
pub struct ExJsonValue(serde_json::Value);

/// The members of a JSON object: for each name, the JSON text of the value.
pub uninterp spec fn members(object: serde_json::Map<String, serde_json::Value>) -> Map<
    Seq<char>,
    Seq<char>,
>;

/// The members of the JSON object that `raw` is the text of, if it is the text of one.
pub uninterp spec fn json_object(raw: Seq<u8>) -> Option<Map<Seq<char>, Seq<char>>>;

/// The digit of the value `n` among those of base 16.
pub open spec fn hex_digit(n: int) -> char {
    if n < 10 {
        ('0' as int + n) as char
    } else {
        ('a' as int + n - 10) as char
    }
}

/// A character as it stands in a JSON string: quotation marks, backslashes and control characters
/// are escaped.
pub open spec fn escaped(c: char) -> Seq<char> {
    if c == '"' {
        seq!['\\', '"']
    } else if c == '\\' {
        seq!['\\', '\\']
    } else if c == '\u{8}' {
        seq!['\\', 'b']
    } else if c == '\t' {
        seq!['\\', 't']
    } else if c == '\n' {
        seq!['\\', 'n']
    } else if c == '\u{c}' {
        seq!['\\', 'f']
    } else if c == '\r' {
        seq!['\\', 'r']
    } else if (c as int) < 0x20 {
        seq!['\\', 'u', '0', '0', hex_digit(c as int / 16), hex_digit(c as int % 16)]
    } else {
        seq![c]
    }
}

/// The characters of `text` as they stand in a JSON string.
pub open spec fn escaped_text(text: Seq<char>) -> Seq<char>
    decreases text.len(),
{
    if text.len() == 0 {
        Seq::empty()
    } else {
        escaped_text(text.drop_last()) + escaped(text.last())
    }
}

/// The JSON text of a string: between quotation marks, and with escapes where it needs them.
pub open spec fn json_string(text: Seq<char>) -> Seq<char> {
    seq!['"'] + escaped_text(text) + seq!['"']
}

/// The JSON text, over several lines, of an object with these members.
pub uninterp spec fn pretty_object(members: Map<Seq<char>, Seq<char>>) -> Seq<char>;

/// The JSON text, over several lines, of an object with two members that are strings, in the order
/// in which they are given.
pub open spec fn pretty_pair(
    name1: Seq<char>,
    text1: Seq<char>,
    name2: Seq<char>,
    text2: Seq<char>,
) -> Seq<char> {
    "{\n  "@ + json_string(name1) + ": "@ + json_string(text1) + ",\n  "@ + json_string(name2)
        + ": "@ + json_string(text2) + "\n}"@
}

/// Calls [`serde_json::from_slice`] for a [`serde_json::Map`].
///
/// Claimed: whether there is an object, and what its members are, depends on the bytes alone.
#[verifier::external_body]
fn parse_object(raw: &[u8]) -> (object: Option<JsonMap<String, Value>>)
    ensures
        match object {
            Some(object) => json_object(raw@) == Some(members(object)),
            None => json_object(raw@) is None,
        },
{
    serde_json::from_slice::<JsonMap<String, Value>>(raw).ok()
}

/// Calls [`serde_json::Map::entry`] and, on what it gives, `or_insert`.
///
/// Claimed: a member of that name is left as it is; without one, a string is added under the name,
/// whose text is the JSON string, and nothing else changes.
#[verifier::external_body]
fn insert_if_absent(object: &mut JsonMap<String, Value>, name: &str, text: String)
    ensures
        members(*final(object)) == if members(*old(object)).contains_key(name@) {
            members(*old(object))
        } else {
            members(*old(object)).insert(name@, json_string(text@))
        },
{
    object.entry(name).or_insert(Value::String(text));
}

/// Calls [`serde_json::to_string_pretty`] for a [`serde_json::Map`].
///
/// Claimed: the text depends on the members alone. The map keeps its members ordered by name, and
/// writing one out cannot fail: every name is a string and nothing is written but memory.
#[verifier::external_body]
fn print_object(object: &JsonMap<String, Value>) -> (text: String)
    ensures
        text@ == pretty_object(members(*object)),
{
    serde_json::to_string_pretty(object).unwrap()
}

/// Calls `collect_map` on a [`serde_json::Serializer::pretty`].
///
/// Claimed: the members are written in their order, each on a line of its own that is indented by
/// two blanks, names and texts as JSON strings in which nothing is escaped but quotation marks,
/// backslashes and control characters. Writing to memory cannot fail, and what is written is UTF-8.
#[verifier::external_body]
fn print_pair(name1: &str, text1: &str, name2: &str, text2: &str) -> (text: String)
    ensures
        text@ == pretty_pair(name1@, text1@, name2@, text2@),
{
    let mut out: Vec<u8> = Vec::new();
    let mut serializer = serde_json::Serializer::pretty(&mut out);
    serde::Serializer::collect_map(&mut serializer, [(name1, text1), (name2, text2)]).unwrap();
    String::from_utf8(out).unwrap()
}

/// The members `given`, and the title of the addon unless there is one among them.
pub open spec fn titled(given: Map<Seq<char>, Seq<char>>, title: Seq<u8>) -> Map<
    Seq<char>,
    Seq<char>,
> {
    if given.contains_key("title"@) {
        given
    } else {
        given.insert("title"@, json_string(crate::text::lossy(title)))
    }
}

/// The text of `addon.json`, where `object` is what the description came to as a JSON object: that
/// object with a title; or, where it is no object, one that tells title and description.
pub open spec fn addon_json_text(
    object: Option<Map<Seq<char>, Seq<char>>>,
    title: Seq<u8>,
    description: Seq<u8>,
) -> Seq<char> {
    match object {
        Some(given) => pretty_object(titled(given, title)),
        None => pretty_pair(
            "title"@,
            crate::text::lossy(title),
            "description"@,
            crate::text::lossy(description),
        ),
    }
}

/// The text of `addon.json`, where `object` is what the description came to as a JSON object.
pub fn addon_json_for(
    object: Option<JsonMap<String, Value>>,
    title: &[u8],
    description: &[u8],
) -> (text: String)
    ensures
        text@ == addon_json_text(
            match object {
                Some(object) => Some(members(object)),
                None => None,
            },
            title@,
            description@,
        ),
{
    match object {
        Some(object) => {
            let mut object = object;
            insert_if_absent(&mut object, "title", lossy_text(title));
            print_object(&object)
        },
        None => {
            let title = lossy_text(title);
            let description = lossy_text(description);
            print_pair("title", title.as_str(), "description", description.as_str())
        },
    }
}

/// The text of `addon.json` for an addon of this title and description.
pub fn write_addon_json(title: &[u8], addon_json: &[u8]) -> (text: String)
    ensures
        text@ == addon_json_text(json_object(addon_json@), title@, addon_json@),
{
    let object = parse_object(addon_json);
    addon_json_for(object, title, addon_json)
}

/// An addon whose description is a JSON object keeps all its members as they are, a title of its
/// own among them, and has a title in any case.
pub proof fn law_titled(given: Map<Seq<char>, Seq<char>>, title: Seq<u8>)
    ensures
        titled(given, title).contains_key("title"@),
        given.submap_of(titled(given, title)),
        titled(given, title).dom() == given.dom().insert("title"@),
{
    if given.contains_key("title"@) {
        assert(given.dom().insert("title"@) =~= given.dom());
    }
}

} // verus!
