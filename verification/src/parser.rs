//! The recursive-descent parser: values, arrays and objects. Nothing is
//! rejected: what cannot be read is recorded as an `Invalid` value at the
//! place where it was found.

use vstd::prelude::*;
use vstd::string::StringExecFns;
use crate::serialize::spec_to_string;
use crate::text::chars_of;
use crate::token::{next_token, spec_next_token, JsonToken, Token};
use crate::value::{
    keys_unique, lemma_array_view, lemma_insert_keeps_keys_unique, lemma_key_index_is_first,
    lemma_object_view, spec_insert, Json, JsonObject, JsonValue,
};

verus! {

/// How many characters stand from `pos` on.
pub open spec fn remaining(s: Seq<char>, pos: int) -> nat {
    if pos < s.len() {
        (s.len() - pos) as nat
    } else {
        0
    }
}

/// The value that a token stands for where a value is expected and the token
/// opens no container: numbers and strings stand for themselves, the words
/// `true`, `false` and `null` for their values, and everything else is a
/// diagnostic that names the token.
pub open spec fn scalar_of(token: Token) -> Json {
    match token {
        Token::Number(n) => Json::Number(n),
        Token::String(text) => Json::String(text),
        Token::Identifier(word) => if word == "true"@ {
            Json::Bool(true)
        } else if word == "false"@ {
            Json::Bool(false)
        } else if word == "null"@ {
            Json::Null
        } else {
            Json::Invalid(word)
        },
        Token::Invalid(c) => Json::Invalid(seq![c]),
        _ => Json::Invalid(token.text()),
    }
}

/// The value that stands at `pos`, and the position behind it.
pub open spec fn spec_parse_value(s: Seq<char>, pos: int) -> (Json, int)
    decreases remaining(s, pos), 1int,
{
    let token = spec_next_token(s, pos);
    match token.0 {
        Token::ArrayOpen => (Json::Array(spec_parse_array(s, pos).0), spec_parse_array(s, pos).1),
        Token::ObjectOpen => (
            Json::Object(spec_parse_object(s, pos).0),
            spec_parse_object(s, pos).1,
        ),
        _ => (scalar_of(token.0), token.1),
    }
}

/// The items of the array that opens at `pos`, and the position behind it.
/// Where no `[` stands at `pos`, the only item is a diagnostic.
pub open spec fn spec_parse_array(s: Seq<char>, pos: int) -> (Seq<Json>, int)
    decreases remaining(s, pos), 0int,
{
    let token = spec_next_token(s, pos);
    if token.0 is ArrayOpen {
        spec_array_items(s, token.1, Seq::empty())
    } else {
        (seq![Json::Invalid("bad array start character"@)], token.1)
    }
}

/// The items of an array of which `items` have been read and whose next
/// token stands at `pos`.
///
/// A `]` ends the array and the end of the input ends it with a diagnostic.
/// A comma behind an item is taken. Any other token behind an item is
/// recorded as a diagnostic and then read as a value all the same. Each
/// round takes at least one character, so the test `pos < value.1` never
/// fails (`lemma_array_round_advances`): it is there for the measure.
pub open spec fn spec_array_items(s: Seq<char>, pos: int, items: Seq<Json>) -> (Seq<Json>, int)
    decreases remaining(s, pos), 2int,
{
    let token = spec_next_token(s, pos);
    if token.0 is ArrayClose {
        (items, token.1)
    } else if token.0 is End {
        (items.push(Json::Invalid(token.0.text())), token.1)
    } else {
        let comma = token.0 is Comma && items.len() > 0;
        let start = if comma { token.1 } else { pos };
        let marked = if !comma && items.len() > 0 {
            items.push(Json::Invalid(token.0.text()))
        } else {
            items
        };
        let value = spec_parse_value(s, start);
        if pos < value.1 {
            spec_array_items(s, value.1, marked.push(value.0))
        } else {
            (marked.push(value.0), value.1)
        }
    }
}

/// The entries of the object that opens at `pos`, and the position behind
/// it. Where no `{` stands at `pos`, the only entry is a diagnostic.
pub open spec fn spec_parse_object(s: Seq<char>, pos: int) -> (Seq<(Seq<char>, Json)>, int)
    decreases remaining(s, pos), 0int,
{
    let token = spec_next_token(s, pos);
    if token.0 is ObjectOpen {
        spec_object_entries(s, token.1, Seq::empty())
    } else {
        (seq![("INVALID MAP"@, Json::Invalid("bad map start character"@))], token.1)
    }
}

/// The entries after a key and a value have been read: a string key gets
/// the value; any other key is recorded under `INVALID` as a diagnostic that
/// holds its text.
pub open spec fn with_entry(entries: Seq<(Seq<char>, Json)>, key: Json, value: Json) -> Seq<
    (Seq<char>, Json),
> {
    match key {
        Json::String(name) => spec_insert(entries, name, value),
        _ => spec_insert(entries, "INVALID"@, Json::Invalid(spec_to_string(key))),
    }
}

/// The entries of an object of which `entries` have been read and whose
/// next token stands at `pos`.
///
/// A `}` ends the object and the end of the input ends it with a diagnostic
/// entry. A comma behind an entry is taken; any other token behind an entry
/// is recorded as a diagnostic entry under its own text. Then a key, a colon
/// and a value are read. Where no colon follows the key, a diagnostic is
/// recorded under `INVALID` and reading goes on behind the token that stood
/// in its place. Each round takes at least one character, so the two tests
/// on `pos` never fail (`lemma_object_round_advances`): they are there for
/// the measure.
pub open spec fn spec_object_entries(
    s: Seq<char>,
    pos: int,
    entries: Seq<(Seq<char>, Json)>,
) -> (Seq<(Seq<char>, Json)>, int)
    decreases remaining(s, pos), 2int,
{
    let token = spec_next_token(s, pos);
    if token.0 is ObjectClose {
        (entries, token.1)
    } else if token.0 is End {
        (spec_insert(entries, token.0.text(), Json::Invalid(token.0.text())), token.1)
    } else {
        let comma = token.0 is Comma && entries.len() > 0;
        let start = if comma { token.1 } else { pos };
        let marked = if !comma && entries.len() > 0 {
            spec_insert(entries, token.0.text(), Json::Invalid(token.0.text()))
        } else {
            entries
        };
        let key = spec_parse_value(s, start);
        let colon = spec_next_token(s, key.1);
        if !(pos < colon.1) {
            (marked, colon.1)
        } else if !(colon.0 is Colon) {
            spec_object_entries(
                s,
                colon.1,
                spec_insert(marked, "INVALID"@, Json::Invalid(colon.0.text())),
            )
        } else {
            let value = spec_parse_value(s, colon.1);
            if pos < value.1 {
                spec_object_entries(s, value.1, with_entry(marked, key.0, value.0))
            } else {
                (with_entry(marked, key.0, value.0), value.1)
            }
        }
    }
}

/// The value that a whole text stands for: the first value in it.
pub open spec fn spec_parse(s: Seq<char>) -> Json {
    spec_parse_value(s, 0).0
}

/// The views of the values of a vector, in order.
pub open spec fn values_view(items: Seq<JsonValue>) -> Seq<Json> {
    Seq::new(items.len(), |i: int| items[i]@)
}

/// Every value in `items` is well formed.
pub open spec fn all_wf(items: Seq<Json>) -> bool {
    forall|i: int| 0 <= i < items.len() ==> (#[trigger] items[i]).wf()
}

/// Keys are unique among `entries`, and every value in them is well formed.
pub open spec fn entries_wf(entries: Seq<(Seq<char>, Json)>) -> bool {
    &&& keys_unique(entries)
    &&& forall|i: int| 0 <= i < entries.len() ==> (#[trigger] entries[i]).1.wf()
}

/// Inserting a well-formed value keeps the entries well formed.
pub proof fn lemma_insert_keeps_wf(entries: Seq<(Seq<char>, Json)>, key: Seq<char>, value: Json)
    requires
        entries_wf(entries),
        value.wf(),
    ensures
        entries_wf(spec_insert(entries, key, value)),
{
    lemma_insert_keeps_keys_unique(entries, key, value);
    lemma_key_index_is_first(entries, key);
    let after = spec_insert(entries, key, value);
    assert forall|i: int| 0 <= i < after.len() implies (#[trigger] after[i]).1.wf() by {
        if i < entries.len() && i != crate::value::key_index(entries, key) {
            assert(after[i] == entries[i]);
        }
    }
}

/// The value that a token stands for where it opens no container.
pub fn scalar_value(token: JsonToken) -> (value: JsonValue)
    ensures
        value@ == scalar_of(token@),
        token@.wf() ==> value@.wf(),
{
    match token {
        JsonToken::Number(n) => JsonValue::Number(n),
        JsonToken::String(text) => JsonValue::String(text),
        JsonToken::Identifier(word) => {
            if word == String::from_str("true") {
                JsonValue::Bool(true)
            } else if word == String::from_str("false") {
                JsonValue::Bool(false)
            } else if word == String::from_str("null") {
                JsonValue::Null
            } else {
                JsonValue::Invalid(word)
            }
        },
        JsonToken::Invalid(c) => {
            let mut text = String::new();
            text.push(c);
            JsonValue::Invalid(text)
        },
        other => JsonValue::Invalid(other.to_string()),
    }
}

/// Reads the value at `pos` and returns it with the position behind it.
/// Where the input ends at `pos`, the value is a diagnostic and the position
/// stays; every other value takes at least one character.
///
/// Containers are read by recursion, one level of the call stack for each
/// level of nesting, and no depth is refused: a text nested deeper than the
/// stack allows ends the process instead of giving a wrong value.
pub fn parse_json_value(s: &[char], pos: usize) -> (r: (JsonValue, usize))
    ensures
        (r.0@, r.1 as int) == spec_parse_value(s@, pos as int),
        r.0@.wf(),
        pos <= r.1,
        pos <= s@.len() ==> r.1 <= s@.len(),
        !(spec_next_token(s@, pos as int).0 is End) ==> pos < r.1 <= s@.len(),
    decreases remaining(s@, pos as int), 1int,
{
    let (token, next) = next_token(s, pos);
    match token {
        JsonToken::ArrayOpen => {
            let (items, end) = parse_json_array(s, pos);
            proof {
                lemma_array_view(items);
                assert(items@.map_values(|item: JsonValue| item@) =~= values_view(items@));
            }
            (JsonValue::Array(items), end)
        },
        JsonToken::ObjectOpen => {
            let (object, end) = parse_json_object(s, pos);
            proof {
                lemma_object_view(object);
            }
            (JsonValue::Object(object), end)
        },
        other => (scalar_value(other), next),
    }
}

/// Reads the array that opens at `pos` and returns its items with the
/// position behind it. Where no `[` stands at `pos`, the only item is a
/// diagnostic and nothing more is read.
pub fn parse_json_array(s: &[char], pos: usize) -> (r: (Vec<JsonValue>, usize))
    ensures
        (values_view(r.0@), r.1 as int) == spec_parse_array(s@, pos as int),
        all_wf(values_view(r.0@)),
        pos <= r.1,
        pos <= s@.len() ==> r.1 <= s@.len(),
        !(spec_next_token(s@, pos as int).0 is End) ==> pos < r.1 <= s@.len(),
    decreases remaining(s@, pos as int), 0int,
{
    let (start_token, after_open) = next_token(s, pos);
    let mut data: Vec<JsonValue> = Vec::new();
    match start_token {
        JsonToken::ArrayOpen => {},
        _ => {
            data.push(JsonValue::Invalid(String::from_str("bad array start character")));
            proof {
                assert(values_view(data@) =~= seq![Json::Invalid("bad array start character"@)]);
            }
            return (data, after_open);
        },
    }
    let mut iter: usize = after_open;
    proof {
        assert(values_view(data@) =~= Seq::<Json>::empty());
    }
    loop
        invariant
            pos < iter <= s@.len(),
            spec_parse_array(s@, pos as int) == spec_array_items(
                s@,
                iter as int,
                values_view(data@),
            ),
            all_wf(values_view(data@)),
        decreases s@.len() - iter,
    {
        let (token, next) = next_token(s, iter);
        let ghost items = values_view(data@);
        match token {
            JsonToken::ArrayClose => {
                return (data, next);
            },
            JsonToken::End => {
                data.push(JsonValue::Invalid(token.to_string()));
                proof {
                    assert(values_view(data@) =~= items.push(Json::Invalid(token@.text())));
                }
                return (data, next);
            },
            _ => {},
        }
        let comma = data.len() > 0 && match token {
            JsonToken::Comma => true,
            _ => false,
        };
        let start = if comma {
            next
        } else {
            iter
        };
        if !comma && data.len() > 0 {
            data.push(JsonValue::Invalid(token.to_string()));
        }
        let ghost marked = values_view(data@);
        proof {
            if !comma && items.len() > 0 {
                assert(marked =~= items.push(Json::Invalid(token@.text())));
            } else {
                assert(marked =~= items);
            }
        }
        let (value, after) = parse_json_value(s, start);
        data.push(value);
        proof {
            assert(values_view(data@) =~= marked.push(value@));
        }
        iter = after;
    }
}

/// Reads the object that opens at `pos` and returns it with the position
/// behind it. Where no `{` stands at `pos`, the only entry is a diagnostic
/// and nothing more is read.
pub fn parse_json_object(s: &[char], pos: usize) -> (r: (JsonObject, usize))
    ensures
        (r.0@, r.1 as int) == spec_parse_object(s@, pos as int),
        entries_wf(r.0@),
        pos <= r.1,
        pos <= s@.len() ==> r.1 <= s@.len(),
        !(spec_next_token(s@, pos as int).0 is End) ==> pos < r.1 <= s@.len(),
    decreases remaining(s@, pos as int), 0int,
{
    let (start_token, after_open) = next_token(s, pos);
    let mut data = JsonObject::new();
    match start_token {
        JsonToken::ObjectOpen => {},
        _ => {
            data.insert(
                String::from_str("INVALID MAP"),
                JsonValue::Invalid(String::from_str("bad map start character")),
            );
            proof {
                lemma_insert_keeps_wf(
                    Seq::empty(),
                    "INVALID MAP"@,
                    Json::Invalid("bad map start character"@),
                );
                assert(data@ =~= seq![
                    ("INVALID MAP"@, Json::Invalid("bad map start character"@)),
                ]);
            }
            return (data, after_open);
        },
    }
    let mut iter: usize = after_open;
    loop
        invariant
            pos < iter <= s@.len(),
            spec_parse_object(s@, pos as int) == spec_object_entries(s@, iter as int, data@),
            entries_wf(data@),
        decreases s@.len() - iter,
    {
        let (token, next) = next_token(s, iter);
        let ghost entries = data@;
        match token {
            JsonToken::ObjectClose => {
                return (data, next);
            },
            JsonToken::End => {
                data.insert(token.to_string(), JsonValue::Invalid(token.to_string()));
                proof {
                    lemma_insert_keeps_wf(entries, token@.text(), Json::Invalid(token@.text()));
                }
                return (data, next);
            },
            _ => {},
        }
        let comma = !data.is_empty() && match token {
            JsonToken::Comma => true,
            _ => false,
        };
        let start = if comma {
            next
        } else {
            iter
        };
        if !comma && !data.is_empty() {
            data.insert(token.to_string(), JsonValue::Invalid(token.to_string()));
            proof {
                lemma_insert_keeps_wf(entries, token@.text(), Json::Invalid(token@.text()));
            }
        }
        let ghost marked = data@;
        let (key, key_end) = parse_json_value(s, start);
        let (colon, after_colon) = next_token(s, key_end);
        match colon {
            JsonToken::Colon => {},
            _ => {
                data.insert(String::from_str("INVALID"), JsonValue::Invalid(colon.to_string()));
                proof {
                    lemma_insert_keeps_wf(marked, "INVALID"@, Json::Invalid(colon@.text()));
                }
                iter = after_colon;
                continue ;
            },
        }
        let (value, after) = parse_json_value(s, after_colon);
        match key {
            JsonValue::String(name) => {
                proof {
                    lemma_insert_keeps_wf(marked, name@, value@);
                }
                data.insert(name, value);
            },
            other => {
                let text = other.to_string();
                proof {
                    lemma_insert_keeps_wf(marked, "INVALID"@, Json::Invalid(text@));
                }
                data.insert(String::from_str("INVALID"), JsonValue::Invalid(text));
            },
        }
        iter = after;
    }
}

/// Reads the characters of a text as one value: the first value in it.
/// What follows that value is not looked at.
pub fn parse_chars(s: &[char]) -> (value: JsonValue)
    ensures
        value@ == spec_parse(s@),
        value@.wf(),
{
    parse_json_value(s, 0).0
}

/// Reads a text as one value. An empty text gives a diagnostic that names
/// the end of the input.
pub fn parse_json(json: &str) -> (value: JsonValue)
    ensures
        value@ == spec_parse(json@),
        value@.wf(),
{
    let chars = chars_of(json);
    parse_json_value(chars.as_slice(), 0).0
}

} // verus!
