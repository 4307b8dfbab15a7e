//! Rendering a value tree as indented text.

use vstd::prelude::*;
use vstd::string::StringExecFns;
use crate::value::{Json, JsonValue};

verus! {

/// The parts of a container's body, one per line: each part stands on a line
/// of its own behind the indentation `inner`, and a comma and a space end
/// every line but the last. Without parts the body is empty.
pub open spec fn joined(parts: Seq<Seq<char>>, inner: Seq<char>) -> Seq<char>
    decreases parts.len(),
{
    if parts.len() == 0 {
        Seq::empty()
    } else {
        joined(parts.drop_last(), inner) + (if parts.len() > 1 {
            ", "@
        } else {
            Seq::empty()
        }) + "\n"@ + inner + parts.last()
    }
}

/// The texts of the parts of a container, rendered at the indentation
/// `inner`: for an array the text of each item; for an object, for each
/// entry, the key in quotes, a colon, a space, and the text of the value.
pub open spec fn part_texts(j: Json, inner: Seq<char>, unit: Seq<char>) -> Seq<Seq<char>>
    decreases j, 0int,
{
    match j {
        Json::Object(entries) => Seq::new(
            entries.len(),
            |i: int|
                if 0 <= i < entries.len() {
                    "\""@ + entries[i].0 + "\": "@ + spec_render(entries[i].1, inner, unit)
                } else {
                    Seq::empty()
                },
        ),
        Json::Array(items) => Seq::new(
            items.len(),
            |i: int|
                if 0 <= i < items.len() {
                    spec_render(items[i], inner, unit)
                } else {
                    Seq::empty()
                },
        ),
        _ => Seq::empty(),
    }
}

/// The text of a value that stands at the indentation `indent`, where each
/// level of nesting adds `unit`. A diagnostic is rendered in parentheses,
/// which no grammar rule reads back.
pub open spec fn spec_render(j: Json, indent: Seq<char>, unit: Seq<char>) -> Seq<char>
    decreases j, 1int,
{
    match j {
        Json::Object(_) => "{"@ + joined(part_texts(j, indent + unit, unit), indent + unit) + "\n"@
            + indent + "}"@,
        Json::Array(_) => "["@ + joined(part_texts(j, indent + unit, unit), indent + unit) + "\n"@
            + indent + "]"@,
        Json::Number(n) => n.text(),
        Json::String(s) => "\""@ + s + "\""@,
        Json::Bool(b) => if b {
            "true"@
        } else {
            "false"@
        },
        Json::Null => "null"@,
        Json::Invalid(text) => "(INVALID VALUE '"@ + text + "')"@,
    }
}

/// The text of a value at the top level, with two spaces for each level of
/// nesting.
pub open spec fn spec_to_string(j: Json) -> Seq<char> {
    spec_render(j, ""@, "  "@)
}

/// One more part behind the first `n` parts of a body.
proof fn lemma_joined_step(parts: Seq<Seq<char>>, n: int, inner: Seq<char>)
    requires
        0 <= n < parts.len(),
    ensures
        joined(parts.take(n + 1), inner) == joined(parts.take(n), inner) + (if n > 0 {
            ", "@
        } else {
            Seq::empty()
        }) + "\n"@ + inner + parts[n],
{
    assert(parts.take(n + 1).drop_last() =~= parts.take(n));
}

impl JsonValue {
    /// Renders the value with two spaces for each level of nesting.
    pub fn to_string(&self) -> (out: String)
        ensures
            out@ == spec_to_string(self@),
    {
        self.to_string_with_indent("", "  ")
    }

    /// Renders the value as it stands at the indentation `indent`, where
    /// each level of nesting adds `next_indent`.
    pub fn to_string_with_indent(&self, indent: &str, next_indent: &str) -> (out: String)
        ensures
            out@ == spec_render(self@, indent@, next_indent@),
        decreases self,
    {
        match self {
            JsonValue::Object(object) => {
                let mut inner = String::from_str(indent);
                inner.append(next_indent);
                let mut out = String::from_str("{");
                let ghost parts = part_texts(self@, inner@, next_indent@);
                proof {
                    assert(self@->Object_0 =~= object@);
                    assert(parts.take(0) =~= Seq::<Seq<char>>::empty());
                    assert(out@ =~= "{"@ + joined(parts.take(0), inner@));
                }
                let mut i: usize = 0;
                while i < object.entries.len()
                    invariant
                        i <= object.entries@.len(),
                        self == JsonValue::Object(*object),
                        inner@ == indent@ + next_indent@,
                        parts == part_texts(self@, inner@, next_indent@),
                        self@ is Object,
                        self@->Object_0 == object@,
                        parts.len() == object.entries@.len(),
                        out@ == "{"@ + joined(parts.take(i as int), inner@),
                    decreases object.entries@.len() - i,
                {
                    let entry = &object.entries[i];
                    proof {
                        assert(decreases_to!(self => object));
                        assert(decreases_to!(object => object.entries));
                        assert(decreases_to!(object.entries => object.entries[i as int]));
                        assert(decreases_to!(object.entries[i as int] => object.entries[i as int].1));
                    }
                    let value_text = entry.1.to_string_with_indent(inner.as_str(), next_indent);
                    proof {
                        lemma_joined_step(parts, i as int, inner@);
                    }
                    let ghost before = out@;
                    if i > 0 {
                        out.append(", ");
                    }
                    out.append("\n");
                    out.append(inner.as_str());
                    out.append("\"");
                    out.append(entry.0.as_str());
                    out.append("\": ");
                    out.append(value_text.as_str());
                    proof {
                        assert(parts[i as int] == "\""@ + entry.0@ + "\": "@ + value_text@);
                        assert(out@ =~= before + (if i > 0 {
                            ", "@
                        } else {
                            Seq::empty()
                        }) + "\n"@ + inner@ + parts[i as int]);
                    }
                    i += 1;
                }
                proof {
                    assert(parts.take(i as int) =~= parts);
                }
                out.append("\n");
                out.append(indent);
                out.append("}");
                out
            },
            JsonValue::Array(items) => {
                let mut inner = String::from_str(indent);
                inner.append(next_indent);
                let mut out = String::from_str("[");
                let ghost parts = part_texts(self@, inner@, next_indent@);
                proof {
                    assert(parts.len() == items@.len());
                    assert(parts.take(0) =~= Seq::<Seq<char>>::empty());
                    assert(out@ =~= "["@ + joined(parts.take(0), inner@));
                }
                let mut i: usize = 0;
                while i < items.len()
                    invariant
                        i <= items@.len(),
                        self == JsonValue::Array(*items),
                        inner@ == indent@ + next_indent@,
                        parts == part_texts(self@, inner@, next_indent@),
                        parts.len() == items@.len(),
                        out@ == "["@ + joined(parts.take(i as int), inner@),
                    decreases items@.len() - i,
                {
                    let item_text = items[i].to_string_with_indent(inner.as_str(), next_indent);
                    proof {
                        lemma_joined_step(parts, i as int, inner@);
                    }
                    let ghost before = out@;
                    if i > 0 {
                        out.append(", ");
                    }
                    out.append("\n");
                    out.append(inner.as_str());
                    out.append(item_text.as_str());
                    proof {
                        assert(parts[i as int] == item_text@);
                        assert(out@ =~= before + (if i > 0 {
                            ", "@
                        } else {
                            Seq::empty()
                        }) + "\n"@ + inner@ + parts[i as int]);
                    }
                    i += 1;
                }
                proof {
                    assert(parts.take(i as int) =~= parts);
                }
                out.append("\n");
                out.append(indent);
                out.append("]");
                out
            },
            JsonValue::Number(n) => n.to_string(),
            JsonValue::String(s) => {
                let mut out = String::from_str("\"");
                out.append(s.as_str());
                out.append("\"");
                out
            },
            JsonValue::Bool(b) => if *b {
                String::from_str("true")
            } else {
                String::from_str("false")
            },
            JsonValue::Null => String::from_str("null"),
            JsonValue::Invalid(text) => {
                let mut out = String::from_str("(INVALID VALUE '");
                out.append(text.as_str());
                out.append("')");
                out
            },
        }
    }
}

} // verus!
