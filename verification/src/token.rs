//! The tokenizer: string literals and the tokens of the grammar, read one at
//! a time from a position in the input.

use vstd::prelude::*;
use vstd::string::StringExecFns;
use crate::number::{parse_json_number, spec_parse_number, Decimal, JsonNumber};
use crate::scan::{at, is_digit, run, run_end, skip_whitespace, take_run, CharClass};
use crate::text::unicode_alphabetic;

verus! {

/// The character that an escape stands for: the character behind the
/// backslash decides. An escape that is not known stands for U+FFFD.
pub open spec fn unescape(c: char) -> char {
    if c == '"' || c == '\\' || c == '/' {
        c
    } else if c == 'b' {
        '\u{08}'
    } else if c == 'f' {
        '\u{0C}'
    } else if c == 'n' {
        '\n'
    } else if c == 'r' {
        '\r'
    } else if c == 't' {
        '\t'
    } else {
        '\u{FFFD}'
    }
}

/// The rest of a string literal from `pos` on, which lies behind the opening
/// quote: its text, and the position behind it. The literal ends behind the
/// first quote that no backslash precedes, or where the input ends.
pub open spec fn string_body(s: Seq<char>, pos: int) -> (Seq<char>, int)
    decreases s.len() - pos,
{
    if pos < 0 || pos >= s.len() {
        (Seq::empty(), pos)
    } else if s[pos] == '"' {
        (Seq::empty(), pos + 1)
    } else if s[pos] == '\\' {
        if pos + 1 >= s.len() {
            (Seq::empty(), pos + 1)
        } else {
            let rest = string_body(s, pos + 2);
            (seq![unescape(s[pos + 1])] + rest.0, rest.1)
        }
    } else {
        let rest = string_body(s, pos + 1);
        (seq![s[pos]] + rest.0, rest.1)
    }
}

/// What the string grammar reads at `pos`: where a quote stands there, the
/// text of the literal and the position behind it; else no text, and `pos`.
pub open spec fn spec_parse_string(s: Seq<char>, pos: int) -> (Seq<char>, int) {
    if at(s, pos) == Some('"') {
        string_body(s, pos + 1)
    } else {
        (Seq::empty(), pos)
    }
}

/// The character that the escape `\c` stands for.
pub fn unescape_char(c: char) -> (r: char)
    ensures
        r == unescape(c),
{
    if c == '"' || c == '\\' || c == '/' {
        c
    } else if c == 'b' {
        '\u{08}'
    } else if c == 'f' {
        '\u{0C}'
    } else if c == 'n' {
        '\n'
    } else if c == 'r' {
        '\r'
    } else if c == 't' {
        '\t'
    } else {
        '\u{FFFD}'
    }
}

/// Reads a string literal at `pos`. Without a quote at `pos` the text is
/// empty and the position is `pos`. A literal that the input ends in is
/// taken as far as it goes.
pub fn parse_json_string(s: &[char], pos: usize) -> (r: (String, usize))
    ensures
        (r.0@, r.1 as int) == spec_parse_string(s@, pos as int),
        pos <= r.1,
        pos <= s@.len() ==> r.1 <= s@.len(),
        at(s@, pos as int) == Some('"') ==> pos < r.1,
{
    let mut text = String::new();
    if !(pos < s.len() && s[pos] == '"') {
        return (text, pos);
    }
    let mut i: usize = pos + 1;
    loop
        invariant
            pos < i <= s@.len(),
            at(s@, pos as int) == Some('"'),
            string_body(s@, pos + 1) == (
                text@ + string_body(s@, i as int).0,
                string_body(s@, i as int).1,
            ),
        decreases s@.len() - i,
    {
        if i >= s.len() {
            proof {
                assert(text@ + Seq::<char>::empty() =~= text@);
            }
            return (text, i);
        }
        let c = s[i];
        if c == '"' {
            proof {
                assert(text@ + Seq::<char>::empty() =~= text@);
            }
            return (text, i + 1);
        }
        if c == '\\' {
            if i + 1 >= s.len() {
                proof {
                    assert(text@ + Seq::<char>::empty() =~= text@);
                }
                return (text, i + 1);
            }
            let escaped = unescape_char(s[i + 1]);
            proof {
                let rest = string_body(s@, i + 2);
                assert(text@.push(escaped) + rest.0 =~= text@ + (seq![escaped] + rest.0));
            }
            text.push(escaped);
            i += 2;
        } else {
            proof {
                let rest = string_body(s@, i + 1);
                assert(text@.push(c) + rest.0 =~= text@ + (seq![c] + rest.0));
            }
            text.push(c);
            i += 1;
        }
    }
}

/// The mathematical content of a [`JsonToken`].
pub ghost enum Token {
    ArrayOpen,
    ArrayClose,
    Comma,
    ObjectOpen,
    ObjectClose,
    Colon,
    Number(Decimal),
    String(Seq<char>),
    Identifier(Seq<char>),
    Invalid(char),
    End,
}

impl Token {
    /// The text by which a token is named in a diagnostic.
    pub open spec fn text(self) -> Seq<char> {
        match self {
            Token::ArrayOpen => "["@,
            Token::ArrayClose => "]"@,
            Token::Comma => ","@,
            Token::ObjectOpen => "{"@,
            Token::ObjectClose => "}"@,
            Token::Colon => ":"@,
            Token::Number(n) => n.text(),
            Token::String(s) => "\""@ + s + "\""@,
            Token::Identifier(s) => s,
            Token::Invalid(c) => "<INVALID VALUE '"@.push(c) + "'>"@,
            Token::End => "<END>"@,
        }
    }

    /// A number token holds digits only.
    pub open spec fn wf(self) -> bool {
        match self {
            Token::Number(n) => n.wf(),
            _ => true,
        }
    }
}

/// One lexical unit of the input.
#[derive(Debug, PartialEq, Eq)]
pub enum JsonToken {
    ArrayOpen,
    ArrayClose,
    Comma,
    ObjectOpen,
    ObjectClose,
    Colon,
    Number(JsonNumber),
    String(String),
    Identifier(String),
    /// A character with which no token begins.
    Invalid(char),
    /// The end of the input.
    End,
}

impl View for JsonToken {
    type V = Token;

    open spec fn view(&self) -> Token {
        match self {
            JsonToken::ArrayOpen => Token::ArrayOpen,
            JsonToken::ArrayClose => Token::ArrayClose,
            JsonToken::Comma => Token::Comma,
            JsonToken::ObjectOpen => Token::ObjectOpen,
            JsonToken::ObjectClose => Token::ObjectClose,
            JsonToken::Colon => Token::Colon,
            JsonToken::Number(n) => Token::Number(n@),
            JsonToken::String(s) => Token::String(s@),
            JsonToken::Identifier(s) => Token::Identifier(s@),
            JsonToken::Invalid(c) => Token::Invalid(*c),
            JsonToken::End => Token::End,
        }
    }
}

impl JsonToken {
    /// The text by which the token is named in a diagnostic.
    pub fn to_string(&self) -> (out: String)
        ensures
            out@ == self@.text(),
    {
        match self {
            JsonToken::ArrayOpen => String::from_str("["),
            JsonToken::ArrayClose => String::from_str("]"),
            JsonToken::Comma => String::from_str(","),
            JsonToken::ObjectOpen => String::from_str("{"),
            JsonToken::ObjectClose => String::from_str("}"),
            JsonToken::Colon => String::from_str(":"),
            JsonToken::Number(n) => n.to_string(),
            JsonToken::String(s) => {
                let mut out = String::from_str("\"");
                out.append(s.as_str());
                out.append("\"");
                out
            },
            JsonToken::Identifier(s) => s.clone(),
            JsonToken::Invalid(c) => {
                let mut out = String::from_str("<INVALID VALUE '");
                out.push(*c);
                out.append("'>");
                out
            },
            JsonToken::End => String::from_str("<END>"),
        }
    }
}

/// The token that stands at `pos`, behind any whitespace, and the position
/// behind it. At the end of the input the token is `End`.
pub open spec fn spec_next_token(s: Seq<char>, pos: int) -> (Token, int) {
    let p = run_end(s, pos, CharClass::Whitespace);
    match at(s, p) {
        None => (Token::End, p),
        Some(c) => if c == '{' {
            (Token::ObjectOpen, p + 1)
        } else if c == '}' {
            (Token::ObjectClose, p + 1)
        } else if c == '[' {
            (Token::ArrayOpen, p + 1)
        } else if c == ']' {
            (Token::ArrayClose, p + 1)
        } else if c == ',' {
            (Token::Comma, p + 1)
        } else if c == ':' {
            (Token::Colon, p + 1)
        } else if is_digit(c) || c == '-' {
            (Token::Number(spec_parse_number(s, p).0), spec_parse_number(s, p).1)
        } else if c == '"' {
            (Token::String(spec_parse_string(s, p).0), spec_parse_string(s, p).1)
        } else if unicode_alphabetic(c) {
            (
                Token::Identifier(run(s, p, CharClass::Alphabetic)),
                run_end(s, p, CharClass::Alphabetic),
            )
        } else {
            (Token::Invalid(c), p + 1)
        },
    }
}

/// Reads the token at `pos`: skips whitespace and takes one token. Every
/// token but `End` takes at least one character.
pub fn next_token(s: &[char], pos: usize) -> (r: (JsonToken, usize))
    ensures
        (r.0@, r.1 as int) == spec_next_token(s@, pos as int),
        r.0@.wf(),
        pos <= r.1,
        pos <= s@.len() ==> r.1 <= s@.len(),
        !(r.0@ is End) ==> pos < r.1 <= s@.len(),
{
    let p = skip_whitespace(s, pos);
    if p >= s.len() {
        return (JsonToken::End, p);
    }
    let c = s[p];
    if c == '{' {
        (JsonToken::ObjectOpen, p + 1)
    } else if c == '}' {
        (JsonToken::ObjectClose, p + 1)
    } else if c == '[' {
        (JsonToken::ArrayOpen, p + 1)
    } else if c == ']' {
        (JsonToken::ArrayClose, p + 1)
    } else if c == ',' {
        (JsonToken::Comma, p + 1)
    } else if c == ':' {
        (JsonToken::Colon, p + 1)
    } else if CharClass::Digit.test(c) || c == '-' {
        let (number, end) = parse_json_number(s, p);
        proof {
            assert(run(s@, p as int, CharClass::Digit).len() > 0 || c == '-');
        }
        (JsonToken::Number(number), end)
    } else if c == '"' {
        let (text, end) = parse_json_string(s, p);
        (JsonToken::String(text), end)
    } else if CharClass::Alphabetic.test(c) {
        let (word, end) = take_run(s, p, CharClass::Alphabetic);
        proof {
            assert(run(s@, p as int, CharClass::Alphabetic).len() > 0);
        }
        (JsonToken::Identifier(word), end)
    } else {
        (JsonToken::Invalid(c), p + 1)
    }
}

} // verus!
