//! What holds between reading and writing.

use vstd::prelude::*;
use crate::number::{spec_parse_number, Decimal};
use crate::parser::{
    all_wf, entries_wf, lemma_insert_keeps_wf, remaining, spec_array_items, spec_object_entries,
    spec_parse, spec_parse_value, with_entry,
};
use crate::scan::{at, is_digit, lemma_run_holds, lemma_run_is_maximal, run, run_end, CharClass};
use crate::serialize::spec_to_string;
use crate::token::{spec_next_token, string_body, Token};
use crate::value::{spec_insert, Json};

verus! {

/// A piece of the input whose characters are all of a class, and behind
/// which the input ends or a character of another class stands, is the run
/// of that class at its start.
pub proof fn lemma_run_matches(s: Seq<char>, pos: int, piece: Seq<char>, class: CharClass)
    requires
        0 <= pos,
        pos + piece.len() <= s.len(),
        forall|i: int| 0 <= i < piece.len() ==> s[pos + i] == #[trigger] piece[i],
        forall|i: int| 0 <= i < piece.len() ==> class.holds(#[trigger] piece[i]),
        pos + piece.len() == s.len() || !class.holds(s[pos + piece.len()]),
    ensures
        run(s, pos, class) == piece,
    decreases piece.len(),
{
    if piece.len() == 0 {
        assert(run(s, pos, class) =~= piece);
    } else {
        let rest = piece.drop_first();
        assert forall|i: int| 0 <= i < rest.len() implies s[pos + 1 + i] == #[trigger] rest[i] by {
            assert(rest[i] == piece[i + 1]);
        }
        assert forall|i: int| 0 <= i < rest.len() implies class.holds(#[trigger] rest[i]) by {
            assert(rest[i] == piece[i + 1]);
        }
        lemma_run_matches(s, pos + 1, rest, class);
        assert(s[pos] == piece[0]);
        assert(run(s, pos, class) =~= piece);
    }
}

/// The number grammar reads digits only.
pub proof fn lemma_parsed_number_is_wf(s: Seq<char>, pos: int)
    ensures
        spec_parse_number(s, pos).0.wf(),
{
    let negative = at(s, pos) == Some('-');
    let int_start = if negative { pos + 1 } else { pos };
    lemma_run_holds(s, int_start, CharClass::Digit);
    let int_end = run_end(s, int_start, CharClass::Digit);
    lemma_run_holds(s, int_end + 1, CharClass::Digit);
    let number = spec_parse_number(s, pos);
    let exp_start = number.1 - number.0.exponent.len();
    lemma_run_holds(s, exp_start, CharClass::Digit);
}

/// Reading the text of a number gives the number back, and takes the whole
/// text.
pub proof fn lemma_number_text_round_trip(d: Decimal)
    requires
        d.wf(),
    ensures
        spec_parse_number(d.text(), 0) == (d, d.text().len() as int),
{
    let t = d.text();
    let sign = d.sign_text();
    let frac = d.fraction_text();
    let exp = d.exponent_text();
    let a = sign.len() as int;
    let b = a + d.integer.len();
    let c = b + frac.len();
    assert(t.len() == c + exp.len());
    assert forall|i: int| 0 <= i < a implies t[i] == sign[i] by {}
    assert forall|i: int| 0 <= i < d.integer.len() implies t[a + i] == #[trigger] d.integer[i] by {}
    assert forall|i: int| 0 <= i < frac.len() implies t[b + i] == #[trigger] frac[i] by {}
    assert forall|i: int| 0 <= i < exp.len() implies t[c + i] == #[trigger] exp[i] by {}
    // What stands behind each part is no digit.
    assert(b == t.len() || !is_digit(t[b])) by {
        if b < t.len() {
            if frac.len() > 0 {
                assert(t[b] == frac[0]);
            } else {
                assert(t[c + 0] == exp[0]);
            }
        }
    }
    assert(c == t.len() || !is_digit(t[c])) by {
        if c < t.len() {
            assert(t[c + 0] == exp[0]);
        }
    }
    // The sign.
    assert((at(t, 0) == Some('-')) == d.negative) by {
        if d.negative {
            assert(t[0] == sign[0]);
        } else if t.len() > 0 {
            if d.integer.len() > 0 {
                assert(t[a + 0] == d.integer[0]);
                assert(is_digit(d.integer[0]));
            } else if frac.len() > 0 {
                assert(t[b + 0] == frac[0]);
            } else {
                assert(t[c + 0] == exp[0]);
            }
        }
    }
    // The digits before the point.
    lemma_run_matches(t, a, d.integer, CharClass::Digit);
    // The point and the digits behind it.
    if d.fraction.len() > 0 {
        assert(t[b + 0] == frac[0]);
        assert forall|i: int| 0 <= i < d.fraction.len() implies t[b + 1 + i]
            == #[trigger] d.fraction[i] by {
            assert(t[b + (i + 1)] == frac[i + 1]);
        }
        lemma_run_matches(t, b + 1, d.fraction, CharClass::Digit);
    } else {
        assert(at(t, b) != Some('.')) by {
            if b < t.len() {
                assert(t[c + 0] == exp[0]);
            }
        }
        assert(d.fraction =~= Seq::<char>::empty());
    }
    // The exponent.
    if d.exponent_negative {
        assert(t[c + 0] == exp[0]);
        assert(t[c + 1] == exp[1]);
        assert forall|i: int| 0 <= i < d.exponent.len() implies t[c + 2 + i]
            == #[trigger] d.exponent[i] by {
            assert(t[c + (i + 2)] == exp[i + 2]);
        }
        lemma_run_matches(t, c + 2, d.exponent, CharClass::Digit);
    } else if d.exponent.len() > 0 {
        assert(t[c + 0] == exp[0]);
        assert(t[c + 1] == exp[1]);
        assert(exp[1] == d.exponent[0]);
        assert(is_digit(d.exponent[0]));
        assert forall|i: int| 0 <= i < d.exponent.len() implies t[c + 1 + i]
            == #[trigger] d.exponent[i] by {
            assert(t[c + (i + 1)] == exp[i + 1]);
        }
        lemma_run_matches(t, c + 1, d.exponent, CharClass::Digit);
    } else {
        assert(c == t.len());
        assert(d.exponent =~= Seq::<char>::empty());
    }
    let parsed = spec_parse_number(t, 0);
    assert(parsed.0.integer == d.integer);
    assert(parsed.0.fraction == d.fraction);
    assert(parsed.0.exponent == d.exponent);
    assert(parsed.0.exponent_negative == d.exponent_negative);
}

/// A text that reads as a number, once written out and read again, gives
/// the same number.
pub proof fn lemma_number_survives_writing(s: Seq<char>)
    requires
        spec_parse(s) is Number,
    ensures
        spec_parse(spec_to_string(spec_parse(s))) == spec_parse(s),
{
    let token = spec_next_token(s, 0);
    let p = run_end(s, 0, CharClass::Whitespace);
    assert(token.0 is Number);
    let d = token.0->Number_0;
    assert(spec_parse(s) == Json::Number(d));
    lemma_parsed_number_is_wf(s, p);
    let t = d.text();
    assert(spec_to_string(spec_parse(s)) == t);
    lemma_number_text_round_trip(d);
    // The text begins with the sign or with a digit, so it is read as a number.
    assert(d.negative || d.integer.len() > 0);
    assert(t.len() > 0 && (t[0] == '-' || is_digit(t[0]))) by {
        if d.negative {
            assert(t[0] == d.sign_text()[0]);
        } else {
            assert(t[0] == d.integer[0]);
        }
    }
    assert(run(t, 0, CharClass::Whitespace) =~= Seq::<char>::empty());
    assert(spec_next_token(t, 0).0 == Token::Number(d));
}

/// A number ends inside the input, at or behind the place where it began.
pub proof fn lemma_number_advances(s: Seq<char>, pos: int)
    requires
        0 <= pos <= s.len(),
    ensures
        pos <= spec_parse_number(s, pos).1 <= s.len(),
{
    let negative = at(s, pos) == Some('-');
    let int_start = if negative { pos + 1 } else { pos };
    lemma_run_is_maximal(s, int_start, CharClass::Digit);
    let int_end = run_end(s, int_start, CharClass::Digit);
    let has_point = at(s, int_end) == Some('.');
    if has_point {
        lemma_run_is_maximal(s, int_end + 1, CharClass::Digit);
    }
    let frac_end = if has_point { run_end(s, int_end + 1, CharClass::Digit) } else { int_end };
    if at(s, frac_end) == Some('e') || at(s, frac_end) == Some('E') {
        let sign = at(s, frac_end + 1);
        let exp_start = if sign == Some('-') || sign == Some('+') {
            frac_end + 2
        } else {
            frac_end + 1
        };
        lemma_run_is_maximal(s, exp_start, CharClass::Digit);
    }
}

/// The rest of a string literal ends inside the input, at or behind the
/// place from which it is read.
pub proof fn lemma_string_body_advances(s: Seq<char>, pos: int)
    requires
        0 <= pos <= s.len(),
    ensures
        pos <= string_body(s, pos).1 <= s.len(),
    decreases s.len() - pos,
{
    if pos < s.len() && s[pos] != '"' {
        if s[pos] == '\\' {
            if pos + 1 < s.len() {
                lemma_string_body_advances(s, pos + 2);
            }
        } else {
            lemma_string_body_advances(s, pos + 1);
        }
    }
}

/// A token ends at or behind the place where it was looked for, and inside
/// the input where that place was. Every token but `End` takes at least one
/// character.
pub proof fn lemma_token_advances(s: Seq<char>, pos: int)
    ensures
        pos <= spec_next_token(s, pos).1,
        pos <= s.len() ==> spec_next_token(s, pos).1 <= s.len(),
        !(spec_next_token(s, pos).0 is End) ==> pos < spec_next_token(s, pos).1 <= s.len(),
        spec_next_token(s, pos).0.wf(),
{
    let p = run_end(s, pos, CharClass::Whitespace);
    if 0 <= pos <= s.len() {
        lemma_run_is_maximal(s, pos, CharClass::Whitespace);
    }
    if 0 <= p < s.len() {
        let c = s[p];
        if is_digit(c) || c == '-' {
            lemma_number_advances(s, p);
            lemma_parsed_number_is_wf(s, p);
            assert(run(s, p, CharClass::Digit).len() > 0 || c == '-');
        } else if c == '"' {
            lemma_string_body_advances(s, p + 1);
        } else {
            lemma_run_is_maximal(s, p, CharClass::Alphabetic);
        }
    }
}

/// A value ends at or behind the place where it was looked for, and inside
/// the input where that place was; unless the input ends there, it takes at
/// least one character. The value is well formed.
pub proof fn lemma_value_advances(s: Seq<char>, pos: int)
    ensures
        pos <= spec_parse_value(s, pos).1,
        pos <= s.len() ==> spec_parse_value(s, pos).1 <= s.len(),
        !(spec_next_token(s, pos).0 is End) ==> pos < spec_parse_value(s, pos).1 <= s.len(),
        spec_parse_value(s, pos).0.wf(),
    decreases remaining(s, pos), 1int,
{
    lemma_token_advances(s, pos);
    let token = spec_next_token(s, pos);
    if token.0 is ArrayOpen {
        lemma_array_items_advance(s, token.1, Seq::empty());
    } else if token.0 is ObjectOpen {
        lemma_object_entries_advance(s, token.1, Seq::empty());
    }
}

/// The rest of an array ends at or behind the place from which it is read,
/// the test on the position in [`spec_array_items`] never fails, and
/// well-formed items stay well formed.
pub proof fn lemma_array_items_advance(s: Seq<char>, pos: int, items: Seq<Json>)
    requires
        all_wf(items),
    ensures
        pos <= spec_array_items(s, pos, items).1,
        pos <= s.len() ==> spec_array_items(s, pos, items).1 <= s.len(),
        all_wf(spec_array_items(s, pos, items).0),
    decreases remaining(s, pos), 2int,
{
    lemma_token_advances(s, pos);
    let token = spec_next_token(s, pos);
    if !(token.0 is ArrayClose) && !(token.0 is End) {
        let comma = token.0 is Comma && items.len() > 0;
        let start = if comma { token.1 } else { pos };
        let marked = if !comma && items.len() > 0 {
            items.push(Json::Invalid(token.0.text()))
        } else {
            items
        };
        lemma_value_advances(s, start);
        let value = spec_parse_value(s, start);
        assert(pos < value.1);
        lemma_array_items_advance(s, value.1, marked.push(value.0));
    }
}

/// The rest of an object ends at or behind the place from which it is read,
/// the tests on the position in [`spec_object_entries`] never fail, and
/// well-formed entries stay well formed.
pub proof fn lemma_object_entries_advance(s: Seq<char>, pos: int, entries: Seq<(Seq<char>, Json)>)
    requires
        entries_wf(entries),
    ensures
        pos <= spec_object_entries(s, pos, entries).1,
        pos <= s.len() ==> spec_object_entries(s, pos, entries).1 <= s.len(),
        entries_wf(spec_object_entries(s, pos, entries).0),
    decreases remaining(s, pos), 2int,
{
    lemma_token_advances(s, pos);
    let token = spec_next_token(s, pos);
    let end_mark = Json::Invalid(token.0.text());
    if token.0 is End {
        lemma_insert_keeps_wf(entries, token.0.text(), end_mark);
    } else if !(token.0 is ObjectClose) {
        let comma = token.0 is Comma && entries.len() > 0;
        let start = if comma { token.1 } else { pos };
        let marked = if !comma && entries.len() > 0 {
            spec_insert(entries, token.0.text(), end_mark)
        } else {
            entries
        };
        lemma_insert_keeps_wf(entries, token.0.text(), end_mark);
        lemma_value_advances(s, start);
        let key = spec_parse_value(s, start);
        lemma_token_advances(s, key.1);
        let colon = spec_next_token(s, key.1);
        assert(pos < colon.1);
        if !(colon.0 is Colon) {
            let next = spec_insert(marked, "INVALID"@, Json::Invalid(colon.0.text()));
            lemma_insert_keeps_wf(marked, "INVALID"@, Json::Invalid(colon.0.text()));
            lemma_object_entries_advance(s, colon.1, next);
        } else {
            lemma_value_advances(s, colon.1);
            let value = spec_parse_value(s, colon.1);
            assert(pos < value.1);
            match key.0 {
                Json::String(name) => {
                    lemma_insert_keeps_wf(marked, name, value.0);
                },
                _ => {
                    lemma_insert_keeps_wf(
                        marked,
                        "INVALID"@,
                        Json::Invalid(spec_to_string(key.0)),
                    );
                },
            }
            lemma_object_entries_advance(s, value.1, with_entry(marked, key.0, value.0));
        }
    }
}

/// Each round of an array takes at least one character: behind a token that
/// does not end the array, the value that is read ends behind the place
/// where the round began.
pub proof fn lemma_array_round_advances(s: Seq<char>, pos: int, items: Seq<Json>)
    requires
        !(spec_next_token(s, pos).0 is ArrayClose),
        !(spec_next_token(s, pos).0 is End),
    ensures
        spec_next_token(s, pos).0 is Comma && items.len() > 0 ==> pos < spec_parse_value(
            s,
            spec_next_token(s, pos).1,
        ).1,
        !(spec_next_token(s, pos).0 is Comma && items.len() > 0) ==> pos < spec_parse_value(
            s,
            pos,
        ).1,
{
    lemma_token_advances(s, pos);
    lemma_value_advances(s, pos);
    lemma_value_advances(s, spec_next_token(s, pos).1);
}

/// Each round of an object takes at least one character: behind a token
/// that does not end the object, the token behind the key, and the value
/// behind a colon, end behind the place where the round began.
pub proof fn lemma_object_round_advances(s: Seq<char>, pos: int, entries: Seq<(Seq<char>, Json)>)
    requires
        !(spec_next_token(s, pos).0 is ObjectClose),
        !(spec_next_token(s, pos).0 is End),
    ensures
        ({
            let token = spec_next_token(s, pos);
            let start = if token.0 is Comma && entries.len() > 0 {
                token.1
            } else {
                pos
            };
            let colon = spec_next_token(s, spec_parse_value(s, start).1);
            &&& pos < colon.1
            &&& pos < spec_parse_value(s, colon.1).1
        }),
{
    lemma_token_advances(s, pos);
    let token = spec_next_token(s, pos);
    let start = if token.0 is Comma && entries.len() > 0 {
        token.1
    } else {
        pos
    };
    lemma_value_advances(s, start);
    let key = spec_parse_value(s, start);
    lemma_token_advances(s, key.1);
    lemma_value_advances(s, spec_next_token(s, key.1).1);
}

/// Every text reads as a well-formed value.
pub proof fn lemma_parse_is_wf(s: Seq<char>)
    ensures
        spec_parse(s).wf(),
{
    lemma_value_advances(s, 0);
}

} // verus!
