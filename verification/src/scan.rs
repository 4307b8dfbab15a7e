//! Scanning runs of characters of one class from a position in the input.

use vstd::prelude::*;
use crate::text::unicode_alphabetic;

verus! {

/// The classes of characters that are consumed in runs.
#[derive(Clone, Copy, Debug)]
pub enum CharClass {
    /// Space, tab and line feed.
    Whitespace,
    /// The ten ASCII digits.
    Digit,
    /// Characters with the Unicode `Alphabetic` property.
    Alphabetic,
}

/// Space, tab or line feed: the only characters skipped between tokens.
pub open spec fn is_whitespace(c: char) -> bool {
    c == ' ' || c == '\t' || c == '\n'
}

/// One of the ASCII digits `0` to `9`.
pub open spec fn is_digit(c: char) -> bool {
    '0' <= c && c <= '9'
}

impl CharClass {
    /// Whether `c` belongs to the class.
    pub open spec fn holds(self, c: char) -> bool {
        match self {
            CharClass::Whitespace => is_whitespace(c),
            CharClass::Digit => is_digit(c),
            CharClass::Alphabetic => unicode_alphabetic(c),
        }
    }

    /// Tests whether `c` belongs to the class.
    pub fn test(self, c: char) -> (b: bool)
        ensures
            b == self.holds(c),
    {
        match self {
            CharClass::Whitespace => c == ' ' || c == '\t' || c == '\n',
            CharClass::Digit => '0' <= c && c <= '9',
            CharClass::Alphabetic => c.is_alphabetic(),
        }
    }
}

/// The character at `pos`, if `pos` lies inside the input.
pub open spec fn at(s: Seq<char>, pos: int) -> Option<char> {
    if 0 <= pos < s.len() {
        Some(s[pos])
    } else {
        None
    }
}

/// The longest run of characters of `class` that starts at `pos`. It is
/// empty when `pos` is outside the input.
pub open spec fn run(s: Seq<char>, pos: int, class: CharClass) -> Seq<char>
    decreases s.len() - pos,
{
    if 0 <= pos < s.len() && class.holds(s[pos]) {
        seq![s[pos]] + run(s, pos + 1, class)
    } else {
        Seq::empty()
    }
}

/// The position just behind the longest run of `class` that starts at `pos`.
pub open spec fn run_end(s: Seq<char>, pos: int, class: CharClass) -> int {
    pos + run(s, pos, class).len()
}

/// The run is a piece of the input, every character of it is of the class,
/// and the character behind it, if there is one, is not.
pub proof fn lemma_run_is_maximal(s: Seq<char>, pos: int, class: CharClass)
    requires
        0 <= pos <= s.len(),
    ensures
        pos <= run_end(s, pos, class) <= s.len(),
        run(s, pos, class) == s.subrange(pos, run_end(s, pos, class)),
        forall|i: int| pos <= i < run_end(s, pos, class) ==> class.holds(#[trigger] s[i]),
        match at(s, run_end(s, pos, class)) {
            Some(c) => !class.holds(c),
            None => true,
        },
    decreases s.len() - pos,
{
    if pos < s.len() && class.holds(s[pos]) {
        lemma_run_is_maximal(s, pos + 1, class);
        let end = run_end(s, pos + 1, class);
        assert(run_end(s, pos, class) == end);
        assert(seq![s[pos]] + s.subrange(pos + 1, end) =~= s.subrange(pos, end));
        assert forall|i: int| pos <= i < end implies class.holds(#[trigger] s[i]) by {
            if i > pos {
            }
        }
    } else {
        assert(run(s, pos, class) =~= s.subrange(pos, pos));
    }
}

/// Every character of a run is of the class.
pub proof fn lemma_run_holds(s: Seq<char>, pos: int, class: CharClass)
    ensures
        forall|i: int|
            0 <= i < run(s, pos, class).len() ==> class.holds(#[trigger] run(s, pos, class)[i]),
    decreases s.len() - pos,
{
    if 0 <= pos < s.len() && class.holds(s[pos]) {
        lemma_run_holds(s, pos + 1, class);
        let rest = run(s, pos + 1, class);
        assert forall|i: int| 0 <= i < run(s, pos, class).len() implies class.holds(
            #[trigger] run(s, pos, class)[i],
        ) by {
            if i > 0 {
                assert(run(s, pos, class)[i] == rest[i - 1]);
            }
        }
    }
}

/// Scanning is idempotent: behind a run no second run of the class starts.
pub proof fn lemma_run_end_idempotent(s: Seq<char>, pos: int, class: CharClass)
    ensures
        run_end(s, run_end(s, pos, class), class) == run_end(s, pos, class),
    decreases s.len() - pos,
{
    if 0 <= pos < s.len() && class.holds(s[pos]) {
        lemma_run_end_idempotent(s, pos + 1, class);
        assert(run_end(s, pos, class) == run_end(s, pos + 1, class));
    }
}

/// Collects the longest run of `class` that starts at `pos`, and returns it
/// with the position behind it.
pub fn take_run(s: &[char], pos: usize, class: CharClass) -> (r: (String, usize))
    ensures
        r.0@ == run(s@, pos as int, class),
        forall|i: int| 0 <= i < r.0@.len() ==> class.holds(#[trigger] r.0@[i]),
        r.1 as int == run_end(s@, pos as int, class),
        pos <= r.1,
        pos <= s@.len() ==> r.1 <= s@.len(),
{
    let mut taken = String::new();
    let mut i: usize = pos;
    while i < s.len() && class.test(s[i])
        invariant
            pos <= i,
            pos <= s@.len() ==> i <= s@.len(),
            taken@.len() == i - pos,
            taken@ + run(s@, i as int, class) == run(s@, pos as int, class),
        decreases s@.len() - i,
    {
        proof {
            let rest = run(s@, i + 1, class);
            assert(taken@.push(s@[i as int]) + rest =~= taken@ + (seq![s@[i as int]] + rest));
        }
        taken.push(s[i]);
        i += 1;
    }
    proof {
        assert(run(s@, i as int, class) =~= Seq::<char>::empty());
        assert(taken@ + Seq::<char>::empty() =~= taken@);
        lemma_run_holds(s@, pos as int, class);
    }
    (taken, i)
}

/// Skips spaces, tabs and line feeds from `pos` on, and returns the position
/// of the first character that is none of them, or the end of the input.
pub fn skip_whitespace(s: &[char], pos: usize) -> (end: usize)
    ensures
        end as int == run_end(s@, pos as int, CharClass::Whitespace),
        pos <= end,
        pos <= s@.len() ==> end <= s@.len(),
        forall|i: int|
            pos <= i < end ==> (#[trigger] at(s@, i) matches Some(c) && is_whitespace(c)),
        match at(s@, end as int) {
            Some(c) => !is_whitespace(c),
            None => true,
        },
{
    let mut i: usize = pos;
    while i < s.len() && CharClass::Whitespace.test(s[i])
        invariant
            pos <= i,
            run_end(s@, i as int, CharClass::Whitespace) == run_end(
                s@,
                pos as int,
                CharClass::Whitespace,
            ),
            pos <= s@.len() ==> i <= s@.len(),
            forall|k: int|
                pos <= k < i ==> (#[trigger] at(s@, k) matches Some(c) && is_whitespace(c)),
        decreases s@.len() - i,
    {
        i += 1;
    }
    i
}

} // verus!
