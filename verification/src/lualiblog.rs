//! Log messages: a format with places for arguments, and the text it gives.

use vstd::prelude::*;
use vstd::string::StrSliceExecFns;
use vstd::string::StringExecFns;

use crate::text::push_char;

verus! {

/// How far a format has been read: the text so far, the number of
/// arguments that went into it, the last character that was read plainly,
/// and whether a backslash stands just before the next character.
pub struct FormatState {
    /// The text so far.
    pub text: Seq<char>,
    /// The number of arguments used so far.
    pub used: nat,
    /// The last character that was read outside an escape.
    pub prev: char,
    /// Whether the next character is escaped.
    pub escaped: bool,
}

/// The state before anything is read.
pub open spec fn format_start() -> FormatState {
    FormatState { text: Seq::empty(), used: 0, prev: '\0', escaped: false }
}

/// The state after one more character.
///
/// - A backslash escapes the character behind it and leaves nothing in the
///   text itself.
/// - An escaped character goes into the text as it is.
/// - A closing brace directly behind an opening one is the place of the
///   next argument.
/// - An opening brace leaves nothing in the text.
/// - Any other character goes into the text.
pub open spec fn format_step(s: FormatState, c: char, args: Seq<String>) -> FormatState {
    if c == '\\' {
        FormatState { escaped: true, ..s }
    } else if s.escaped {
        FormatState { text: s.text.push(c), escaped: false, ..s }
    } else if c == '}' && s.prev == '{' {
        FormatState { text: s.text + args[s.used as int]@, used: s.used + 1, prev: c, ..s }
    } else if c != '{' {
        FormatState { text: s.text.push(c), prev: c, ..s }
    } else {
        FormatState { prev: c, ..s }
    }
}

/// The state after a whole format.
pub open spec fn format_state(format: Seq<char>, args: Seq<String>) -> FormatState
    decreases format.len(),
{
    if format.len() == 0 {
        format_start()
    } else {
        format_step(format_state(format.drop_last(), args), format.last(), args)
    }
}

/// The number of arguments that a format asks for.
pub open spec fn places(format: Seq<char>) -> nat {
    format_state(format, Seq::empty()).used
}

/// The text that a format gives with its arguments.
pub open spec fn formatted(format: Seq<char>, args: Seq<String>) -> Seq<char> {
    format_state(format, args).text
}

/// What is in the arguments changes the text alone: how many of them are
/// used, and where, is decided by the format.
pub proof fn lemma_places(format: Seq<char>, args: Seq<String>)
    ensures
        format_state(format, args).used == places(format),
        format_state(format, args).prev == format_state(format, Seq::empty()).prev,
        format_state(format, args).escaped == format_state(format, Seq::empty()).escaped,
    decreases format.len(),
{
    if format.len() > 0 {
        lemma_places(format.drop_last(), args);
    }
}

/// A longer format asks for no fewer arguments.
pub proof fn lemma_places_grow(format: Seq<char>, n: int)
    requires
        0 <= n <= format.len(),
    ensures
        places(format.take(n)) <= places(format),
    decreases format.len() - n,
{
    if n < format.len() {
        assert(format.take(n + 1).drop_last() =~= format.take(n));
        lemma_places_grow(format, n + 1);
    } else {
        assert(format.take(n) =~= format);
    }
}

/// A format without braces and backslashes is its own text.
pub proof fn lemma_plain_format(format: Seq<char>, args: Seq<String>)
    requires
        forall|i: int|
            0 <= i < format.len() ==> format[i] != '{' && format[i] != '}' && format[i] != '\\',
    ensures
        formatted(format, args) == format,
        places(format) == 0,
    decreases format.len(),
{
    lemma_plain_state(format, args);
    lemma_places(format, args);
}

proof fn lemma_plain_state(format: Seq<char>, args: Seq<String>)
    requires
        forall|i: int|
            0 <= i < format.len() ==> format[i] != '{' && format[i] != '}' && format[i] != '\\',
    ensures
        format_state(format, args).text == format,
        format_state(format, args).used == 0,
        !format_state(format, args).escaped,
        format_state(format, args).prev != '{',
    decreases format.len(),
{
    if format.len() > 0 {
        lemma_plain_state(format.drop_last(), args);
        assert(format.drop_last().push(format.last()) =~= format);
    } else {
        assert(format =~= Seq::<char>::empty());
    }
}

/// The text of a log message: the format with each `{}` replaced by the
/// next argument. A backslash takes the meaning from the character behind
/// it. The format may not ask for more arguments than are given.
pub fn lua_format(format: String, args: Vec<String>) -> (text: String)
    requires
        places(format@) <= args@.len(),
    ensures
        text@ == formatted(format@, args@),
{
    let source = format.as_str();
    let len = source.unicode_len();
    let mut idx: usize = 0;
    let mut prevc: char = '\0';
    let mut ignore: bool = false;
    let mut finalstr = String::from_str("");
    let mut i: usize = 0;
    proof {
        assert(format@.take(0) =~= Seq::<char>::empty());
        reveal_strlit("");
        assert(finalstr@ =~= Seq::<char>::empty());
    }
    while i < len
        invariant
            i <= len,
            len == format@.len(),
            source@ == format@,
            places(format@) <= args@.len(),
            format_state(format@.take(i as int), args@) == (FormatState {
                text: finalstr@,
                used: idx as nat,
                prev: prevc,
                escaped: ignore,
            }),
        decreases len - i,
    {
        let c = source.get_char(i);
        proof {
            let next = format@.take(i + 1);
            assert(next.drop_last() =~= format@.take(i as int));
            assert(next.last() == c);
            lemma_places(next, args@);
            lemma_places_grow(format@, i + 1);
        }
        if c == '\\' {
            ignore = true;
        } else if ignore {
            push_char(&mut finalstr, c);
            ignore = false;
        } else {
            if c == '}' && prevc == '{' {
                finalstr.append(args[idx].as_str());
                idx += 1;
            } else if c != '{' {
                push_char(&mut finalstr, c);
            }
            prevc = c;
        }
        i += 1;
    }
    assert(format@.take(i as int) =~= format@);
    finalstr
}

} // verus!
