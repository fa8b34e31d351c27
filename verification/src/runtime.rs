//! What the runtime that runs a compiled program writes: its result, the
//! values it prints and its error messages.

use vstd::prelude::*;
use vstd::string::*;
use crate::tagging::{tagged_num, TRUE_VAL, FALSE_VAL};
use crate::text::{decimal, int_text};

verus! {

/// The text of a tagged word: its number when the tag bit is 0, `true` and
/// `false` for the two boolean words, and nothing for any other word.
pub open spec fn word_text(val: int) -> Option<Seq<char>> {
    if val % 2 == 0 {
        Some(decimal(val / 2))
    } else if val == TRUE_VAL {
        Some("true"@)
    } else if val == FALSE_VAL {
        Some("false"@)
    } else {
        None
    }
}

/// The line that the runtime writes for the result of a program.
pub open spec fn result_text(val: int) -> Seq<char> {
    match word_text(val) {
        Some(t) => t,
        None => "Unknown: "@ + decimal(val),
    }
}

/// The message of a run-time error code.
pub open spec fn error_code_text(code: int) -> Option<Seq<char>> {
    if code == 1 {
        Some("invalid argument"@)
    } else if code == 2 {
        Some("overflow"@)
    } else {
        None
    }
}

/// The text that printing the tagged word `val` writes, if any.
pub fn value_text(val: i64) -> (t: Option<String>)
    ensures
        t matches Some(s) ==> word_text(val as int) == Some(s@),
        t is None ==> word_text(val as int) is None,
{
    let low: i64 = val & 1;
    assert(low == 0 <==> val % 2 == 0) by (bit_vector)
        requires
            low == val & 1,
    ;
    if low == 0 {
        let half: i64 = val >> 1;
        assert(half == val / 2) by (bit_vector)
            requires
                half == val >> 1,
        ;
        Some(int_text(half))
    } else if val == TRUE_VAL {
        Some(String::from_str("true"))
    } else if val == FALSE_VAL {
        Some(String::from_str("false"))
    } else {
        None
    }
}

/// The line that the runtime writes for the result `val` of a program.
pub fn result_line(val: i64) -> (t: String)
    ensures
        t@ == result_text(val as int),
{
    match value_text(val) {
        Some(t) => t,
        None => {
            let mut t = String::from_str("Unknown: ");
            t.append(int_text(val).as_str());
            t
        },
    }
}

/// The message that the runtime writes for the error code `code`, if any.
pub fn error_code_message(code: i64) -> (m: Option<&'static str>)
    ensures
        m matches Some(s) ==> error_code_text(code as int) == Some(s@),
        m is None ==> error_code_text(code as int) is None,
{
    if code == 1 {
        Some("invalid argument")
    } else if code == 2 {
        Some("overflow")
    } else {
        None
    }
}

/// A number that the compiler tags is written back as that number, and the
/// two boolean words as `true` and `false`.
pub proof fn lemma_tagged_words_read_back(n: int)
    ensures
        word_text(tagged_num(n)) == Some(decimal(n)),
        word_text(TRUE_VAL as int) == Some("true"@),
        word_text(FALSE_VAL as int) == Some("false"@),
{
    assert((2 * n) % 2 == 0) by (nonlinear_arith);
    assert((2 * n) / 2 == n) by (nonlinear_arith);
}

} // verus!
