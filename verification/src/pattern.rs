//! Regular-expression search and character classes that come from outside
//! this crate. Nothing in this file is proved: each contract says what the
//! outside function is documented to do.

use regex::Regex;
use vstd::prelude::*;
use vstd::string::*;

verus! {

/// What a search for the regular expression `pattern` in `text` finds: the
/// byte offsets `(start, end)` of the leftmost match, or `None` where the
/// expression matches nowhere in `text` or is not a valid expression.
pub uninterp spec fn regex_find(pattern: Seq<char>, text: Seq<char>) -> Option<(usize, usize)>;

/// Whether `c` has the Unicode property `White_Space`: the controls from
/// the tabulator to the carriage return and the next line, the space and the
/// spaces of other widths, the two separators of lines and paragraphs.
pub open spec fn is_whitespace(c: char) -> bool {
    let u = c as u32;
    ||| 0x09 <= u <= 0x0D
    ||| u == 0x20
    ||| u == 0x85
    ||| u == 0xA0
    ||| u == 0x1680
    ||| 0x2000 <= u <= 0x200A
    ||| u == 0x2028
    ||| u == 0x2029
    ||| u == 0x202F
    ||| u == 0x205F
    ||| u == 0x3000
}

/// Compiles `pattern` with `regex::Regex::new` and searches `text` with
/// `regex::Regex::find`. A match is reported by the byte offsets that
/// `regex::Match::start` and `regex::Match::end` give. The contract claims
/// only that the result depends on the two strings alone.
#[verifier::external_body]
pub(crate) fn find(pattern: &str, text: &str) -> (found: Option<(usize, usize)>)
    ensures
        found == regex_find(pattern@, text@),
{
    match Regex::new(pattern) {
        Ok(re) => match re.find(text) {
            Some(m) => Some((m.start(), m.end())),
            None => None,
        },
        Err(_) => None,
    }
}

/// Calls `char::is_whitespace`, which says whether a character has the
/// Unicode property `White_Space`. The contract claims that these are the
/// 25 characters that `is_whitespace` lists.
#[verifier::external_body]
pub(crate) fn char_is_whitespace(c: char) -> (b: bool)
    ensures
        b == is_whitespace(c),
{
    c.is_whitespace()
}

/// `String::push` appends the given character to the end of the string: the
/// string is then what it was, with that character behind it.
pub assume_specification[ String::push ](s: &mut String, c: char)
    ensures
        final(s)@ == old(s)@.push(c),
;

} // verus!
