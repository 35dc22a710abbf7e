//! The tokens: white space and comments, fixed words and signs, identifiers.

use crate::text::is_digit;
use vstd::prelude::*;
use vstd::string::{StrSliceExecFns, StringExecFns};

verus! {

/// `String::push`: the string grows by the one character at its end.
pub assume_specification[ String::push ](s: &mut String, c: char)
    ensures
        final(s)@ == old(s)@.push(c),
;

/// A space, a tab, a carriage return or a line feed.
pub open spec fn is_space(c: char) -> bool {
    c == ' ' || c == '\t' || c == '\r' || c == '\n'
}

/// An ASCII letter.
pub open spec fn is_alpha(c: char) -> bool {
    ('a' <= c && c <= 'z') || ('A' <= c && c <= 'Z')
}

/// A character that may start an identifier: a letter or an underscore.
pub open spec fn is_ident_start(c: char) -> bool {
    is_alpha(c) || c == '_'
}

/// A character that may go on an identifier: a letter, a digit or an underscore.
pub open spec fn is_ident_char(c: char) -> bool {
    is_alpha(c) || is_digit(c) || c == '_'
}

/// The words that no identifier may be: `fun`, `let` and `in`.
pub open spec fn is_reserved(word: Seq<char>) -> bool {
    word == "fun"@ || word == "let"@ || word == "in"@
}

/// An identifier: a letter or an underscore, then letters, digits and underscores,
/// and none of the reserved words.
pub open spec fn is_identifier(name: Seq<char>) -> bool {
    &&& name.len() > 0
    &&& is_ident_start(name[0])
    &&& forall|k: int| 0 <= k < name.len() ==> is_ident_char(#[trigger] name[k])
    &&& !is_reserved(name)
}

/// `pat` stands in `s` at position `i`.
pub open spec fn has_prefix(s: Seq<char>, i: int, pat: Seq<char>) -> bool {
    0 <= i && i + pat.len() <= s.len() && s.subrange(i, i + pat.len()) == pat
}

/// The first position from `i` on at which `*)` stands, if there is one.
pub open spec fn comment_close(s: Seq<char>, i: int) -> Option<int>
    decreases s.len() - i,
{
    if i < 0 || i + 2 > s.len() {
        None
    } else if s[i] == '*' && s[i + 1] == ')' {
        Some(i)
    } else {
        comment_close(s, i + 1)
    }
}

/// Where the comment that starts at `i` ends, if one starts there: a comment runs
/// from `(*` to the first `*)` after it.
pub open spec fn comment_end(s: Seq<char>, i: int) -> Option<int> {
    if 0 <= i && i + 2 <= s.len() && s[i] == '(' && s[i + 1] == '*' {
        match comment_close(s, i + 2) {
            Some(close) => Some(close + 2),
            None => None,
        }
    } else {
        None
    }
}

/// The position after the white space and the comments that start at `i`.
pub open spec fn skip_ws(s: Seq<char>, i: int) -> int
    decreases s.len() - i,
{
    if 0 <= i < s.len() && is_space(s[i]) {
        skip_ws(s, i + 1)
    } else {
        match comment_end(s, i) {
            Some(end) => {
                proof {
                    lemma_comment_close_bounds(s, i + 2);
                }
                skip_ws(s, end)
            },
            None => i,
        }
    }
}

/// The position after the characters of an identifier that start at `i`.
pub open spec fn ident_end(s: Seq<char>, i: int) -> int
    decreases s.len() - i,
{
    if 0 <= i < s.len() && is_ident_char(s[i]) {
        ident_end(s, i + 1)
    } else {
        i
    }
}

/// The token `pat` at `i`: white space, `pat`, white space. Yields the position after
/// it.
pub open spec fn token_tag(s: Seq<char>, i: int, pat: Seq<char>) -> Option<int> {
    let start = skip_ws(s, i);
    if has_prefix(s, start, pat) {
        Some(skip_ws(s, start + pat.len()))
    } else {
        None
    }
}

/// An identifier at `i`, as a token: the longest run of identifier characters that
/// starts with a letter or an underscore, unless it is a reserved word.
pub open spec fn token_ident(s: Seq<char>, i: int) -> Option<(Seq<char>, int)> {
    let start = skip_ws(s, i);
    if 0 <= start < s.len() && is_ident_start(s[start]) {
        let end = ident_end(s, start + 1);
        let word = s.subrange(start, end);
        if is_reserved(word) {
            None
        } else {
            Some((word, skip_ws(s, end)))
        }
    } else {
        None
    }
}

/// The end of a comment lies after its start and within the text.
pub proof fn lemma_comment_close_bounds(s: Seq<char>, i: int)
    ensures
        comment_close(s, i) matches Some(close) ==> 0 <= i <= close && close + 2 <= s.len(),
    decreases s.len() - i,
{
    if 0 <= i && i + 2 <= s.len() && !(s[i] == '*' && s[i + 1] == ')') {
        lemma_comment_close_bounds(s, i + 1);
    }
}

/// Skipping white space goes forward and stays within the text.
pub proof fn lemma_skip_ws_bounds(s: Seq<char>, i: int)
    requires
        0 <= i <= s.len(),
    ensures
        i <= skip_ws(s, i) <= s.len(),
    decreases s.len() - i,
{
    if i < s.len() && is_space(s[i]) {
        lemma_skip_ws_bounds(s, i + 1);
    } else if let Some(end) = comment_end(s, i) {
        lemma_comment_close_bounds(s, i + 2);
        lemma_skip_ws_bounds(s, end);
    }
}

/// The characters of an identifier end after their start and within the text.
pub proof fn lemma_ident_end_bounds(s: Seq<char>, i: int)
    requires
        0 <= i <= s.len(),
    ensures
        i <= ident_end(s, i) <= s.len(),
    decreases s.len() - i,
{
    if i < s.len() && is_ident_char(s[i]) {
        lemma_ident_end_bounds(s, i + 1);
    }
}

/// A token takes at least the characters of its pattern.
pub proof fn lemma_token_tag_bounds(s: Seq<char>, i: int, pat: Seq<char>)
    requires
        0 <= i <= s.len(),
    ensures
        token_tag(s, i, pat) matches Some(end) ==> i + pat.len() <= end <= s.len(),
{
    lemma_skip_ws_bounds(s, i);
    if has_prefix(s, skip_ws(s, i), pat) {
        lemma_skip_ws_bounds(s, skip_ws(s, i) + pat.len());
    }
}

/// An identifier takes at least one character.
pub proof fn lemma_token_ident_bounds(s: Seq<char>, i: int)
    requires
        0 <= i <= s.len(),
    ensures
        token_ident(s, i) matches Some((_, end)) ==> i < end <= s.len(),
{
    lemma_skip_ws_bounds(s, i);
    let start = skip_ws(s, i);
    if start < s.len() {
        lemma_ident_end_bounds(s, start + 1);
        lemma_skip_ws_bounds(s, ident_end(s, start + 1));
    }
}

/// The characters up to the end of an identifier are identifier characters.
pub proof fn lemma_ident_end_chars(s: Seq<char>, i: int)
    requires
        0 <= i <= s.len(),
    ensures
        forall|k: int| i <= k < ident_end(s, i) ==> is_ident_char(#[trigger] s[k]),
    decreases s.len() - i,
{
    if i < s.len() && is_ident_char(s[i]) {
        lemma_ident_end_chars(s, i + 1);
    }
}

/// What is read as an identifier is one.
pub proof fn lemma_token_ident_is_identifier(s: Seq<char>, i: int)
    requires
        0 <= i <= s.len(),
    ensures
        token_ident(s, i) matches Some((name, _)) ==> is_identifier(name),
{
    lemma_skip_ws_bounds(s, i);
    let start = skip_ws(s, i);
    if start < s.len() && is_ident_start(s[start]) {
        lemma_ident_end_bounds(s, start + 1);
        lemma_ident_end_chars(s, start + 1);
    }
}

/// The characters of `text`, in order.
pub(crate) fn to_chars(text: &str) -> (chars: Vec<char>)
    ensures
        chars@ == text@,
{
    let mut chars: Vec<char> = Vec::new();
    for c in it: text.chars()
        invariant
            chars@ == it.seq().take(it.index() as int),
            it.seq() == text@,
    {
        chars.push(c);
    }
    chars
}

/// Whether `c` is white space.
fn is_space_char(c: char) -> (space: bool)
    ensures
        space == is_space(c),
{
    c == ' ' || c == '\t' || c == '\r' || c == '\n'
}

/// Whether `c` may start an identifier.
fn is_ident_start_char(c: char) -> (start: bool)
    ensures
        start == is_ident_start(c),
{
    ('a' <= c && c <= 'z') || ('A' <= c && c <= 'Z') || c == '_'
}

/// Whether `c` may go on an identifier.
fn is_ident_rest_char(c: char) -> (rest: bool)
    ensures
        rest == is_ident_char(c),
{
    is_ident_start_char(c) || ('0' <= c && c <= '9')
}

/// Whether `input` is one of the reserved words.
pub fn is_reserved_word(input: &str) -> (reserved: bool)
    ensures
        reserved == is_reserved(input@),
{
    let word = String::from_str(input);
    word == String::from_str("fun") || word == String::from_str("let") || word == String::from_str(
        "in",
    )
}

/// A comment at `i`: from `(*` to the first `*)` after it. Yields the position
/// after it.
fn comment(chars: &Vec<char>, i: usize) -> (end: Option<usize>)
    requires
        i <= chars.len(),
    ensures
        match end {
            Some(k) => comment_end(chars@, i as int) == Some(k as int) && i < k <= chars.len(),
            None => comment_end(chars@, i as int) is None,
        },
{
    if i < chars.len() && i + 1 < chars.len() && chars[i] == '(' && chars[i + 1] == '*' {
        let mut k: usize = i + 2;
        while k < chars.len() && k + 1 < chars.len()
            invariant
                i + 2 <= k <= chars.len(),
                chars@[i as int] == '(' && chars@[i + 1] == '*',
                comment_close(chars@, i + 2) == comment_close(chars@, k as int),
            decreases chars.len() - k,
        {
            if chars[k] == '*' && chars[k + 1] == ')' {
                return Some(k + 2);
            }
            k += 1;
        }
        None
    } else {
        None
    }
}

/// Skips white space and comments.
pub(crate) fn ws(chars: &Vec<char>, i: usize) -> (end: usize)
    requires
        i <= chars.len(),
    ensures
        end == skip_ws(chars@, i as int),
        i <= end <= chars.len(),
{
    let mut k: usize = i;
    loop
        invariant
            i <= k <= chars.len(),
            skip_ws(chars@, i as int) == skip_ws(chars@, k as int),
        ensures
            i <= k <= chars.len(),
            k == skip_ws(chars@, i as int),
        decreases chars.len() - k,
    {
        if k < chars.len() && is_space_char(chars[k]) {
            k += 1;
        } else {
            match comment(chars, k) {
                Some(end) => {
                    k = end;
                },
                None => {
                    break ;
                },
            }
        }
    }
    k
}

/// Whether `pat` stands at `i`.
pub(crate) fn tag(chars: &Vec<char>, i: usize, pat: &str) -> (found: bool)
    requires
        i <= chars.len(),
    ensures
        found == has_prefix(chars@, i as int, pat@),
{
    let n: usize = pat.unicode_len();
    if n > chars.len() - i {
        return false;
    }
    let mut k: usize = 0;
    while k < n
        invariant
            k <= n,
            n == pat@.len(),
            i + n <= chars.len(),
            forall|j: int| 0 <= j < k ==> chars@[i + j] == pat@[j],
        decreases n - k,
    {
        if chars[i + k] != pat.get_char(k) {
            assert(chars@.subrange(i as int, i + n)[k as int] != pat@[k as int]);
            return false;
        }
        k += 1;
    }
    assert(chars@.subrange(i as int, i + n) =~= pat@);
    true
}

/// The token `pat`: white space, `pat`, white space.
pub(crate) fn token(chars: &Vec<char>, i: usize, pat: &str) -> (end: Option<usize>)
    requires
        i <= chars.len(),
    ensures
        match end {
            Some(k) => token_tag(chars@, i as int, pat@) == Some(k as int) && i + pat@.len() <= k
                <= chars.len(),
            None => token_tag(chars@, i as int, pat@) is None,
        },
{
    proof {
        lemma_token_tag_bounds(chars@, i as int, pat@);
    }
    let start: usize = ws(chars, i);
    if tag(chars, start, pat) {
        let n: usize = pat.unicode_len();
        Some(ws(chars, start + n))
    } else {
        None
    }
}

/// An identifier, as a token.
pub(crate) fn identifier(chars: &Vec<char>, i: usize) -> (found: Option<(String, usize)>)
    requires
        i <= chars.len(),
    ensures
        match found {
            Some((name, end)) => token_ident(chars@, i as int) == Some((name@, end as int)) && i
                < end <= chars.len(),
            None => token_ident(chars@, i as int) is None,
        },
{
    proof {
        lemma_token_ident_bounds(chars@, i as int);
    }
    let start: usize = ws(chars, i);
    if start < chars.len() && is_ident_start_char(chars[start]) {
        let mut name = String::new();
        name.push(chars[start]);
        let mut end: usize = start + 1;
        while end < chars.len() && is_ident_rest_char(chars[end])
            invariant
                start < end <= chars.len(),
                name@ == chars@.subrange(start as int, end as int),
                ident_end(chars@, start + 1) == ident_end(chars@, end as int),
            decreases chars.len() - end,
        {
            name.push(chars[end]);
            end += 1;
            assert(name@ =~= chars@.subrange(start as int, end as int));
        }
        if is_reserved_word(name.as_str()) {
            None
        } else {
            Some((name, ws(chars, end)))
        }
    } else {
        None
    }
}

} // verus!
