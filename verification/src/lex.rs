//! Lexical primitives: whitespace and comment skipping, identifiers, string
//! and block-string literals, and keyword and punctuation matching.
//!
//! Every scanner takes the input and a character offset and either succeeds
//! with the advanced offset or fails with a positioned diagnostic; the spec
//! functions state exactly which characters are consumed.

use vstd::prelude::*;
use crate::ast::Positioned;
use crate::error::ErrorKind;
use crate::error::ParsingError;
use crate::numeric::is_digit;

verus! {

/// Ignorable characters between tokens: comma, space, tab, carriage return,
/// line feed.
pub open spec fn is_ws(c: char) -> bool {
    c == ',' || c == ' ' || c == '\t' || c == '\r' || c == '\n'
}

pub open spec fn is_line_ending(c: char) -> bool {
    c == '\n' || c == '\r'
}

/// A character that may start an identifier: a letter or an underscore.
pub open spec fn is_name_start(c: char) -> bool {
    (97 <= c as u32 && c as u32 <= 122) || (65 <= c as u32 && c as u32 <= 90) || c == '_'
}

/// A character that may continue an identifier.
pub open spec fn is_name_char(c: char) -> bool {
    is_name_start(c) || is_digit(c)
}

/// A character allowed inside a quoted string: anything but the quote,
/// carriage return and line feed.
pub open spec fn is_string_char(c: char) -> bool {
    c != '"' && c != '\r' && c != '\n'
}

/// The number of consecutive characters of `s` from `i` that satisfy `f`.
pub open spec fn run_len(s: Seq<char>, i: int, f: spec_fn(char) -> bool) -> int
    decreases s.len() - i,
{
    if 0 <= i < s.len() && f(s[i]) {
        1 + run_len(s, i + 1, f)
    } else {
        0
    }
}

pub open spec fn ws_run(s: Seq<char>, i: int) -> int {
    run_len(s, i, |c: char| is_ws(c))
}

pub open spec fn name_run(s: Seq<char>, i: int) -> int {
    run_len(s, i, |c: char| is_name_char(c))
}

pub open spec fn string_run(s: Seq<char>, i: int) -> int {
    run_len(s, i, |c: char| is_string_char(c))
}

/// The body of a line comment runs to the next line ending or the end of
/// the input.
pub open spec fn comment_run(s: Seq<char>, i: int) -> int {
    run_len(s, i, |c: char| !is_line_ending(c))
}

pub proof fn lemma_run_bounds(s: Seq<char>, i: int, f: spec_fn(char) -> bool)
    ensures
        0 <= run_len(s, i, f),
        0 <= i <= s.len() ==> i + run_len(s, i, f) <= s.len(),
        i > s.len() ==> run_len(s, i, f) == 0,
        i < 0 ==> run_len(s, i, f) == 0,
    decreases s.len() - i,
{
    if 0 <= i < s.len() && f(s[i]) {
        lemma_run_bounds(s, i + 1, f);
    }
}

/// The length of the maximal stretch of ignorable trivia at `i`, where a
/// trivia unit is an ignorable character or a `#` line comment.
pub open spec fn trivia_run(s: Seq<char>, i: int) -> int
    decreases s.len() - i, 0int,
{
    if 0 <= i < s.len() && is_ws(s[i]) {
        1 + trivia_run(s, i + 1)
    } else if 0 <= i < s.len() && s[i] == '#' {
        1 + comment_trivia_run(s, i + 1)
    } else {
        0
    }
}

/// The rest of a line comment starting at `i`, followed by any further
/// trivia.
pub open spec fn comment_trivia_run(s: Seq<char>, i: int) -> int
    decreases s.len() - i, 1int,
{
    if 0 <= i < s.len() && !is_line_ending(s[i]) {
        1 + comment_trivia_run(s, i + 1)
    } else {
        trivia_run(s, i)
    }
}

pub proof fn lemma_trivia_bounds(s: Seq<char>, i: int)
    ensures
        0 <= trivia_run(s, i),
        0 <= i <= s.len() ==> i + trivia_run(s, i) <= s.len(),
        0 <= comment_trivia_run(s, i),
        0 <= i <= s.len() ==> i + comment_trivia_run(s, i) <= s.len(),
    decreases s.len() - i, 2int,
{
    if 0 <= i < s.len() {
        lemma_trivia_bounds(s, i + 1);
    }
}

pub(crate) fn ws_char(c: char) -> (b: bool)
    ensures
        b == is_ws(c),
{
    c == ',' || c == ' ' || c == '\t' || c == '\r' || c == '\n'
}

pub(crate) fn line_ending_char(c: char) -> (b: bool)
    ensures
        b == is_line_ending(c),
{
    c == '\n' || c == '\r'
}

pub(crate) fn name_start_char(c: char) -> (b: bool)
    ensures
        b == is_name_start(c),
{
    let u = c as u32;
    (97 <= u && u <= 122) || (65 <= u && u <= 90) || c == '_'
}

pub(crate) fn name_char(c: char) -> (b: bool)
    ensures
        b == is_name_char(c),
{
    let u = c as u32;
    name_start_char(c) || (48 <= u && u <= 57)
}

pub(crate) fn string_char(c: char) -> (b: bool)
    ensures
        b == is_string_char(c),
{
    c != '"' && c != '\r' && c != '\n'
}

/// Skips ignorable characters only; comments do not count here.  This is
/// the skipper used where no separation is required.
pub(crate) fn ignore_token0(input: &str, pos: usize) -> (np: usize)
    requires
        pos <= input@.len(),
    ensures
        np == pos + ws_run(input@, pos as int),
        pos <= np <= input@.len(),
{
    let n = input.unicode_len();
    let mut p = pos;
    while p < n && ws_char(input.get_char(p))
        invariant
            pos <= p <= n,
            n == input@.len(),
            ws_run(input@, pos as int) == (p - pos) + ws_run(input@, p as int),
        decreases n - p,
    {
        p = p + 1;
    }
    proof {
        lemma_run_bounds(input@, p as int, |c: char| is_ws(c));
    }
    p
}

/// Scans the rest of a line comment: everything up to the next line ending
/// or the end of the input.
pub(crate) fn scan_comment(input: &str, pos: usize) -> (np: usize)
    requires
        pos <= input@.len(),
    ensures
        np == pos + comment_run(input@, pos as int),
        pos <= np <= input@.len(),
{
    let n = input.unicode_len();
    let mut p = pos;
    while p < n && !line_ending_char(input.get_char(p))
        invariant
            pos <= p <= n,
            n == input@.len(),
            comment_run(input@, pos as int) == (p - pos) + comment_run(input@, p as int),
        decreases n - p,
    {
        p = p + 1;
    }
    proof {
        lemma_run_bounds(input@, p as int, |c: char| !is_line_ending(c));
    }
    p
}

/// True when a trivia unit starts at `pos`.
fn trivia_start(input: &str, pos: usize) -> (b: bool)
    requires
        pos <= input@.len(),
    ensures
        b == (pos < input@.len() && (is_ws(input@[pos as int]) || input@[pos as int] == '#')),
{
    let n = input.unicode_len();
    if pos < n {
        let c = input.get_char(pos);
        ws_char(c) || c == '#'
    } else {
        false
    }
}

/// Skips the maximal stretch of ignorable characters and line comments.
pub(crate) fn skip_trivia(input: &str, pos: usize) -> (np: usize)
    requires
        pos <= input@.len(),
    ensures
        np == pos + trivia_run(input@, pos as int),
        pos <= np <= input@.len(),
{
    let ghost s = input@;
    let n = input.unicode_len();
    let mut p = pos;
    while trivia_start(input, p)
        invariant
            pos <= p <= n,
            n == s.len(),
            s == input@,
            trivia_run(s, pos as int) == (p - pos) + trivia_run(s, p as int),
        decreases n - p,
    {
        let c = input.get_char(p);
        if ws_char(c) {
            p = p + 1;
        } else {
            let q = scan_comment(input, p + 1);
            proof {
                lemma_comment_trivia_split(s, p + 1);
                lemma_trivia_bounds(s, q as int);
            }
            p = q;
        }
    }
    proof {
        lemma_trivia_bounds(s, p as int);
    }
    p
}

/// A comment's trivia is the comment body followed by whatever trivia
/// follows the line ending.
proof fn lemma_comment_trivia_split(s: Seq<char>, i: int)
    requires
        0 <= i <= s.len(),
    ensures
        comment_trivia_run(s, i) == comment_run(s, i) + trivia_run(s, i + comment_run(s, i)),
    decreases s.len() - i,
{
    lemma_run_bounds(s, i, |c: char| !is_line_ending(c));
    if 0 <= i < s.len() && !is_line_ending(s[i]) {
        lemma_comment_trivia_split(s, i + 1);
    }
}

/// The separating skipper: at least one ignorable character or line comment
/// must be present, then the maximal trivia stretch is consumed.
pub(crate) fn ignore_token1(input: &str, pos: usize) -> (r: Result<(usize, ()), ParsingError>)
    requires
        pos <= input@.len(),
    ensures
        r is Ok <==> pos < input@.len() && (is_ws(input@[pos as int]) || input@[pos as int] == '#'),
        r matches Ok((np, _)) ==> np == pos + trivia_run(input@, pos as int) && pos < np
            <= input@.len(),
        r matches Err(e) ==> e.offset == pos && e.kind == ErrorKind::Separator,
{
    if trivia_start(input, pos) {
        proof {
            lemma_trivia_bounds(input@, pos + 1);
        }
        let np = skip_trivia(input, pos);
        Ok((np, ()))
    } else {
        Err(ParsingError { offset: pos, kind: ErrorKind::Separator })
    }
}

/// Requires the single character `c` at `pos`.
pub(crate) fn expect_char(input: &str, pos: usize, c: char) -> (r: Result<(usize, ()), ParsingError>)
    requires
        pos <= input@.len(),
    ensures
        r is Ok <==> pos < input@.len() && input@[pos as int] == c,
        r matches Ok((np, _)) ==> np == pos + 1,
        r matches Err(e) ==> e.offset == pos && e.kind == ErrorKind::Char,
{
    let n = input.unicode_len();
    if pos < n && input.get_char(pos) == c {
        Ok((pos + 1, ()))
    } else {
        Err(ParsingError { offset: pos, kind: ErrorKind::Char })
    }
}

/// The characters of `w` stand at `i` in `s`.
pub open spec fn prefix_at(s: Seq<char>, i: int, w: Seq<char>) -> bool {
    i + w.len() <= s.len() && s.subrange(i, i + w.len()) == w
}

/// A prefix pins each of its characters.
pub proof fn lemma_prefix_char(s: Seq<char>, i: int, w: Seq<char>, k: int)
    requires
        0 <= i,
        prefix_at(s, i, w),
        0 <= k < w.len(),
    ensures
        s[i + k] == w[k],
{
    assert(s.subrange(i, i + w.len())[k] == s[i + k]);
}

/// Requires the exact character sequence of `word` at `pos`.
pub(crate) fn tag(input: &str, pos: usize, word: &str) -> (r: Result<(usize, ()), ParsingError>)
    requires
        pos <= input@.len(),
    ensures
        r is Ok <==> prefix_at(input@, pos as int, word@),
        r matches Ok((np, _)) ==> np == pos + word@.len(),
        r matches Err(e) ==> e.offset == pos && e.kind == ErrorKind::Tag,
{
    let n = input.unicode_len();
    let wl = word.unicode_len();
    if wl > n - pos {
        return Err(ParsingError { offset: pos, kind: ErrorKind::Tag });
    }
    let mut k: usize = 0;
    while k < wl
        invariant
            0 <= k <= wl,
            pos + wl <= n,
            n == input@.len(),
            wl == word@.len(),
            forall|x: int| 0 <= x < k ==> input@[pos + x] == word@[x],
        decreases wl - k,
    {
        if input.get_char(pos + k) != word.get_char(k) {
            proof {
                assert(input@.subrange(pos as int, pos + word@.len())[k as int] == input@[pos + k]);
            }
            return Err(ParsingError { offset: pos, kind: ErrorKind::Tag });
        }
        k = k + 1;
    }
    proof {
        assert(input@.subrange(pos as int, pos + word@.len()) =~= word@);
    }
    Ok((pos + wl, ()))
}

/// An identifier: a letter or underscore followed by letters, digits and
/// underscores; the longest such run is taken and returned as text.
pub(crate) fn name(input: &str, pos: usize) -> (r: Result<(usize, String), ParsingError>)
    requires
        pos <= input@.len(),
    ensures
        r is Ok <==> pos < input@.len() && is_name_start(input@[pos as int]),
        r matches Ok((np, nm)) ==> np == pos + name_run(input@, pos as int) && pos < np
            <= input@.len() && nm@ == input@.subrange(pos as int, np as int),
        r matches Err(e) ==> e.offset == pos && e.kind == ErrorKind::Name,
{
    let ghost s = input@;
    let n = input.unicode_len();
    if pos < n && name_start_char(input.get_char(pos)) {
        let mut p = pos + 1;
        proof {
            lemma_run_bounds(s, pos + 1, |c: char| is_name_char(c));
            assert(name_run(s, pos as int) == 1 + name_run(s, pos + 1));
        }
        while p < n && name_char(input.get_char(p))
            invariant
                pos < p <= n,
                n == s.len(),
                s == input@,
                name_run(s, pos as int) == (p - pos) + name_run(s, p as int),
            decreases n - p,
        {
            p = p + 1;
        }
        proof {
            lemma_run_bounds(s, p as int, |c: char| is_name_char(c));
        }
        let text = input.substring_char(pos, p);
        Ok((p, String::from_str(text)))
    } else {
        Err(ParsingError { offset: pos, kind: ErrorKind::Name })
    }
}

/// A complete quoted string literal stands at `i`.
pub open spec fn string_at(s: Seq<char>, i: int) -> bool {
    0 <= i < s.len() && s[i] == '"' && i + 1 + string_run(s, i + 1) < s.len() && s[i + 1
        + string_run(s, i + 1)] == '"'
}

/// A double-quoted string literal; the content is everything between the
/// quotes excluding the quote, carriage return and line feed characters, and
/// no escape decoding is performed.
pub(crate) fn string(input: &str, pos: usize) -> (r: Result<(usize, String), ParsingError>)
    requires
        pos <= input@.len(),
    ensures
        r is Ok <==> string_at(input@, pos as int),
        r matches Ok((np, st)) ==> np == pos + 2 + string_run(input@, pos + 1) && pos < np
            <= input@.len() && st@ == input@.subrange(pos + 1, pos + 1 + string_run(input@, pos + 1)),
        r matches Err(e) ==> e.offset <= input@.len(),
{
    let ghost s = input@;
    let n = input.unicode_len();
    let (p0, _) = match expect_char(input, pos, '"') {
        Ok(x) => x,
        Err(e) => {
            return Err(e);
        },
    };
    let mut p = p0;
    while p < n && string_char(input.get_char(p))
        invariant
            p0 <= p <= n,
            p0 == pos + 1,
            n == s.len(),
            s == input@,
            string_run(s, p0 as int) == (p - p0) + string_run(s, p as int),
        decreases n - p,
    {
        p = p + 1;
    }
    proof {
        lemma_run_bounds(s, p as int, |c: char| is_string_char(c));
    }
    match expect_char(input, p, '"') {
        Ok((p2, _)) => {
            let text = input.substring_char(p0, p);
            Ok((p2, String::from_str(text)))
        },
        Err(e) => Err(e),
    }
}

/// Three double quotes start or end a block string at `i`.
pub open spec fn triple_quote_at(s: Seq<char>, i: int) -> bool {
    0 <= i && i + 3 <= s.len() && s[i] == '"' && s[i + 1] == '"' && s[i + 2] == '"'
}

/// The position of the first block-string delimiter at or after `i`, or -1
/// when none follows.
pub open spec fn block_end(s: Seq<char>, i: int) -> int
    decreases s.len() - i,
{
    if i < 0 {
        -1
    } else if triple_quote_at(s, i) {
        i
    } else if i < s.len() {
        block_end(s, i + 1)
    } else {
        -1
    }
}

pub proof fn lemma_block_end_bounds(s: Seq<char>, i: int)
    requires
        0 <= i,
    ensures
        block_end(s, i) == -1 || (i <= block_end(s, i) && block_end(s, i) + 3 <= s.len()),
    decreases s.len() - i,
{
    if !triple_quote_at(s, i) && i < s.len() {
        lemma_block_end_bounds(s, i + 1);
    }
}

fn triple_quote(input: &str, pos: usize) -> (b: bool)
    requires
        pos <= input@.len(),
    ensures
        b == triple_quote_at(input@, pos as int),
{
    let n = input.unicode_len();
    if n - pos < 3 {
        false
    } else {
        input.get_char(pos) == '"' && input.get_char(pos + 1) == '"' && input.get_char(pos + 2)
            == '"'
    }
}

/// A block string: `"""`, then everything up to the next `"""` as raw
/// content with no escaping, then that closing delimiter.
pub(crate) fn multiline_description(input: &str, pos: usize) -> (r: Result<
    (usize, String),
    ParsingError,
>)
    requires
        pos <= input@.len(),
    ensures
        r is Ok <==> triple_quote_at(input@, pos as int) && block_end(input@, pos + 3) >= 0,
        r matches Ok((np, d)) ==> np == block_end(input@, pos + 3) + 3 && pos < np <= input@.len()
            && d@ == input@.subrange(pos + 3, block_end(input@, pos + 3)),
        r matches Err(e) ==> e.offset <= input@.len(),
{
    let ghost s = input@;
    let n = input.unicode_len();
    if !triple_quote(input, pos) {
        return Err(ParsingError { offset: pos, kind: ErrorKind::Tag });
    }
    let mut j = pos + 3;
    while j < n && !triple_quote(input, j)
        invariant
            pos + 3 <= j <= n,
            n == s.len(),
            s == input@,
            block_end(s, pos + 3) == block_end(s, j as int),
        decreases n - j,
    {
        j = j + 1;
    }
    if j < n {
        proof {
            lemma_block_end_bounds(s, pos + 3);
        }
        let text = input.substring_char(pos + 3, j);
        Ok((j + 3, String::from_str(text)))
    } else {
        assert(block_end(s, j as int) == -1);
        Err(ParsingError { offset: pos, kind: ErrorKind::Tag })
    }
}

/// Consumes one `#` line comment up to (not including) its line ending.
pub(crate) fn hashtag_description(input: &str, pos: usize) -> (r: Result<(usize, ()), ParsingError>)
    requires
        pos <= input@.len(),
    ensures
        r is Ok <==> pos < input@.len() && input@[pos as int] == '#',
        r matches Ok((np, _)) ==> np == pos + 1 + comment_run(input@, pos + 1) && pos < np
            <= input@.len(),
        r matches Err(e) ==> e.offset == pos && e.kind == ErrorKind::Char,
{
    let (p, _) = match expect_char(input, pos, '#') {
        Ok(x) => x,
        Err(e) => {
            return Err(e);
        },
    };
    let np = scan_comment(input, p);
    Ok((np, ()))
}

/// A well-formed block string preceded by trivia stands at `i`.
pub open spec fn desc_block_at(s: Seq<char>, i: int) -> bool {
    triple_quote_at(s, i) && block_end(s, i + 3) >= 0
}

/// The offset right after an optional description at `i`: past the leading
/// trivia, and when a block string follows, past it and its trailing trivia.
pub open spec fn description_end(s: Seq<char>, i: int) -> int {
    let t = i + trivia_run(s, i);
    if desc_block_at(s, t) {
        let b = block_end(s, t + 3) + 3;
        b + trivia_run(s, b)
    } else {
        t
    }
}

/// `d` is the description the text at `i` carries: the block string when a
/// well-formed one stands past the leading trivia, and nothing otherwise.
pub open spec fn desc_is(s: Seq<char>, i: int, d: Option<Positioned<String>>) -> bool {
    let t = i + trivia_run(s, i);
    if desc_block_at(s, t) {
        d matches Some(p) && p.start == t && p.end == block_end(s, t + 3) + 3 && p.value@
            == s.subrange(t + 3, block_end(s, t + 3))
    } else {
        d is None
    }
}

/// Optional leading doc text: either a `"""` block string (possibly
/// surrounded by line comments and ignorable characters, and retained), or a
/// stretch of line comments alone (consumed as trivia, retained as nothing).
/// Never attempted for an extension: extensions cannot carry a description.
pub(crate) fn description(input: &str, pos: usize, is_extend: bool) -> (r: (
    usize,
    Option<Positioned<String>>,
))
    requires
        pos <= input@.len(),
    ensures
        r.0 <= input@.len(),
        is_extend ==> r.0 == pos && r.1 is None,
        !is_extend ==> r.0 == description_end(input@, pos as int) && desc_is(
            input@,
            pos as int,
            r.1,
        ),
        !is_extend ==> {
            let t = pos + trivia_run(input@, pos as int);
            &&& (!desc_block_at(input@, t) ==> r.0 == t && r.1 is None)
            &&& (desc_block_at(input@, t) ==> (r.1 matches Some(d) && d.start == t && d.end
                == block_end(input@, t + 3) + 3 && d.value@ == input@.subrange(
                t + 3,
                block_end(input@, t + 3),
            ) && r.0 == d.end + trivia_run(input@, d.end as int) && pos <= t && t < d.end && d.end
                <= r.0))
        },
        pos <= r.0,
{
    if is_extend {
        return (pos, None);
    }
    let t = skip_trivia(input, pos);
    match multiline_description(input, t) {
        Ok((bend, text)) => {
            let after = skip_trivia(input, bend);
            (after, Some(Positioned { start: t, end: bend, value: text }))
        },
        Err(_) => (t, None),
    }
}

} // verus!
