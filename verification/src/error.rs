//! The diagnostic model: a failure value carrying the exact source offset at
//! which the first failure occurred and a symbolic failure kind.
//!
//! Backtracking failures are not accumulated; every parsing routine either
//! succeeds with an advanced cursor or returns a single `ParsingError`, and
//! an ordered alternative surfaces the failure of the last branch it tried.

use vstd::prelude::*;

verus! {

/// The symbolic kind of a parse failure.
#[derive(Clone, Copy, Debug, PartialEq, Eq, Structural)]
pub enum ErrorKind {
    /// A specific character was expected at the failure offset.
    Char,
    /// A specific keyword or punctuation sequence was expected.
    Tag,
    /// An identifier was expected.
    Name,
    /// At least one whitespace or comment token was required as a separator.
    Separator,
    /// A digit run was expected inside a numeric literal.
    Digit,
    /// An integer literal does not fit in a 64-bit signed integer.
    IntOverflow,
    /// No alternative of the value grammar matched.
    Value,
    /// A required sub-rule was absent where policy demands it, such as an
    /// extension that adds neither directives nor a body.
    Structure,
    /// Unconsumed non-trivia text remained after the last definition.
    TrailingInput,
}

/// The structured failure value returned instead of an AST on parse failure.
///
/// `offset` is the character offset of the remaining input at the failure
/// point; line and column are derivable from it with [`line_column`].
#[derive(Clone, Copy, Debug, PartialEq, Eq, Structural)]
pub struct ParsingError {
    pub offset: usize,
    pub kind: ErrorKind,
}

/// The number of line feeds in `s`.
pub open spec fn newline_count(s: Seq<char>) -> int
    decreases s.len(),
{
    if s.len() == 0 {
        0
    } else {
        newline_count(s.drop_last()) + if s.last() == '\n' {
            1int
        } else {
            0int
        }
    }
}

/// The offset of the first character of the line that the end of `s` is on:
/// the position right after the last line feed of `s`, or 0 if `s` has none.
pub open spec fn line_start(s: Seq<char>) -> int
    decreases s.len(),
{
    if s.len() == 0 {
        0
    } else if s.last() == '\n' {
        s.len() as int
    } else {
        line_start(s.drop_last())
    }
}

proof fn lemma_newline_count_bounds(s: Seq<char>)
    ensures
        0 <= newline_count(s) <= s.len(),
        0 <= line_start(s) <= s.len(),
    decreases s.len(),
{
    if s.len() > 0 {
        lemma_newline_count_bounds(s.drop_last());
    }
}

/// Derives the 1-based line and column of a character offset, as the
/// position primitive of the cursor would report them: the line is one more
/// than the number of line feeds before `offset`, and the column counts
/// characters since the start of the current line.
pub fn line_column(input: &str, offset: usize) -> (r: (usize, usize))
    requires
        offset <= input@.len(),
        offset < usize::MAX,
    ensures
        r.0 == 1 + newline_count(input@.subrange(0, offset as int)),
        r.1 == 1 + offset - line_start(input@.subrange(0, offset as int)),
{
    let mut line: usize = 1;
    let mut start: usize = 0;
    let mut i: usize = 0;
    proof {
        lemma_newline_count_bounds(input@.subrange(0, offset as int));
    }
    while i < offset
        invariant
            i <= offset <= input@.len(),
            offset < usize::MAX,
            line == 1 + newline_count(input@.subrange(0, i as int)),
            start == line_start(input@.subrange(0, i as int)),
            line <= 1 + i,
            start <= i,
        decreases offset - i,
    {
        let c = input.get_char(i);
        proof {
            assert(input@.subrange(0, i + 1).drop_last() =~= input@.subrange(0, i as int));
            assert(input@.subrange(0, i + 1).last() == input@[i as int]);
            lemma_newline_count_bounds(input@.subrange(0, i + 1));
        }
        if c == '\n' {
            line = line + 1;
            start = i + 1;
        }
        i = i + 1;
    }
    (line, 1 + offset - start)
}

} // verus!
