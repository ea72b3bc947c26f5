//! Lines of a text.
//!
//! A line ends with a line feed, or with a carriage return and a line feed;
//! neither belongs to the line. The last line may go without an ending. A
//! carriage return that no line feed follows is a character like any other.

use vstd::prelude::*;

verus! {

/// How many characters stand before the first line feed of `text`: all of
/// them where it holds none.
pub open spec fn line_end(text: Seq<char>) -> nat
    decreases text.len(),
{
    if text.len() == 0 || text[0] == '\n' {
        0
    } else {
        1 + line_end(text.skip(1))
    }
}

/// A line without the carriage return that closes it, if one does.
pub open spec fn without_return(line: Seq<char>) -> Seq<char> {
    if line.len() > 0 && line.last() == '\r' {
        line.drop_last()
    } else {
        line
    }
}

/// The lines of `text`, in order. The empty text has no line; a text that
/// ends with a line feed has no empty line after it.
pub open spec fn lines(text: Seq<char>) -> Seq<Seq<char>>
    decreases text.len(),
{
    if text.len() == 0 {
        Seq::empty()
    } else if line_end(text) >= text.len() {
        seq![text]
    } else {
        seq![without_return(text.take(line_end(text) as int))] + lines(
            text.skip(line_end(text) as int + 1),
        )
    }
}

/// `line_end` finds the first line feed: no character before it is one, and
/// it stops short of the end only at one.
pub proof fn lemma_line_end(text: Seq<char>)
    ensures
        line_end(text) <= text.len(),
        forall|i: int| 0 <= i < line_end(text) ==> text[i] != '\n',
        line_end(text) < text.len() ==> text[line_end(text) as int] == '\n',
    decreases text.len(),
{
    if !(text.len() == 0 || text[0] == '\n') {
        let rest = text.skip(1);
        lemma_line_end(rest);
        assert forall|i: int| 0 <= i < line_end(text) implies text[i] != '\n' by {
            if i > 0 {
                assert(text[i] == rest[i - 1]);
            }
        }
    }
}

/// The place of the first line feed is `line_end`, and so is the length of a
/// text without one.
proof fn lemma_line_end_is(text: Seq<char>, end: int)
    requires
        0 <= end <= text.len(),
        forall|i: int| 0 <= i < end ==> text[i] != '\n',
        end < text.len() ==> text[end] == '\n',
    ensures
        line_end(text) == end,
{
    lemma_line_end(text);
}

/// The texts that a list of character vectors holds.
pub open spec fn texts(held: Seq<Vec<char>>) -> Seq<Seq<char>> {
    Seq::new(held.len(), |i: int| held[i]@)
}

/// The characters of a string, in order.
pub fn chars_of(text: &str) -> (chars: Vec<char>)
    ensures
        chars@ == text@,
{
    let mut chars: Vec<char> = Vec::new();
    for c in it: text.chars()
        invariant
            it.seq() == text@,
            chars@ == it.seq().take(it.index()),
    {
        chars.push(c);
    }
    chars
}

/// Splits `text` into its lines.
pub fn split_lines(text: &[char]) -> (found: Vec<Vec<char>>)
    ensures
        texts(found@) == lines(text@),
{
    let n: usize = text.len();
    let mut found: Vec<Vec<char>> = Vec::new();
    let mut start: usize = 0;
    assert(text@.skip(0) =~= text@);
    while start < n
        invariant
            start <= n,
            n == text.len(),
            lines(text@) == texts(found@) + lines(text@.skip(start as int)),
        decreases n - start,
    {
        let ghost rest = text@.skip(start as int);
        let ghost before = texts(found@);
        let mut line: Vec<char> = Vec::new();
        let mut end: usize = start;
        while end < n && text[end] != '\n'
            invariant
                start <= end <= n,
                n == text.len(),
                line@ == text@.subrange(start as int, end as int),
                forall|i: int| start <= i < end ==> text@[i] != '\n',
            decreases n - end,
        {
            line.push(text[end]);
            end = end + 1;
        }
        proof {
            lemma_line_end_is(rest, end - start);
        }
        if end < n {
            if line.len() > 0 && line[line.len() - 1] == '\r' {
                line.pop();
            }
            assert(line@ =~= without_return(rest.take(end - start)));
            assert(rest.skip(end - start + 1) =~= text@.skip(end + 1));
            start = end + 1;
        } else {
            start = n;
        }
        found.push(line);
        assert(before + (seq![line@] + lines(text@.skip(start as int))) =~= before.push(line@)
            + lines(text@.skip(start as int)));
    }
    found
}

} // verus!
