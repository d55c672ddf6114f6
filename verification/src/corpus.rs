use crate::text::{chars_of, string_of, word_views};
use vstd::prelude::*;

verus! {

/// The position of the first line feed at or after `from`, or the length of
/// the text where there is none.
pub open spec fn line_feed_from(text: Seq<char>, from: int) -> int
    decreases text.len() - from,
{
    if from >= text.len() {
        text.len() as int
    } else if text[from] == '\n' {
        from
    } else {
        line_feed_from(text, from + 1)
    }
}

/// A line without the carriage return that stands at its end, if one does.
pub open spec fn without_carriage_return(line: Seq<char>) -> Seq<char> {
    if line.len() > 0 && line.last() == '\r' {
        line.drop_last()
    } else {
        line
    }
}

/// The lines of the text from position `from` on. A line ends at a line
/// feed, or at a carriage return followed by a line feed; the ending is not
/// part of the line. What follows the last line feed is a line of its own
/// if it is not empty.
pub open spec fn lines_from(text: Seq<char>, from: int) -> Seq<Seq<char>>
    decreases text.len() - from,
{
    if from < 0 || from >= text.len() {
        Seq::empty()
    } else {
        let end = line_feed_from(text, from);
        if from <= end < text.len() {
            seq![without_carriage_return(text.subrange(from, end))] + lines_from(text, end + 1)
        } else {
            seq![text.subrange(from, text.len() as int)]
        }
    }
}

/// The lines of a text.
pub open spec fn lines_of(text: Seq<char>) -> Seq<Seq<char>> {
    lines_from(text, 0)
}

/// The first line feed after a run of other characters is the first line
/// feed after the start of the run.
proof fn lemma_line_feed_skips(text: Seq<char>, from: int, to: int)
    requires
        0 <= from <= to <= text.len(),
        forall|j: int| from <= j < to ==> text[j] != '\n',
    ensures
        line_feed_from(text, from) == line_feed_from(text, to),
        to <= line_feed_from(text, to) <= text.len(),
    decreases text.len() - from,
{
    if from < to {
        lemma_line_feed_skips(text, from + 1, to);
    } else if to < text.len() && text[to] != '\n' {
        lemma_line_feed_skips(text, to + 1, to + 1);
    }
}

/// Splits a word list, written one word per line, into its words, in the
/// order of the text.
pub fn lines_from_text(text: &str) -> (lines: Vec<String>)
    ensures
        word_views(lines@) == lines_of(text@),
{
    let chars: Vec<char> = chars_of(text);
    let mut lines: Vec<String> = Vec::new();
    let mut start: usize = 0;
    let mut idx: usize = 0;
    assert(word_views(lines@) + lines_from(chars@, 0) =~= lines_of(chars@));
    while idx < chars.len()
        invariant
            start <= idx <= chars.len(),
            forall|j: int| start <= j < idx ==> chars@[j] != '\n',
            lines_of(chars@) == word_views(lines@) + lines_from(chars@, start as int),
        decreases chars.len() - idx,
    {
        if chars[idx] == '\n' {
            let end: usize = if idx > start && chars[idx - 1] == '\r' {
                idx - 1
            } else {
                idx
            };
            let line: String = string_of(&chars, start, end);
            let ghost before = word_views(lines@);
            lines.push(line);
            proof {
                lemma_line_feed_skips(chars@, start as int, idx as int);
                let whole = chars@.subrange(start as int, idx as int);
                assert(line@ =~= without_carriage_return(whole));
                assert(word_views(lines@) =~= before + seq![line@]);
                assert(before + (seq![line@] + lines_from(chars@, idx + 1)) =~= before + seq![line@]
                    + lines_from(chars@, idx + 1));
            }
            start = idx + 1;
        }
        idx += 1;
    }
    if start < chars.len() {
        let line: String = string_of(&chars, start, chars.len());
        let ghost before = word_views(lines@);
        lines.push(line);
        proof {
            lemma_line_feed_skips(chars@, start as int, chars@.len() as int);
            assert(word_views(lines@) =~= before + seq![line@]);
        }
    } else {
        assert(word_views(lines@) + lines_from(chars@, start as int) =~= word_views(lines@));
    }
    lines
}

} // verus!
