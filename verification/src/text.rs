//! Texts as sequences of lines, each ended by a line feed.

use vstd::prelude::*;

verus! {

/// The text that holds the given lines in order, a line feed after each.
pub open spec fn unlines(lines: Seq<Seq<char>>) -> Seq<char>
    decreases lines.len(),
{
    if lines.len() == 0 {
        Seq::empty()
    } else {
        unlines(lines.drop_last()) + lines.last() + seq!['\n']
    }
}

/// The lines without the last one's line feed: what a writer has put out
/// while the last line is still open.
pub open spec fn unlines_open(lines: Seq<Seq<char>>) -> Seq<char> {
    if lines.len() == 0 {
        Seq::empty()
    } else {
        unlines(lines.drop_last()) + lines.last()
    }
}

/// Whether a line holds no line feed.
pub open spec fn newline_free(line: Seq<char>) -> bool {
    forall|i: int| 0 <= i < line.len() ==> line[i] != '\n'
}

/// One more line adds that line and its line feed to the text.
pub proof fn lemma_unlines_push(lines: Seq<Seq<char>>, line: Seq<char>)
    ensures
        unlines(lines.push(line)) == unlines(lines) + line + seq!['\n'],
{
    assert(lines.push(line).drop_last() =~= lines);
}

/// The text of two runs of lines is the text of the first, then that of the second.
pub proof fn lemma_unlines_concat(a: Seq<Seq<char>>, b: Seq<Seq<char>>)
    ensures
        unlines(a + b) == unlines(a) + unlines(b),
    decreases b.len(),
{
    if b.len() == 0 {
        assert(a + b =~= a);
        assert(unlines(a) + unlines(b) =~= unlines(a));
    } else {
        lemma_unlines_concat(a, b.drop_last());
        assert((a + b).drop_last() =~= a + b.drop_last());
        assert((a + b).last() == b.last());
        assert(unlines(a + b) =~= unlines(a) + unlines(b));
    }
}

/// The number of characters before the first line feed of a text, or the
/// text's length where it holds none.
pub open spec fn first_line_len(text: Seq<char>) -> nat
    decreases text.len(),
{
    if text.len() == 0 || text[0] == '\n' {
        0
    } else {
        1 + first_line_len(text.skip(1))
    }
}

/// The lines of a text: the runs of characters that a line feed ends, in
/// order and without the line feeds. What follows the last line feed is no
/// line.
pub open spec fn lines_of(text: Seq<char>) -> Seq<Seq<char>>
    decreases text.len(),
{
    let n = first_line_len(text) as int;
    if n >= text.len() {
        Seq::empty()
    } else {
        seq![text.take(n)] + lines_of(text.skip(n + 1))
    }
}

/// In a text that begins with a line without line feed, then a line feed,
/// the first line feed is the one after that line.
pub proof fn lemma_first_line_len(line: Seq<char>, rest: Seq<char>)
    requires
        newline_free(line),
    ensures
        first_line_len(line + seq!['\n'] + rest) == line.len(),
    decreases line.len(),
{
    let text = line + seq!['\n'] + rest;
    if line.len() > 0 {
        assert(text[0] == line[0]);
        assert(text.skip(1) =~= line.skip(1) + seq!['\n'] + rest);
        assert forall|i: int| 0 <= i < line.skip(1).len() implies line.skip(1)[i] != '\n' by {
            assert(line.skip(1)[i] == line[i + 1]);
        }
        lemma_first_line_len(line.skip(1), rest);
    } else {
        assert(text[0] == '\n');
    }
}

/// The text of some lines, told from its first line on.
pub proof fn lemma_unlines_first(lines: Seq<Seq<char>>)
    requires
        lines.len() > 0,
    ensures
        unlines(lines) == lines[0] + seq!['\n'] + unlines(lines.skip(1)),
{
    let head = seq![lines[0]];
    assert(head + lines.skip(1) =~= lines);
    lemma_unlines_concat(head, lines.skip(1));
    assert(head =~= Seq::<Seq<char>>::empty().push(lines[0]));
    lemma_unlines_push(Seq::empty(), lines[0]);
    assert(unlines(head) =~= lines[0] + seq!['\n']);
}

/// Lines without line feed are the lines of their text: a text is made of
/// such lines in one way only.
pub proof fn lemma_lines_of_unlines(lines: Seq<Seq<char>>)
    requires
        forall|i: int| 0 <= i < lines.len() ==> newline_free(#[trigger] lines[i]),
    ensures
        lines_of(unlines(lines)) == lines,
    decreases lines.len(),
{
    let text = unlines(lines);
    if lines.len() == 0 {
        assert(lines_of(text) =~= lines);
    } else {
        let rest = unlines(lines.skip(1));
        lemma_unlines_first(lines);
        lemma_first_line_len(lines[0], rest);
        let n = lines[0].len() as int;
        assert(text.take(n) =~= lines[0]);
        assert(text.skip(n + 1) =~= rest);
        assert forall|i: int| 0 <= i < lines.skip(1).len() implies newline_free(
            #[trigger] lines.skip(1)[i],
        ) by {
            assert(lines.skip(1)[i] == lines[i + 1]);
        }
        lemma_lines_of_unlines(lines.skip(1));
        assert(lines_of(text) =~= lines);
    }
}

} // verus!
