//! Wrapping the tokens of one canvas row into lines of bounded length.
//!
//! Tokens are taken from left to right. A line is charged the length of each
//! of its tokens and one separator per token, the first included. A token
//! that would bring this charge above the limit starts a new line; one that
//! follows another on its line is parted from it by a single space.

use vstd::prelude::*;
use crate::text::newline_free;

verus! {

/// The largest charge a line may reach.
pub const MAXIMUM_PPM_LEN: usize = 70;

/// What a line is charged: its length and, unless it is empty, the separator
/// counted for its first token.
pub open spec fn charge(lines: Seq<Seq<char>>) -> nat {
    if lines.len() == 0 {
        0
    } else {
        lines.last().len() + 1
    }
}

/// The lines after one more token: it joins the last line where it fits and
/// starts a new one where it does not.
pub open spec fn place(lines: Seq<Seq<char>>, token: Seq<char>) -> Seq<Seq<char>> {
    if lines.len() == 0 {
        seq![token]
    } else if charge(lines) + token.len() + 1 > MAXIMUM_PPM_LEN {
        lines.push(token)
    } else {
        lines.drop_last().push(lines.last() + seq![' '] + token)
    }
}

/// The lines into which a row of tokens is wrapped.
pub open spec fn wrap(tokens: Seq<Seq<char>>) -> Seq<Seq<char>>
    decreases tokens.len(),
{
    if tokens.len() == 0 {
        Seq::empty()
    } else {
        place(wrap(tokens.drop_last()), tokens.last())
    }
}

/// Wrapping one token more places it after the wrapped tokens before it.
pub proof fn lemma_wrap_take(tokens: Seq<Seq<char>>, k: int)
    requires
        0 <= k < tokens.len(),
    ensures
        wrap(tokens.take(k + 1)) == place(wrap(tokens.take(k)), tokens[k]),
{
    assert(tokens.take(k + 1).drop_last() =~= tokens.take(k));
}

/// The given texts in order, a single space between neighbours.
pub open spec fn join(parts: Seq<Seq<char>>) -> Seq<char>
    decreases parts.len(),
{
    if parts.len() == 0 {
        Seq::empty()
    } else if parts.len() == 1 {
        parts[0]
    } else {
        join(parts.drop_last()) + seq![' '] + parts.last()
    }
}

/// Whether a token can stand on a line: it is not empty, and it fits the
/// limit together with its separator.
pub open spec fn fits(token: Seq<char>) -> bool {
    1 <= token.len() < MAXIMUM_PPM_LEN
}

/// Tokens are wrapped into lines exactly where there are tokens, and into no
/// more lines than tokens.
pub proof fn lemma_wrap_len(tokens: Seq<Seq<char>>)
    ensures
        wrap(tokens).len() <= tokens.len(),
        tokens.len() > 0 ==> wrap(tokens).len() > 0,
    decreases tokens.len(),
{
    if tokens.len() > 0 {
        lemma_wrap_len(tokens.drop_last());
    }
}

/// No wrapped line is empty, and each stays below the limit, its separator
/// counted.
pub proof fn lemma_wrap_bounds(tokens: Seq<Seq<char>>)
    requires
        forall|k: int| 0 <= k < tokens.len() ==> fits(#[trigger] tokens[k]),
    ensures
        forall|i: int|
            0 <= i < wrap(tokens).len() ==> 1 <= (#[trigger] wrap(tokens)[i]).len()
                < MAXIMUM_PPM_LEN,
    decreases tokens.len(),
{
    if tokens.len() > 0 {
        let before = tokens.drop_last();
        assert forall|k: int| 0 <= k < before.len() implies fits(#[trigger] before[k]) by {
            assert(before[k] == tokens[k]);
        }
        lemma_wrap_bounds(before);
        let lines = wrap(before);
        let token = tokens.last();
        assert(fits(token));
        assert forall|i: int| 0 <= i < wrap(tokens).len() implies 1 <= (#[trigger] wrap(
            tokens,
        )[i]).len() < MAXIMUM_PPM_LEN by {
            if i < lines.len() - 1 {
                assert(wrap(tokens)[i] == lines[i]);
            } else if i < lines.len() {
                assert(1 <= lines[i].len() < MAXIMUM_PPM_LEN);
            }
        }
    }
}

/// Tokens without line feed are wrapped into lines without line feed.
pub proof fn lemma_wrap_newline_free(tokens: Seq<Seq<char>>)
    requires
        forall|k: int| 0 <= k < tokens.len() ==> newline_free(#[trigger] tokens[k]),
    ensures
        forall|i: int| 0 <= i < wrap(tokens).len() ==> newline_free(#[trigger] wrap(tokens)[i]),
    decreases tokens.len(),
{
    if tokens.len() > 0 {
        let before = tokens.drop_last();
        assert forall|k: int| 0 <= k < before.len() implies newline_free(#[trigger] before[k]) by {
            assert(before[k] == tokens[k]);
        }
        lemma_wrap_newline_free(before);
        let lines = wrap(before);
        let token = tokens.last();
        assert(newline_free(token));
        assert forall|i: int| 0 <= i < wrap(tokens).len() implies newline_free(
            #[trigger] wrap(tokens)[i],
        ) by {
            if i < lines.len() - 1 {
                assert(wrap(tokens)[i] == lines[i]);
            } else if i < lines.len() {
                assert(newline_free(lines[i]));
            }
        }
    }
}

/// Wrapping keeps every token and their order: with each line break turned
/// back into a space, the lines are the tokens joined by spaces.
pub proof fn lemma_wrap_joins(tokens: Seq<Seq<char>>)
    ensures
        join(wrap(tokens)) == join(tokens),
    decreases tokens.len(),
{
    if tokens.len() > 0 {
        let before = tokens.drop_last();
        let token = tokens.last();
        let lines = wrap(before);
        lemma_wrap_joins(before);
        lemma_wrap_len(before);
        if lines.len() == 0 {
        } else if charge(lines) + token.len() + 1 > MAXIMUM_PPM_LEN {
            assert(lines.push(token).drop_last() =~= lines);
        } else {
            let joined = lines.last() + seq![' '] + token;
            let placed = lines.drop_last().push(joined);
            assert(placed.drop_last() =~= lines.drop_last());
            assert(join(placed) =~= join(lines) + seq![' '] + token);
        }
    }
}

} // verus!
