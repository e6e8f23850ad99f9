//! The plain-text PPM encoding of a raster.
//!
//! An encoded image is a text of lines. Three header lines come first: the
//! format's identifier, the width and height, and the largest sample. Then
//! each row of the raster follows from top to bottom, its samples wrapped
//! into lines, and one empty line ends the text.

use vstd::prelude::*;
use crate::channel::{lemma_sample_bound, sample};
use crate::color::Color;
use crate::decimal::{decimal, is_digit, lemma_decimal_digits, lemma_decimal_len_small};
use crate::raster::Raster;
use crate::text::{lemma_lines_of_unlines, lines_of, newline_free, unlines};
use crate::wrap::{
    fits, join, lemma_wrap_bounds, lemma_wrap_joins, lemma_wrap_len, lemma_wrap_newline_free, wrap,
    MAXIMUM_PPM_LEN,
};

verus! {

/// The channels of a color in the order in which they are written: red,
/// green, blue.
pub open spec fn channel_of(c: Color, k: int) -> u64 {
    if k == 0 {
        c.red
    } else if k == 1 {
        c.green
    } else {
        c.blue
    }
}

/// The samples of row `y` from left to right, three for each color.
pub open spec fn row_samples(r: Raster, y: int) -> Seq<nat> {
    Seq::new(3 * r.width, |i: int| sample(channel_of(r.at(i / 3, y), i % 3)))
}

/// The samples of row `y` as decimal texts.
pub open spec fn row_tokens(r: Raster, y: int) -> Seq<Seq<char>> {
    Seq::new(3 * r.width, |i: int| decimal(row_samples(r, y)[i]))
}

/// The three lines of the header.
pub open spec fn header_lines(width: nat, height: nat) -> Seq<Seq<char>> {
    seq![seq!['P', '3'], decimal(width) + seq![' '] + decimal(height), seq!['2', '5', '5']]
}

/// The lines of the first `rows` rows. A row never shares a line with another.
pub open spec fn pixel_lines(r: Raster, rows: nat) -> Seq<Seq<char>>
    decreases rows,
{
    if rows == 0 {
        Seq::empty()
    } else {
        pixel_lines(r, (rows - 1) as nat) + wrap(row_tokens(r, rows - 1))
    }
}

/// All lines of the encoded raster.
pub open spec fn ppm_lines(r: Raster) -> Seq<Seq<char>> {
    header_lines(r.width, r.height) + pixel_lines(r, r.height) + seq![Seq::<char>::empty()]
}

/// The encoded raster.
pub open spec fn ppm_text(r: Raster) -> Seq<char> {
    unlines(ppm_lines(r))
}

/// The first line of row `y` among all lines of the encoded raster.
pub open spec fn row_start(r: Raster, y: nat) -> int {
    3 + pixel_lines(r, y).len() as int
}

/// Every token of a row is the decimal text of a sample: one to three digits.
pub proof fn lemma_row_tokens(r: Raster, y: int)
    ensures
        row_tokens(r, y).len() == 3 * r.width,
        forall|k: int|
            0 <= k < row_tokens(r, y).len() ==> {
                let token = #[trigger] row_tokens(r, y)[k];
                &&& 1 <= token.len() <= 3
                &&& forall|i: int| 0 <= i < token.len() ==> is_digit(#[trigger] token[i])
            },
{
    assert forall|k: int| 0 <= k < row_tokens(r, y).len() implies {
        let token = #[trigger] row_tokens(r, y)[k];
        &&& 1 <= token.len() <= 3
        &&& forall|i: int| 0 <= i < token.len() ==> is_digit(#[trigger] token[i])
    } by {
        let s = row_samples(r, y)[k];
        lemma_sample_bound(channel_of(r.at(k / 3, y), k % 3));
        lemma_decimal_len_small(s);
        lemma_decimal_digits(s);
    }
}

/// The lines of the rows: none is empty, none holds a line feed, and each
/// stays below the limit. A raster without columns has none, and any other
/// has at least one for each row.
pub proof fn lemma_pixel_lines(r: Raster, rows: nat)
    ensures
        forall|i: int|
            0 <= i < pixel_lines(r, rows).len() ==> {
                let line = #[trigger] pixel_lines(r, rows)[i];
                &&& 1 <= line.len() < MAXIMUM_PPM_LEN
                &&& newline_free(line)
            },
        r.width == 0 ==> pixel_lines(r, rows).len() == 0,
        r.width > 0 ==> pixel_lines(r, rows).len() >= rows,
    decreases rows,
{
    if rows > 0 {
        let y = rows - 1;
        let tokens = row_tokens(r, y);
        lemma_pixel_lines(r, y as nat);
        lemma_row_tokens(r, y);
        assert forall|k: int| 0 <= k < tokens.len() implies fits(#[trigger] tokens[k])
            && newline_free(tokens[k]) by {
            let token = tokens[k];
            assert forall|i: int| 0 <= i < token.len() implies token[i] != '\n' by {
                assert(is_digit(token[i]));
            }
        }
        lemma_wrap_bounds(tokens);
        lemma_wrap_newline_free(tokens);
        lemma_wrap_len(tokens);
        let before = pixel_lines(r, y as nat);
        assert forall|i: int| 0 <= i < pixel_lines(r, rows).len() implies {
            let line = #[trigger] pixel_lines(r, rows)[i];
            &&& 1 <= line.len() < MAXIMUM_PPM_LEN
            &&& newline_free(line)
        } by {
            if i < before.len() {
                assert(pixel_lines(r, rows)[i] == before[i]);
            } else {
                assert(pixel_lines(r, rows)[i] == wrap(tokens)[i - before.len()]);
            }
        }
    }
}

/// The lines of the rows grow with the number of rows.
pub proof fn lemma_pixel_lines_prefix(r: Raster, y: nat, rows: nat)
    requires
        y <= rows,
    ensures
        pixel_lines(r, y).len() <= pixel_lines(r, rows).len(),
        pixel_lines(r, rows).take(pixel_lines(r, y).len() as int) == pixel_lines(r, y),
    decreases rows,
{
    if y < rows {
        lemma_pixel_lines_prefix(r, y, (rows - 1) as nat);
    }
    assert(pixel_lines(r, rows).take(pixel_lines(r, y).len() as int) =~= pixel_lines(r, y));
}

/// The encoded raster read as a text of lines: its lines are the header's,
/// then the rows', then the empty line.
pub proof fn lemma_lines_of_ppm_text(r: Raster)
    ensures
        lines_of(ppm_text(r)) == ppm_lines(r),
{
    let lines = ppm_lines(r);
    let header = header_lines(r.width, r.height);
    let pixels = pixel_lines(r, r.height);
    lemma_pixel_lines(r, r.height);
    lemma_decimal_digits(r.width);
    lemma_decimal_digits(r.height);
    assert forall|i: int| 0 <= i < lines.len() implies newline_free(#[trigger] lines[i]) by {
        if i == 1 {
            let w = decimal(r.width);
            let h = decimal(r.height);
            assert forall|k: int| 0 <= k < lines[1].len() implies lines[1][k] != '\n' by {
                if k < w.len() {
                    assert(is_digit(w[k]));
                } else if k > w.len() {
                    assert(is_digit(h[k - w.len() - 1]));
                }
            }
        } else if 3 <= i < 3 + pixels.len() {
            assert(lines[i] == pixels[i - 3]);
        }
    }
    lemma_lines_of_unlines(lines);
}

/// The first three lines of an encoded raster are the identifier `P3`, the
/// width and the height in decimal with one space between them, and `255`.
pub proof fn lemma_header(r: Raster)
    ensures
        lines_of(ppm_text(r)).len() >= 4,
        lines_of(ppm_text(r))[0] == seq!['P', '3'],
        lines_of(ppm_text(r))[1] == decimal(r.width) + seq![' '] + decimal(r.height),
        lines_of(ppm_text(r))[2] == seq!['2', '5', '5'],
{
    lemma_lines_of_ppm_text(r);
}

/// Every line between the header and the last line holds at least one
/// character and fewer than the limit.
pub proof fn lemma_pixel_line_lengths(r: Raster, i: int)
    requires
        3 <= i < lines_of(ppm_text(r)).len() - 1,
    ensures
        1 <= lines_of(ppm_text(r))[i].len() < MAXIMUM_PPM_LEN,
{
    lemma_lines_of_ppm_text(r);
    lemma_pixel_lines(r, r.height);
    assert(ppm_lines(r)[i] == pixel_lines(r, r.height)[i - 3]);
}

/// The last line of an encoded raster is empty, and it is the only empty line.
pub proof fn lemma_blank_line(r: Raster)
    ensures
        lines_of(ppm_text(r)).len() >= 4,
        lines_of(ppm_text(r)).last().len() == 0,
        forall|i: int|
            0 <= i < lines_of(ppm_text(r)).len() - 1 ==> (#[trigger] lines_of(ppm_text(r))[i]).len()
                >= 1,
{
    lemma_lines_of_ppm_text(r);
    lemma_pixel_lines(r, r.height);
    lemma_decimal_digits(r.width);
    let lines = ppm_lines(r);
    assert forall|i: int| 0 <= i < lines.len() - 1 implies (#[trigger] lines[i]).len() >= 1 by {
        if i >= 3 {
            assert(lines[i] == pixel_lines(r, r.height)[i - 3]);
        }
    }
}

/// A raster without columns or without rows is encoded as the header and the
/// empty line, with no line between them.
pub proof fn lemma_no_pixels(r: Raster)
    requires
        r.width == 0 || r.height == 0,
    ensures
        lines_of(ppm_text(r)) == header_lines(r.width, r.height).push(Seq::empty()),
{
    lemma_lines_of_ppm_text(r);
    lemma_pixel_lines(r, r.height);
    assert(ppm_lines(r) =~= header_lines(r.width, r.height).push(Seq::empty()));
}

/// Each row has lines of its own: the lines from one row's start up to the
/// next row's start are that row's tokens in order, a space or a line break
/// between neighbours, and a raster with columns gives each row at least one
/// line.
pub proof fn lemma_row_block(r: Raster, y: nat)
    requires
        y < r.height,
    ensures
        3 <= row_start(r, y) <= row_start(r, y + 1) < lines_of(ppm_text(r)).len(),
        r.width > 0 ==> row_start(r, y) < row_start(r, y + 1),
        lines_of(ppm_text(r)).subrange(row_start(r, y), row_start(r, y + 1)) == wrap(
            row_tokens(r, y as int),
        ),
        join(wrap(row_tokens(r, y as int))) == join(row_tokens(r, y as int)),
{
    lemma_lines_of_ppm_text(r);
    lemma_pixel_lines_prefix(r, y + 1, r.height);
    lemma_wrap_joins(row_tokens(r, y as int));
    lemma_wrap_len(row_tokens(r, y as int));
    let all = pixel_lines(r, r.height);
    let upto = pixel_lines(r, y + 1);
    let before = pixel_lines(r, y);
    let block = wrap(row_tokens(r, y as int));
    assert(upto == before + block);
    assert(all.take(upto.len() as int) == upto);
    assert forall|i: int| 0 <= i < block.len() implies ppm_lines(r).subrange(
        row_start(r, y),
        row_start(r, y + 1),
    )[i] == block[i] by {
        assert(ppm_lines(r)[row_start(r, y) + i] == all[before.len() + i]);
        assert(all.take(upto.len() as int)[before.len() + i] == all[before.len() + i]);
        assert(upto[before.len() + i] == block[i]);
    }
    assert(ppm_lines(r).subrange(row_start(r, y), row_start(r, y + 1)) =~= block);
}

} // verus!
