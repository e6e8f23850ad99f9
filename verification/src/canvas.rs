//! The canvas: a grid of colors of fixed size, written pixel by pixel and
//! encoded as a whole.

use vstd::prelude::*;
use vstd::string::*;
use crate::channel::channel_sample;
use crate::color::Color;
use crate::decimal::{decimal, lemma_decimal_len_small, push_decimal};
use crate::ppm::{header_lines, pixel_lines, ppm_lines, ppm_text, row_tokens};
use crate::raster::Raster;
use crate::text::{lemma_unlines_concat, lemma_unlines_push, unlines, unlines_open};
use crate::wrap::{charge, lemma_wrap_take, place, wrap, MAXIMUM_PPM_LEN};

verus! {

/// A canvas of `width` by `height` pixels. The pixel at column `x` of row `y`
/// stands at index `x + y * width` of `pixels`.
pub struct Canvas {
    pub width: usize,
    pub height: usize,
    pub pixels: Vec<Color>,
}

impl View for Canvas {
    type V = Raster;

    open spec fn view(&self) -> Raster {
        Raster { width: self.width as nat, height: self.height as nat, pixels: self.pixels@ }
    }
}

impl Canvas {
    /// A canvas holds exactly one color for each of its coordinates.
    pub open spec fn wf(&self) -> bool {
        self@.wf()
    }

    /// A canvas of the given size, every pixel black. Either side may be
    /// zero; the number of pixels has to fit the machine's word.
    pub fn new(width: usize, height: usize) -> (canvas: Canvas)
        requires
            width * height <= usize::MAX,
        ensures
            canvas.wf(),
            canvas@ == Raster::blank(width as nat, height as nat),
            forall|x: int, y: int|
                canvas@.contains(x, y) ==> #[trigger] canvas@.at(x, y) == Color::black(),
    {
        let black = Color { red: 0, green: 0, blue: 0 };
        let pixels = vec![black; width * height];
        let canvas = Canvas { width, height, pixels };
        proof {
            assert(canvas@.pixels =~= Raster::blank(width as nat, height as nat).pixels);
            assert forall|x: int, y: int| canvas@.contains(x, y) implies #[trigger] canvas@.at(
                x,
                y,
            ) == Color::black() by {
                Raster::lemma_blank_is_black(width as nat, height as nat, x, y);
            }
        }
        canvas
    }

    /// The color of the pixel at `(x, y)`, which has to lie on the canvas.
    pub fn pixel_at(&self, x: usize, y: usize) -> (c: Color)
        requires
            self.wf(),
            x < self.width,
            y < self.height,
        ensures
            c == self@.at(x as int, y as int),
    {
        proof {
            self@.lemma_offset_bound(x as int, y as int);
            assert(self.pixels@.len() == self.pixels.len() <= usize::MAX);
        }
        self.pixels[x + y * self.width]
    }

    /// Overwrites the pixel at `(x, y)`, which has to lie on the canvas, with
    /// `c`. No other pixel changes.
    pub fn write_pixel(&mut self, x: usize, y: usize, c: Color)
        requires
            old(self).wf(),
            x < old(self).width,
            y < old(self).height,
        ensures
            final(self).wf(),
            final(self)@ == old(self)@.with_pixel(x as int, y as int, c),
            final(self)@.at(x as int, y as int) == c,
            forall|i: int, j: int|
                old(self)@.contains(i, j) && (i != x || j != y) ==> #[trigger] final(self)@.at(i, j)
                    == old(self)@.at(i, j),
    {
        let ghost before = self@;
        proof {
            before.lemma_offset_bound(x as int, y as int);
            assert(self.pixels@.len() == self.pixels.len() <= usize::MAX);
        }
        let index = x + y * self.width;
        self.pixels.set(index, c);
        proof {
            assert(self@ == before.with_pixel(x as int, y as int, c));
            assert forall|i: int, j: int| before.contains(i, j) implies #[trigger] self@.at(i, j)
                == if i == x && j == y {
                c
            } else {
                before.at(i, j)
            } by {
                before.lemma_write_then_read(x as int, y as int, c, i, j);
            }
        }
    }

    /// Appends the lines of row `y` to `buffer`: the samples of its pixels
    /// from left to right, wrapped, each line ended by a line feed.
    fn push_row(&self, buffer: &mut String, y: usize)
        requires
            self.wf(),
            y < self.height,
        ensures
            final(buffer)@ == old(buffer)@ + unlines(wrap(row_tokens(self@, y as int))),
    {
        let ghost base = buffer@;
        let ghost tokens = row_tokens(self@, y as int);
        let mut column_width: usize = 0;
        let mut x: usize = 0;
        proof {
            assert(tokens.take(0) =~= Seq::<Seq<char>>::empty());
            assert(buffer@ =~= base + unlines_open(wrap(tokens.take(0))));
        }
        while x < self.width
            invariant
                self.wf(),
                y < self.height,
                x <= self.width,
                tokens == row_tokens(self@, y as int),
                buffer@ == base + unlines_open(wrap(tokens.take(3 * x))),
                column_width == charge(wrap(tokens.take(3 * x))),
                column_width <= MAXIMUM_PPM_LEN,
            decreases self.width - x,
        {
            let pixel = self.pixel_at(x, y);
            proof {
                lemma_wrap_take(tokens, 3 * x);
                lemma_wrap_take(tokens, 3 * x + 1);
                lemma_wrap_take(tokens, 3 * x + 2);
            }
            push_token(
                buffer,
                &mut column_width,
                channel_sample(pixel.red),
                Ghost(base),
                Ghost(wrap(tokens.take(3 * x))),
            );
            push_token(
                buffer,
                &mut column_width,
                channel_sample(pixel.green),
                Ghost(base),
                Ghost(wrap(tokens.take(3 * x + 1))),
            );
            push_token(
                buffer,
                &mut column_width,
                channel_sample(pixel.blue),
                Ghost(base),
                Ghost(wrap(tokens.take(3 * x + 2))),
            );
            x += 1;
        }
        proof {
            assert(tokens.take(3 * x) =~= tokens);
        }
        if column_width != 0 {
            buffer.append("\n");
            proof {
                reveal_strlit("\n");
                let lines = wrap(tokens);
                assert(lines =~= lines.drop_last().push(lines.last()));
                lemma_unlines_push(lines.drop_last(), lines.last());
                assert("\n"@ =~= seq!['\n']);
                assert(buffer@ =~= base + unlines(lines));
            }
        } else {
            assert(buffer@ =~= base + unlines(wrap(tokens)));
        }
    }

    /// The canvas as a plain-text PPM image: the header, the rows from top to
    /// bottom with no line of 70 characters or more, and an empty line.
    pub fn to_ppm(&self) -> (text: String)
        requires
            self.wf(),
        ensures
            text@ == ppm_text(self@),
    {
        let mut buffer = String::new();
        buffer.append("P3\n");
        push_decimal(&mut buffer, self.width);
        buffer.append(" ");
        push_decimal(&mut buffer, self.height);
        buffer.append("\n255\n");
        let ghost header = header_lines(self.width as nat, self.height as nat);
        proof {
            reveal_strlit("P3\n");
            reveal_strlit(" ");
            reveal_strlit("\n255\n");
            reveal_with_fuel(unlines, 4);
            assert("P3\n"@ =~= seq!['P', '3', '\n']);
            assert(" "@ =~= seq![' ']);
            assert("\n255\n"@ =~= seq!['\n', '2', '5', '5', '\n']);
            assert(header.drop_last().drop_last().drop_last() =~= Seq::<Seq<char>>::empty());
            assert(buffer@ =~= unlines(header));
            assert(header + pixel_lines(self@, 0) =~= header);
        }
        let mut y: usize = 0;
        while y < self.height
            invariant
                self.wf(),
                y <= self.height,
                header == header_lines(self.width as nat, self.height as nat),
                buffer@ == unlines(header + pixel_lines(self@, y as nat)),
            decreases self.height - y,
        {
            self.push_row(&mut buffer, y);
            proof {
                let done = header + pixel_lines(self@, y as nat);
                let row = wrap(row_tokens(self@, y as int));
                lemma_unlines_concat(done, row);
                assert(header + pixel_lines(self@, (y + 1) as nat) =~= done + row);
            }
            y += 1;
        }
        buffer.append("\n");
        proof {
            reveal_strlit("\n");
            assert("\n"@ =~= seq!['\n']);
            let body = header + pixel_lines(self@, self.height as nat);
            lemma_unlines_push(body, Seq::empty());
            assert(body.push(Seq::empty()) =~= ppm_lines(self@));
            assert(buffer@ =~= unlines(body) + Seq::<char>::empty() + seq!['\n']);
        }
        buffer
    }
}

/// The number of characters of a sample's decimal text.
fn token_len(s: u8) -> (len: usize)
    ensures
        len == decimal(s as nat).len(),
        1 <= len <= 3,
{
    proof {
        lemma_decimal_len_small(s as nat);
    }
    if s < 10 {
        1
    } else if s < 100 {
        2
    } else {
        3
    }
}

/// Appends one sample to a row under way. `lines` are the row's lines so far,
/// the last of them still open, and `base` is the text before the row.
fn push_token(
    buffer: &mut String,
    column_width: &mut usize,
    s: u8,
    Ghost(base): Ghost<Seq<char>>,
    Ghost(lines): Ghost<Seq<Seq<char>>>,
)
    requires
        old(buffer)@ == base + unlines_open(lines),
        *old(column_width) == charge(lines),
        *old(column_width) <= MAXIMUM_PPM_LEN,
    ensures
        final(buffer)@ == base + unlines_open(place(lines, decimal(s as nat))),
        *final(column_width) == charge(place(lines, decimal(s as nat))),
        *final(column_width) <= MAXIMUM_PPM_LEN,
{
    let ghost token = decimal(s as nat);
    let len = token_len(s);
    proof {
        reveal_strlit("\n");
        reveal_strlit(" ");
        assert("\n"@ =~= seq!['\n']);
        assert(" "@ =~= seq![' ']);
    }
    if *column_width + len + 1 > MAXIMUM_PPM_LEN {
        buffer.append("\n");
        *column_width = 0;
        proof {
            assert(lines =~= lines.drop_last().push(lines.last()));
            lemma_unlines_push(lines.drop_last(), lines.last());
            assert(lines.push(token).drop_last() =~= lines);
        }
    }
    if *column_width != 0 {
        buffer.append(" ");
        proof {
            let joined = lines.last() + seq![' '] + token;
            assert(lines.drop_last().push(joined).drop_last() =~= lines.drop_last());
        }
    }
    push_decimal(buffer, s as usize);
    *column_width += len + 1;
    proof {
        let placed = place(lines, token);
        if lines.len() == 0 {
            assert(placed.drop_last() =~= Seq::<Seq<char>>::empty());
        }
        assert(buffer@ =~= base + unlines_open(placed));
    }
}

} // verus!
