use vstd::prelude::*;
use crate::canvas::Canvas;
use crate::color::{Color, level_of, channel_level, lemma_level_clamped};
use crate::digits::{dec_digits, dec_of, lemma_dec_digits_are_digits, lemma_dec_digits_len_3,
    lemma_dec_digits_len_20};
use crate::header::{PPMHeader, PPMHeaderReader, magic_bytes, tail_bytes};
use crate::wrap::{wrapped_lines, group_by_line_length, raw_tokens, newlines_as_spaces,
    newline_free, within_line_budget, line_budget, lemma_wrapped_lines_preserve,
    lemma_wrapped_lines_budget, lemma_wrap_onto_ends_newline, lemma_budget_short,
    lemma_budget_concat};

verus! {

/// The three decimal tokens one pixel quantizes to, in r, g, b order.
pub open spec fn pixel_tokens(c: Color) -> Seq<Seq<u8>> {
    seq![
        dec_digits(level_of(c.r as int) as nat),
        dec_digits(level_of(c.g as int) as nat),
        dec_digits(level_of(c.b as int) as nat),
    ]
}

/// The tokens of a whole row of pixels, left to right.
pub open spec fn row_tokens(row: Seq<Color>) -> Seq<Seq<u8>>
    decreases row.len(),
{
    if row.len() == 0 {
        Seq::empty()
    } else {
        row_tokens(row.drop_last()) + pixel_tokens(row.last())
    }
}

/// Row `y` of a canvas.
pub open spec fn row_of(c: Canvas, y: int) -> Seq<Color> {
    c.data@.subrange(y * c.width, y * c.width + c.width)
}

/// One canvas row, quantized and wrapped into lines.
pub open spec fn wrapped_row(row: Seq<Color>) -> Seq<u8> {
    wrapped_lines(row_tokens(row))
}

/// The pixel section of the first `y` rows, top row first.
pub open spec fn rows_bytes(c: Canvas, y: int) -> Seq<u8>
    decreases y,
{
    if y <= 0 {
        Seq::empty()
    } else {
        rows_bytes(c, y - 1) + wrapped_row(row_of(c, y - 1))
    }
}

/// The header a canvas encodes under: "P3\n{width} {height}\n255\n".
pub open spec fn header_prefix(c: Canvas) -> Seq<u8> {
    magic_bytes() + dec_digits(c.width as nat).push(32u8) + dec_digits(c.height as nat).push(10u8)
        + dec_digits(255).push(10u8)
}

/// The complete plain PPM serialization of a canvas.
pub open spec fn encoded(c: Canvas) -> Seq<u8> {
    header_prefix(c) + rows_bytes(c, c.height as int)
}

/// The quantized tokens of canvas row `y`, computed.
fn row_token_vecs(canvas: &Canvas, y: usize) -> (toks: Vec<Vec<u8>>)
    requires
        canvas.wf(),
        y < canvas.height,
    ensures
        toks.deep_view() == row_tokens(row_of(*canvas, y as int)),
{
    let ghost row = row_of(*canvas, y as int);
    proof {
        assert(row.len() == canvas.width) by (nonlinear_arith)
            requires
                row == row_of(*canvas, y as int),
                canvas.wf(),
                0 <= y < canvas.height,
        ;
    }
    let mut toks: Vec<Vec<u8>> = Vec::new();
    let mut x: usize = 0;
    proof {
        assert(toks.deep_view() =~~= row_tokens(row.take(0)));
    }
    while x < canvas.width
        invariant
            canvas.wf(),
            y < canvas.height,
            x <= canvas.width,
            row == row_of(*canvas, y as int),
            row.len() == canvas.width,
            toks.deep_view() == row_tokens(row.take(x as int)),
        decreases canvas.width - x,
    {
        let c = *canvas.pixel_at((x, y));
        proof {
            assert(0 <= y as int * canvas.width && y as int * canvas.width + canvas.width
                <= canvas.data@.len()) by (nonlinear_arith)
                requires
                    canvas.wf(),
                    0 <= y < canvas.height,
            ;
            assert(row[x as int] == canvas.data@[y as int * canvas.width + x as int]);
            assert(row[x as int] == c);
        }
        toks.push(dec_of(channel_level(c.r) as u64));
        toks.push(dec_of(channel_level(c.g) as u64));
        toks.push(dec_of(channel_level(c.b) as u64));
        proof {
            lemma_level_clamped(c.r as int);
            lemma_level_clamped(c.g as int);
            lemma_level_clamped(c.b as int);
            assert(row.take(x as int + 1).drop_last() =~= row.take(x as int));
            assert(row.take(x as int + 1).last() == row[x as int]);
            assert(toks.deep_view() =~~= row_tokens(row.take(x as int)) + pixel_tokens(
                row[x as int],
            ));
        }
        x = x + 1;
    }
    proof {
        assert(row.take(x as int) =~= row);
    }
    toks
}

/// Pairs an output buffer with the canvas it serializes.
pub struct PPMWriter<'c> {
    pub buffer: Vec<u8>,
    pub canvas: &'c Canvas,
}

/// Holds the fully encoded image of a canvas and hands its bytes out
/// in successive chunks, like a blocking byte stream.
pub struct PPMReader<'c> {
    pub canvas: &'c Canvas,
    pub written: usize,
    pub read: usize,
    pub inner_buf: Vec<u8>,
}

impl<'c> PPMReader<'c> {
    pub open spec fn wf(&self) -> bool {
        self.read <= self.inner_buf@.len()
    }

    /// Encodes the whole canvas eagerly: header first, then every row,
    /// top row first, each quantized and wrapped.
    pub fn new(canvas: &'c Canvas) -> (r: PPMReader<'c>)
        requires
            canvas.wf(),
        ensures
            r.wf(),
            r.canvas == canvas,
            r.read == 0,
            r.written == r.inner_buf@.len(),
            r.inner_buf@ == encoded(*canvas),
    {
        let header = PPMHeader {
            magic: [80u8, 51u8, 10u8],
            width: canvas.width,
            height: canvas.height,
            color_scale: 255,
        };
        let mut header_reader = PPMHeaderReader::new(&header);
        let mut inner_buf = header_reader.read_to_end();
        proof {
            reveal_with_fuel(tail_bytes, 6);
            assert(header.magic@ =~= magic_bytes());
            assert(inner_buf@ =~= header_prefix(*canvas));
            assert(inner_buf@ =~= header_prefix(*canvas) + rows_bytes(*canvas, 0));
        }
        let mut y: usize = 0;
        while y < canvas.height
            invariant
                canvas.wf(),
                y <= canvas.height,
                inner_buf@ == header_prefix(*canvas) + rows_bytes(*canvas, y as int),
            decreases canvas.height - y,
        {
            let toks = row_token_vecs(canvas, y);
            let mut rowb = group_by_line_length(&toks);
            inner_buf.append(&mut rowb);
            proof {
                assert(inner_buf@ =~= header_prefix(*canvas) + rows_bytes(*canvas, y as int + 1));
            }
            y = y + 1;
        }
        let written = inner_buf.len();
        PPMReader { canvas, written, read: 0, inner_buf }
    }

    /// Hands out the next `max` bytes of the encoded image, or all the
    /// bytes left if fewer; once exhausted it returns nothing.
    pub fn read(&mut self, max: usize) -> (out: Vec<u8>)
        requires
            old(self).wf(),
        ensures
            final(self).wf(),
            final(self).canvas == old(self).canvas,
            final(self).inner_buf == old(self).inner_buf,
            final(self).written == old(self).written,
            out@.len() == vstd::math::min(
                max as int,
                old(self).inner_buf@.len() - old(self).read,
            ),
            out@ == old(self).inner_buf@.subrange(
                old(self).read as int,
                old(self).read + out@.len(),
            ),
            final(self).read == old(self).read + out@.len(),
    {
        let avail = self.inner_buf.len() - self.read;
        let take = if max < avail {
            max
        } else {
            avail
        };
        let ghost r0 = self.read as int;
        let ghost buf = self.inner_buf@;
        let mut out: Vec<u8> = Vec::new();
        proof {
            assert(out@ =~= buf.subrange(r0, r0 + 0));
        }
        let mut j: usize = 0;
        while j < take
            invariant
                j <= take,
                0 <= r0,
                r0 + take <= buf.len(),
                buf.len() <= usize::MAX,
                self.read == r0,
                self.inner_buf@ == buf,
                out@ == buf.subrange(r0, r0 + j),
            decreases take - j,
        {
            out.push(self.inner_buf[self.read + j]);
            proof {
                assert(out@ =~= buf.subrange(r0, r0 + j + 1));
            }
            j = j + 1;
        }
        self.read = self.read + take;
        out
    }

    /// Hands out every byte of the encoded image not yet read.
    pub fn read_to_end(&mut self) -> (out: Vec<u8>)
        requires
            old(self).wf(),
        ensures
            final(self).wf(),
            final(self).canvas == old(self).canvas,
            final(self).inner_buf == old(self).inner_buf,
            final(self).written == old(self).written,
            out@ == old(self).inner_buf@.skip(old(self).read as int),
            final(self).read == final(self).inner_buf@.len(),
    {
        proof {
            assert(self.inner_buf.len() <= usize::MAX);
        }
        let out = self.read(usize::MAX);
        proof {
            assert(out@ =~= old(self).inner_buf@.skip(old(self).read as int));
        }
        out
    }
}

/// Every token of a row is one to three ASCII digits.
pub proof fn lemma_row_tokens_shape(row: Seq<Color>)
    ensures
        row_tokens(row).len() == 3 * row.len(),
        forall|t: int|
            0 <= t < row_tokens(row).len() ==> {
                &&& 1 <= (#[trigger] row_tokens(row)[t]).len() <= 3
                &&& newline_free(row_tokens(row)[t])
            },
    decreases row.len(),
{
    if row.len() > 0 {
        lemma_row_tokens_shape(row.drop_last());
        let c = row.last();
        lemma_level_clamped(c.r as int);
        lemma_level_clamped(c.g as int);
        lemma_level_clamped(c.b as int);
        lemma_dec_digits_are_digits(level_of(c.r as int) as nat);
        lemma_dec_digits_are_digits(level_of(c.g as int) as nat);
        lemma_dec_digits_are_digits(level_of(c.b as int) as nat);
        lemma_dec_digits_len_3(level_of(c.r as int) as nat);
        lemma_dec_digits_len_3(level_of(c.g as int) as nat);
        lemma_dec_digits_len_3(level_of(c.b as int) as nat);
    }
}

/// The pixel section of a well-formed canvas is never empty and always
/// closes with a newline, and no 71-byte window of it misses one.
pub proof fn lemma_rows_shape(c: Canvas, y: int)
    requires
        c.wf(),
        0 <= y <= c.height,
    ensures
        within_line_budget(rows_bytes(c, y)),
        rows_bytes(c, y).len() >= 1 ==> rows_bytes(c, y).last() == 10u8,
        y >= 1 ==> rows_bytes(c, y).len() >= 1,
    decreases y,
{
    if y > 0 {
        lemma_rows_shape(c, y - 1);
        let row = row_of(c, y - 1);
        let toks = row_tokens(row);
        lemma_row_tokens_shape(row);
        lemma_wrapped_lines_budget(toks);
        assert(row.len() == c.width) by (nonlinear_arith)
            requires
                row == row_of(c, y - 1),
                c.wf(),
                0 <= y - 1 < c.height,
        ;
        assert(toks.len() >= 1);
        lemma_wrap_onto_ends_newline(toks.skip(1), toks[0]);
        if rows_bytes(c, y - 1).len() == 0 {
            assert(rows_bytes(c, y) =~= wrapped_row(row));
        } else {
            lemma_budget_concat(rows_bytes(c, y - 1), wrapped_row(row));
        }
    } else {
        lemma_budget_short(rows_bytes(c, y));
    }
}

/// The encoded image begins with exactly the header
/// "P3\n{width} {height}\n255\n".
pub proof fn lemma_encoded_header(c: Canvas)
    requires
        c.wf(),
    ensures
        encoded(c).len() >= header_prefix(c).len(),
        encoded(c).take(header_prefix(c).len() as int) == header_prefix(c),
{
    assert(encoded(c).take(header_prefix(c).len() as int) =~= header_prefix(c));
}

/// No line of an encoded image exceeds 70 characters: every 71-byte
/// window of it contains a newline.
pub proof fn lemma_encoded_within_line_budget(c: Canvas)
    requires
        c.wf(),
    ensures
        within_line_budget(encoded(c)),
{
    lemma_dec_digits_len_20(c.width as nat);
    lemma_dec_digits_len_20(c.height as nat);
    lemma_dec_digits_len_3(255);
    assert(header_prefix(c).len() <= 49);
    assert(header_prefix(c).last() == 10u8);
    lemma_budget_short(header_prefix(c));
    lemma_rows_shape(c, c.height as int);
    lemma_budget_concat(header_prefix(c), rows_bytes(c, c.height as int));
}

/// Wrapping a row never splits a numeric token: mapping the wrapped
/// row's newlines back to spaces recovers the raw, unwrapped row.
pub proof fn lemma_wrapped_row_preserves_tokens(row: Seq<Color>)
    ensures
        newlines_as_spaces(wrapped_row(row)) == raw_tokens(row_tokens(row)),
{
    lemma_row_tokens_shape(row);
    lemma_wrapped_lines_preserve(row_tokens(row));
}

/// A non-empty encoded image always ends with a newline.
pub proof fn lemma_encoded_ends_newline(c: Canvas)
    requires
        c.wf(),
    ensures
        encoded(c).len() >= 1,
        encoded(c).last() == 10u8,
{
    lemma_rows_shape(c, c.height as int);
    assert(rows_bytes(c, c.height as int).len() >= 1);
}

} // verus!
