use vstd::prelude::*;

pub mod lines;
pub mod reading;

use vstd::string::*;
use crate::color::Rgb;
use crate::{clamp_i32, clamped};

verus! {

/// No line of pixel data reaches this many characters.
pub const LINE_LIMIT: usize = 70;

/// The largest value a channel takes in the file.
pub const MAX_SAMPLE: i32 = 255;

/// The character for a single decimal digit.
pub open spec fn digit(d: int) -> char {
    if d == 0 {
        '0'
    } else if d == 1 {
        '1'
    } else if d == 2 {
        '2'
    } else if d == 3 {
        '3'
    } else if d == 4 {
        '4'
    } else if d == 5 {
        '5'
    } else if d == 6 {
        '6'
    } else if d == 7 {
        '7'
    } else if d == 8 {
        '8'
    } else {
        '9'
    }
}

/// A number in decimal, without sign or leading zeros.
pub open spec fn decimal(n: nat) -> Seq<char>
    decreases n,
{
    if n < 10 {
        seq![digit(n as int)]
    } else {
        decimal(n / 10).push(digit((n % 10) as int))
    }
}

/// One channel of a pixel, limited to what the file can hold: `which` is 0
/// for red, 1 for green and 2 for blue.
pub open spec fn channel(pixel: Rgb, which: int) -> int {
    let raw = if which == 0 {
        pixel.red
    } else if which == 1 {
        pixel.green
    } else {
        pixel.blue
    };
    clamped(raw as int, 0, MAX_SAMPLE as int)
}

/// The numbers that make up the pixel data: red, green and blue of each pixel
/// in turn.
pub open spec fn samples(pixels: Seq<Rgb>) -> Seq<int> {
    Seq::new(3 * pixels.len(), |i: int| channel(pixels[i / 3], i % 3))
}

/// What is written for `value` behind a line that holds `line_len` characters
/// so far: the number itself, after a line break if it would bring the line
/// to `LINE_LIMIT` characters, after a space if the line is not empty.
pub open spec fn placed(line_len: nat, value: int) -> Seq<char> {
    let token = decimal(value as nat);
    if line_len + 1 + token.len() >= LINE_LIMIT {
        seq!['\n'] + token
    } else if line_len == 0 {
        token
    } else {
        seq![' '] + token
    }
}

/// The length of the current line once `value` has been placed.
pub open spec fn advanced(line_len: nat, value: int) -> nat {
    let token = decimal(value as nat);
    if line_len + 1 + token.len() >= LINE_LIMIT || line_len == 0 {
        token.len()
    } else {
        line_len + 1 + token.len()
    }
}

/// The rest of a pixel row, `values`, behind a line of `line_len` characters:
/// every value placed in turn, and a line break at the end of the row.
pub open spec fn row_text(line_len: nat, values: Seq<int>) -> Seq<char>
    decreases values.len(),
{
    if values.len() == 0 {
        seq!['\n']
    } else {
        placed(line_len, values[0]) + row_text(
            advanced(line_len, values[0]),
            values.drop_first(),
        )
    }
}

/// The pixel data: `values` cut into rows of `row_len` numbers, each row
/// starting on a line of its own.
pub open spec fn body(row_len: nat, values: Seq<int>) -> Seq<char>
    decreases values.len(),
{
    if row_len == 0 || values.len() < row_len {
        Seq::empty()
    } else {
        row_text(0, values.take(row_len as int)) + body(row_len, values.skip(row_len as int))
    }
}

/// The three header lines: the format's name, the image size, the largest
/// sample value.
pub open spec fn header(width: nat, height: nat) -> Seq<char> {
    seq!['P', '3', '\n'] + decimal(width) + seq![' '] + decimal(height) + seq![
        '\n',
        '2',
        '5',
        '5',
        '\n',
    ]
}

/// A whole image as plain-text PPM: header, pixel data, and a closing line
/// break.
pub open spec fn ppm_text(width: nat, height: nat, pixels: Seq<Rgb>) -> Seq<char> {
    header(width, height) + body(3 * width, samples(pixels)) + seq!['\n']
}

fn push_digit(text: &mut String, d: usize)
    requires
        d < 10,
    ensures
        final(text)@ == old(text)@.push(digit(d as int)),
{
    proof {
        reveal_strlit("0");
        reveal_strlit("1");
        reveal_strlit("2");
        reveal_strlit("3");
        reveal_strlit("4");
        reveal_strlit("5");
        reveal_strlit("6");
        reveal_strlit("7");
        reveal_strlit("8");
        reveal_strlit("9");
    }
    let s: &str = if d == 0 {
        "0"
    } else if d == 1 {
        "1"
    } else if d == 2 {
        "2"
    } else if d == 3 {
        "3"
    } else if d == 4 {
        "4"
    } else if d == 5 {
        "5"
    } else if d == 6 {
        "6"
    } else if d == 7 {
        "7"
    } else if d == 8 {
        "8"
    } else {
        "9"
    };
    assert(s@ =~= seq![digit(d as int)]);
    text.append(s);
    assert(text@ =~= old(text)@.push(digit(d as int)));
}

/// Appends `n` in decimal.
fn push_decimal(text: &mut String, n: usize)
    ensures
        final(text)@ == old(text)@ + decimal(n as nat),
    decreases n,
{
    if n >= 10 {
        push_decimal(text, n / 10);
    }
    push_digit(text, n % 10);
    assert(text@ =~= old(text)@ + decimal(n as nat));
}

/// A sample takes one to three characters.
pub(crate) proof fn lemma_sample_width(value: int)
    requires
        0 <= value <= MAX_SAMPLE,
    ensures
        decimal(value as nat).len() == if value < 10 {
            1nat
        } else if value < 100 {
            2nat
        } else {
            3nat
        },
{
    reveal_with_fuel(decimal, 3);
}

/// Places one sample behind the current line, whose length is kept in
/// `line_len`.
fn push_sample(text: &mut String, line_len: &mut usize, value: i32)
    requires
        0 <= value <= MAX_SAMPLE,
        *old(line_len) < LINE_LIMIT,
    ensures
        final(text)@ == old(text)@ + placed(*old(line_len) as nat, value as int),
        *final(line_len) == advanced(*old(line_len) as nat, value as int),
        *final(line_len) < LINE_LIMIT,
{
    proof {
        lemma_sample_width(value as int);
        reveal_strlit("\n");
        reveal_strlit(" ");
    }
    let token_len: usize = if value < 10 {
        1
    } else if value < 100 {
        2
    } else {
        3
    };
    if *line_len + 1 + token_len >= LINE_LIMIT {
        text.append("\n");
        *line_len = 0;
    } else if *line_len > 0 {
        text.append(" ");
        *line_len = *line_len + 1;
    }
    let ghost before = text@;
    push_decimal(text, value as usize);
    *line_len = *line_len + token_len;
    proof {
        let token = decimal(value as nat);
        let old_len = *old(line_len) as nat;
        if old_len + 1 + token.len() >= LINE_LIMIT {
            assert(before =~= old(text)@ + seq!['\n']);
            assert(text@ =~= old(text)@ + (seq!['\n'] + token));
        } else if old_len == 0 {
            assert(before =~= old(text)@);
        } else {
            assert(before =~= old(text)@ + seq![' ']);
            assert(text@ =~= old(text)@ + (seq![' '] + token));
        }
    }
}

/// The first of the values from `from` up to `to` is placed, and the others
/// follow behind it.
proof fn lemma_row_text_next(line_len: nat, values: Seq<int>, from: int, to: int)
    requires
        0 <= from < to <= values.len(),
    ensures
        row_text(line_len, values.subrange(from, to)) == placed(line_len, values[from]) + row_text(
            advanced(line_len, values[from]),
            values.subrange(from + 1, to),
        ),
{
    let row = values.subrange(from, to);
    assert(row[0] == values[from]);
    assert(row.drop_first() =~= values.subrange(from + 1, to));
}

/// The values from `from` on start with a full row, where one is left.
proof fn lemma_body_next(row_len: nat, values: Seq<int>, from: int)
    requires
        row_len > 0,
        0 <= from,
        from + row_len <= values.len(),
    ensures
        body(row_len, values.skip(from)) == row_text(0, values.subrange(from, from + row_len))
            + body(row_len, values.skip(from + row_len)),
{
    let rest = values.skip(from);
    assert(rest.take(row_len as int) =~= values.subrange(from, from + row_len));
    assert(rest.skip(row_len as int) =~= values.skip(from + row_len));
}

/// What is written for the three channels of `pixel` behind a line of
/// `line_len` characters.
pub open spec fn pixel_text(line_len: nat, pixel: Rgb) -> Seq<char> {
    let red = channel(pixel, 0);
    let green = channel(pixel, 1);
    let blue = channel(pixel, 2);
    let after_red = advanced(line_len, red);
    let after_green = advanced(after_red, green);
    placed(line_len, red) + placed(after_red, green) + placed(after_green, blue)
}

/// The length of the current line once the three channels of `pixel` have
/// been placed.
pub open spec fn pixel_advanced(line_len: nat, pixel: Rgb) -> nat {
    advanced(advanced(advanced(line_len, channel(pixel, 0)), channel(pixel, 1)), channel(pixel, 2))
}

/// The samples of pixel `index` stand at `3 * index` and the two places
/// behind it.
proof fn lemma_samples_of_pixel(pixels: Seq<Rgb>, index: int)
    requires
        0 <= index < pixels.len(),
    ensures
        samples(pixels).len() == 3 * pixels.len(),
        samples(pixels)[3 * index] == channel(pixels[index], 0),
        samples(pixels)[3 * index + 1] == channel(pixels[index], 1),
        samples(pixels)[3 * index + 2] == channel(pixels[index], 2),
{
}

/// Three values in a row are placed one behind the other, and the rest of the
/// row follows.
proof fn lemma_row_text_three(line_len: nat, values: Seq<int>, at: int, row_end: int)
    requires
        0 <= at,
        at + 3 <= row_end <= values.len(),
    ensures
        row_text(line_len, values.subrange(at, row_end)) == ({
            let len1 = advanced(line_len, values[at]);
            let len2 = advanced(len1, values[at + 1]);
            let len3 = advanced(len2, values[at + 2]);
            placed(line_len, values[at]) + placed(len1, values[at + 1]) + placed(
                len2,
                values[at + 2],
            ) + row_text(len3, values.subrange(at + 3, row_end))
        }),
{
    let len1 = advanced(line_len, values[at]);
    let len2 = advanced(len1, values[at + 1]);
    let len3 = advanced(len2, values[at + 2]);
    let first = placed(line_len, values[at]);
    let second = placed(len1, values[at + 1]);
    let third = placed(len2, values[at + 2]);
    let tail = row_text(len3, values.subrange(at + 3, row_end));
    lemma_row_text_next(line_len, values, at, row_end);
    lemma_row_text_next(len1, values, at + 1, row_end);
    lemma_row_text_next(len2, values, at + 2, row_end);
    assert(first + (second + (third + tail)) =~= first + second + third + tail);
}

/// In a row of samples, the three of one pixel are placed together and the
/// later pixels follow behind them.
proof fn lemma_row_text_pixel(line_len: nat, pixels: Seq<Rgb>, index: int, row_end: int)
    requires
        0 <= index,
        3 * index + 3 <= row_end <= 3 * pixels.len(),
    ensures
        row_text(line_len, samples(pixels).subrange(3 * index, row_end)) == pixel_text(
            line_len,
            pixels[index],
        ) + row_text(
            pixel_advanced(line_len, pixels[index]),
            samples(pixels).subrange(3 * index + 3, row_end),
        ),
{
    lemma_samples_of_pixel(pixels, index);
    lemma_row_text_three(line_len, samples(pixels), 3 * index, row_end);
}

/// Places the three channels of one pixel behind the current line.
fn push_pixel(text: &mut String, line_len: &mut usize, pixel: Rgb)
    requires
        *old(line_len) < LINE_LIMIT,
    ensures
        final(text)@ == old(text)@ + pixel_text(*old(line_len) as nat, pixel),
        *final(line_len) == pixel_advanced(*old(line_len) as nat, pixel),
        *final(line_len) < LINE_LIMIT,
{
    push_sample(text, line_len, clamp_i32(pixel.red, 0, MAX_SAMPLE));
    push_sample(text, line_len, clamp_i32(pixel.green, 0, MAX_SAMPLE));
    push_sample(text, line_len, clamp_i32(pixel.blue, 0, MAX_SAMPLE));
    assert(text@ =~= old(text)@ + pixel_text(*old(line_len) as nat, pixel));
}

/// Writes an image of `width` by `height` pixels, given row by row from the
/// top, as plain-text PPM.
pub(crate) fn encode(width: usize, height: usize, pixels: &Vec<Rgb>) -> (text: String)
    requires
        pixels.len() == width * height,
    ensures
        text@ == ppm_text(width as nat, height as nat, pixels@),
{
    let ghost values = samples(pixels@);
    let ghost row_len = 3 * (width as nat);
    let ghost target = ppm_text(width as nat, height as nat, pixels@);
    let mut text = String::new();
    text.append("P3\n");
    push_decimal(&mut text, width);
    text.append(" ");
    push_decimal(&mut text, height);
    text.append("\n255\n");
    proof {
        reveal_strlit("P3\n");
        reveal_strlit(" ");
        reveal_strlit("\n255\n");
        assert("P3\n"@ =~= seq!['P', '3', '\n']);
        assert(" "@ =~= seq![' ']);
        assert("\n255\n"@ =~= seq!['\n', '2', '5', '5', '\n']);
        assert(text@ =~= header(width as nat, height as nat));
        assert(values.skip(0) =~= values);
    }
    if width > 0 {
        let mut index: usize = 0;
        let mut y: usize = 0;
        while y < height
            invariant
                width > 0,
                y <= height,
                index == y * width,
                pixels.len() == width * height,
                values == samples(pixels@),
                row_len == 3 * width,
                target == ppm_text(width as nat, height as nat, pixels@),
                text@ + body(row_len, values.skip(3 * index)) + seq!['\n'] == target,
            decreases height - y,
        {
            let ghost row_end = 3 * index + row_len;
            proof {
                lemma_row_bounds(y as int, width as int, height as int);
                lemma_body_next(row_len, values, 3 * index);
                assert(text@ + row_text(0, values.subrange(3 * index, row_end)) + body(
                    row_len,
                    values.skip(row_end),
                ) + seq!['\n'] =~= text@ + body(row_len, values.skip(3 * index)) + seq!['\n']);
            }
            let mut line_len: usize = 0;
            let mut x: usize = 0;
            while x < width
                invariant
                    x <= width,
                    index == y * width + x,
                    row_end == 3 * (y * width + width),
                    row_end <= 3 * pixels.len(),
                    values == samples(pixels@),
                    line_len < LINE_LIMIT,
                    text@ + row_text(line_len as nat, values.subrange(3 * index, row_end)) + body(
                        row_len,
                        values.skip(row_end),
                    ) + seq!['\n'] == target,
                decreases width - x,
            {
                let ghost start = text@;
                let ghost len0 = line_len as nat;
                proof {
                    lemma_row_text_pixel(len0, pixels@, index as int, row_end);
                }
                let pixel = pixels[index];
                push_pixel(&mut text, &mut line_len, pixel);
                index = index + 1;
                x = x + 1;
                proof {
                    assert(text@ + row_text(line_len as nat, values.subrange(3 * index, row_end))
                        + body(row_len, values.skip(row_end)) + seq!['\n'] =~= start + row_text(
                        len0,
                        values.subrange(3 * (index - 1), row_end),
                    ) + body(row_len, values.skip(row_end)) + seq!['\n']);
                }
            }
            text.append("\n");
            y = y + 1;
            proof {
                reveal_strlit("\n");
                assert("\n"@ =~= seq!['\n']);
                assert(values.subrange(3 * index, row_end) =~= Seq::<int>::empty());
                assert(index == y * width) by (nonlinear_arith)
                    requires
                        index == (y - 1) * width + width,
                ;
            }
        }
        proof {
            assert(index == pixels.len()) by (nonlinear_arith)
                requires
                    index == y * width,
                    y == height,
                    pixels.len() == width * height,
            ;
            assert(values.skip(3 * index).len() == 0);
        }
    }
    text.append("\n");
    proof {
        reveal_strlit("\n");
        assert("\n"@ =~= seq!['\n']);
    }
    text
}

/// Row `y` of a `width` by `height` grid ends inside the grid.
proof fn lemma_row_bounds(y: int, width: int, height: int)
    requires
        0 <= y < height,
        0 <= width,
    ensures
        0 <= y * width,
        y * width + width <= width * height,
{
    assert(y * width >= 0) by (nonlinear_arith)
        requires
            y >= 0,
            width >= 0,
    ;
    assert(y * width + width <= width * height) by (nonlinear_arith)
        requires
            y + 1 <= height,
            width >= 0,
    ;
}

} // verus!
