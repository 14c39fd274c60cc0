use vstd::prelude::*;
use crate::color::Rgb;
use crate::ppm::{
    advanced, body, decimal, digit, lemma_sample_width, ppm_text, row_text, samples, LINE_LIMIT,
    MAX_SAMPLE,
};

verus! {

/// Whether `c` is a decimal digit.
pub open spec fn is_digit(c: char) -> bool {
    exists|d: int| 0 <= d < 10 && c == #[trigger] digit(d)
}

/// The number that the digit `c` stands for.
pub open spec fn digit_value(c: char) -> int {
    choose|d: int| 0 <= d < 10 && c == #[trigger] digit(d)
}

/// The number read so far, if the last character read was a digit, as a
/// sequence of one number or none.
pub open spec fn read_so_far(pending: Option<int>) -> Seq<int> {
    match pending {
        Some(n) => seq![n],
        None => Seq::empty(),
    }
}

/// The numbers that stand in `text`, in the order in which they stand: every
/// run of digits is one number in decimal, and every other character ends a
/// number. `pending` is the number that the digits just before `text` make,
/// if `text` follows a digit.
pub open spec fn numbers(text: Seq<char>, pending: Option<int>) -> Seq<int>
    decreases text.len(),
{
    if text.len() == 0 {
        read_so_far(pending)
    } else if is_digit(text[0]) {
        let so_far = match pending {
            Some(n) => n,
            None => 0,
        };
        numbers(text.drop_first(), Some(10 * so_far + digit_value(text[0])))
    } else {
        read_so_far(pending) + numbers(text.drop_first(), None)
    }
}

/// The ten digits are digits, each with its own value, and the characters
/// between the numbers of an image are none.
proof fn lemma_digits()
    ensures
        forall|d: int| 0 <= d < 10 ==> is_digit(#[trigger] digit(d)) && digit_value(digit(d)) == d,
        !is_digit(' '),
        !is_digit('\n'),
        !is_digit('P'),
{
    assert forall|d: int| 0 <= d < 10 implies is_digit(#[trigger] digit(d)) && digit_value(digit(d))
        == d by {
        let c = digit(d);
        assert(is_digit(c));
        let e = digit_value(c);
        assert(0 <= e < 10 && c == digit(e));
    }
}

/// A character that is no digit stands between numbers.
proof fn lemma_numbers_behind_gap(gap: char, text: Seq<char>, pending: Option<int>)
    requires
        !is_digit(gap),
    ensures
        numbers(seq![gap] + text, pending) == read_so_far(pending) + numbers(text, None),
{
    let whole = seq![gap] + text;
    assert(whole[0] == gap);
    assert(whole.drop_first() =~= text);
}

/// A number in decimal is read as that number, whatever follows it.
proof fn lemma_numbers_behind_decimal(n: nat, text: Seq<char>)
    ensures
        numbers(decimal(n) + text, None) == numbers(text, Some(n as int)),
    decreases n,
{
    lemma_digits();
    if n < 10 {
        let whole = decimal(n) + text;
        assert(whole[0] == digit(n as int));
        assert(whole.drop_first() =~= text);
    } else {
        let last = seq![digit((n % 10) as int)];
        lemma_numbers_behind_decimal(n / 10, last + text);
        assert(decimal(n) + text =~= decimal(n / 10) + (last + text));
        let tail = last + text;
        assert(tail[0] == digit((n % 10) as int));
        assert(tail.drop_first() =~= text);
    }
}

/// A number in decimal in front of a gap is read as that number, and what
/// follows the gap is read for itself.
proof fn lemma_numbers_token(n: nat, gap: char, text: Seq<char>)
    requires
        !is_digit(gap),
    ensures
        numbers(decimal(n) + (seq![gap] + text), None) == seq![n as int] + numbers(text, None),
{
    lemma_numbers_behind_decimal(n, seq![gap] + text);
    lemma_numbers_behind_gap(gap, text, Some(n as int));
}

/// The numbers read from the rest of a row are its values, and what follows
/// the row is read for itself.
proof fn lemma_row_numbers(
    line_len: nat,
    values: Seq<int>,
    tail: Seq<char>,
    pending: Option<int>,
)
    requires
        forall|i: int| 0 <= i < values.len() ==> 0 <= #[trigger] values[i] <= MAX_SAMPLE,
        line_len > 0 || values.len() == 0 || pending is None,
    ensures
        numbers(row_text(line_len, values) + tail, pending) == read_so_far(pending) + values
            + numbers(tail, None),
    decreases values.len(),
{
    lemma_digits();
    if values.len() == 0 {
        lemma_numbers_behind_gap('\n', tail, pending);
        assert(read_so_far(pending) + values =~= read_so_far(pending));
    } else {
        let value = values[0];
        let others = values.drop_first();
        let token = decimal(value as nat);
        let next = advanced(line_len, value);
        let behind = row_text(next, others) + tail;
        lemma_sample_width(value);
        assert forall|i: int| 0 <= i < others.len() implies 0 <= #[trigger] others[i]
            <= MAX_SAMPLE by {
            assert(others[i] == values[i + 1]);
        }
        lemma_row_numbers(next, others, tail, Some(value));
        lemma_numbers_behind_decimal(value as nat, behind);
        assert(seq![value] + others =~= values);
        assert(read_so_far(Some(value)) + others + numbers(tail, None) =~= values + numbers(
            tail,
            None,
        ));
        if line_len + 1 + token.len() >= LINE_LIMIT {
            lemma_numbers_behind_gap('\n', token + behind, pending);
            assert(row_text(line_len, values) + tail =~= seq!['\n'] + (token + behind));
        } else if line_len == 0 {
            assert(row_text(line_len, values) + tail =~= token + behind);
            assert(read_so_far(pending) + values =~= values);
        } else {
            lemma_numbers_behind_gap(' ', token + behind, pending);
            assert(row_text(line_len, values) + tail =~= seq![' '] + (token + behind));
        }
        assert(read_so_far(pending) + (values + numbers(tail, None)) =~= read_so_far(pending)
            + values + numbers(tail, None));
    }
}

/// The numbers read from the pixel data are the values that were written,
/// where these fill their rows.
proof fn lemma_body_numbers(row_len: nat, rows: nat, values: Seq<int>, tail: Seq<char>)
    requires
        forall|i: int| 0 <= i < values.len() ==> 0 <= #[trigger] values[i] <= MAX_SAMPLE,
        values.len() == rows * row_len,
    ensures
        numbers(body(row_len, values) + tail, None) == values + numbers(tail, None),
    decreases rows,
{
    if row_len == 0 || rows == 0 {
        assert(rows * row_len == 0) by (nonlinear_arith)
            requires
                row_len == 0 || rows == 0,
        ;
        assert(body(row_len, values) + tail =~= tail);
        assert(values + numbers(tail, None) =~= numbers(tail, None));
    } else {
        assert(rows * row_len == (rows - 1) * row_len + row_len) by (nonlinear_arith);
        assert((rows - 1) * row_len >= 0) by (nonlinear_arith)
            requires
                rows >= 1,
                row_len >= 0,
        ;
        let row = values.take(row_len as int);
        let others = values.skip(row_len as int);
        lemma_body_numbers(row_len, (rows - 1) as nat, others, tail);
        lemma_row_numbers(0, row, body(row_len, others) + tail, None);
        assert(body(row_len, values) + tail =~= row_text(0, row) + (body(row_len, others) + tail));
        assert(row + others =~= values);
        assert(read_so_far(None) + row + (others + numbers(tail, None)) =~= values + numbers(
            tail,
            None,
        ));
    }
}

/// What is read back from an image's text: the 3 of the format's name, the
/// width, the height, the largest sample value and then the samples of the
/// pixels, each as it was written. No number is cut in two by a line break
/// and no two run together.
pub proof fn lemma_numbers_are_kept(width: nat, height: nat, pixels: Seq<Rgb>)
    requires
        pixels.len() == width * height,
    ensures
        numbers(ppm_text(width, height, pixels), None) == seq![
            3int,
            width as int,
            height as int,
            MAX_SAMPLE as int,
        ] + samples(pixels),
{
    lemma_digits();
    let values = samples(pixels);
    let data = body(3 * width, values) + seq!['\n'];
    assert(values.len() == height * (3 * width)) by (nonlinear_arith)
        requires
            values.len() == 3 * pixels.len(),
            pixels.len() == width * height,
    ;
    lemma_body_numbers(3 * width, height, values, seq!['\n']);
    lemma_numbers_behind_gap('\n', Seq::empty(), None);
    assert(seq!['\n'] + Seq::<char>::empty() =~= seq!['\n']);
    assert(numbers(data, None) =~= values);
    let third = decimal(MAX_SAMPLE as nat) + (seq!['\n'] + data);
    lemma_numbers_token(MAX_SAMPLE as nat, '\n', data);
    let second = decimal(height) + (seq!['\n'] + third);
    lemma_numbers_token(height, '\n', third);
    let first = decimal(width) + (seq![' '] + second);
    lemma_numbers_token(width, ' ', second);
    let name = decimal(3) + (seq!['\n'] + first);
    lemma_numbers_token(3, '\n', first);
    lemma_numbers_behind_gap('P', name, None);
    assert(decimal(MAX_SAMPLE as nat) =~= seq!['2', '5', '5']) by {
        reveal_with_fuel(decimal, 3);
    }
    assert(decimal(3) =~= seq!['3']);
    assert(ppm_text(width, height, pixels) =~= seq!['P'] + name);
    assert(numbers(name, None) =~= seq![3int, width as int, height as int, MAX_SAMPLE as int]
        + values);
}

} // verus!
