use vstd::prelude::*;
use crate::color::Rgb;
use crate::ppm::{
    advanced, body, decimal, header, lemma_sample_width, ppm_text, row_text, samples, LINE_LIMIT,
    MAX_SAMPLE,
};

verus! {

/// Whether `text`, written behind `lead` characters that stand on its first
/// line already, has no run of `limit` characters without a line break. A
/// place before the text, counted from its start, has a negative number.
pub open spec fn fits(lead: int, text: Seq<char>, limit: int) -> bool {
    forall|i: int|
        -lead <= i && i + limit <= text.len() ==> #[trigger] breaks_within(text, i, limit)
}

/// Whether a line break stands among the `limit` characters of `text` from
/// place `from` on.
pub open spec fn breaks_within(text: Seq<char>, from: int, limit: int) -> bool {
    exists|k: int| from <= k < from + limit && 0 <= k < text.len() && #[trigger] text[k] == '\n'
}

/// Whether no line of `text` holds `limit` characters or more.
pub open spec fn lines_shorter_than(text: Seq<char>, limit: int) -> bool {
    fits(0, text, limit)
}

/// Characters without a line break in front of a text take up that much of
/// its first line.
proof fn lemma_fits_behind(lead: int, front: Seq<char>, text: Seq<char>, limit: int)
    requires
        fits(lead + front.len(), text, limit),
    ensures
        fits(lead, front + text, limit),
{
    let whole = front + text;
    assert forall|i: int| -lead <= i && i + limit <= whole.len() implies #[trigger] breaks_within(
        whole,
        i,
        limit,
    ) by {
        let j = i - front.len();
        assert(breaks_within(text, j, limit));
        let k = choose|k: int|
            j <= k < j + limit && 0 <= k < text.len() && #[trigger] text[k] == '\n';
        assert(whole[k + front.len()] == text[k]);
    }
}

/// A text that starts with a line break fits behind any line that is not
/// full, where what follows the break has no line too long.
proof fn lemma_fits_break(lead: int, text: Seq<char>, limit: int)
    requires
        0 <= lead < limit,
        fits(0, text, limit),
    ensures
        fits(lead, seq!['\n'] + text, limit),
{
    let whole = seq!['\n'] + text;
    assert forall|i: int| -lead <= i && i + limit <= whole.len() implies #[trigger] breaks_within(
        whole,
        i,
        limit,
    ) by {
        if i <= 0 {
            assert(whole[0] == '\n');
        } else {
            let j = i - 1;
            assert(breaks_within(text, j, limit));
            let k = choose|k: int|
                j <= k < j + limit && 0 <= k < text.len() && #[trigger] text[k] == '\n';
            assert(whole[k + 1] == text[k]);
        }
    }
}

/// Behind a text that ends in a line break, another starts on a line of its
/// own.
proof fn lemma_fits_joined(lead: int, first: Seq<char>, second: Seq<char>, limit: int)
    requires
        0 < limit,
        fits(lead, first, limit),
        fits(0, second, limit),
        first.len() > 0,
        first.last() == '\n',
    ensures
        fits(lead, first + second, limit),
{
    let whole = first + second;
    assert forall|i: int| -lead <= i && i + limit <= whole.len() implies #[trigger] breaks_within(
        whole,
        i,
        limit,
    ) by {
        if i + limit <= first.len() {
            assert(breaks_within(first, i, limit));
            let k = choose|k: int|
                i <= k < i + limit && 0 <= k < first.len() && #[trigger] first[k] == '\n';
            assert(whole[k] == first[k]);
        } else if i >= first.len() {
            let j = i - first.len();
            assert(breaks_within(second, j, limit));
            let k = choose|k: int|
                j <= k < j + limit && 0 <= k < second.len() && #[trigger] second[k] == '\n';
            assert(whole[k + first.len()] == second[k]);
        } else {
            assert(whole[first.len() - 1] == '\n');
        }
    }
}

/// In the rest of a row every line stays short, the line it starts on
/// included, and the row ends in a line break.
proof fn lemma_row_fits(line_len: nat, values: Seq<int>)
    requires
        line_len < LINE_LIMIT,
        forall|i: int| 0 <= i < values.len() ==> 0 <= #[trigger] values[i] <= MAX_SAMPLE,
    ensures
        fits(line_len as int, row_text(line_len, values), LINE_LIMIT as int),
        row_text(line_len, values).len() > 0,
        row_text(line_len, values).last() == '\n',
    decreases values.len(),
{
    let limit = LINE_LIMIT as int;
    if values.len() == 0 {
        assert(fits(0, Seq::<char>::empty(), limit));
        lemma_fits_break(line_len as int, Seq::<char>::empty(), limit);
        assert(seq!['\n'] + Seq::<char>::empty() =~= seq!['\n']);
    } else {
        let value = values[0];
        let token = decimal(value as nat);
        let next = advanced(line_len, value);
        let rest = row_text(next, values.drop_first());
        lemma_sample_width(value);
        assert forall|i: int| 0 <= i < values.drop_first().len() implies 0
            <= #[trigger] values.drop_first()[i] <= MAX_SAMPLE by {
            assert(values.drop_first()[i] == values[i + 1]);
        }
        lemma_row_fits(next, values.drop_first());
        if line_len + 1 + token.len() >= LINE_LIMIT {
            lemma_fits_behind(0, token, rest, limit);
            lemma_fits_break(line_len as int, token + rest, limit);
            assert(seq!['\n'] + (token + rest) =~= seq!['\n'] + token + rest);
        } else if line_len == 0 {
            lemma_fits_behind(0, token, rest, limit);
        } else {
            lemma_fits_behind(line_len as int, seq![' '] + token, rest, limit);
        }
    }
}

/// No line of the pixel data holds `LINE_LIMIT` characters or more.
proof fn lemma_body_fits(row_len: nat, values: Seq<int>)
    requires
        forall|i: int| 0 <= i < values.len() ==> 0 <= #[trigger] values[i] <= MAX_SAMPLE,
    ensures
        lines_shorter_than(body(row_len, values), LINE_LIMIT as int),
        body(row_len, values).len() > 0 ==> body(row_len, values).last() == '\n',
    decreases values.len(),
{
    if row_len == 0 || values.len() < row_len {
    } else {
        let row = values.take(row_len as int);
        let others = values.skip(row_len as int);
        lemma_row_fits(0, row);
        lemma_body_fits(row_len, others);
        lemma_fits_joined(0, row_text(0, row), body(row_len, others), LINE_LIMIT as int);
    }
}

/// A number that fits in 64 bits has at most twenty digits.
proof fn lemma_decimal_len(n: nat)
    requires
        n <= u64::MAX,
    ensures
        0 < decimal(n).len() <= 20,
        forall|i: int| 0 <= i < decimal(n).len() ==> #[trigger] decimal(n)[i] != '\n',
{
    assert(pow10(20) > u64::MAX) by {
        reveal_with_fuel(pow10, 21);
    }
    lemma_decimal_bound(n, 20);
}

/// A number below the `digits`-th power of ten has at most `digits` digits,
/// and line breaks are not among them.
proof fn lemma_decimal_bound(n: nat, digits: nat)
    requires
        digits > 0,
        n < pow10(digits),
    ensures
        0 < decimal(n).len() <= digits,
        forall|i: int| 0 <= i < decimal(n).len() ==> #[trigger] decimal(n)[i] != '\n',
    decreases n,
{
    if n >= 10 {
        assert(digits > 1) by {
            if digits == 1 {
                assert(pow10(1) == 10) by {
                    reveal_with_fuel(pow10, 2);
                }
            }
        }
        assert(pow10(digits) == 10 * pow10((digits - 1) as nat));
        lemma_decimal_bound(n / 10, (digits - 1) as nat);
    }
}

/// The `digits`-th power of ten.
spec fn pow10(digits: nat) -> nat
    decreases digits,
{
    if digits == 0 {
        1
    } else {
        10 * pow10((digits - 1) as nat)
    }
}

/// No line of an image's text holds `LINE_LIMIT` characters or more, and the
/// text ends in a line break.
pub proof fn lemma_lines_are_short(width: nat, height: nat, pixels: Seq<Rgb>)
    requires
        width <= u64::MAX,
        height <= u64::MAX,
    ensures
        lines_shorter_than(ppm_text(width, height, pixels), LINE_LIMIT as int),
        ppm_text(width, height, pixels).last() == '\n',
{
    let limit = LINE_LIMIT as int;
    let data = body(3 * width, samples(pixels));
    lemma_body_fits(3 * width, samples(pixels));
    lemma_fits_break(0, Seq::<char>::empty(), limit);
    assert(seq!['\n'] + Seq::<char>::empty() =~= seq!['\n']);
    let size = decimal(width) + seq![' '] + decimal(height);
    let head = header(width, height);
    assert(fits(0, head, limit)) by {
        lemma_decimal_len(width);
        lemma_decimal_len(height);
        let third = seq!['2', '5', '5', '\n'];
        assert(fits(3, third, limit));
        lemma_fits_break(size.len() as int, third, limit);
        lemma_fits_behind(0, size, seq!['\n'] + third, limit);
        lemma_fits_break(2, size + (seq!['\n'] + third), limit);
        lemma_fits_behind(0, seq!['P', '3'], seq!['\n'] + (size + (seq!['\n'] + third)), limit);
        assert(head =~= seq!['P', '3'] + (seq!['\n'] + (size + (seq!['\n'] + third))));
    }
    if data.len() > 0 {
        lemma_fits_joined(0, head, data, limit);
        lemma_fits_joined(0, head + data, seq!['\n'], limit);
    } else {
        assert(head + data =~= head);
        lemma_fits_joined(0, head, seq!['\n'], limit);
    }
}

} // verus!
