//! Sheet labels: a file's place among the drawings and their count, written
//! as two decimal numbers with a slash between them.

use crate::chars::push_char;
use crate::numbers::{decimal_value, digit_value, is_digit};
use crate::text::{
    contains_crcrlf, has_no_line_end, is_plain_label, lemma_rewriting_twice, rewritten_text,
};
use vstd::prelude::*;

verus! {

/// The character that stands for the decimal digit `d`.
pub open spec fn digit_char(d: nat) -> char
    recommends
        d < 10,
{
    (d + 48) as char
}

/// The decimal writing of `n`: no sign, and no leading zero but for zero
/// itself.
pub open spec fn decimal_digits(n: nat) -> Seq<char>
    decreases n,
{
    if n < 10 {
        seq![digit_char(n)]
    } else {
        decimal_digits(n / 10).push(digit_char(n % 10))
    }
}

/// The label of sheet `position` out of `total`.
pub open spec fn sheet_label_text(position: nat, total: nat) -> Seq<char> {
    decimal_digits(position) + seq!['/'] + decimal_digits(total)
}

/// Appends the decimal writing of `n` to `out`.
fn push_decimal(out: &mut String, n: usize)
    ensures
        final(out)@ == old(out)@ + decimal_digits(n as nat),
    decreases n,
{
    if n >= 10 {
        push_decimal(out, n / 10);
    }
    let digit: u8 = (n % 10) as u8;
    push_char(out, (digit + 48) as char);
}

/// The label of sheet `position` out of `total`: both numbers in decimal,
/// with a slash between them.
pub fn sheet_label(position: usize, total: usize) -> (label: String)
    ensures
        label@ == sheet_label_text(position as nat, total as nat),
{
    let mut label = String::new();
    push_decimal(&mut label, position);
    push_char(&mut label, '/');
    push_decimal(&mut label, total);
    label
}

/// The labels of `total` sheets in scan order: the sheet at index `i`,
/// counted from zero, is sheet `i + 1` out of `total`.
pub fn sheet_labels(total: usize) -> (labels: Vec<String>)
    ensures
        labels@.len() == total,
        forall|i: int|
            0 <= i < total ==> (#[trigger] labels@[i])@ == sheet_label_text(
                (i + 1) as nat,
                total as nat,
            ),
{
    let mut labels: Vec<String> = Vec::new();
    let mut index: usize = 0;
    while index < total
        invariant
            index <= total,
            labels@.len() == index,
            forall|i: int|
                0 <= i < index ==> (#[trigger] labels@[i])@ == sheet_label_text(
                    (i + 1) as nat,
                    total as nat,
                ),
        decreases total - index,
    {
        labels.push(sheet_label(index + 1, total));
        index += 1;
    }
    labels
}

/// A decimal writing is made of digits, and read back it gives the number
/// that was written.
pub proof fn lemma_decimal_digits_read_back(n: nat)
    ensures
        decimal_digits(n).len() > 0,
        forall|i: int| 0 <= i < decimal_digits(n).len() ==> is_digit(#[trigger] decimal_digits(n)[i]),
        decimal_value(decimal_digits(n)) == n,
    decreases n,
{
    if n < 10 {
        let digits = decimal_digits(n);
        assert(decimal_value(digits) == decimal_value(digits.drop_last()) * 10
            + digit_value(digits.last()));
    } else {
        lemma_decimal_digits_read_back(n / 10);
        let digits = decimal_digits(n);
        assert(digits.drop_last() == decimal_digits(n / 10));
    }
}

/// A sheet label holds digits and one slash between them, so it is a plain
/// label: filled into a text, it leaves no placeholder behind.
pub proof fn lemma_sheet_label_is_plain(position: nat, total: nat)
    ensures
        is_plain_label(sheet_label_text(position, total)),
{
    lemma_decimal_digits_read_back(position);
    lemma_decimal_digits_read_back(total);
}

/// A sheet label holds neither a carriage return nor a line feed.
pub proof fn lemma_sheet_label_has_no_line_end(position: nat, total: nat)
    ensures
        has_no_line_end(sheet_label_text(position, total)),
{
    lemma_decimal_digits_read_back(position);
    lemma_decimal_digits_read_back(total);
}

/// Once the label of a sheet is filled into a text, filling in a label
/// again, the same or another, changes nothing: no placeholder is left for
/// it, and every line end is a line feed already. This is said of the
/// texts in which no two carriage returns stand before a line feed.
pub proof fn lemma_second_run_changes_nothing(
    text: Seq<char>,
    position: nat,
    total: nat,
    second: Seq<char>,
)
    requires
        !contains_crcrlf(text),
    ensures
        rewritten_text(rewritten_text(text, sheet_label_text(position, total)), second)
            == rewritten_text(text, sheet_label_text(position, total)),
{
    lemma_sheet_label_is_plain(position, total);
    lemma_sheet_label_has_no_line_end(position, total);
    lemma_rewriting_twice(text, sheet_label_text(position, total), second);
}

} // verus!
