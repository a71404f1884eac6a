//! Filling the sheet label into the text of a drawing.
//!
//! The text is taken line by line. In every line each placeholder, found
//! from the left and never overlapping the one before, gives way to the
//! label; then the lines are put together again with a single line feed
//! between them.

use crate::chars::{chars_of, push_char};
use vstd::prelude::*;

verus! {

/// The placeholder that stands in a drawing where its sheet label belongs.
pub open spec fn placeholder() -> Seq<char> {
    seq!['X', 'X', '/', 'X', 'X']
}

/// Whether `s` begins with the placeholder.
pub open spec fn starts_with_placeholder(s: Seq<char>) -> bool {
    s.len() >= 5 && s.take(5) == placeholder()
}

/// `line` with each placeholder replaced by `label`. The line is read from
/// the left; after a placeholder, reading goes on behind it.
pub open spec fn replace_placeholder(line: Seq<char>, label: Seq<char>) -> Seq<char>
    decreases line.len(),
{
    if line.len() == 0 {
        line
    } else if starts_with_placeholder(line) {
        label + replace_placeholder(line.skip(5), label)
    } else {
        seq![line[0]] + replace_placeholder(line.skip(1), label)
    }
}

/// How many characters stand before the first line feed of `text` (all of
/// them where it has none).
pub open spec fn first_line_len(text: Seq<char>) -> nat
    decreases text.len(),
{
    if text.len() == 0 || text[0] == '\n' {
        0
    } else {
        1 + first_line_len(text.skip(1))
    }
}

/// `line` without the carriage return at its end, if it has one there.
pub open spec fn strip_carriage_return(line: Seq<char>) -> Seq<char> {
    if line.len() > 0 && line.last() == '\r' {
        line.drop_last()
    } else {
        line
    }
}

/// The lines of `text`: the pieces into which its line feeds divide it.
/// Every line feed separates two lines, so a text with `n` line feeds has
/// `n + 1` lines, of which any may be empty, the last one too. A carriage
/// return directly before a line feed goes with the line feed and belongs
/// to no line; any other carriage return stays where it is.
pub open spec fn lines(text: Seq<char>) -> Seq<Seq<char>>
    decreases text.len(),
{
    let n = first_line_len(text);
    if n < text.len() {
        seq![strip_carriage_return(text.take(n as int))] + lines(text.skip(n as int + 1))
    } else {
        seq![text]
    }
}

/// The lines put together, with one line feed between each two.
pub open spec fn join_lines(lines: Seq<Seq<char>>) -> Seq<char>
    decreases lines.len(),
{
    if lines.len() == 0 {
        Seq::empty()
    } else if lines.len() == 1 {
        lines[0]
    } else {
        join_lines(lines.drop_last()) + seq!['\n'] + lines.last()
    }
}

/// The lines of `text`, each with `label` in place of every placeholder.
pub open spec fn labelled_lines(text: Seq<char>, label: Seq<char>) -> Seq<Seq<char>> {
    lines(text).map_values(|line: Seq<char>| replace_placeholder(line, label))
}

/// `text` with `label` filled in: its lines, each with `label` in place of
/// every placeholder, joined by single line feeds.
pub open spec fn rewritten_text(text: Seq<char>, label: Seq<char>) -> Seq<char> {
    join_lines(labelled_lines(text, label))
}

/// The first line of a text is no longer than the text.
pub proof fn lemma_first_line_len(text: Seq<char>)
    ensures
        first_line_len(text) <= text.len(),
        forall|i: int| 0 <= i < first_line_len(text) ==> #[trigger] text[i] != '\n',
        first_line_len(text) < text.len() ==> text[first_line_len(text) as int] == '\n',
    decreases text.len(),
{
    if !(text.len() == 0 || text[0] == '\n') {
        let rest = text.skip(1);
        lemma_first_line_len(rest);
        assert forall|i: int| 0 <= i < first_line_len(text) implies #[trigger] text[i] != '\n' by {
            if i > 0 {
                assert(text[i] == rest[i - 1]);
            }
        }
    }
}

/// The first line feed at or after `from` is where the first line of what
/// begins at `from` ends.
proof fn lemma_first_line_found(text: Seq<char>, from: int, end: int)
    requires
        0 <= from <= end <= text.len(),
        forall|i: int| from <= i < end ==> #[trigger] text[i] != '\n',
        end == text.len() || text[end] == '\n',
    ensures
        first_line_len(text.skip(from)) == end - from,
    decreases end - from,
{
    if from < end {
        assert(text.skip(from).skip(1) == text.skip(from + 1));
        lemma_first_line_found(text, from + 1, end);
    }
}

/// Joining a row of lines with one more line at its end.
proof fn lemma_join_lines_push(done: Seq<Seq<char>>, line: Seq<char>)
    ensures
        join_lines(done.push(line)) == if done.len() == 0 {
            line
        } else {
            join_lines(done) + seq!['\n'] + line
        },
{
    assert(done.push(line).drop_last() == done);
}

/// Whether the placeholder stands at position `at` of `chars`.
fn placeholder_at(chars: &Vec<char>, at: usize, end: usize) -> (found: bool)
    requires
        at <= end <= chars@.len(),
    ensures
        found == starts_with_placeholder(chars@.subrange(at as int, end as int)),
{
    let found = end - at >= 5 && chars[at] == 'X' && chars[at + 1] == 'X' && chars[at + 2] == '/'
        && chars[at + 3] == 'X' && chars[at + 4] == 'X';
    proof {
        if found {
            assert(chars@.subrange(at as int, end as int).take(5) =~= placeholder());
        }
    }
    found
}

/// Appends to `out` the characters of `chars` from `from` up to `to`, with
/// `label` in place of every placeholder among them.
fn push_replaced(out: &mut String, chars: &Vec<char>, from: usize, to: usize, label: &str)
    requires
        from <= to <= chars@.len(),
    ensures
        final(out)@ == old(out)@ + replace_placeholder(
            chars@.subrange(from as int, to as int),
            label@,
        ),
{
    let ghost line = chars@.subrange(from as int, to as int);
    let mut at = from;
    while at < to
        invariant
            from <= at <= to <= chars@.len(),
            line == chars@.subrange(from as int, to as int),
            old(out)@ + replace_placeholder(line, label@) == out@ + replace_placeholder(
                chars@.subrange(at as int, to as int),
                label@,
            ),
        decreases to - at,
    {
        let ghost rest = chars@.subrange(at as int, to as int);
        if placeholder_at(chars, at, to) {
            out.append(label);
            at += 5;
            proof {
                assert(rest.skip(5) == chars@.subrange(at as int, to as int));
            }
        } else {
            push_char(out, chars[at]);
            at += 1;
            proof {
                assert(rest.skip(1) == chars@.subrange(at as int, to as int));
            }
        }
    }
}

/// `line` with `label` in place of every placeholder.
pub fn replace_in_line(line: &str, label: &str) -> (replaced: String)
    ensures
        replaced@ == replace_placeholder(line@, label@),
{
    let chars = chars_of(line);
    let mut replaced = String::new();
    push_replaced(&mut replaced, &chars, 0, chars.len(), label);
    proof {
        assert(chars@.subrange(0, chars@.len() as int) == line@);
    }
    replaced
}

/// `text` with `label` filled in: every line of `text` with `label` in
/// place of each placeholder, and a single line feed between each two
/// lines. A text that ends with a line feed ends with one afterwards.
pub fn rewrite_text(text: &str, label: &str) -> (rewritten: String)
    ensures
        rewritten@ == rewritten_text(text@, label@),
{
    let chars = chars_of(text);
    let len = chars.len();
    let mut rewritten = String::new();
    let ghost mut done: Seq<Seq<char>> = Seq::empty();
    let mut start: usize = 0;
    let mut finished = false;
    proof {
        assert(text@.skip(0) == text@);
    }
    while !finished
        invariant
            start <= len == chars@.len(),
            chars@ == text@,
            !finished ==> lines(text@) == done + lines(text@.skip(start as int)),
            finished ==> lines(text@) == done,
            finished ==> start == len,
            !finished ==> (start == 0 <==> done.len() == 0),
            rewritten@ == join_lines(
                done.map_values(|line: Seq<char>| replace_placeholder(line, label@)),
            ),
        decreases len - start + (if finished { 0int } else { 1int }),
    {
        let mut end = start;
        while end < len && chars[end] != '\n'
            invariant
                start <= end <= len == chars@.len(),
                forall|i: int| start <= i < end ==> #[trigger] chars@[i] != '\n',
            decreases len - end,
        {
            end += 1;
        }
        let ghost rest = text@.skip(start as int);
        let ghost line;
        let line_end: usize;
        let next: usize;
        if end < len {
            line_end = if end > start && chars[end - 1] == '\r' {
                (end - 1) as usize
            } else {
                end
            };
            next = end + 1;
            proof {
                lemma_first_line_found(text@, start as int, end as int);
                line = strip_carriage_return(rest.take(end - start));
                assert(line == chars@.subrange(start as int, line_end as int));
                assert(rest.skip(end - start + 1) == text@.skip(next as int));
                assert(done + lines(rest) == done.push(line) + lines(text@.skip(next as int)));
            }
        } else {
            line_end = len;
            next = len;
            finished = true;
            proof {
                lemma_first_line_found(text@, start as int, end as int);
                line = rest;
                assert(line == chars@.subrange(start as int, line_end as int));
                assert(done + lines(rest) == done.push(line));
            }
        }
        if start > 0 {
            push_char(&mut rewritten, '\n');
        }
        push_replaced(&mut rewritten, &chars, start, line_end, label);
        proof {
            let fill = |line: Seq<char>| replace_placeholder(line, label@);
            assert(done.push(line).map_values(fill) == done.map_values(fill).push(fill(line)));
            lemma_join_lines_push(done.map_values(fill), fill(line));
            done = done.push(line);
        }
        start = next;
    }
    rewritten
}

/// Whether the placeholder stands at position `at` of `s`.
pub open spec fn placeholder_stands_at(s: Seq<char>, at: int) -> bool {
    0 <= at && at + 5 <= s.len() && s.subrange(at, at + 5) == placeholder()
}

/// Whether the placeholder stands anywhere in `s`.
pub open spec fn contains_placeholder(s: Seq<char>) -> bool {
    exists|at: int| placeholder_stands_at(s, at)
}

/// Whether `label` can neither be mistaken for a part of the placeholder
/// nor complete one: it is not empty, holds no `X`, and does not begin with
/// a slash. Every sheet label is plain.
pub open spec fn is_plain_label(label: Seq<char>) -> bool {
    &&& label.len() > 0
    &&& label[0] != '/'
    &&& forall|i: int| 0 <= i < label.len() ==> label[i] != 'X'
}

/// A line without a placeholder is left as it is.
pub proof fn lemma_replace_without_placeholder(line: Seq<char>, label: Seq<char>)
    requires
        !contains_placeholder(line),
    ensures
        replace_placeholder(line, label) == line,
    decreases line.len(),
{
    if line.len() > 0 {
        if starts_with_placeholder(line) {
            assert(placeholder_stands_at(line, 0));
        }
        let rest = line.skip(1);
        assert forall|at: int| !placeholder_stands_at(rest, at) by {
            if placeholder_stands_at(rest, at) {
                assert(rest.subrange(at, at + 5) == line.subrange(at + 1, at + 6));
                assert(placeholder_stands_at(line, at + 1));
            }
        }
        lemma_replace_without_placeholder(rest, label);
    }
}

/// As far as a line after replacement begins with characters of the
/// placeholder only, it begins as the line did before.
proof fn lemma_replaced_prefix(line: Seq<char>, label: Seq<char>, k: int)
    requires
        is_plain_label(label),
        0 <= k <= replace_placeholder(line, label).len(),
        forall|i: int|
            0 <= i < k ==> {
                let c = #[trigger] replace_placeholder(line, label)[i];
                c == 'X' || c == '/'
            },
    ensures
        k <= line.len(),
        replace_placeholder(line, label).take(k) == line.take(k),
    decreases line.len(),
{
    let replaced = replace_placeholder(line, label);
    if k > 0 {
        if starts_with_placeholder(line) {
            // The label would come first, and it begins with neither.
            assert(replaced[0] == label[0]);
        } else {
            let rest = line.skip(1);
            let replaced_rest = replace_placeholder(rest, label);
            assert forall|i: int| 0 <= i < k - 1 implies {
                let c = #[trigger] replaced_rest[i];
                c == 'X' || c == '/'
            } by {
                assert(replaced_rest[i] == replaced[i + 1]);
            }
            lemma_replaced_prefix(rest, label, k - 1);
            assert(line.take(k) == seq![line[0]] + rest.take(k - 1));
        }
    }
}

/// After the replacement no placeholder is left in a line: the label does
/// not bring one in, nor does it complete one with what stands round it.
pub proof fn lemma_replace_leaves_no_placeholder(line: Seq<char>, label: Seq<char>)
    requires
        is_plain_label(label),
    ensures
        !contains_placeholder(replace_placeholder(line, label)),
    decreases line.len(),
{
    let replaced = replace_placeholder(line, label);
    if line.len() == 0 {
    } else if starts_with_placeholder(line) {
        let replaced_rest = replace_placeholder(line.skip(5), label);
        lemma_replace_leaves_no_placeholder(line.skip(5), label);
        assert forall|at: int| !placeholder_stands_at(replaced, at) by {
            // A placeholder begins with `X`, so not within the label.
            if placeholder_stands_at(replaced, at) && at >= label.len() {
                assert(replaced.subrange(at, at + 5) == replaced_rest.subrange(
                    at - label.len(),
                    at - label.len() + 5,
                ));
                assert(placeholder_stands_at(replaced_rest, at - label.len()));
            }
        }
    } else {
        let rest = line.skip(1);
        let replaced_rest = replace_placeholder(rest, label);
        lemma_replace_leaves_no_placeholder(rest, label);
        assert forall|at: int| !placeholder_stands_at(replaced, at) by {
            if placeholder_stands_at(replaced, at) {
                let window = replaced.subrange(at, at + 5);
                if at == 0 {
                    // The four characters behind the first are unchanged,
                    // so the line itself would begin with a placeholder.
                    assert forall|i: int| 0 <= i < 4 implies {
                        let c = #[trigger] replaced_rest[i];
                        c == 'X' || c == '/'
                    } by {
                        assert(replaced_rest[i] == window[i + 1]);
                    }
                    lemma_replaced_prefix(rest, label, 4);
                    assert forall|i: int| 0 <= i < 5 implies line.take(5)[i]
                        == placeholder()[i] by {
                        if i > 0 {
                            assert(replaced_rest.take(4)[i - 1] == window[i]);
                        }
                    }
                    assert(line.take(5) =~= placeholder());
                } else {
                    assert(window == replaced_rest.subrange(at - 1, at + 4));
                    assert(placeholder_stands_at(replaced_rest, at - 1));
                }
            }
        }
    }
}

/// Lines without a placeholder, joined, hold no placeholder: the line feed
/// between two lines is no part of one.
pub proof fn lemma_join_has_no_placeholder(lines: Seq<Seq<char>>)
    requires
        forall|i: int| 0 <= i < lines.len() ==> !contains_placeholder(#[trigger] lines[i]),
    ensures
        !contains_placeholder(join_lines(lines)),
    decreases lines.len(),
{
    let joined = join_lines(lines);
    if lines.len() > 1 {
        let front = join_lines(lines.drop_last());
        let last = lines.last();
        assert forall|i: int| 0 <= i < lines.drop_last().len() implies !contains_placeholder(
            #[trigger] lines.drop_last()[i],
        ) by {
            assert(lines.drop_last()[i] == lines[i]);
        }
        lemma_join_has_no_placeholder(lines.drop_last());
        assert forall|at: int| !placeholder_stands_at(joined, at) by {
            if placeholder_stands_at(joined, at) {
                let window = joined.subrange(at, at + 5);
                if at + 5 <= front.len() {
                    assert(window == front.subrange(at, at + 5));
                    assert(placeholder_stands_at(front, at));
                } else if at > front.len() {
                    assert(window == last.subrange(at - front.len() - 1, at - front.len() + 4));
                    assert(placeholder_stands_at(last, at - front.len() - 1));
                } else {
                    assert(window[front.len() - at] == '\n');
                }
            }
        }
    }
}

/// Once a plain label is filled in, the text holds no placeholder any
/// more.
pub proof fn lemma_rewritten_has_no_placeholder(text: Seq<char>, label: Seq<char>)
    requires
        is_plain_label(label),
    ensures
        !contains_placeholder(rewritten_text(text, label)),
{
    let filled = labelled_lines(text, label);
    assert forall|i: int| 0 <= i < filled.len() implies !contains_placeholder(
        #[trigger] filled[i],
    ) by {
        lemma_replace_leaves_no_placeholder(lines(text)[i], label);
    }
    lemma_join_has_no_placeholder(filled);
}

/// The lines of a text without a placeholder hold none.
pub proof fn lemma_lines_without_placeholder(text: Seq<char>)
    requires
        !contains_placeholder(text),
    ensures
        forall|i: int| 0 <= i < lines(text).len() ==> !contains_placeholder(#[trigger] lines(text)[i]),
    decreases text.len(),
{
    if text.len() > 0 {
        lemma_first_line_len(text);
        let n = first_line_len(text) as int;
        if n < text.len() {
            let first = strip_carriage_return(text.take(n));
            let rest = text.skip(n + 1);
            assert forall|at: int| !placeholder_stands_at(first, at) by {
                if placeholder_stands_at(first, at) {
                    assert(first.subrange(at, at + 5) == text.subrange(at, at + 5));
                    assert(placeholder_stands_at(text, at));
                }
            }
            assert forall|at: int| !placeholder_stands_at(rest, at) by {
                if placeholder_stands_at(rest, at) {
                    assert(rest.subrange(at, at + 5) == text.subrange(at + n + 1, at + n + 6));
                    assert(placeholder_stands_at(text, at + n + 1));
                }
            }
            lemma_lines_without_placeholder(rest);
            assert forall|i: int| 0 <= i < lines(text).len() implies !contains_placeholder(
                #[trigger] lines(text)[i],
            ) by {
                if i > 0 {
                    assert(lines(text)[i] == lines(rest)[i - 1]);
                }
            }
        }
    }
}

/// Where a text holds no placeholder, filling in a label only takes the
/// text apart into lines and joins them again, whatever the label is.
pub proof fn lemma_rewrite_without_placeholder(text: Seq<char>, label: Seq<char>)
    requires
        !contains_placeholder(text),
    ensures
        rewritten_text(text, label) == join_lines(lines(text)),
{
    lemma_lines_without_placeholder(text);
    assert forall|i: int| 0 <= i < lines(text).len() implies labelled_lines(text, label)[i]
        == lines(text)[i] by {
        lemma_replace_without_placeholder(lines(text)[i], label);
    }
    assert(labelled_lines(text, label) =~= lines(text));
}

/// Filling in a second label after a first changes nothing but line ends:
/// the first label took every placeholder, so the second finds none and
/// the text is only taken apart into lines and joined again.
pub proof fn lemma_rewrite_again(text: Seq<char>, first: Seq<char>, second: Seq<char>)
    requires
        is_plain_label(first),
    ensures
        rewritten_text(rewritten_text(text, first), second) == join_lines(
            lines(rewritten_text(text, first)),
        ),
{
    lemma_rewritten_has_no_placeholder(text, first);
    lemma_rewrite_without_placeholder(rewritten_text(text, first), second);
}

/// Whether a carriage return stands directly before a line feed anywhere
/// in `text`.
pub open spec fn contains_crlf(text: Seq<char>) -> bool {
    exists|i: int| 0 <= i && i + 1 < text.len() && text[i] == '\r' && #[trigger] text[i + 1] == '\n'
}

/// A text has at least one line.
pub proof fn lemma_lines_not_empty(text: Seq<char>)
    ensures
        lines(text).len() > 0,
{
}

/// Joining a row of lines with one more line at its front.
proof fn lemma_join_lines_front(line: Seq<char>, rest: Seq<Seq<char>>)
    requires
        rest.len() > 0,
    ensures
        join_lines(seq![line] + rest) == line + seq!['\n'] + join_lines(rest),
    decreases rest.len(),
{
    let all = seq![line] + rest;
    assert(all.drop_last() == seq![line] + rest.drop_last());
    if rest.len() == 1 {
        assert(all.drop_last() == seq![line]);
        assert(join_lines(seq![line]) == line);
        assert(join_lines(rest) == rest[0]);
        assert(all.last() == rest[0]);
    } else {
        lemma_join_lines_front(line, rest.drop_last());
        assert(join_lines(all) == (line + seq!['\n'] + join_lines(rest.drop_last())) + seq!['\n']
            + rest.last());
        assert(join_lines(all) == line + seq!['\n'] + (join_lines(rest.drop_last()) + seq!['\n']
            + rest.last()));
    }
}

/// Where no carriage return stands before a line feed, the lines of a text
/// joined again are the text.
pub proof fn lemma_lines_join_back(text: Seq<char>)
    requires
        !contains_crlf(text),
    ensures
        join_lines(lines(text)) == text,
    decreases text.len(),
{
    lemma_first_line_len(text);
    let n = first_line_len(text) as int;
    if n < text.len() {
        let first = text.take(n);
        let rest = text.skip(n + 1);
        if n > 0 && text[n - 1] == '\r' {
            assert(text[(n - 1) + 1] == '\n');
        }
        assert(strip_carriage_return(first) == first);
        assert(!contains_crlf(rest)) by {
            if contains_crlf(rest) {
                let i = choose|i: int|
                    0 <= i && i + 1 < rest.len() && rest[i] == '\r' && #[trigger] rest[i + 1]
                        == '\n';
                assert(text[(i + n + 1) + 1] == '\n');
            }
        }
        lemma_lines_join_back(rest);
        lemma_lines_not_empty(rest);
        lemma_join_lines_front(first, lines(rest));
        assert(first + seq!['\n'] + rest == text);
    }
}

/// A character that is no part of the placeholder divides a line for the
/// replacement: what stands before it and what stands behind it are
/// replaced each for itself.
proof fn lemma_replace_around(before: Seq<char>, c: char, behind: Seq<char>, label: Seq<char>)
    requires
        c != 'X',
        c != '/',
    ensures
        replace_placeholder(before + seq![c] + behind, label) == replace_placeholder(before, label)
            + seq![c] + replace_placeholder(behind, label),
    decreases before.len(),
{
    let whole = before + seq![c] + behind;
    if before.len() == 0 {
        if whole.len() >= 5 {
            assert(whole.take(5)[0] == c);
        }
        assert(whole.skip(1) == behind);
        assert(replace_placeholder(before, label) + seq![c] == seq![c]);
    } else if starts_with_placeholder(before) {
        assert(whole.take(5) == before.take(5));
        assert(whole.skip(5) == before.skip(5) + seq![c] + behind);
        lemma_replace_around(before.skip(5), c, behind, label);
        assert(label + (replace_placeholder(before.skip(5), label) + seq![c]
            + replace_placeholder(behind, label)) == (label + replace_placeholder(
            before.skip(5),
            label,
        )) + seq![c] + replace_placeholder(behind, label));
    } else {
        if before.len() >= 5 {
            assert(whole.take(5) == before.take(5));
        } else if whole.len() >= 5 {
            assert(whole.take(5)[before.len() as int] == c);
            assert(placeholder()[before.len() as int] == 'X' || placeholder()[before.len() as int]
                == '/');
        }
        assert(!starts_with_placeholder(whole));
        assert(whole.skip(1) == before.skip(1) + seq![c] + behind);
        lemma_replace_around(before.skip(1), c, behind, label);
        assert(seq![whole[0]] + (replace_placeholder(before.skip(1), label) + seq![c]
            + replace_placeholder(behind, label)) == (seq![before[0]] + replace_placeholder(
            before.skip(1),
            label,
        )) + seq![c] + replace_placeholder(behind, label));
    }
}

/// Replacing in joined lines is replacing in each line and joining then: no
/// placeholder reaches over a line feed.
pub proof fn lemma_replace_over_join(lines: Seq<Seq<char>>, label: Seq<char>)
    ensures
        replace_placeholder(join_lines(lines), label) == join_lines(
            lines.map_values(|line: Seq<char>| replace_placeholder(line, label)),
        ),
    decreases lines.len(),
{
    let fill = |line: Seq<char>| replace_placeholder(line, label);
    if lines.len() > 1 {
        lemma_replace_around(join_lines(lines.drop_last()), '\n', lines.last(), label);
        lemma_replace_over_join(lines.drop_last(), label);
        assert(lines.map_values(fill).drop_last() == lines.drop_last().map_values(fill));
    }
}

/// Where no carriage return stands before a line feed, filling in a label
/// replaces the placeholders of the text and changes nothing else: every
/// line feed stays, one at the end of the text too.
pub proof fn lemma_rewrite_without_crlf(text: Seq<char>, label: Seq<char>)
    requires
        !contains_crlf(text),
    ensures
        rewritten_text(text, label) == replace_placeholder(text, label),
{
    lemma_lines_join_back(text);
    lemma_replace_over_join(lines(text), label);
}

/// A text that holds no placeholder and no carriage return before a line
/// feed is left as it is.
pub proof fn lemma_rewrite_changes_nothing(text: Seq<char>, label: Seq<char>)
    requires
        !contains_crlf(text),
        !contains_placeholder(text),
    ensures
        rewritten_text(text, label) == text,
{
    lemma_rewrite_without_crlf(text, label);
    lemma_replace_without_placeholder(text, label);
}

/// Filling in a second label after a plain first one changes nothing, as
/// long as the first left no carriage return before a line feed.
pub proof fn lemma_second_rewrite_changes_nothing(
    text: Seq<char>,
    first: Seq<char>,
    second: Seq<char>,
)
    requires
        is_plain_label(first),
        !contains_crlf(rewritten_text(text, first)),
    ensures
        rewritten_text(rewritten_text(text, first), second) == rewritten_text(text, first),
{
    lemma_rewritten_has_no_placeholder(text, first);
    lemma_rewrite_changes_nothing(rewritten_text(text, first), second);
}

/// Whether two carriage returns stand directly before a line feed anywhere
/// in `text`. The first of them is left at the end of its line when the
/// second goes with the line feed.
pub open spec fn contains_crcrlf(text: Seq<char>) -> bool {
    exists|i: int|
        0 <= i && i + 2 < text.len() && text[i] == '\r' && text[i + 1] == '\r' && #[trigger] text[i
            + 2] == '\n'
}

/// Whether `s` holds no line feed.
pub open spec fn has_no_line_feed(s: Seq<char>) -> bool {
    forall|k: int| 0 <= k < s.len() ==> s[k] != '\n'
}

/// Whether `s` holds neither a carriage return nor a line feed. Every
/// sheet label is of this make.
pub open spec fn has_no_line_end(s: Seq<char>) -> bool {
    forall|k: int| 0 <= k < s.len() ==> s[k] != '\r' && s[k] != '\n'
}

/// Whether `line` ends with a carriage return.
pub open spec fn ends_with_cr(line: Seq<char>) -> bool {
    line.len() > 0 && line.last() == '\r'
}

/// No line holds a line feed; and where no two carriage returns stand
/// before a line feed, no line but the last ends with a carriage return.
pub proof fn lemma_lines_shape(text: Seq<char>)
    ensures
        forall|j: int| 0 <= j < lines(text).len() ==> has_no_line_feed(#[trigger] lines(text)[j]),
        !contains_crcrlf(text) ==> forall|j: int|
            0 <= j < lines(text).len() - 1 ==> !ends_with_cr(#[trigger] lines(text)[j]),
    decreases text.len(),
{
    lemma_first_line_len(text);
    let n = first_line_len(text) as int;
    if n < text.len() {
        let piece = text.take(n);
        let first = strip_carriage_return(piece);
        let rest = text.skip(n + 1);
        lemma_lines_shape(rest);
        assert(has_no_line_feed(first)) by {
            assert forall|k: int| 0 <= k < first.len() implies first[k] != '\n' by {
                assert(first[k] == text[k]);
            }
        }
        assert forall|j: int| 0 <= j < lines(text).len() implies has_no_line_feed(
            #[trigger] lines(text)[j],
        ) by {
            if j > 0 {
                assert(lines(text)[j] == lines(rest)[j - 1]);
            }
        }
        if !contains_crcrlf(text) {
            if ends_with_cr(first) {
                assert(piece.last() == '\r');
                assert(text[n - 2] == '\r' && text[n - 1] == '\r' && text[(n - 2) + 2] == '\n');
            }
            assert(!contains_crcrlf(rest)) by {
                if contains_crcrlf(rest) {
                    let i = choose|i: int|
                        0 <= i && i + 2 < rest.len() && rest[i] == '\r' && rest[i + 1] == '\r'
                            && #[trigger] rest[i + 2] == '\n';
                    assert(text[i + n + 1] == '\r' && text[i + n + 2] == '\r' && text[(i + n + 1)
                        + 2] == '\n');
                }
            }
            assert forall|j: int| 0 <= j < lines(text).len() - 1 implies !ends_with_cr(
                #[trigger] lines(text)[j],
            ) by {
                if j > 0 {
                    assert(lines(text)[j] == lines(rest)[j - 1]);
                }
            }
        }
    } else {
        assert(has_no_line_feed(lines(text)[0]));
    }
}

/// A line that ends with a carriage return after the replacement ended
/// with one before, if the label does not end with one.
proof fn lemma_replaced_end(line: Seq<char>, label: Seq<char>)
    requires
        label.len() > 0,
        label.last() != '\r',
    ensures
        ends_with_cr(replace_placeholder(line, label)) ==> ends_with_cr(line),
    decreases line.len(),
{
    if line.len() > 0 {
        let rest = if starts_with_placeholder(line) {
            line.skip(5)
        } else {
            line.skip(1)
        };
        let replaced_rest = replace_placeholder(rest, label);
        lemma_replaced_end(rest, label);
        if replaced_rest.len() > 0 {
            assert(rest.len() > 0);
            assert(replace_placeholder(line, label).last() == replaced_rest.last());
            assert(line.last() == rest.last());
        } else {
            assert(rest.len() == 0);
        }
    }
}

/// Where neither a line nor the label holds a line feed, the line holds
/// none after the replacement.
proof fn lemma_replaced_has_no_line_feed(line: Seq<char>, label: Seq<char>)
    requires
        has_no_line_feed(line),
        has_no_line_feed(label),
    ensures
        has_no_line_feed(replace_placeholder(line, label)),
    decreases line.len(),
{
    if line.len() > 0 {
        let replaced = replace_placeholder(line, label);
        if starts_with_placeholder(line) {
            let rest = line.skip(5);
            assert(has_no_line_feed(rest)) by {
                assert forall|k: int| 0 <= k < rest.len() implies rest[k] != '\n' by {
                    assert(rest[k] == line[k + 5]);
                }
            }
            lemma_replaced_has_no_line_feed(rest, label);
            let replaced_rest = replace_placeholder(rest, label);
            assert forall|k: int| 0 <= k < replaced.len() implies replaced[k] != '\n' by {
                if k >= label.len() {
                    assert(replaced[k] == replaced_rest[k - label.len()]);
                } else {
                    assert(replaced[k] == label[k]);
                }
            }
        } else {
            let rest = line.skip(1);
            assert(has_no_line_feed(rest)) by {
                assert forall|k: int| 0 <= k < rest.len() implies rest[k] != '\n' by {
                    assert(rest[k] == line[k + 1]);
                }
            }
            lemma_replaced_has_no_line_feed(rest, label);
            let replaced_rest = replace_placeholder(rest, label);
            assert forall|k: int| 0 <= k < replaced.len() implies replaced[k] != '\n' by {
                if k >= 1 {
                    assert(replaced[k] == replaced_rest[k - 1]);
                } else {
                    assert(replaced[k] == line[0]);
                }
            }
        }
    }
}

/// Joined lines hold a carriage return before a line feed only where a
/// line holds a line feed, or a line other than the last ends with a
/// carriage return.
proof fn lemma_join_has_no_crlf(lines: Seq<Seq<char>>)
    requires
        forall|j: int| 0 <= j < lines.len() ==> has_no_line_feed(#[trigger] lines[j]),
        forall|j: int| 0 <= j < lines.len() - 1 ==> !ends_with_cr(#[trigger] lines[j]),
    ensures
        !contains_crlf(join_lines(lines)),
        ends_with_cr(join_lines(lines)) ==> lines.len() > 0 && ends_with_cr(lines.last()),
    decreases lines.len(),
{
    let joined = join_lines(lines);
    if lines.len() == 1 {
        assert(has_no_line_feed(lines[0]));
    } else if lines.len() > 1 {
        let shorter = lines.drop_last();
        let front = join_lines(shorter);
        let last = lines.last();
        assert forall|j: int| 0 <= j < shorter.len() implies has_no_line_feed(
            #[trigger] shorter[j],
        ) by {
            assert(shorter[j] == lines[j]);
        }
        assert forall|j: int| 0 <= j < shorter.len() - 1 implies !ends_with_cr(
            #[trigger] shorter[j],
        ) by {
            assert(shorter[j] == lines[j]);
        }
        lemma_join_has_no_crlf(shorter);
        assert(shorter.last() == lines[lines.len() - 2]);
        assert(!ends_with_cr(front));
        assert(has_no_line_feed(last));
        if contains_crlf(joined) {
            let i = choose|i: int|
                0 <= i && i + 1 < joined.len() && joined[i] == '\r' && #[trigger] joined[i + 1]
                    == '\n';
            if i + 1 < front.len() {
                assert(front[i] == '\r' && front[i + 1] == '\n');
            } else if i + 1 == front.len() {
                assert(front.last() == joined[i]);
            } else {
                assert(joined[i + 1] == last[i - front.len()]);
            }
        }
        if last.len() > 0 {
            assert(joined.last() == last.last());
        } else {
            assert(joined.last() == '\n');
        }
    }
}

/// Where no two carriage returns stand before a line feed in a text, and
/// the label holds neither of the two, no carriage return stands before a
/// line feed once the label is filled in.
pub proof fn lemma_rewritten_has_no_crlf(text: Seq<char>, label: Seq<char>)
    requires
        !contains_crcrlf(text),
        label.len() > 0,
        has_no_line_end(label),
    ensures
        !contains_crlf(rewritten_text(text, label)),
{
    let filled = labelled_lines(text, label);
    lemma_lines_shape(text);
    assert(has_no_line_feed(label));
    assert forall|j: int| 0 <= j < filled.len() implies has_no_line_feed(#[trigger] filled[j]) by {
        lemma_replaced_has_no_line_feed(lines(text)[j], label);
    }
    assert forall|j: int| 0 <= j < filled.len() - 1 implies !ends_with_cr(#[trigger] filled[j]) by {
        lemma_replaced_end(lines(text)[j], label);
    }
    lemma_join_has_no_crlf(filled);
}

/// Filling in a label a second time changes nothing, whatever the second
/// label is: the first, a plain one without line ends, took every
/// placeholder and left every line end a line feed. This is said of the
/// texts in which no two carriage returns stand before a line feed.
pub proof fn lemma_rewriting_twice(text: Seq<char>, first: Seq<char>, second: Seq<char>)
    requires
        !contains_crcrlf(text),
        is_plain_label(first),
        has_no_line_end(first),
    ensures
        rewritten_text(rewritten_text(text, first), second) == rewritten_text(text, first),
{
    lemma_rewritten_has_no_crlf(text, first);
    lemma_second_rewrite_changes_nothing(text, first, second);
}

} // verus!
