//! Rule lines and status files as bytes: fields between colons, decimal
//! numbers, white space and words.

use vstd::prelude::*;

verus! {

/// The fields of a line: what stands between its colons. A line without a
/// colon is one field, and a colon at either end borders an empty field.
pub open spec fn split_fields(line: Seq<u8>) -> Seq<Seq<u8>>
    decreases line.len(),
{
    if line.len() == 0 {
        seq![Seq::<u8>::empty()]
    } else {
        let before = split_fields(line.drop_last());
        if line.last() == 0x3a {
            before.push(Seq::<u8>::empty())
        } else {
            before.update(before.len() - 1, before.last().push(line.last()))
        }
    }
}

/// Whether every byte is an ASCII digit.
pub open spec fn all_digits(text: Seq<u8>) -> bool {
    forall|i: int| 0 <= i < text.len() ==> 0x30 <= #[trigger] text[i] <= 0x39
}

/// The number that a run of decimal digits stands for.
pub open spec fn digits_value(text: Seq<u8>) -> int
    decreases text.len(),
{
    if text.len() == 0 {
        0
    } else {
        digits_value(text.drop_last()) * 10 + (text.last() - 0x30)
    }
}

/// A 16-bit number in decimal: an optional `+`, then one digit or more,
/// leading zeros allowed, the value at most 65535.
pub open spec fn parse_u16_spec(text: Seq<u8>) -> Option<u16> {
    let digits = if text.len() > 0 && text[0] == 0x2b {
        text.skip(1)
    } else {
        text
    };
    if digits.len() > 0 && all_digits(digits) && digits_value(digits) <= 0xffff {
        Some(digits_value(digits) as u16)
    } else {
        None
    }
}

/// ASCII white space: tab, line feed, vertical tab, form feed, carriage
/// return and space.
pub open spec fn is_ascii_space(byte: u8) -> bool {
    0x09 <= byte <= 0x0d || byte == 0x20
}

/// The two-byte UTF-8 forms of white space: U+0085 and U+00A0.
pub open spec fn is_pair_space(first: u8, second: u8) -> bool {
    first == 0xc2 && (second == 0x85 || second == 0xa0)
}

/// The three-byte UTF-8 forms of white space: U+1680, U+2000 to U+200A,
/// U+2028, U+2029, U+202F, U+205F and U+3000.
pub open spec fn is_triple_space(first: u8, second: u8, third: u8) -> bool {
    ||| first == 0xe1 && second == 0x9a && third == 0x80
    ||| first == 0xe2 && second == 0x80 && (0x80 <= third <= 0x8a || third == 0xa8 || third
        == 0xa9 || third == 0xaf)
    ||| first == 0xe2 && second == 0x81 && third == 0x9f
    ||| first == 0xe3 && second == 0x80 && third == 0x80
}

/// Length of the white-space character that starts at `at`, or 0.
pub open spec fn leading_space(text: Seq<u8>, at: int) -> int {
    if at < text.len() && is_ascii_space(text[at]) {
        1
    } else if at + 1 < text.len() && is_pair_space(text[at], text[at + 1]) {
        2
    } else if at + 2 < text.len() && is_triple_space(text[at], text[at + 1], text[at + 2]) {
        3
    } else {
        0
    }
}

/// Length of the white-space character that ends in front of `end` and
/// starts no earlier than `start`, or 0.
pub open spec fn trailing_space(text: Seq<u8>, start: int, end: int) -> int {
    if start < end && is_ascii_space(text[end - 1]) {
        1
    } else if start + 1 < end && is_pair_space(text[end - 2], text[end - 1]) {
        2
    } else if start + 2 < end && is_triple_space(text[end - 3], text[end - 2], text[end - 1]) {
        3
    } else {
        0
    }
}

/// Where the text starts once leading white space from `at` on is skipped.
pub open spec fn trim_start_index(text: Seq<u8>, at: int) -> int
    decreases text.len() - at,
{
    if 0 <= at && leading_space(text, at) > 0 {
        trim_start_index(text, at + leading_space(text, at))
    } else {
        at
    }
}

/// Where the text ends once trailing white space in front of `end` is
/// dropped, nothing in front of `start` being looked at.
pub open spec fn trim_end_index(text: Seq<u8>, start: int, end: int) -> int
    decreases end - start,
{
    if trailing_space(text, start, end) > 0 {
        trim_end_index(text, start, end - trailing_space(text, start, end))
    } else {
        end
    }
}

/// The text without the white space at its two ends.
pub open spec fn trim_spec(text: Seq<u8>) -> Seq<u8> {
    let start = trim_start_index(text, 0);
    text.subrange(start, trim_end_index(text, start, text.len() as int))
}

/// Where field `k` ends, given where the fields start: in front of the
/// colon before the next field, or at the end of the line.
pub open spec fn field_end(starts: Seq<usize>, k: int, len: int) -> int {
    if k + 1 < starts.len() {
        starts[k + 1] - 1
    } else {
        len
    }
}

/// Whether `starts` holds the offsets at which the fields of `line` start.
pub open spec fn marks_fields(starts: Seq<usize>, line: Seq<u8>) -> bool {
    &&& starts.len() == split_fields(line).len()
    &&& starts.len() >= 1
    &&& forall|k: int|
        0 <= k < starts.len() ==> (#[trigger] starts[k]) <= field_end(
            starts,
            k,
            line.len() as int,
        ) <= line.len()
    &&& forall|k: int|
        0 <= k < starts.len() ==> #[trigger] split_fields(line)[k] == line.subrange(
            starts[k] as int,
            field_end(starts, k, line.len() as int),
        )
}

/// Number of bytes from `at` to the next line feed, or to the end of the
/// text.
pub open spec fn line_len(text: Seq<u8>, at: int) -> nat
    decreases text.len() - at,
{
    if 0 <= at < text.len() && text[at] != 0x0a {
        1 + line_len(text, at + 1)
    } else {
        0
    }
}

/// Where the line that starts at `at` ends: at the next line feed, or at
/// the end of the text.
pub open spec fn line_end(text: Seq<u8>, at: int) -> int {
    at + line_len(text, at)
}

/// Where the word that starts at `at` ends: at the next white space, or at
/// the end of the line.
pub open spec fn word_end(line: Seq<u8>, at: int) -> int
    decreases line.len() - at,
{
    if 0 <= at < line.len() && leading_space(line, at) == 0 {
        word_end(line, at + 1)
    } else {
        at
    }
}

/// Finds the offsets at which the fields of `line` start.
pub fn field_starts(line: &[u8]) -> (starts: Vec<usize>)
    ensures
        marks_fields(starts@, line@),
{
    let mut starts: Vec<usize> = Vec::new();
    starts.push(0);
    let len = line.len();
    let mut i: usize = 0;
    proof {
        assert(line@.take(0) =~= Seq::<u8>::empty());
        assert(line@.take(0).subrange(0, 0) =~= Seq::<u8>::empty());
    }
    while i < len
        invariant
            len == line@.len(),
            i <= len,
            marks_fields(starts@, line@.take(i as int)),
        decreases len - i,
    {
        let ghost prefix = line@.take(i as int);
        let ghost next = line@.take(i + 1);
        let ghost old_starts = starts@;
        proof {
            assert(next.drop_last() =~= prefix);
            assert(next.last() == line@[i as int]);
        }
        if line[i] == 0x3a {
            starts.push(i + 1);
            proof {
                let fields = split_fields(next);
                assert(fields =~= split_fields(prefix).push(Seq::<u8>::empty()));
                assert forall|k: int| 0 <= k < starts@.len() implies (#[trigger] starts@[k])
                    <= field_end(starts@, k, next.len() as int) <= next.len() by {
                    if k < old_starts.len() {
                        assert(old_starts[k] <= field_end(old_starts, k, prefix.len() as int));
                    }
                }
                assert forall|k: int| 0 <= k < starts@.len() implies #[trigger] fields[k]
                    == next.subrange(
                    starts@[k] as int,
                    field_end(starts@, k, next.len() as int),
                ) by {
                    if k < old_starts.len() {
                        let end = field_end(old_starts, k, prefix.len() as int);
                        assert(old_starts[k] <= end);
                        assert(field_end(starts@, k, next.len() as int) == end);
                        assert(split_fields(prefix)[k] == prefix.subrange(
                            old_starts[k] as int,
                            end,
                        ));
                        assert(prefix.subrange(old_starts[k] as int, end) =~= next.subrange(
                            old_starts[k] as int,
                            end,
                        ));
                    } else {
                        assert(next.subrange(i + 1, i + 1) =~= Seq::<u8>::empty());
                    }
                }
                assert(marks_fields(starts@, next));
            }
        } else {
            proof {
                let before = split_fields(prefix);
                let fields = split_fields(next);
                let last = before.len() - 1;
                assert(fields =~= before.update(last, before.last().push(line@[i as int])));
                assert forall|k: int| 0 <= k < starts@.len() implies (#[trigger] starts@[k])
                    <= field_end(starts@, k, next.len() as int) <= next.len() by {
                    assert(old_starts[k] <= field_end(old_starts, k, prefix.len() as int));
                }
                assert forall|k: int| 0 <= k < starts@.len() implies #[trigger] fields[k]
                    == next.subrange(
                    starts@[k] as int,
                    field_end(starts@, k, next.len() as int),
                ) by {
                    let end = field_end(old_starts, k, prefix.len() as int);
                    assert(old_starts[k] <= end);
                    assert(before[k] == prefix.subrange(old_starts[k] as int, end));
                    if k < last {
                        assert(prefix.subrange(old_starts[k] as int, end) =~= next.subrange(
                            old_starts[k] as int,
                            end,
                        ));
                    } else {
                        assert(prefix.subrange(old_starts[k] as int, i as int).push(
                            line@[i as int],
                        ) =~= next.subrange(old_starts[k] as int, i + 1));
                    }
                }
                assert(marks_fields(starts@, next));
            }
        }
        i += 1;
    }
    proof {
        assert(line@.take(len as int) =~= line@);
    }
    starts
}

/// Hands out field `k` of `line`.
pub fn field<'a>(line: &'a [u8], starts: &Vec<usize>, k: usize) -> (text: &'a [u8])
    requires
        marks_fields(starts@, line@),
        k < starts@.len(),
    ensures
        text@ == split_fields(line@)[k as int],
{
    let count = starts.len();
    proof {
        assert(starts@[k as int] <= field_end(starts@, k as int, line@.len() as int));
        assert(split_fields(line@)[k as int] == line@.subrange(
            starts@[k as int] as int,
            field_end(starts@, k as int, line@.len() as int),
        ));
    }
    let from = starts[k];
    let to = if k + 1 < count {
        starts[k + 1] - 1
    } else {
        line.len()
    };
    proof {
        assert(to == field_end(starts@, k as int, line@.len() as int));
        assert(split_fields(line@)[k as int] == line@.subrange(from as int, to as int));
    }
    &line[from..to]
}

/// Reads a 16-bit number in decimal.
pub fn parse_u16(text: &[u8]) -> (value: Option<u16>)
    ensures
        value == parse_u16_spec(text@),
{
    let len = text.len();
    let first: usize = if len > 0 && text[0] == 0x2b {
        1
    } else {
        0
    };
    let ghost digits = text@.skip(first as int);
    proof {
        assert(text@.skip(0) =~= text@);
    }
    if first == len {
        return None;
    }
    let mut value: u32 = 0;
    let mut i: usize = first;
    proof {
        assert(digits.take(0) =~= Seq::<u8>::empty());
    }
    while i < len
        invariant
            len == text@.len(),
            first <= i <= len,
            digits == (if text@.len() > 0 && text@[0] == 0x2b {
                text@.skip(1)
            } else {
                text@
            }),
            digits.len() == len - first,
            all_digits(digits.take(i - first)),
            value == digits_value(digits.take(i - first)),
            value <= 0xffff,
        decreases len - i,
    {
        let byte = text[i];
        let ghost done = digits.take(i - first);
        let ghost more = digits.take(i - first + 1);
        proof {
            assert(more.drop_last() =~= done);
            assert(more.last() == byte);
        }
        if byte < 0x30 || byte > 0x39 {
            proof {
                assert(digits[i - first] == byte);
            }
            return None;
        }
        proof {
            assert forall|k: int| 0 <= k < more.len() implies 0x30 <= #[trigger] more[k]
                <= 0x39 by {
                if k < done.len() {
                    assert(done[k] == more[k]);
                }
            }
        }
        let next = value * 10 + (byte - 0x30) as u32;
        if next > 0xffff {
            proof {
                if all_digits(digits) {
                    lemma_digits_value_grows(digits, i - first + 1);
                }
            }
            return None;
        }
        value = next;
        i += 1;
    }
    proof {
        assert(digits.take(len - first) =~= digits);
    }
    Some(value as u16)
}

/// Tells whether a byte is ASCII white space.
fn ascii_space(byte: u8) -> (space: bool)
    ensures
        space == is_ascii_space(byte),
{
    (0x09 <= byte && byte <= 0x0d) || byte == 0x20
}

/// Tells whether two bytes are a white-space character.
fn pair_space(first: u8, second: u8) -> (space: bool)
    ensures
        space == is_pair_space(first, second),
{
    first == 0xc2 && (second == 0x85 || second == 0xa0)
}

/// Tells whether three bytes are a white-space character.
fn triple_space(first: u8, second: u8, third: u8) -> (space: bool)
    ensures
        space == is_triple_space(first, second, third),
{
    (first == 0xe1 && second == 0x9a && third == 0x80) || (first == 0xe2 && second == 0x80 && ((
    0x80 <= third && third <= 0x8a) || third == 0xa8 || third == 0xa9 || third == 0xaf)) || (
    first == 0xe2 && second == 0x81 && third == 0x9f) || (first == 0xe3 && second == 0x80
        && third == 0x80)
}

/// Finds the part of `text` that is left without the white space at its
/// two ends.
pub fn trim_bounds(text: &[u8]) -> (bounds: (usize, usize))
    ensures
        bounds.0 <= bounds.1 <= text@.len(),
        text@.subrange(bounds.0 as int, bounds.1 as int) == trim_spec(text@),
{
    let len = text.len();
    let start = skip_spaces(text, 0);
    let mut end: usize = len;
    loop
        invariant
            len == text@.len(),
            start <= end <= len,
            trim_end_index(text@, start as int, end as int) == trim_end_index(
                text@,
                start as int,
                len as int,
            ),
        ensures
            start <= end <= len,
            end == trim_end_index(text@, start as int, len as int),
        decreases end,
    {
        let step: usize = if start < end && ascii_space(text[end - 1]) {
            1
        } else if end - start > 1 && pair_space(text[end - 2], text[end - 1]) {
            2
        } else if end - start > 2 && triple_space(text[end - 3], text[end - 2], text[end - 1]) {
            3
        } else {
            0
        };
        proof {
            assert(step == trailing_space(text@, start as int, end as int));
        }
        if step == 0 {
            break ;
        }
        end -= step;
    }
    (start, end)
}

/// Skips the white space of `line` from `at` on.
pub fn skip_spaces(line: &[u8], at: usize) -> (next: usize)
    requires
        at <= line@.len(),
    ensures
        at <= next <= line@.len(),
        next == trim_start_index(line@, at as int),
{
    let len = line.len();
    let mut next: usize = at;
    loop
        invariant
            len == line@.len(),
            at <= next <= len,
            trim_start_index(line@, next as int) == trim_start_index(line@, at as int),
        ensures
            at <= next <= len,
            next == trim_start_index(line@, at as int),
        decreases len - next,
    {
        let step: usize = if next < len && ascii_space(line[next]) {
            1
        } else if len - next > 1 && pair_space(line[next], line[next + 1]) {
            2
        } else if len - next > 2 && triple_space(line[next], line[next + 1], line[next + 2]) {
            3
        } else {
            0
        };
        proof {
            assert(step == leading_space(line@, next as int));
        }
        if step == 0 {
            break ;
        }
        next += step;
    }
    next
}

/// Skips the word of `line` that starts at `at`.
pub fn skip_word(line: &[u8], at: usize) -> (next: usize)
    requires
        at <= line@.len(),
    ensures
        at <= next <= line@.len(),
        next == word_end(line@, at as int),
{
    let len = line.len();
    let mut next: usize = at;
    loop
        invariant
            len == line@.len(),
            at <= next <= len,
            word_end(line@, next as int) == word_end(line@, at as int),
        ensures
            at <= next <= len,
            next == word_end(line@, at as int),
        decreases len - next,
    {
        if next >= len {
            break ;
        }
        let space = ascii_space(line[next]) || (len - next > 1 && pair_space(
            line[next],
            line[next + 1],
        )) || (len - next > 2 && triple_space(line[next], line[next + 1], line[next + 2]));
        proof {
            assert(space == (leading_space(line@, next as int) != 0));
        }
        if space {
            break ;
        }
        next += 1;
    }
    next
}

/// A longer run of digits stands for no smaller a number.
proof fn lemma_digits_value_grows(text: Seq<u8>, count: int)
    requires
        all_digits(text),
        0 <= count <= text.len(),
    ensures
        0 <= digits_value(text.take(count)) <= digits_value(text),
    decreases text.len() - count,
{
    if count == text.len() {
        assert(text.take(count) =~= text);
        lemma_digits_value_nonnegative(text);
    } else {
        lemma_digits_value_grows(text, count + 1);
        assert(text.take(count + 1).drop_last() =~= text.take(count));
        lemma_digits_value_nonnegative(text.take(count));
        assert(text.take(count + 1).last() == text[count]);
    }
}

/// A run of digits stands for a number that is not negative.
proof fn lemma_digits_value_nonnegative(text: Seq<u8>)
    requires
        all_digits(text),
    ensures
        digits_value(text) >= 0,
    decreases text.len(),
{
    if text.len() > 0 {
        assert(all_digits(text.drop_last())) by {
            assert forall|i: int| 0 <= i < text.drop_last().len() implies 0x30
                <= #[trigger] text.drop_last()[i] <= 0x39 by {
                assert(text.drop_last()[i] == text[i]);
            }
        }
        lemma_digits_value_nonnegative(text.drop_last());
        assert(0x30 <= text[text.len() - 1] <= 0x39);
    }
}

} // verus!
