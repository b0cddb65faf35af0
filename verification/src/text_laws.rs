//! Laws of lines, words and numbers of plain text: what they are is said by how texts are put
//! together.

use vstd::prelude::*;

use crate::text::{
    all_digits, decimal, digits_value, is_digit, lemma_decimal, lemma_line_end, lemma_word_end,
    lemma_word_start, line_between, line_end, lines, lines_from, parsed_number, white_space,
    without_plus, word_end, word_start, words, words_from,
};

verus! {

/// Exactly these characters separate words.
pub proof fn law_white_space(c: char)
    ensures
        white_space(c) == ('\t' <= c <= '\r' || c == ' ' || c == '\u{85}' || c == '\u{a0}' || c
            == '\u{1680}' || '\u{2000}' <= c <= '\u{200a}' || '\u{2028}' <= c <= '\u{2029}' || c
            == '\u{202f}' || c == '\u{205f}' || c == '\u{3000}'),
{
}

proof fn lemma_word_start_in(left: Seq<char>, c: char, right: Seq<char>, start: int)
    requires
        white_space(c),
        0 <= start <= left.len(),
    ensures
        word_start(left, start) < left.len() ==> word_start(left.push(c) + right, start)
            == word_start(left, start),
        word_start(left, start) >= left.len() ==> word_start(left.push(c) + right, start)
            == word_start(left.push(c) + right, left.len() as int + 1),
    decreases left.len() - start,
{
    let full = left.push(c) + right;
    if start < left.len() {
        assert(full[start] == left[start]);
        if white_space(left[start]) {
            lemma_word_start_in(left, c, right, start + 1);
        }
    } else {
        assert(full[start] == c);
        assert(word_start(full, start) == word_start(full, start + 1));
    }
}

proof fn lemma_word_end_in(left: Seq<char>, c: char, right: Seq<char>, start: int)
    requires
        white_space(c),
        0 <= start <= left.len(),
    ensures
        word_end(left.push(c) + right, start) == word_end(left, start),
    decreases left.len() - start,
{
    let full = left.push(c) + right;
    if start < left.len() {
        assert(full[start] == left[start]);
        if !white_space(left[start]) {
            lemma_word_end_in(left, c, right, start + 1);
        }
    } else {
        assert(full[start] == c);
    }
}

proof fn lemma_word_start_shift(front: Seq<char>, right: Seq<char>, start: int)
    requires
        0 <= start,
    ensures
        word_start(front + right, front.len() + start) == front.len() + word_start(right, start),
    decreases right.len() - start,
{
    if start < right.len() {
        assert((front + right)[front.len() + start] == right[start]);
        if white_space(right[start]) {
            lemma_word_start_shift(front, right, start + 1);
        }
    }
}

proof fn lemma_word_end_shift(front: Seq<char>, right: Seq<char>, start: int)
    requires
        0 <= start,
    ensures
        word_end(front + right, front.len() + start) == front.len() + word_end(right, start),
    decreases right.len() - start,
{
    if start < right.len() {
        assert((front + right)[front.len() + start] == right[start]);
        if !white_space(right[start]) {
            lemma_word_end_shift(front, right, start + 1);
        }
    }
}

proof fn lemma_words_shift(front: Seq<char>, right: Seq<char>, start: int)
    requires
        0 <= start,
    ensures
        words_from(front + right, front.len() + start) == words_from(right, start),
    decreases right.len() - start,
{
    let full = front + right;
    let begin = word_start(right, start);
    lemma_word_start(right, start);
    lemma_word_start_shift(front, right, start);
    if begin < right.len() {
        let end = word_end(right, begin);
        lemma_word_end(right, begin);
        lemma_word_end_shift(front, right, begin);
        lemma_words_shift(front, right, end);
        assert(full.subrange(front.len() + begin, front.len() + end) =~= right.subrange(
            begin,
            end,
        ));
    }
}

proof fn lemma_words_split_from(left: Seq<char>, c: char, right: Seq<char>, start: int)
    requires
        white_space(c),
        0 <= start <= left.len(),
    ensures
        words_from(left.push(c) + right, start) == words_from(left, start) + words(right),
    decreases left.len() - start,
{
    let full = left.push(c) + right;
    let begin = word_start(left, start);
    lemma_word_start(left, start);
    lemma_word_start_in(left, c, right, start);
    if begin >= left.len() {
        lemma_words_shift(left.push(c), right, 0);
        let next = left.len() as int + 1;
        assert(word_start(full, start) == word_start(full, next));
        assert(words_from(full, start) =~= words_from(full, next));
        assert(words_from(left, start) + words(right) =~= words(right));
    } else {
        let end = word_end(left, begin);
        lemma_word_end(left, begin);
        lemma_word_end_in(left, c, right, begin);
        lemma_words_split_from(left, c, right, end);
        assert(full.subrange(begin, end) =~= left.subrange(begin, end));
        assert(words_from(full, start) =~= seq![left.subrange(begin, end)] + (words_from(left, end)
            + words(right)));
        assert(words_from(left, start) + words(right) =~= seq![left.subrange(begin, end)] + (
        words_from(left, end) + words(right)));
    }
}

/// White space parts words: a line has the words in front of it and those behind it.
pub proof fn law_white_space_parts_words(left: Seq<char>, c: char, right: Seq<char>)
    requires
        white_space(c),
    ensures
        words(left.push(c) + right) == words(left) + words(right),
{
    lemma_words_split_from(left, c, right, 0);
}

proof fn lemma_whole_word(word: Seq<char>, start: int)
    requires
        0 <= start <= word.len(),
        forall|i: int| 0 <= i < word.len() ==> !white_space(#[trigger] word[i]),
    ensures
        word_end(word, start) == word.len(),
    decreases word.len() - start,
{
    if start < word.len() {
        lemma_whole_word(word, start + 1);
    }
}

/// What holds no white space is one word, unless it is empty.
pub proof fn law_one_word(word: Seq<char>)
    requires
        forall|i: int| 0 <= i < word.len() ==> !white_space(#[trigger] word[i]),
    ensures
        word.len() > 0 ==> words(word) == seq![word],
        word.len() == 0 ==> words(word).len() == 0,
{
    if word.len() > 0 {
        lemma_whole_word(word, 0);
        assert(word_start(word, 0) == 0);
        assert(word.subrange(0, word.len() as int) =~= word);
        assert(words_from(word, word.len() as int) =~= Seq::empty());
        assert(words(word) =~= seq![word]);
    }
}

proof fn lemma_line_end_in(line: Seq<char>, rest: Seq<char>, start: int)
    requires
        forall|i: int| 0 <= i < line.len() ==> (#[trigger] line[i]) != '\n',
        0 <= start <= line.len(),
    ensures
        line_end(line.push('\n') + rest, start) == line.len(),
    decreases line.len() - start,
{
    let full = line.push('\n') + rest;
    if start < line.len() {
        assert(full[start] == line[start]);
        lemma_line_end_in(line, rest, start + 1);
    } else {
        assert(full[start] == '\n');
    }
}

proof fn lemma_line_end_shift(front: Seq<char>, rest: Seq<char>, start: int)
    requires
        0 <= start,
    ensures
        line_end(front + rest, front.len() + start) == front.len() + line_end(rest, start),
    decreases rest.len() - start,
{
    if start < rest.len() {
        assert((front + rest)[front.len() + start] == rest[start]);
        if rest[start] != '\n' {
            lemma_line_end_shift(front, rest, start + 1);
        }
    }
}

proof fn lemma_lines_shift(front: Seq<char>, rest: Seq<char>, start: int)
    requires
        0 <= start,
    ensures
        lines_from(front + rest, front.len() + start) == lines_from(rest, start),
    decreases rest.len() + 1 - start,
{
    let full = front + rest;
    if start < rest.len() {
        let end = line_end(rest, start);
        let n = front.len() as int;
        lemma_line_end(rest, start);
        lemma_line_end_shift(front, rest, start);
        lemma_lines_shift(front, rest, end + 1);
        assert(line_between(full, n + start, n + end) =~= line_between(rest, start, end)) by {
            assert(full.subrange(n + start, n + end) =~= rest.subrange(start, end));
            if start < end {
                assert(full[n + end - 1] == rest[end - 1]);
                assert(full.subrange(n + start, n + end - 1) =~= rest.subrange(start, end - 1));
            }
        }
    }
}

/// A line feed ends a line, with the carriage return in front of it if there is one, and the rest of
/// the text has the other lines.
pub proof fn law_line_feed_ends_a_line(line: Seq<char>, rest: Seq<char>)
    requires
        forall|i: int| 0 <= i < line.len() ==> (#[trigger] line[i]) != '\n',
    ensures
        lines(line.push('\n') + rest) == seq![
            if line.len() > 0 && line.last() == '\r' {
                line.drop_last()
            } else {
                line
            },
        ] + lines(rest),
{
    let full = line.push('\n') + rest;
    let end = line.len() as int;
    lemma_line_end_in(line, rest, 0);
    lemma_lines_shift(line.push('\n'), rest, 0);
    let first = if line.len() > 0 && line.last() == '\r' {
        line.drop_last()
    } else {
        line
    };
    assert(line_between(full, 0, end) =~= first) by {
        assert(full.subrange(0, end) =~= line);
        if end > 0 {
            assert(full[end - 1] == line[end - 1]);
            assert(full.subrange(0, end - 1) =~= line.drop_last());
        }
    }
    assert(lines(full) =~= seq![first] + lines(rest));
}

proof fn lemma_line_end_none(line: Seq<char>, start: int)
    requires
        forall|i: int| 0 <= i < line.len() ==> (#[trigger] line[i]) != '\n',
        0 <= start <= line.len(),
    ensures
        line_end(line, start) == line.len(),
    decreases line.len() - start,
{
    if start < line.len() {
        lemma_line_end_none(line, start + 1);
    }
}

/// What holds no line feed is one line, unless it is empty.
pub proof fn law_last_line(line: Seq<char>)
    requires
        forall|i: int| 0 <= i < line.len() ==> (#[trigger] line[i]) != '\n',
    ensures
        line.len() > 0 ==> lines(line) == seq![line],
        line.len() == 0 ==> lines(line).len() == 0,
{
    if line.len() > 0 {
        lemma_line_end_none(line, 0);
        assert(line.subrange(0, line.len() as int) =~= line);
        assert(lines_from(line, line.len() as int + 1) =~= Seq::empty());
        assert(lines(line) =~= seq![line]);
    }
}

/// A number in decimal has the digits of its tenth, without remainder, and then that of the
/// remainder.
pub proof fn law_decimal_digits(tens: nat, ones: nat)
    requires
        ones < 10,
    ensures
        tens == 0 ==> decimal(ones) == seq![('0' as u32 + ones) as char],
        tens > 0 ==> decimal((10 * tens + ones) as nat) == decimal(tens).push(
            ('0' as u32 + ones) as char,
        ),
{
    let number = (10 * tens + ones) as nat;
    assert(number / 10 == tens && number % 10 == ones);
    assert(decimal(ones) =~= seq![('0' as u32 + ones) as char]);
}

proof fn lemma_zeros(zeros: nat, digits: Seq<char>)
    requires
        all_digits(digits),
    ensures
        all_digits(Seq::new(zeros, |i: int| '0') + digits),
        digits_value(Seq::new(zeros, |i: int| '0') + digits) == digits_value(digits),
    decreases digits.len(), zeros,
{
    let padding = Seq::new(zeros, |i: int| '0');
    let padded = padding + digits;
    assert forall|i: int| 0 <= i < padded.len() implies is_digit(#[trigger] padded[i]) by {
        if i >= zeros {
            assert(padded[i] == digits[i - zeros]);
        }
    }
    if digits.len() > 0 {
        let init = digits.drop_last();
        assert forall|i: int| 0 <= i < init.len() implies is_digit(#[trigger] init[i]) by {
            assert(init[i] == digits[i]);
        }
        lemma_zeros(zeros, init);
        assert(padded.drop_last() =~= padding + init);
        assert(padded.last() == digits.last());
    } else {
        assert(padded =~= padding);
        assert(digits =~= Seq::empty());
        if zeros > 0 {
            lemma_zeros((zeros - 1) as nat, digits);
            let shorter = Seq::new((zeros - 1) as nat, |i: int| '0');
            assert(padding.drop_last() =~= shorter);
            assert(shorter + digits =~= shorter);
            assert(padding.last() == '0');
        }
    }
}

/// Digits are the number that they denote in decimal, behind zeros.
proof fn lemma_leading_zeros(digits: Seq<char>) -> (zeros: nat)
    requires
        digits.len() > 0,
        all_digits(digits),
    ensures
        digits == Seq::new(zeros, |i: int| '0') + decimal(digits_value(digits)),
    decreases digits.len(),
{
    let init = digits.drop_last();
    let c = digits.last();
    assert(is_digit(digits[digits.len() - 1]));
    let ones = (c as u32 - '0' as u32) as nat;
    assert(('0' as u32 + ones) as char == c);
    if init.len() == 0 {
        assert(digits_value(init) == 0);
        law_decimal_digits(0, ones);
        assert(digits =~= Seq::new(0, |i: int| '0') + decimal(digits_value(digits)));
        0
    } else {
        assert forall|i: int| 0 <= i < init.len() implies is_digit(#[trigger] init[i]) by {
            assert(init[i] == digits[i]);
        }
        let zeros = lemma_leading_zeros(init);
        let tens = digits_value(init);
        law_decimal_digits(tens, ones);
        assert(digits =~= init.push(c));
        if tens > 0 {
            assert(digits =~= Seq::new(zeros, |i: int| '0') + decimal(digits_value(digits)));
            zeros
        } else {
            law_decimal_digits(0, 0);
            assert(init =~= Seq::new((zeros + 1) as nat, |i: int| '0'));
            assert(digits =~= Seq::new((zeros + 1) as nat, |i: int| '0') + decimal(
                digits_value(digits),
            ));
            zeros + 1
        }
    }
}

/// A text denotes a number if and only if it is the number in decimal, behind zeros, behind a plus
/// sign, or both, or alone.
pub proof fn law_texts_of_a_number(text: Seq<char>, number: usize)
    ensures
        (parsed_number(text) == Some(number)) == (exists|signed: bool, zeros: nat|
            text == (if signed {
                seq!['+']
            } else {
                Seq::<char>::empty()
            }) + #[trigger] with_zeros(signed, zeros, decimal(number as nat))),
{
    lemma_decimal(number as nat);
    if parsed_number(text) == Some(number) {
        let digits = without_plus(text);
        let zeros = lemma_leading_zeros(digits);
        let signed = text.len() > 0 && text[0] == '+';
        let padded = with_zeros(signed, zeros, decimal(number as nat));
        assert(digits == padded);
        assert(text =~= (if signed {
            seq!['+']
        } else {
            Seq::<char>::empty()
        }) + padded);
    }
    if exists|signed: bool, zeros: nat|
        text == (if signed {
            seq!['+']
        } else {
            Seq::<char>::empty()
        }) + #[trigger] with_zeros(signed, zeros, decimal(number as nat)) {
        let (signed, zeros) = choose|signed: bool, zeros: nat|
            text == (if signed {
                seq!['+']
            } else {
                Seq::<char>::empty()
            }) + #[trigger] with_zeros(signed, zeros, decimal(number as nat));
        let padded = with_zeros(signed, zeros, decimal(number as nat));
        lemma_zeros(zeros, decimal(number as nat));
        assert(padded[0] != '+');
        if signed {
            assert(text[0] == '+');
            assert(without_plus(text) =~= padded);
        } else {
            assert(text =~= padded);
        }
    }
}

/// Digits behind zeros. Whether a sign is in front makes no difference.
pub open spec fn with_zeros(signed: bool, zeros: nat, digits: Seq<char>) -> Seq<char> {
    Seq::new(zeros, |i: int| '0') + digits
}

} // verus!
