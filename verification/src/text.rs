//! Lines, words and numbers of plain text.

use vstd::prelude::*;

verus! {

/// Whether a character has the Unicode property `White_Space`.
pub open spec fn white_space(c: char) -> bool {
    let code = c as u32;
    ||| 0x9 <= code <= 0xd
    ||| code == 0x20
    ||| code == 0x85
    ||| code == 0xa0
    ||| code == 0x1680
    ||| 0x2000 <= code <= 0x200a
    ||| code == 0x2028
    ||| code == 0x2029
    ||| code == 0x202f
    ||| code == 0x205f
    ||| code == 0x3000
}

/// Whether a character is a decimal digit.
pub open spec fn is_digit(c: char) -> bool {
    '0' <= c <= '9'
}

/// The value of a decimal digit.
pub open spec fn digit_value(c: char) -> nat {
    (c as u32 - '0' as u32) as nat
}

/// Whether a text consists of decimal digits.
pub open spec fn all_digits(text: Seq<char>) -> bool {
    forall|i: int| 0 <= i < text.len() ==> is_digit(#[trigger] text[i])
}

/// The number that a sequence of decimal digits denotes.
pub open spec fn digits_value(digits: Seq<char>) -> nat
    decreases digits.len(),
{
    if digits.len() == 0 {
        0
    } else {
        10 * digits_value(digits.drop_last()) + digit_value(digits.last())
    }
}

/// A text without the plus sign that it may begin with.
pub open spec fn without_plus(text: Seq<char>) -> Seq<char> {
    if text.len() > 0 && text[0] == '+' {
        text.skip(1)
    } else {
        text
    }
}

/// The number that a text denotes: an optional plus sign, then at least one digit and nothing
/// else, and no more than a `usize` holds.
pub open spec fn parsed_number(text: Seq<char>) -> Option<usize> {
    let digits = without_plus(text);
    if digits.len() > 0 && all_digits(digits) && digits_value(digits) <= usize::MAX {
        Some(digits_value(digits) as usize)
    } else {
        None
    }
}

/// The decimal digits of a number, without leading zeros.
pub open spec fn decimal(number: nat) -> Seq<char>
    decreases number,
{
    let digit = ('0' as u32 + number % 10) as char;
    if number < 10 {
        seq![digit]
    } else {
        decimal(number / 10).push(digit)
    }
}

/// Where the line that begins at `start` ends: at the next line feed, or with the text.
pub open spec fn line_end(text: Seq<char>, start: int) -> int
    decreases text.len() - start,
{
    if start >= text.len() || text[start] == '\n' {
        start
    } else {
        line_end(text, start + 1)
    }
}

/// The line from `start` to `end`. A carriage return in front of the line feed belongs to the line
/// feed.
pub open spec fn line_between(text: Seq<char>, start: int, end: int) -> Seq<char> {
    if start < end < text.len() && text[end - 1] == '\r' {
        text.subrange(start, end - 1)
    } else {
        text.subrange(start, end)
    }
}

/// The lines of a text from `start` on. A line feed ends a line, also the last one.
pub open spec fn lines_from(text: Seq<char>, start: int) -> Seq<Seq<char>>
    decreases text.len() + 1 - start,
    via lines_from_terminates
{
    if start >= text.len() {
        Seq::empty()
    } else {
        let end = line_end(text, start);
        seq![line_between(text, start, end)] + lines_from(text, end + 1)
    }
}

/// The lines of a text.
pub open spec fn lines(text: Seq<char>) -> Seq<Seq<char>> {
    lines_from(text, 0)
}

#[via_fn]
proof fn lines_from_terminates(text: Seq<char>, start: int) {
    lemma_line_end(text, start);
}

/// A line ends behind its start and within the text.
pub(crate) proof fn lemma_line_end(text: Seq<char>, start: int)
    ensures
        start <= line_end(text, start),
        start <= text.len() ==> line_end(text, start) <= text.len(),
    decreases text.len() - start,
{
    if !(start >= text.len() || text[start] == '\n') {
        lemma_line_end(text, start + 1);
    }
}

/// The first position from `start` on that holds no white space.
pub open spec fn word_start(line: Seq<char>, start: int) -> int
    decreases line.len() - start,
{
    if start >= line.len() || !white_space(line[start]) {
        start
    } else {
        word_start(line, start + 1)
    }
}

/// The first position from `start` on that holds white space.
pub open spec fn word_end(line: Seq<char>, start: int) -> int
    decreases line.len() - start,
{
    if start >= line.len() || white_space(line[start]) {
        start
    } else {
        word_end(line, start + 1)
    }
}

/// The words of a line from `start` on: what white space separates.
pub open spec fn words_from(line: Seq<char>, start: int) -> Seq<Seq<char>>
    decreases line.len() - start,
    via words_from_terminates
{
    let begin = word_start(line, start);
    if begin >= line.len() {
        Seq::empty()
    } else {
        let end = word_end(line, begin);
        seq![line.subrange(begin, end)] + words_from(line, end)
    }
}

/// The words of a line.
pub open spec fn words(line: Seq<char>) -> Seq<Seq<char>> {
    words_from(line, 0)
}

#[via_fn]
proof fn words_from_terminates(line: Seq<char>, start: int) {
    lemma_word_start(line, start);
    lemma_word_end(line, word_start(line, start));
}

/// A word starts at or behind the place it is looked for from, at no white space.
pub(crate) proof fn lemma_word_start(line: Seq<char>, start: int)
    ensures
        start <= word_start(line, start),
        start <= line.len() ==> word_start(line, start) <= line.len(),
        word_start(line, start) < line.len() ==> !white_space(line[word_start(line, start)]),
    decreases line.len() - start,
{
    if !(start >= line.len() || !white_space(line[start])) {
        lemma_word_start(line, start + 1);
    }
}

/// A word ends behind its start and within the line.
pub(crate) proof fn lemma_word_end(line: Seq<char>, start: int)
    ensures
        start <= word_end(line, start),
        start <= line.len() ==> word_end(line, start) <= line.len(),
        start < line.len() && !white_space(line[start]) ==> start < word_end(line, start),
    decreases line.len() - start,
{
    if !(start >= line.len() || white_space(line[start])) {
        lemma_word_end(line, start + 1);
    }
}

/// The contents of a list of lists.
pub open spec fn nested<T>(lists: Seq<Vec<T>>) -> Seq<Seq<T>> {
    lists.map_values(|list: Vec<T>| list@)
}

/// The characters of a text.
pub fn chars_of(text: &str) -> (chars: Vec<char>)
    ensures
        chars@ == text@,
{
    let mut chars: Vec<char> = Vec::new();
    for c in it: text.chars()
        invariant
            it.seq() == text@,
            chars@ == text@.take(it.index()),
    {
        chars.push(c);
        assert(chars@ =~= text@.take(it.index() + 1));
    }
    assert(text@.take(text@.len() as int) =~= text@);
    chars
}

/// Tells whether a character is white space.
pub fn is_white_space(c: char) -> (answer: bool)
    ensures
        answer == white_space(c),
{
    let code: u32 = c as u32;
    (0x9 <= code && code <= 0xd) || code == 0x20 || code == 0x85 || code == 0xa0 || code == 0x1680
        || (0x2000 <= code && code <= 0x200a) || code == 0x2028 || code == 0x2029 || code == 0x202f
        || code == 0x205f || code == 0x3000
}

/// The part of a list from `start` to `end`.
pub fn part(list: &Vec<char>, start: usize, end: usize) -> (copy: Vec<char>)
    requires
        start <= end <= list@.len(),
    ensures
        copy@ == list@.subrange(start as int, end as int),
{
    let mut copy: Vec<char> = Vec::new();
    let mut i: usize = start;
    while i < end
        invariant
            start <= i <= end <= list@.len(),
            copy@ == list@.subrange(start as int, i as int),
        decreases end - i,
    {
        copy.push(list[i]);
        i = i + 1;
        assert(copy@ =~= list@.subrange(start as int, i as int));
    }
    copy
}

/// Splits a text into its lines.
pub fn split_lines(text: &Vec<char>) -> (split: Vec<Vec<char>>)
    ensures
        nested(split@) == lines(text@),
{
    let mut split: Vec<Vec<char>> = Vec::new();
    let mut start: usize = 0;
    assert(nested(split@) + lines_from(text@, 0) =~= lines(text@));
    while start < text.len()
        invariant
            start <= text@.len(),
            nested(split@) + lines_from(text@, start as int) == lines(text@),
        decreases text.len() - start,
    {
        let mut end: usize = start;
        proof {
            lemma_line_end(text@, start as int);
        }
        while end < text.len() && text[end] != '\n'
            invariant
                start <= end <= text@.len(),
                line_end(text@, start as int) == line_end(text@, end as int),
            decreases text.len() - end,
        {
            end = end + 1;
        }
        let line = if start < end && end < text.len() && text[end - 1] == '\r' {
            part(text, start, end - 1)
        } else {
            part(text, start, end)
        };
        let ghost before = split@;
        split.push(line);
        proof {
            assert(nested(split@) =~= nested(before).push(
                line_between(text@, start as int, end as int),
            ));
            assert(nested(split@) + lines_from(text@, end + 1) =~= nested(before) + (seq![
                line_between(text@, start as int, end as int),
            ] + lines_from(text@, end + 1)));
        }
        if end == text.len() {
            assert(lines_from(text@, end + 1) =~= lines_from(text@, end as int));
            start = end;
        } else {
            start = end + 1;
        }
    }
    assert(lines_from(text@, start as int) =~= Seq::<Seq<char>>::empty());
    assert(nested(split@) =~= lines(text@));
    split
}

/// Splits a line into its words.
pub fn split_words(line: &Vec<char>) -> (split: Vec<Vec<char>>)
    ensures
        nested(split@) == words(line@),
{
    let mut split: Vec<Vec<char>> = Vec::new();
    let mut start: usize = 0;
    assert(nested(split@) + words_from(line@, 0) =~= words(line@));
    while start < line.len()
        invariant
            start <= line@.len(),
            nested(split@) + words_from(line@, start as int) == words(line@),
        decreases line.len() - start,
    {
        let ghost from = start as int;
        proof {
            lemma_word_start(line@, from);
            lemma_word_end(line@, word_start(line@, from));
        }
        let mut begin: usize = start;
        while begin < line.len() && is_white_space(line[begin])
            invariant
                start <= begin <= line@.len(),
                word_start(line@, start as int) == word_start(line@, begin as int),
            decreases line.len() - begin,
        {
            begin = begin + 1;
        }
        if begin == line.len() {
            start = begin;
            assert(words_from(line@, begin as int) =~= words_from(line@, from));
        } else {
            let mut end: usize = begin;
            while end < line.len() && !is_white_space(line[end])
                invariant
                    begin <= end <= line@.len(),
                    word_end(line@, begin as int) == word_end(line@, end as int),
                decreases line.len() - end,
            {
                end = end + 1;
            }
            let ghost before = split@;
            split.push(part(line, begin, end));
            proof {
                let word = line@.subrange(begin as int, end as int);
                assert(nested(split@) =~= nested(before).push(word));
                assert(nested(split@) + words_from(line@, end as int) =~= nested(before) + (
                seq![word] + words_from(line@, end as int)));
            }
            start = end;
        }
    }
    assert(words_from(line@, start as int) =~= Seq::<Seq<char>>::empty());
    assert(nested(split@) =~= words(line@));
    split
}

/// A prefix of a digit sequence denotes no more than the whole.
proof fn lemma_prefix_value(digits: Seq<char>, end: int)
    requires
        0 <= end <= digits.len(),
    ensures
        digits_value(digits.take(end)) <= digits_value(digits),
    decreases digits.len() - end,
{
    if end == digits.len() {
        assert(digits.take(end) =~= digits);
    } else {
        lemma_prefix_value(digits, end + 1);
        assert(digits.take(end + 1).drop_last() =~= digits.take(end));
    }
}

/// Reads a number, as [`parsed_number`] says.
pub fn parse_number(text: &Vec<char>) -> (number: Option<usize>)
    ensures
        number == parsed_number(text@),
{
    let start: usize = if text.len() > 0 && text[0] == '+' {
        1
    } else {
        0
    };
    let ghost digits = without_plus(text@);
    assert(forall|i: int| 0 <= i < digits.len() ==> digits[i] == text@[i + start]);
    assert(digits.len() == text@.len() - start);
    if start == text.len() {
        return None;
    }
    let mut value: usize = 0;
    let mut i: usize = start;
    while i < text.len()
        invariant
            start <= i <= text@.len(),
            start < text@.len(),
            digits == without_plus(text@),
            digits.len() == text@.len() - start,
            forall|j: int| 0 <= j < digits.len() ==> digits[j] == text@[j + start],
            forall|j: int| 0 <= j < i - start ==> is_digit(#[trigger] digits[j]),
            value == digits_value(digits.take(i - start)),
        decreases text.len() - i,
    {
        let c = text[i];
        assert(digits[i - start] == c);
        if c < '0' || '9' < c {
            return None;
        }
        let digit: usize = (c as u32 - '0' as u32) as usize;
        proof {
            lemma_prefix_value(digits, i - start + 1);
            assert(digits.take(i - start + 1).drop_last() =~= digits.take(i - start));
        }
        if value > usize::MAX / 10 {
            assert(10 * value > usize::MAX) by (nonlinear_arith)
                requires
                    value > usize::MAX / 10,
            ;
            return None;
        }
        if 10 * value > usize::MAX - digit {
            return None;
        }
        value = 10 * value + digit;
        i = i + 1;
    }
    assert(digits.take(i - start) =~= digits);
    Some(value)
}

/// The digit characters as texts.
fn digit_text(digit: usize) -> (text: &'static str)
    requires
        digit < 10,
    ensures
        text@ == seq![('0' as u32 + digit) as char],
{
    proof {
        reveal_strlit("0");
        reveal_strlit("1");
        reveal_strlit("2");
        reveal_strlit("3");
        reveal_strlit("4");
        reveal_strlit("5");
        reveal_strlit("6");
        reveal_strlit("7");
        reveal_strlit("8");
        reveal_strlit("9");
    }
    let text = match digit {
        0 => "0",
        1 => "1",
        2 => "2",
        3 => "3",
        4 => "4",
        5 => "5",
        6 => "6",
        7 => "7",
        8 => "8",
        _ => "9",
    };
    assert(text@ =~= seq![('0' as u32 + digit) as char]);
    text
}

/// Writes a number in decimal digits.
pub fn decimal_text(number: usize) -> (text: String)
    ensures
        text@ == decimal(number as nat),
    decreases number,
{
    if number < 10 {
        digit_text(number).to_owned()
    } else {
        let mut text = decimal_text(number / 10);
        text.append(digit_text(number % 10));
        assert(text@ =~= decimal((number / 10) as nat).push(('0' as u32 + number % 10) as char));
        text
    }
}

proof fn lemma_digit(digit: nat)
    requires
        digit < 10,
    ensures
        is_digit(('0' as u32 + digit) as char),
        digit_value(('0' as u32 + digit) as char) == digit,
        ('0' as u32 + digit) as char != '+',
{
}

/// A number in decimal consists of digits that denote it.
pub(crate) proof fn lemma_decimal(number: nat)
    ensures
        decimal(number).len() > 0,
        all_digits(decimal(number)),
        digits_value(decimal(number)) == number,
        decimal(number)[0] != '+',
    decreases number,
{
    let digit = number % 10;
    lemma_digit(digit);
    let c = ('0' as u32 + digit) as char;
    if number < 10 {
        let text = decimal(number);
        assert(text =~= seq![c]);
        assert(text.drop_last() =~= Seq::empty());
        assert(digits_value(text.drop_last()) == 0);
        assert(text.last() == c);
    } else {
        lemma_decimal(number / 10);
        let text = decimal(number);
        assert(text.drop_last() =~= decimal(number / 10));
        assert(text.last() == c);
        assert forall|i: int| 0 <= i < text.len() implies is_digit(#[trigger] text[i]) by {
            if i < text.len() - 1 {
                assert(text[i] == decimal(number / 10)[i]);
            }
        }
    }
}

/// Reading a number gives back the one that was written.
pub proof fn law_decimal_round_trip(number: usize)
    ensures
        parsed_number(decimal(number as nat)) == Some(number),
{
    lemma_decimal(number as nat);
}

} // verus!
