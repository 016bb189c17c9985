//! The field selector: the text that says which fields of a line to keep.
//!
//! A selector is read, in this order, as
//!
//! 1. a single number `N`: the one field `N`;
//! 2. a range around one `-`: `S-E` for the fields `S` to `E`, `-E` for the
//!    fields before `E`, `S-` for field `S` and every field after it;
//! 3. a list of numbers separated by `,`.
//!
//! The result is a list of field numbers. A list whose first element is `0`
//! and that has a second element stands for the open range that starts at
//! that second element.

use vstd::prelude::*;
use crate::number::{is_digit, lemma_number_chars, number_value, parse_number, unsigned_part};
use crate::text::chars_of;

verus! {

/// Why a selector was refused.
#[derive(Clone, Copy, Debug, PartialEq, Eq, Structural)]
pub enum SelectorError {
    /// The text is neither a number, nor a range, nor a list of numbers.
    InvalidFormat,
    /// The text is a range whose start lies after its end.
    DecreasingRange,
}

impl SelectorError {
    /// The sentence that describes the error.
    pub open spec fn text(self) -> Seq<char> {
        match self {
            SelectorError::InvalidFormat => "not number, range, or list"@,
            SelectorError::DecreasingRange => "invalid decreasing range"@,
        }
    }

    /// The sentence that describes the error, for printing.
    pub fn message(&self) -> (message: String)
        ensures
            message@ == self.text(),
    {
        match self {
            SelectorError::InvalidFormat => "not number, range, or list".to_owned(),
            SelectorError::DecreasingRange => "invalid decreasing range".to_owned(),
        }
    }
}

/// Whether `at` is where `mark` first stands in `text`, or the length of
/// `text` where `mark` does not stand in it.
pub open spec fn is_first_position(text: Seq<char>, mark: char, at: int) -> bool {
    &&& 0 <= at <= text.len()
    &&& at < text.len() ==> text[at] == mark
    &&& forall|i: int| 0 <= i < at ==> text[i] != mark
}

/// The position of the first `mark` in `text`; the length of `text` where
/// it holds none.
pub open spec fn first_position(text: Seq<char>, mark: char) -> int {
    choose|at: int| is_first_position(text, mark, at)
}

/// The numbers `first`, `first + 1`, ... : `count` of them.
pub open spec fn ascending(first: int, count: nat) -> Seq<u32> {
    Seq::new(count, |i: int| (first + i) as u32)
}

/// What the two sides of a `-` mean as a range, or `None` where they are
/// not a range, so that the text may still be a list.
pub open spec fn range_meaning(start: Seq<char>, end: Seq<char>) -> Option<
    Result<Seq<u32>, SelectorError>,
> {
    if start.len() == 0 && end.len() == 0 {
        Some(Err(SelectorError::InvalidFormat))
    } else if start.len() == 0 {
        match number_value(end) {
            Some(e) => Some(Ok(ascending(1, if e >= 1 { (e - 1) as nat } else { 0 }))),
            None => None,
        }
    } else if end.len() == 0 {
        match number_value(start) {
            Some(s) => Some(Ok(seq![0u32, s])),
            None => None,
        }
    } else {
        match (number_value(start), number_value(end)) {
            (Some(s), Some(e)) => if s <= e {
                Some(Ok(ascending(s as int, (e - s + 1) as nat)))
            } else {
                Some(Err(SelectorError::DecreasingRange))
            },
            _ => None,
        }
    }
}

/// What `text` means as a list of numbers separated by `,`, or `None` where
/// one of its pieces is not a number.
pub open spec fn list_meaning(text: Seq<char>) -> Option<Seq<u32>>
    decreases text.len(),
    via list_meaning_decreases
{
    let comma = first_position(text, ',');
    if comma >= text.len() {
        match number_value(text) {
            Some(n) => Some(seq![n]),
            None => None,
        }
    } else {
        match (
            number_value(text.subrange(0, comma)),
            list_meaning(text.subrange(comma + 1, text.len() as int)),
        ) {
            (Some(n), Some(rest)) => Some(seq![n] + rest),
            _ => None,
        }
    }
}

#[via_fn]
proof fn list_meaning_decreases(text: Seq<char>) {
    lemma_first_position(text, ',');
}

/// What `text` means as a range: what `range_meaning` makes of the two
/// sides of its first `-`; `None` where it holds no `-` or is no range.
pub open spec fn dash_meaning(text: Seq<char>) -> Option<Result<Seq<u32>, SelectorError>> {
    let dash = first_position(text, '-');
    if dash < text.len() {
        range_meaning(text.subrange(0, dash), text.subrange(dash + 1, text.len() as int))
    } else {
        None
    }
}

/// What a selector means: the list of field numbers, or the reason why the
/// text is refused. The text is taken as a single number if it is one, else
/// as a range if it is one, else as a list.
pub open spec fn selector_meaning(text: Seq<char>) -> Result<Seq<u32>, SelectorError> {
    match number_value(text) {
        Some(n) => Ok(seq![n]),
        None => match dash_meaning(text) {
            Some(result) => result,
            None => match list_meaning(text) {
                Some(list) => Ok(list),
                None => Err(SelectorError::InvalidFormat),
            },
        },
    }
}

/// A parse result with its list taken as a sequence.
pub open spec fn outcome(result: Result<Vec<u32>, SelectorError>) -> Result<
    Seq<u32>,
    SelectorError,
> {
    match result {
        Ok(fields) => Ok(fields@),
        Err(error) => Err(error),
    }
}

/// The list `rest` with `done` in front of it; `None` where there is no
/// `rest`.
spec fn prepend(done: Seq<u32>, rest: Option<Seq<u32>>) -> Option<Seq<u32>> {
    match rest {
        Some(rest) => Some(done + rest),
        None => None,
    }
}

/// The first position at or after `from` where `mark` stands in `chars`;
/// the length of `chars` where there is none.
pub(crate) fn find_char(chars: &Vec<char>, mark: char, from: usize) -> (at: usize)
    requires
        from <= chars.len(),
    ensures
        from <= at <= chars.len(),
        at - from == first_position(chars@.subrange(from as int, chars.len() as int), mark),
{
    let ghost rest = chars@.subrange(from as int, chars.len() as int);
    let mut at: usize = from;
    while at < chars.len() && chars[at] != mark
        invariant
            from <= at <= chars.len(),
            rest == chars@.subrange(from as int, chars.len() as int),
            forall|i: int| 0 <= i < at - from ==> rest[i] != mark,
        decreases chars.len() - at,
    {
        at += 1;
    }
    proof {
        assert(is_first_position(rest, mark, at - from));
        lemma_first_position(rest, mark);
    }
    at
}

/// The numbers from `first` to `last`, both of them included.
fn count_up(first: u32, last: u32) -> (numbers: Vec<u32>)
    requires
        first <= last,
    ensures
        numbers@ == ascending(first as int, (last - first + 1) as nat),
{
    let mut numbers: Vec<u32> = Vec::new();
    let mut next: u32 = first;
    loop
        invariant_except_break
            first <= next <= last,
            numbers@ == ascending(first as int, (next - first) as nat),
        ensures
            numbers@ == ascending(first as int, (last - first + 1) as nat),
        decreases last - next,
    {
        numbers.push(next);
        assert(numbers@ == ascending(first as int, (next - first + 1) as nat));
        if next == last {
            break ;
        }
        next += 1;
    }
    numbers
}

/// Reads the text around the `-` at `dash` as a range.
fn parse_range(chars: &Vec<char>, dash: usize) -> (range: Option<Result<Vec<u32>, SelectorError>>)
    requires
        dash < chars.len(),
    ensures
        match range {
            Some(result) => Some(outcome(result)),
            None => None,
        } == range_meaning(
            chars@.subrange(0, dash as int),
            chars@.subrange(dash + 1, chars.len() as int),
        ),
{
    let len: usize = chars.len();
    if dash == 0 && dash + 1 == len {
        Some(Err(SelectorError::InvalidFormat))
    } else if dash == 0 {
        match parse_number(chars, dash + 1, len) {
            Some(end) => {
                if end >= 2 {
                    Some(Ok(count_up(1, end - 1)))
                } else {
                    let none: Vec<u32> = Vec::new();
                    assert(none@ == ascending(1, 0));
                    Some(Ok(none))
                }
            },
            None => None,
        }
    } else if dash + 1 == len {
        match parse_number(chars, 0, dash) {
            Some(start) => {
                let mut open: Vec<u32> = Vec::new();
                open.push(0);
                open.push(start);
                assert(open@ == seq![0u32, start]);
                Some(Ok(open))
            },
            None => None,
        }
    } else {
        match parse_number(chars, 0, dash) {
            Some(start) => match parse_number(chars, dash + 1, len) {
                Some(end) => {
                    if start <= end {
                        Some(Ok(count_up(start, end)))
                    } else {
                        Some(Err(SelectorError::DecreasingRange))
                    }
                },
                None => None,
            },
            None => None,
        }
    }
}

/// Reads the text as numbers separated by `,`.
fn parse_list(chars: &Vec<char>) -> (list: Option<Vec<u32>>)
    ensures
        match list {
            Some(numbers) => Some(numbers@),
            None => None,
        } == list_meaning(chars@),
{
    let len: usize = chars.len();
    let mut numbers: Vec<u32> = Vec::new();
    let mut from: usize = 0;
    assert(chars@.subrange(0, len as int) == chars@);
    assert(numbers@ + list_meaning(chars@)->0 == list_meaning(chars@)->0);
    loop
        invariant
            from <= len == chars.len(),
            list_meaning(chars@) == prepend(
                numbers@,
                list_meaning(chars@.subrange(from as int, len as int)),
            ),
        decreases len - from,
    {
        let ghost rest = chars@.subrange(from as int, len as int);
        let ghost done = numbers@;
        let comma: usize = find_char(chars, ',', from);
        let piece: Option<u32> = parse_number(chars, from, comma);
        proof {
            if comma == len {
                assert(chars@.subrange(from as int, comma as int) == rest);
            } else {
                assert(chars@.subrange(from as int, comma as int) == rest.subrange(
                    0,
                    comma - from,
                ));
                assert(chars@.subrange(comma + 1, len as int) == rest.subrange(
                    comma - from + 1,
                    rest.len() as int,
                ));
            }
        }
        match piece {
            None => {
                return None;
            },
            Some(n) => {
                numbers.push(n);
                if comma == len {
                    assert(done + seq![n] == numbers@);
                    return Some(numbers);
                }
                proof {
                    let tail = list_meaning(chars@.subrange(comma + 1, len as int));
                    if tail is Some {
                        assert(done + (seq![n] + tail->0) == numbers@ + tail->0);
                    }
                }
                from = comma + 1;
            },
        }
    }
}

/// Reads a field selector.
///
/// Returns the list of field numbers that the selector stands for, or the
/// reason why it is none: exactly what `selector_meaning` says of the
/// characters of `val`.
pub fn validate_input(val: &str) -> (result: Result<Vec<u32>, SelectorError>)
    ensures
        outcome(result) == selector_meaning(val@),
{
    let chars: Vec<char> = chars_of(val);
    let len: usize = chars.len();
    assert(chars@.subrange(0, len as int) == chars@);
    if let Some(n) = parse_number(&chars, 0, len) {
        let mut single: Vec<u32> = Vec::new();
        single.push(n);
        assert(single@ == seq![n]);
        return Ok(single);
    }
    let dash: usize = find_char(&chars, '-', 0);
    if dash < len {
        if let Some(range) = parse_range(&chars, dash) {
            return range;
        }
    }
    match parse_list(&chars) {
        Some(numbers) => Ok(numbers),
        None => Err(SelectorError::InvalidFormat),
    }
}

/// The first position exists and is the only position that
/// `is_first_position` accepts.
pub proof fn lemma_first_position(text: Seq<char>, mark: char)
    ensures
        is_first_position(text, mark, first_position(text, mark)),
        forall|at: int| is_first_position(text, mark, at) ==> at == first_position(text, mark),
{
    lemma_first_position_exists(text, mark, text.len() as int);
    assert(text.take(text.len() as int) == text);
    let found = first_position(text, mark);
    assert forall|at: int| is_first_position(text, mark, at) implies at == found by {
        if at < found {
            assert(text[at] == mark);
        } else if found < at {
            assert(text[found] == mark);
        }
    }
}

proof fn lemma_first_position_exists(text: Seq<char>, mark: char, upto: int)
    requires
        0 <= upto <= text.len(),
    ensures
        exists|at: int| is_first_position(text.take(upto), mark, at),
    decreases upto,
{
    let head = text.take(upto);
    if upto == 0 {
        assert(is_first_position(head, mark, 0));
    } else {
        lemma_first_position_exists(text, mark, upto - 1);
        let shorter = text.take(upto - 1);
        let at = choose|at: int| is_first_position(shorter, mark, at);
        if at < upto - 1 {
            assert(head[at] == shorter[at]);
            assert forall|i: int| 0 <= i < at implies head[i] != mark by {
                assert(head[i] == shorter[i]);
            }
            assert(is_first_position(head, mark, at));
        } else if head[upto - 1] == mark {
            assert forall|i: int| 0 <= i < upto - 1 implies head[i] != mark by {
                assert(head[i] == shorter[i]);
            }
            assert(is_first_position(head, mark, upto - 1));
        } else {
            assert forall|i: int| 0 <= i < upto implies head[i] != mark by {
                if i < upto - 1 {
                    assert(head[i] == shorter[i]);
                }
            }
            assert(is_first_position(head, mark, upto));
        }
    }
}

/// A text that is a list of numbers holds no `-`: a text with a `-` is a
/// range or no selector at all.
pub proof fn lemma_list_holds_no_dash(text: Seq<char>)
    requires
        list_meaning(text) is Some,
    ensures
        forall|i: int| 0 <= i < text.len() ==> text[i] != '-',
    decreases text.len(),
{
    lemma_first_position(text, ',');
    let comma = first_position(text, ',');
    if comma >= text.len() {
        lemma_number_chars(text);
    } else {
        let head = text.subrange(0, comma);
        let rest = text.subrange(comma + 1, text.len() as int);
        lemma_number_chars(head);
        lemma_list_holds_no_dash(rest);
        assert forall|i: int| 0 <= i < text.len() implies text[i] != '-' by {
            if i < comma {
                assert(text[i] == head[i]);
            } else if i > comma {
                assert(text[i] == rest[i - comma - 1]);
            }
        }
    }
}

/// A text with more than one `-` is no selector.
pub proof fn lemma_two_dashes_are_refused(text: Seq<char>, first: int, second: int)
    requires
        0 <= first < second < text.len(),
        text[first] == '-',
        text[second] == '-',
    ensures
        selector_meaning(text) == Err::<Seq<u32>, SelectorError>(SelectorError::InvalidFormat),
{
    if number_value(text) is Some {
        lemma_number_chars(text);
        assert(!is_digit(text[second]));
    }
    lemma_first_position(text, '-');
    let dash = first_position(text, '-');
    assert(dash <= first) by {
        if first < dash {
            assert(text[first] != '-');
        }
    }
    let end = text.subrange(dash + 1, text.len() as int);
    assert(end[second - dash - 1] == '-');
    if number_value(end) is Some {
        lemma_number_chars(end);
        assert(!is_digit(end[second - dash - 1]));
    }
    if list_meaning(text) is Some {
        lemma_list_holds_no_dash(text);
    }
}

/// A `-` in front of a number `N` selects the fields before field `N`:
/// the list is 1, 2, ..., `N` - 1, and `N` itself is left out. For `N` at
/// least 1 these are `N` - 1 fields; for `N` = 0 there are none.
pub proof fn lemma_open_start_range(end: Seq<char>, n: u32)
    requires
        number_value(end) == Some(n),
    ensures
        selector_meaning(seq!['-'] + end) is Ok,
        selector_meaning(seq!['-'] + end)->Ok_0 == ascending(
            1,
            if n >= 1 {
                (n - 1) as nat
            } else {
                0
            },
        ),
        n >= 1 ==> selector_meaning(seq!['-'] + end)->Ok_0.len() == n - 1,
        forall|i: int| 0 <= i < n - 1 ==> selector_meaning(seq!['-'] + end)->Ok_0[i] == i + 1,
{
    let text = seq!['-'] + end;
    assert(text[0] == '-');
    assert(unsigned_part(text) == text);
    assert(!is_digit(text[0]));
    assert(number_value(text) is None);
    assert(is_first_position(text, '-', 0));
    lemma_first_position(text, '-');
    assert(text.subrange(0, 0) == Seq::<char>::empty());
    assert(text.subrange(1, text.len() as int) == end);
    assert(unsigned_part(end).len() > 0);
}

/// Reading a selector is a function of its characters: two results of
/// `validate_input` for the same text hold the same list or the same error.
pub proof fn lemma_same_text_same_result(
    text: Seq<char>,
    first: Result<Vec<u32>, SelectorError>,
    second: Result<Vec<u32>, SelectorError>,
)
    requires
        outcome(first) == selector_meaning(text),
        outcome(second) == selector_meaning(text),
    ensures
        first is Ok <==> second is Ok,
        first is Ok ==> first->Ok_0@ == second->Ok_0@,
        first is Err ==> first->Err_0 == second->Err_0,
{
}

} // verus!
