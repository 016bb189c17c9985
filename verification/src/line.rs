//! Cutting one line into chunks and keeping the selected ones.
//!
//! A line is split after every occurrence of the delimiter, so that each
//! chunk but possibly the last ends with the delimiter. Chunks are numbered
//! from 1. The chunks that the field list selects are written out one after
//! the other, followed by one newline.

use vstd::prelude::*;
use crate::text::{chars_of, push_chars};

verus! {

/// Whether `delimiter` stands in `line` at position `at`.
pub open spec fn occurs_at(line: Seq<char>, delimiter: Seq<char>, at: int) -> bool {
    &&& 0 <= at
    &&& at + delimiter.len() <= line.len()
    &&& line.subrange(at, at + delimiter.len()) == delimiter
}

/// Whether `delimiter` stands anywhere in `line`.
pub open spec fn has_delimiter(line: Seq<char>, delimiter: Seq<char>) -> bool {
    exists|at: int| occurs_at(line, delimiter, at)
}

/// Whether `delimiter` stands in `line` at `at` and nowhere before.
pub open spec fn is_first_occurrence(line: Seq<char>, delimiter: Seq<char>, at: int) -> bool {
    &&& occurs_at(line, delimiter, at)
    &&& forall|before: int| 0 <= before < at ==> !occurs_at(line, delimiter, before)
}

/// Where `delimiter` first stands in a `line` that holds it.
pub open spec fn first_occurrence(line: Seq<char>, delimiter: Seq<char>) -> int
    recommends
        has_delimiter(line, delimiter),
{
    choose|at: int| is_first_occurrence(line, delimiter, at)
}

/// The chunks of `line`: each runs up to and including the next
/// `delimiter`; what is left after the last `delimiter`, if anything, is
/// the last chunk. The empty line has no chunk.
pub open spec fn chunks_of(line: Seq<char>, delimiter: Seq<char>) -> Seq<Seq<char>>
    recommends
        delimiter.len() > 0,
    decreases line.len(),
    via chunks_of_decreases
{
    if line.len() == 0 {
        Seq::empty()
    } else if delimiter.len() > 0 && has_delimiter(line, delimiter) {
        let end = first_occurrence(line, delimiter) + delimiter.len();
        seq![line.subrange(0, end)] + chunks_of(line.subrange(end, line.len() as int), delimiter)
    } else {
        seq![line]
    }
}

#[via_fn]
proof fn chunks_of_decreases(line: Seq<char>, delimiter: Seq<char>) {
    if has_delimiter(line, delimiter) {
        lemma_first_occurrence(line, delimiter);
    }
}

/// Whether the field list stands for an open range: it starts with `0` and
/// has a second element, the field at which the range starts.
pub open spec fn is_open_ended(fields: Seq<u32>) -> bool {
    fields.len() >= 2 && fields[0] == 0
}

/// Whether the field list selects the field with number `index`.
///
/// An open range selects every field from its start on. Any other list
/// selects the fields whose numbers it holds. Fields are numbered from 1,
/// so the empty list and the list that holds only zeros select none.
pub open spec fn selects(fields: Seq<u32>, index: int) -> bool {
    if is_open_ended(fields) {
        index >= fields[1]
    } else {
        exists|k: int| 0 <= k < fields.len() && #[trigger] fields[k] == index
    }
}

/// The chunks that the field list selects, in their order in the line.
pub open spec fn selected(chunks: Seq<Seq<char>>, fields: Seq<u32>) -> Seq<Seq<char>>
    decreases chunks.len(),
{
    if chunks.len() == 0 {
        Seq::empty()
    } else if selects(fields, chunks.len() as int) {
        selected(chunks.drop_last(), fields).push(chunks.last())
    } else {
        selected(chunks.drop_last(), fields)
    }
}

/// What is written for `line`: its selected chunks, one after the other,
/// and a newline.
pub open spec fn cut(line: Seq<char>, delimiter: Seq<char>, fields: Seq<u32>) -> Seq<char> {
    selected(chunks_of(line, delimiter), fields).flatten() + seq!['\n']
}

/// The texts of a vector of strings.
pub open spec fn texts(strings: Seq<String>) -> Seq<Seq<char>> {
    strings.map_values(|s: String| s@)
}

/// A line that holds the delimiter has exactly one first occurrence of it.
pub proof fn lemma_first_occurrence(line: Seq<char>, delimiter: Seq<char>)
    requires
        has_delimiter(line, delimiter),
    ensures
        is_first_occurrence(line, delimiter, first_occurrence(line, delimiter)),
        forall|at: int|
            is_first_occurrence(line, delimiter, at) ==> at == first_occurrence(line, delimiter),
{
    let some = choose|at: int| occurs_at(line, delimiter, at);
    lemma_first_occurrence_before(line, delimiter, some);
    let found = first_occurrence(line, delimiter);
    assert forall|at: int| is_first_occurrence(line, delimiter, at) implies at == found by {
        if at < found {
            assert(!occurs_at(line, delimiter, at));
        } else if found < at {
            assert(!occurs_at(line, delimiter, found));
        }
    }
}

proof fn lemma_first_occurrence_before(line: Seq<char>, delimiter: Seq<char>, at: int)
    requires
        occurs_at(line, delimiter, at),
    ensures
        exists|first: int| is_first_occurrence(line, delimiter, first),
    decreases at,
{
    if exists|before: int| 0 <= before < at && occurs_at(line, delimiter, before) {
        let before = choose|before: int| 0 <= before < at && occurs_at(line, delimiter, before);
        lemma_first_occurrence_before(line, delimiter, before);
    } else {
        assert(is_first_occurrence(line, delimiter, at));
    }
}

/// Looking for the delimiter in what follows position `from` is looking for
/// it in the whole line from `from` on.
pub proof fn lemma_occurs_in_rest(line: Seq<char>, delimiter: Seq<char>, from: int, at: int)
    requires
        0 <= from <= at,
        from <= line.len(),
    ensures
        occurs_at(line.subrange(from, line.len() as int), delimiter, at - from) == occurs_at(
            line,
            delimiter,
            at,
        ),
{
    let rest = line.subrange(from, line.len() as int);
    if at + delimiter.len() <= line.len() {
        assert(rest.subrange(at - from, at - from + delimiter.len()) == line.subrange(
            at,
            at + delimiter.len(),
        ));
    }
}

/// Whether `delimiter` stands in `line` at `at`.
fn matches_at(line: &Vec<char>, delimiter: &Vec<char>, at: usize) -> (found: bool)
    requires
        at + delimiter.len() <= line.len(),
    ensures
        found == occurs_at(line@, delimiter@, at as int),
{
    let ghost window = line@.subrange(at as int, at + delimiter.len());
    let mut k: usize = 0;
    while k < delimiter.len()
        invariant
            at + delimiter.len() <= line.len(),
            k <= delimiter.len(),
            window == line@.subrange(at as int, at + delimiter.len()),
            forall|j: int| 0 <= j < k ==> window[j] == delimiter[j],
        decreases delimiter.len() - k,
    {
        if line[at + k] != delimiter[k] {
            assert(window[k as int] != delimiter[k as int]);
            return false;
        }
        k += 1;
    }
    assert(window == delimiter@);
    true
}

/// Where `delimiter` first stands in `line` at or after `from`.
pub(crate) fn find_delimiter(
    line: &Vec<char>,
    delimiter: &Vec<char>,
    from: usize,
) -> (found: Option<usize>)
    requires
        from <= line.len(),
    ensures
        match found {
            Some(at) => {
                &&& from <= at
                &&& at + delimiter.len() <= line.len()
                &&& is_first_occurrence(
                    line@.subrange(from as int, line.len() as int),
                    delimiter@,
                    at - from,
                )
            },
            None => !has_delimiter(line@.subrange(from as int, line.len() as int), delimiter@),
        },
{
    let ghost rest = line@.subrange(from as int, line.len() as int);
    if delimiter.len() > line.len() - from {
        return None;
    }
    let last: usize = line.len() - delimiter.len();
    let mut at: usize = from;
    while at <= last
        invariant
            from <= at <= last + 1,
            last == line.len() - delimiter.len(),
            rest == line@.subrange(from as int, line.len() as int),
            forall|before: int| 0 <= before < at - from ==> !occurs_at(rest, delimiter@, before),
        decreases last + 1 - at,
    {
        proof {
            lemma_occurs_in_rest(line@, delimiter@, from as int, at as int);
        }
        if matches_at(line, delimiter, at) {
            return Some(at);
        }
        assert(delimiter.len() > 0) by {
            if delimiter.len() == 0 {
                assert(line@.subrange(at as int, at as int) == delimiter@);
            }
        }
        at += 1;
    }
    None
}

/// Whether `delimiter` stands anywhere in `line`.
pub fn contains_delimiter(line: &str, delimiter: &str) -> (found: bool)
    ensures
        found == has_delimiter(line@, delimiter@),
{
    let line_chars: Vec<char> = chars_of(line);
    let delimiter_chars: Vec<char> = chars_of(delimiter);
    assert(line_chars@.subrange(0, line_chars.len() as int) == line@);
    find_delimiter(&line_chars, &delimiter_chars, 0).is_some()
}

/// Splits `line` into its chunks.
pub(crate) fn split_chars(line: &Vec<char>, delimiter: &Vec<char>) -> (chunks: Vec<String>)
    requires
        delimiter.len() > 0,
    ensures
        texts(chunks@) == chunks_of(line@, delimiter@),
{
    let len: usize = line.len();
    let mut chunks: Vec<String> = Vec::new();
    let mut from: usize = 0;
    assert(line@.subrange(0, len as int) == line@);
    assert(texts(chunks@) + chunks_of(line@, delimiter@) == chunks_of(line@, delimiter@));
    while from < len
        invariant
            from <= len == line.len(),
            delimiter.len() > 0,
            texts(chunks@) + chunks_of(line@.subrange(from as int, len as int), delimiter@)
                == chunks_of(line@, delimiter@),
        decreases len - from,
    {
        let ghost rest = line@.subrange(from as int, len as int);
        let ghost done = texts(chunks@);
        let end: usize = match find_delimiter(line, delimiter, from) {
            Some(at) => {
                proof {
                    assert(occurs_at(rest, delimiter@, at - from));
                    lemma_first_occurrence(rest, delimiter@);
                }
                at + delimiter.len()
            },
            None => len,
        };
        let mut chunk: String = String::new();
        push_chars(&mut chunk, line, from, end);
        chunks.push(chunk);
        proof {
            assert(chunk@ == rest.subrange(0, end - from));
            assert(line@.subrange(end as int, len as int) == rest.subrange(
                end - from,
                rest.len() as int,
            ));
            assert(texts(chunks@) == done.push(chunk@));
            let after = chunks_of(line@.subrange(end as int, len as int), delimiter@);
            assert(chunks_of(rest, delimiter@) == seq![chunk@] + after);
            assert(done.push(chunk@) + after == done + (seq![chunk@] + after));
        }
        from = end;
    }
    assert(chunks_of(line@.subrange(from as int, len as int), delimiter@) == Seq::<
        Seq<char>,
    >::empty());
    chunks
}

/// Splits `line` into its chunks: each ends with the delimiter, but for the
/// last one where the line does not end with it.
pub fn split_line(line: &str, delimiter: &str) -> (chunks: Vec<String>)
    requires
        delimiter@.len() > 0,
    ensures
        texts(chunks@) == chunks_of(line@, delimiter@),
{
    let line_chars: Vec<char> = chars_of(line);
    let delimiter_chars: Vec<char> = chars_of(delimiter);
    split_chars(&line_chars, &delimiter_chars)
}

/// Whether the field list selects the field with number `index`.
pub fn is_selected(fields: &Vec<u32>, index: usize) -> (chosen: bool)
    ensures
        chosen == selects(fields@, index as int),
{
    if fields.len() >= 2 && fields[0] == 0 {
        index as u64 >= fields[1] as u64
    } else {
        let mut k: usize = 0;
        while k < fields.len()
            invariant
                k <= fields.len(),
                !is_open_ended(fields@),
                forall|j: int| 0 <= j < k ==> fields[j] != index,
            decreases fields.len() - k,
        {
            if fields[k] as u64 == index as u64 {
                return true;
            }
            k += 1;
        }
        false
    }
}

/// The chunks that the field list selects, the first chunk being field 1.
pub fn keep_selected(chunks: &Vec<String>, fields: &Vec<u32>) -> (kept: Vec<String>)
    ensures
        texts(kept@) == selected(texts(chunks@), fields@),
{
    let mut kept: Vec<String> = Vec::new();
    let mut i: usize = 0;
    assert(texts(kept@) == Seq::<Seq<char>>::empty());
    while i < chunks.len()
        invariant
            i <= chunks.len(),
            texts(kept@) == selected(texts(chunks@).take(i as int), fields@),
        decreases chunks.len() - i,
    {
        let ghost before = texts(kept@);
        let ghost next = texts(chunks@).take(i + 1);
        assert(next.drop_last() == texts(chunks@).take(i as int));
        assert(next.last() == chunks[i as int]@);
        if is_selected(fields, i + 1) {
            kept.push(chunks[i].clone());
            assert(texts(kept@) == before.push(chunks[i as int]@));
        }
        i += 1;
    }
    assert(texts(chunks@).take(chunks.len() as int) == texts(chunks@));
    kept
}

/// The given chunks one after the other, and a newline.
pub fn join_line(kept: &Vec<String>) -> (out: String)
    ensures
        out@ == texts(kept@).flatten() + seq!['\n'],
{
    let mut out: String = String::new();
    let mut i: usize = 0;
    assert(texts(kept@).take(0) == Seq::<Seq<char>>::empty());
    while i < kept.len()
        invariant
            i <= kept.len(),
            out@ == texts(kept@).take(i as int).flatten(),
        decreases kept.len() - i,
    {
        proof {
            let done = texts(kept@).take(i as int);
            assert(texts(kept@).take(i + 1) == done.push(kept[i as int]@));
            done.lemma_flatten_push(kept[i as int]@);
        }
        out.append(kept[i].as_str());
        i += 1;
    }
    assert(texts(kept@).take(kept.len() as int) == texts(kept@));
    out.push('\n');
    out
}

/// The chunks of `line` that the field list selects.
pub fn select_fields(line: &str, delimiter: &str, fields: &Vec<u32>) -> (kept: Vec<String>)
    requires
        delimiter@.len() > 0,
    ensures
        texts(kept@) == selected(chunks_of(line@, delimiter@), fields@),
{
    let chunks: Vec<String> = split_line(line, delimiter);
    keep_selected(&chunks, fields)
}

/// What is written for `line`: the chunks that the field list selects, one
/// after the other with nothing between them, and a newline.
pub fn cut_line(line: &str, delimiter: &str, fields: &Vec<u32>) -> (out: String)
    requires
        delimiter@.len() > 0,
    ensures
        out@ == cut(line@, delimiter@, fields@),
{
    let kept: Vec<String> = select_fields(line, delimiter, fields);
    join_line(&kept)
}

/// Selecting never adds a chunk: there are at most as many selected chunks
/// as there are chunks.
pub proof fn lemma_selected_len(chunks: Seq<Seq<char>>, fields: Seq<u32>)
    ensures
        selected(chunks, fields).len() <= chunks.len(),
    decreases chunks.len(),
{
    if chunks.len() > 0 {
        lemma_selected_len(chunks.drop_last(), fields);
    }
}

/// For every line, the number of chunks that are written is at most the
/// number of chunks that the line was split into, whatever the field list
/// asks for.
pub proof fn lemma_written_no_more_than_split(
    line: Seq<char>,
    delimiter: Seq<char>,
    fields: Seq<u32>,
)
    ensures
        selected(chunks_of(line, delimiter), fields).len() <= chunks_of(line, delimiter).len(),
{
    lemma_selected_len(chunks_of(line, delimiter), fields);
}

/// Splitting loses nothing: the chunks of a line, one after the other, are
/// the line.
pub proof fn lemma_chunks_rejoin(line: Seq<char>, delimiter: Seq<char>)
    ensures
        chunks_of(line, delimiter).flatten() == line,
    decreases line.len(),
{
    if line.len() == 0 {
    } else if delimiter.len() > 0 && has_delimiter(line, delimiter) {
        lemma_first_occurrence(line, delimiter);
        let end = first_occurrence(line, delimiter) + delimiter.len();
        let head = line.subrange(0, end);
        let rest = line.subrange(end, line.len() as int);
        lemma_chunks_rejoin(rest, delimiter);
        let chunks = chunks_of(line, delimiter);
        assert(chunks.first() == head);
        assert(chunks.drop_first() == chunks_of(rest, delimiter));
        assert(head + rest == line);
    } else {
        seq![line].lemma_flatten_one_element();
    }
}

/// Every chunk holds at least one character and ends with the delimiter,
/// which it holds nowhere before its end. Only the last chunk may instead
/// hold no delimiter at all.
pub proof fn lemma_chunk_shape(line: Seq<char>, delimiter: Seq<char>, i: int)
    requires
        delimiter.len() > 0,
        0 <= i < chunks_of(line, delimiter).len(),
    ensures
        chunks_of(line, delimiter)[i].len() > 0,
        is_first_occurrence(
            chunks_of(line, delimiter)[i],
            delimiter,
            chunks_of(line, delimiter)[i].len() - delimiter.len(),
        ) || (i == chunks_of(line, delimiter).len() - 1 && !has_delimiter(
            chunks_of(line, delimiter)[i],
            delimiter,
        )),
    decreases line.len(),
{
    if line.len() > 0 && has_delimiter(line, delimiter) {
        lemma_first_occurrence(line, delimiter);
        let first = first_occurrence(line, delimiter);
        let end = first + delimiter.len();
        let head = line.subrange(0, end);
        let rest = line.subrange(end, line.len() as int);
        if i == 0 {
            assert(head.subrange(first, end) == line.subrange(first, end));
            assert forall|before: int| 0 <= before < first implies !occurs_at(
                head,
                delimiter,
                before,
            ) by {
                assert(head.subrange(before, before + delimiter.len()) == line.subrange(
                    before,
                    before + delimiter.len(),
                ));
                assert(!occurs_at(line, delimiter, before));
            }
            assert(chunks_of(line, delimiter)[0] == head);
        } else {
            lemma_chunk_shape(rest, delimiter, i - 1);
            assert(chunks_of(line, delimiter)[i] == chunks_of(rest, delimiter)[i - 1]);
        }
    }
}

} // verus!
