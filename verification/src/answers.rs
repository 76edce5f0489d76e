//! What an answer of a reader says about the bytes that it was read from.
//!
//! Each law takes one reader and goes through everything that it can answer: a value, each
//! error, or nothing. It says what must then stand in the buffer, so that no reader can take
//! anything else for what it looks for, and none can refuse what it should take.

use vstd::prelude::*;

use crate::decimal::{byte_digits, is_digit_byte};
use crate::packet::{ActionGroup, Group, ParseError, ParseResult, Query, QueryView};
use crate::packet::{
    count_frame, datagroup, datagroups, digit_run, element, element_answer, elements,
    group_answer, group_view, line_end, line_next, metaframe, number, packet, query_answer,
    sizeline,
};
use crate::parser::{lemma_digit_run, lemma_line_end, Parser};

verus! {

/// No byte spells zero. One byte more makes ten times the number and the digit, or nothing where
/// that exceeds `usize`; a byte that is no digit is unexpected, and nothing mends it.
pub proof fn law_number(s: Seq<u8>, b: u8)
    ensures
        number(Seq::empty()) == Some(Ok::<usize, ParseError>(0)),
        match number(s) {
            None => number(s.push(b)) is None,
            Some(Err(e)) => {
                &&& e == ParseError::UnexpectedByte
                &&& number(s.push(b)) == Some(Err::<usize, _>(e))
            },
            Some(Ok(n)) => if b < ('0' as u8) || b > '9' as u8 {
                number(s.push(b)) == Some(Err::<usize, _>(ParseError::UnexpectedByte))
            } else if n * 10 + (b - '0' as u8) > usize::MAX {
                number(s.push(b)) is None
            } else {
                number(s.push(b)) == Some(Ok::<usize, ParseError>((n * 10 + (b - '0' as u8)) as usize))
            },
        },
{
    let none = Seq::<u8>::empty();
    assert(byte_digits(none.take(0)) =~= Seq::<nat>::empty());
    let t = s.push(b);
    let run = digit_run(s);
    lemma_run_splits(s);
    if run < s.len() {
        assert forall|j: int| 0 <= j < run implies is_digit_byte(#[trigger] t[j]) by {
            assert(t[j] == s[j]);
        }
        assert(t[run] == s[run]);
        lemma_digit_run(t, run);
        assert(t.take(run) =~= s.take(run));
    } else {
        assert forall|j: int| 0 <= j < run implies is_digit_byte(#[trigger] t[j]) by {
            assert(t[j] == s[j]);
        }
        assert(s.take(run) =~= s);
        assert(t.take(run) =~= s);
        if is_digit_byte(b) {
            lemma_digit_run(t, run + 1);
            assert(t.take(run + 1) =~= t);
            assert(byte_digits(t).drop_last() =~= byte_digits(s));
        } else {
            lemma_digit_run(t, run);
        }
    }
}

/// The digit run holds digits, and the byte behind it is none.
proof fn lemma_run_splits(s: Seq<u8>)
    ensures
        0 <= digit_run(s) <= s.len(),
        forall|j: int| 0 <= j < digit_run(s) ==> is_digit_byte(#[trigger] s[j]),
        digit_run(s) < s.len() ==> !is_digit_byte(s[digit_run(s)]),
    decreases s.len(),
{
    if s.len() > 0 && is_digit_byte(s[0]) {
        let rest = s.drop_first();
        lemma_run_splits(rest);
        assert forall|j: int| 0 <= j < digit_run(s) implies is_digit_byte(#[trigger] s[j]) by {
            if j > 0 {
                assert(rest[j - 1] == s[j]);
            }
        }
        if digit_run(s) < s.len() {
            assert(s[digit_run(s)] == rest[digit_run(rest)]);
        }
    }
}

/// Whether the line that starts at `from` goes as far as `end`: to its line feed, or to the end
/// of the buffer where it has none.
pub open spec fn line_goes_to(s: Seq<u8>, from: int, end: int) -> bool {
    &&& 0 <= from <= end <= s.len()
    &&& forall|i: int| from <= i < end ==> #[trigger] s[i] != '\n' as u8
    &&& end == s.len() || s[end] == '\n' as u8
}

/// A line goes as far as its line feed or the end of the buffer, and the next one starts behind
/// the line feed. Behind the end of the buffer there is only the empty line.
pub proof fn law_line(s: Seq<u8>, from: int)
    requires
        0 <= from,
    ensures
        from <= s.len() ==> line_goes_to(s, from, line_end(s, from)),
        from > s.len() ==> line_end(s, from) == from,
        line_next(s, from) == if line_end(s, from) < s.len() {
            line_end(s, from) + 1
        } else {
            line_end(s, from)
        },
{
    if from <= s.len() {
        lemma_line_goes(s, from);
    }
}

/// A sizeline is read only where its mark stands; anything else is an `UnexpectedByte` and moves
/// nothing. Where it stands, the answer is the number between the mark and the end of the line,
/// and reading goes on behind the line feed.
pub proof fn law_sizeline(s: Seq<u8>, at: int, mark: u8)
    ensures
        at < 0 || at >= s.len() || s[at] != mark ==> sizeline(s, at, mark) == (
            Some(Err::<usize, _>(ParseError::UnexpectedByte)),
            at,
        ),
        0 <= at < s.len() && s[at] == mark ==> exists|end: int| #[trigger]
            line_goes_to(s, at + 1, end) && sizeline(s, at, mark) == (
                number(s.subrange(at + 1, end)),
                if end < s.len() {
                    end + 1
                } else {
                    end
                },
            ),
{
    if 0 <= at < s.len() && s[at] == mark {
        lemma_line_goes(s, at + 1);
        assert(line_goes_to(s, at + 1, line_end(s, at + 1)));
    }
}

proof fn lemma_line_goes(s: Seq<u8>, from: int)
    requires
        0 <= from <= s.len(),
    ensures
        line_goes_to(s, from, line_end(s, from)),
    decreases s.len() - from,
{
    lemma_line_end(s, from);
    if from < s.len() && s[from] != '\n' as u8 {
        lemma_line_goes(s, from + 1);
    }
}

/// A sizeline answers a size, `UnexpectedByte` or nothing; a size leaves off inside the buffer.
proof fn lemma_sizeline_answers(s: Seq<u8>, at: int, mark: u8)
    ensures
        match sizeline(s, at, mark) {
            (Some(Ok(_)), start) => 0 <= at < start <= s.len(),
            (Some(Err(e)), _) => e == ParseError::UnexpectedByte,
            (None, _) => true,
        },
{
    if 0 <= at < s.len() && s[at] == mark {
        lemma_line_end(s, at + 1);
    }
}

/// An element that is read is exactly the bytes that its sizeline announces, all of them in the
/// buffer, and reading goes on one byte behind them. Where the buffer ends before the announced
/// bytes, the answer is `NotEnough`; there is no other way to it.
pub proof fn law_element(s: Seq<u8>, at: int)
    ensures
        match element(s, at) {
            (Some(Ok(payload)), next) => {
                let start = next - 1 - payload.len();
                &&& sizeline(s, at, '#' as u8) matches (Some(Ok(size)), line_next)
                &&& size == payload.len()
                &&& line_next == start
                &&& 0 <= at < start
                &&& start + payload.len() <= s.len()
                &&& payload == s.subrange(start, start + payload.len())
            },
            (Some(Err(ParseError::NotEnough)), next) => {
                &&& sizeline(s, at, '#' as u8) matches (Some(Ok(size)), line_next)
                &&& line_next == next
                &&& next + size > s.len()
            },
            (Some(Err(e)), next) => {
                &&& e == ParseError::UnexpectedByte
                &&& sizeline(s, at, '#' as u8) == (Some(Err::<usize, _>(e)), next)
            },
            (None, _) => match sizeline(s, at, '#' as u8) {
                (Some(Ok(size)), start) => usize::MAX <= start + size <= s.len(),
                (Some(Err(_)), _) => false,
                (None, _) => true,
            },
        },
{
    lemma_sizeline_answers(s, at, '#' as u8);
}

/// A count that is read stands in a frame of the announced size, behind the byte `kind`, and
/// reading goes on one byte behind the frame. A frame that the buffer does not hold whole is
/// `NotEnough`; another byte in place of `kind`, or one that is no digit, is unexpected. A frame of
/// no byte has no answer.
pub proof fn law_count_frame(s: Seq<u8>, at: int, mark: u8, kind: u8)
    ensures
        match sizeline(s, at, mark) {
            (Some(Ok(size)), start) => match count_frame(s, at, mark, kind) {
                (Some(Ok(count)), next) => {
                    &&& size >= 1
                    &&& start + size <= s.len()
                    &&& s[start] == kind
                    &&& number(s.subrange(start + 1, start + size)) == Some(
                        Ok::<usize, ParseError>(count),
                    )
                    &&& next == start + size + 1
                },
                (Some(Err(ParseError::NotEnough)), next) => {
                    &&& next == start
                    &&& start + size > s.len()
                },
                (Some(Err(e)), next) => {
                    &&& e == ParseError::UnexpectedByte
                    &&& size >= 1
                    &&& next == start + size
                    &&& next <= s.len()
                    &&& s[start] != kind || number(s.subrange(start + 1, next)) == Some(
                        Err::<usize, _>(e),
                    )
                },
                (None, _) => {
                    &&& start + size <= s.len()
                    &&& size == 0 || {
                        &&& s[start] == kind
                        &&& match number(s.subrange(start + 1, start + size)) {
                            None => true,
                            Some(Ok(_)) => start + size >= usize::MAX,
                            Some(Err(_)) => false,
                        }
                    }
                },
            },
            other => count_frame(s, at, mark, kind) == other,
        },
{
    lemma_sizeline_answers(s, at, mark);
    if let (Some(Ok(size)), start) = sizeline(s, at, mark) {
        if size >= 1 && start + size <= s.len() {
            lemma_number_error(s.subrange(start + 1, start + size));
        }
    }
}

proof fn lemma_number_error(s: Seq<u8>)
    ensures
        number(s) matches Some(Err(e)) ==> e == ParseError::UnexpectedByte,
{
}

/// The metaframe is a count behind `\r` and `*`. The one difference: where the frame holds `*`
/// alone and another byte than a line feed follows, the count was cut off, and that byte is
/// unexpected.
pub proof fn law_metaframe(s: Seq<u8>, at: int)
    ensures
        match sizeline(s, at, '\r' as u8) {
            (Some(Ok(1)), start) => if start + 1 < s.len() && s[start] == '*' as u8 && s[start + 1]
                != '\n' as u8 {
                metaframe(s, at) == (
                    Some(Err::<usize, _>(ParseError::UnexpectedByte)),
                    start + 1,
                )
            } else {
                metaframe(s, at) == count_frame(s, at, '\r' as u8, '*' as u8)
            },
            _ => metaframe(s, at) == count_frame(s, at, '\r' as u8, '*' as u8),
        },
{
}

/// Nothing is read as a packet that does not open with `\r`.
pub proof fn law_packet_has_to_open(s: Seq<u8>, at: int)
    requires
        at < 0 || at >= s.len() || s[at] != '\r' as u8,
    ensures
        metaframe(s, at) == (Some(Err::<usize, _>(ParseError::UnexpectedByte)), at),
        packet(s, at) == Some(Err::<(QueryView, int), _>(ParseError::UnexpectedByte)),
{
}

/// Whether the elements of `group` stand in `s` one behind the other: the first at the first
/// place, each next one where the one before leaves off, and the last leaves off at the last place.
pub open spec fn elements_in_turn(s: Seq<u8>, places: Seq<int>, group: Group) -> bool {
    &&& places.len() == group.len() + 1
    &&& forall|i: int|
        0 <= i < group.len() ==> element(s, places[i]) == (
            Some(Ok::<Seq<u8>, ParseError>(#[trigger] group[i])),
            places[i + 1],
        )
}

/// Whether the elements of `group` stand in turn from `at` to `end`.
pub open spec fn elements_stand(s: Seq<u8>, at: int, group: Group, end: int) -> bool {
    exists|places: Seq<int>| #[trigger]
        elements_in_turn(s, places, group) && places.first() == at && places.last() == end
}

/// Whether the datagroups of `groups` stand in `s` one behind the other, in the same way.
pub open spec fn datagroups_in_turn(s: Seq<u8>, places: Seq<int>, groups: Seq<Group>) -> bool {
    &&& places.len() == groups.len() + 1
    &&& forall|i: int|
        0 <= i < groups.len() ==> datagroup(s, places[i]) == (
            Some(Ok::<Group, ParseError>(#[trigger] groups[i])),
            places[i + 1],
        )
}

/// Whether the datagroups of `groups` stand in turn from `at` to `end`.
pub open spec fn datagroups_stand(s: Seq<u8>, at: int, groups: Seq<Group>, end: int) -> bool {
    exists|places: Seq<int>| #[trigger]
        datagroups_in_turn(s, places, groups) && places.first() == at && places.last() == end
}

/// A list of elements is read only if every one of them is, in turn. The first that is not read
/// decides the answer, and where reading leaves off.
pub proof fn law_elements(s: Seq<u8>, at: int, count: nat)
    ensures
        elements(s, at, count) matches (Some(Ok(list)), end) ==> list.len() == count && elements_stand(
            s,
            at,
            list,
            end,
        ),
        elements(s, at, count) matches (Some(Err(e)), end) ==> exists|before: Group, p: int|
            #[trigger]
            elements_stand(s, at, before, p) && before.len() < count && element(s, p) == (
                Some(Err::<Seq<u8>, _>(e)),
                end,
            ),
        elements(s, at, count).0 is None ==> exists|before: Group, p: int| #[trigger]
            elements_stand(s, at, before, p) && before.len() < count && element(s, p).0 is None,
    decreases count,
{
    if count == 0 {
        let here = seq![at];
        assert(elements_in_turn(s, here, Seq::empty()));
        assert(here.first() == at && here.last() == at);
    } else {
        law_elements(s, at, (count - 1) as nat);
        if let (Some(Ok(before)), next) = elements(s, at, (count - 1) as nat) {
            assert(elements_stand(s, at, before, next));
            if let (Some(Ok(last)), end) = element(s, next) {
                let places = choose|places: Seq<int>| #[trigger]
                    elements_in_turn(s, places, before) && places.first() == at && places.last()
                        == next;
                let list = before.push(last);
                let further = places.push(end);
                assert forall|i: int| 0 <= i < list.len() implies element(s, further[i]) == (
                    Some(Ok::<Seq<u8>, ParseError>(#[trigger] list[i])),
                    further[i + 1],
                ) by {
                    if i < before.len() {
                        assert(list[i] == before[i]);
                    }
                }
                assert(elements_in_turn(s, further, list));
                assert(further.first() == at && further.last() == end);
            }
        }
    }
}

/// A list of datagroups is read only if every one of them is, in turn. The first that is not read
/// decides the answer, and where reading leaves off.
pub proof fn law_datagroups(s: Seq<u8>, at: int, count: nat)
    ensures
        datagroups(s, at, count) matches (Some(Ok(list)), end) ==> list.len() == count && datagroups_stand(
            s,
            at,
            list,
            end,
        ),
        datagroups(s, at, count) matches (Some(Err(e)), end) ==> exists|before: Seq<Group>, p: int|
            #[trigger]
            datagroups_stand(s, at, before, p) && before.len() < count && datagroup(s, p) == (
                Some(Err::<Group, _>(e)),
                end,
            ),
        datagroups(s, at, count).0 is None ==> exists|before: Seq<Group>, p: int| #[trigger]
            datagroups_stand(s, at, before, p) && before.len() < count && datagroup(s, p).0 is None,
    decreases count,
{
    if count == 0 {
        let here = seq![at];
        assert(datagroups_in_turn(s, here, Seq::empty()));
        assert(here.first() == at && here.last() == at);
    } else {
        law_datagroups(s, at, (count - 1) as nat);
        if let (Some(Ok(before)), next) = datagroups(s, at, (count - 1) as nat) {
            assert(datagroups_stand(s, at, before, next));
            if let (Some(Ok(last)), end) = datagroup(s, next) {
                let places = choose|places: Seq<int>| #[trigger]
                    datagroups_in_turn(s, places, before) && places.first() == at && places.last()
                        == next;
                let list = before.push(last);
                let further = places.push(end);
                assert forall|i: int| 0 <= i < list.len() implies datagroup(s, further[i]) == (
                    Some(Ok::<Group, ParseError>(#[trigger] list[i])),
                    further[i + 1],
                ) by {
                    if i < before.len() {
                        assert(list[i] == before[i]);
                    }
                }
                assert(datagroups_in_turn(s, further, list));
                assert(further.first() == at && further.last() == end);
            }
        }
    }
}

/// A datagroup that is read announces its elements behind `#` and `&`, has as many as it
/// announces, and they stand in turn right behind the head. If it is not read, its head is not
/// read, or the first of the announced elements that is not read decides the answer.
pub proof fn law_datagroup(s: Seq<u8>, at: int)
    ensures
        match count_frame(s, at, '#' as u8, '&' as u8) {
            (Some(Ok(count)), start) => {
                &&& datagroup(s, at) matches (Some(Ok(group)), end) ==> group.len() == count
                    && elements_stand(s, start, group, end)
                &&& datagroup(s, at) matches (Some(Err(e)), end) ==> exists|before: Group, p: int|
                    #[trigger]
                    elements_stand(s, start, before, p) && before.len() < count && element(s, p)
                        == (Some(Err::<Seq<u8>, _>(e)), end)
                &&& datagroup(s, at).0 is None ==> exists|before: Group, p: int| #[trigger]
                    elements_stand(s, start, before, p) && before.len() < count && element(
                        s,
                        p,
                    ).0 is None
            },
            (Some(Err(e)), next) => datagroup(s, at) == (Some(Err::<Group, _>(e)), next),
            (None, _) => datagroup(s, at).0 is None,
        },
{
    if let (Some(Ok(count)), start) = count_frame(s, at, '#' as u8, '&' as u8) {
        law_elements(s, start, count as nat);
    }
}

/// A packet whose metaframe announces one datagroup is that datagroup, and behind it the buffer
/// ends or goes on with `\r`. Whatever the datagroup answers otherwise, the packet answers.
pub proof fn law_simple_packet(s: Seq<u8>, at: int)
    requires
        metaframe(s, at).0 == Some(Ok::<usize, ParseError>(1)),
    ensures
        match datagroup(s, metaframe(s, at).1) {
            (Some(Ok(group)), end) => if end >= s.len() || s[end] == '\r' as u8 {
                packet(s, at) == Some(Ok::<_, ParseError>((QueryView::Simple(group), end)))
            } else {
                packet(s, at) == Some(Err::<(QueryView, int), _>(ParseError::UnexpectedByte))
            },
            (Some(Err(e)), _) => packet(s, at) == Some(Err::<(QueryView, int), _>(e)),
            (None, _) => packet(s, at) is None,
        },
{
}

/// A packet whose metaframe announces several datagroups is read only if every one of them is, in
/// turn. The first that is not read decides the answer.
pub proof fn law_pipelined_packet(s: Seq<u8>, at: int, count: usize)
    requires
        metaframe(s, at).0 == Some(Ok::<usize, ParseError>(count)),
        count >= 2,
    ensures
        packet(s, at) matches Some(Ok((query, end))) ==> {
            &&& query matches QueryView::Pipelined(groups)
            &&& groups.len() == count
            &&& datagroups_stand(s, metaframe(s, at).1, groups, end)
        },
        packet(s, at) matches Some(Err(e)) ==> exists|before: Seq<Group>, p: int| #[trigger]
            datagroups_stand(s, metaframe(s, at).1, before, p) && before.len() < count
                && datagroup(s, p).0 == Some(Err::<Group, _>(e)),
        packet(s, at) is None ==> exists|before: Seq<Group>, p: int| #[trigger]
            datagroups_stand(s, metaframe(s, at).1, before, p) && before.len() < count
                && datagroup(s, p).0 is None,
{
    law_datagroups(s, metaframe(s, at).1, count as nat);
}

/// A packet whose metaframe is not read, or announces nothing, is answered by the metaframe alone.
pub proof fn law_packet_without_queries(s: Seq<u8>, at: int)
    ensures
        match metaframe(s, at).0 {
            Some(Ok(count)) => count == 0 ==> packet(s, at) == Some(
                Err::<(QueryView, int), _>(ParseError::BadPacket),
            ),
            Some(Err(e)) => packet(s, at) == Some(Err::<(QueryView, int), _>(e)),
            None => packet(s, at) is None,
        },
{
}

/// The view of a group has its elements, byte for byte and in order.
pub proof fn law_group_view(group: ActionGroup)
    ensures
        group_view(group).len() == group@.len(),
        forall|i: int| 0 <= i < group@.len() ==> #[trigger] group_view(group)[i] == group@[i]@,
{
}

/// The view of a query has its groups in order, and tells a simple query from a pipeline.
pub proof fn law_query_view(query: Query)
    ensures
        match (query, query@) {
            (Query::SimpleQuery(group), QueryView::Simple(view)) => view == group_view(group),
            (Query::PipelinedQuery(groups), QueryView::Pipelined(views)) => {
                &&& views.len() == groups@.len()
                &&& forall|i: int|
                    0 <= i < views.len() ==> #[trigger] views[i] == group_view(groups@[i])
            },
            _ => false,
        },
{
}

/// The answer that a result gives is the result: its value by its view, or its error.
pub proof fn law_answers_are_results(
    element: ParseResult<Vec<u8>>,
    group: ParseResult<ActionGroup>,
    query: ParseResult<(Query, usize)>,
)
    ensures
        match element {
            Ok(bytes) => element_answer(element) == Some(Ok::<Seq<u8>, ParseError>(bytes@)),
            Err(e) => element_answer(element) == Some(Err::<Seq<u8>, _>(e)),
        },
        match group {
            Ok(list) => group_answer(group) == Some(Ok::<Group, ParseError>(group_view(list))),
            Err(e) => group_answer(group) == Some(Err::<Group, _>(e)),
        },
        match query {
            Ok((value, next)) => query_answer(query) == Some(
                Ok::<_, ParseError>((value@, next as int)),
            ),
            Err(e) => query_answer(query) == Some(Err::<(QueryView, int), _>(e)),
        },
{
}

/// A parser reads the buffer that it was made for, all of it.
pub proof fn law_parser_bytes(parser: Parser)
    ensures
        parser.bytes().len() == parser.buffer@.len(),
        forall|i: int|
            0 <= i < parser.buffer@.len() ==> #[trigger] parser.bytes()[i] == parser.buffer@[i],
{
}

} // verus!
