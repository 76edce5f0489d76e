//! The query packet: the values that it carries and the format that it travels in.
//!
//! A packet is a metaframe followed by one datagroup per query:
//!
//! ```text
//! \r<m>\n*<n>\n            the metaframe: <m> bytes hold `*` and the number <n> of datagroups
//! #<p>\n&<q>\n             a datagroup: <p> bytes hold `&` and the number <q> of elements
//! #<k>\n<k bytes>\n        an element, <q> times
//! ```
//!
//! The functions below say what reading each of these parts at a position of a buffer answers,
//! and at which position it leaves off.

use vstd::prelude::*;

use crate::decimal::{byte_digits, decimal, is_digit_byte};

verus! {

/// The byte that opens a packet, `\r`.
pub const START_HEADER_MAGIC: u8 = 0x0D;

/// The byte that ends a line, `\n`.
pub const LINE_FEED: u8 = 0x0A;

/// The byte that opens a sizeline inside a packet, `#`.
pub const SIZELINE_MARK: u8 = 0x23;

/// The byte that opens the datagroup count, `*`.
pub const DATAGROUP_COUNT_MARK: u8 = 0x2A;

/// The byte that opens the element count of a datagroup, `&`.
pub const ELEMENT_COUNT_MARK: u8 = 0x26;

/// Why a buffer could not be read as a packet.
#[derive(Debug, PartialEq, Eq, Structural, Clone, Copy)]
pub enum ParseError {
    /// The buffer ends before the bytes that it announces.
    NotEnough,
    /// A byte is not one that the format allows where it stands.
    UnexpectedByte,
    /// The metaframe is well-formed and announces no query at all.
    BadPacket,
}

/// The elements of one query: the action and its arguments.
pub type ActionGroup = Vec<Vec<u8>>;

/// What a packet asks for.
#[derive(Debug, PartialEq)]
pub enum Query {
    SimpleQuery(ActionGroup),
    PipelinedQuery(Vec<ActionGroup>),
}

pub type ParseResult<T> = Result<T, ParseError>;

/// The elements of one query, as byte sequences.
pub type Group = Seq<Seq<u8>>;

/// What a packet asks for, as byte sequences.
pub enum QueryView {
    Simple(Group),
    Pipelined(Seq<Group>),
}

/// The byte sequences that an action group holds.
pub open spec fn group_view(group: ActionGroup) -> Group {
    group@.map_values(|element: Vec<u8>| element@)
}

/// The byte sequences that a list of action groups holds.
pub open spec fn groups_view(groups: Vec<ActionGroup>) -> Seq<Group> {
    groups@.map_values(|group: ActionGroup| group_view(group))
}

impl View for Query {
    type V = QueryView;

    open spec fn view(&self) -> QueryView {
        match self {
            Query::SimpleQuery(group) => QueryView::Simple(group_view(*group)),
            Query::PipelinedQuery(groups) => QueryView::Pipelined(groups_view(*groups)),
        }
    }
}

/// What a reader answers: a value or an error. `None` is no answer at all, for a buffer with a
/// number that exceeds `usize`, with a frame of size zero where a mark has to stand, or so long
/// that the position behind it exceeds `usize`.
pub type Answer<T> = Option<Result<T, ParseError>>;

/// The answer that a parsed element gives.
pub open spec fn element_answer(res: ParseResult<Vec<u8>>) -> Answer<Seq<u8>> {
    match res {
        Ok(bytes) => Some(Ok(bytes@)),
        Err(e) => Some(Err(e)),
    }
}

/// The answer that a parsed action group gives.
pub open spec fn group_answer(res: ParseResult<ActionGroup>) -> Answer<Group> {
    match res {
        Ok(group) => Some(Ok(group_view(group))),
        Err(e) => Some(Err(e)),
    }
}

/// The answer that a parsed packet gives.
pub open spec fn query_answer(res: ParseResult<(Query, usize)>) -> Answer<(QueryView, int)> {
    match res {
        Ok((query, next)) => Some(Ok((query@, next as int))),
        Err(e) => Some(Err(e)),
    }
}

/// The position of the first line feed at or after `from`, or the end of the buffer.
pub open spec fn line_end(s: Seq<u8>, from: int) -> int
    decreases s.len() - from,
{
    if 0 <= from < s.len() && s[from] != LINE_FEED {
        line_end(s, from + 1)
    } else {
        from
    }
}

/// The position behind the line that starts at `from`: one past its line feed, if it has one.
pub open spec fn line_next(s: Seq<u8>, from: int) -> int {
    let end = line_end(s, from);
    if end < s.len() {
        end + 1
    } else {
        end
    }
}

/// How many bytes at the start of `s` are digits.
pub open spec fn digit_run(s: Seq<u8>) -> int
    decreases s.len(),
{
    if s.len() > 0 && is_digit_byte(s[0]) {
        1 + digit_run(s.drop_first())
    } else {
        0
    }
}

/// The number that `s` spells. Nothing but digits may occur, and no digit at all spells zero.
pub open spec fn number(s: Seq<u8>) -> Answer<usize> {
    let run = digit_run(s);
    let value = decimal(byte_digits(s.take(run)));
    if value > usize::MAX {
        None
    } else if run == s.len() {
        Some(Ok(value as usize))
    } else {
        Some(Err(ParseError::UnexpectedByte))
    }
}

/// The size on the line at `at`, which has to open with the byte `mark`.
pub open spec fn sizeline(s: Seq<u8>, at: int, mark: u8) -> (Answer<usize>, int) {
    if 0 <= at < s.len() && s[at] == mark {
        (number(s.subrange(at + 1, line_end(s, at + 1))), line_next(s, at + 1))
    } else {
        (Some(Err(ParseError::UnexpectedByte)), at)
    }
}

/// A sizeline that opens with `mark`, and the frame that it announces: the byte `kind` and a
/// number. One more byte, the line feed behind the frame, is passed over unread.
pub open spec fn count_frame(s: Seq<u8>, at: int, mark: u8, kind: u8) -> (Answer<usize>, int) {
    match sizeline(s, at, mark) {
        (Some(Ok(size)), start) => {
            let end = start + size;
            if end > s.len() {
                (Some(Err(ParseError::NotEnough)), start)
            } else if size == 0 {
                (None, end)
            } else if s[start] != kind {
                (Some(Err(ParseError::UnexpectedByte)), end)
            } else {
                match number(s.subrange(start + 1, end)) {
                    Some(Ok(count)) => if end < usize::MAX {
                        (Some(Ok(count)), end + 1)
                    } else {
                        (None, end)
                    },
                    other => (other, end),
                }
            }
        },
        other => other,
    }
}

/// A sizeline and as many bytes as it announces. One more byte, the line feed behind them, is
/// passed over unread.
pub open spec fn element(s: Seq<u8>, at: int) -> (Answer<Seq<u8>>, int) {
    match sizeline(s, at, SIZELINE_MARK) {
        (Some(Ok(size)), start) => {
            let end = start + size;
            if end > s.len() {
                (Some(Err(ParseError::NotEnough)), start)
            } else if end < usize::MAX {
                (Some(Ok(s.subrange(start, end))), end + 1)
            } else {
                (None, end)
            }
        },
        (Some(Err(e)), start) => (Some(Err(e)), start),
        (None, start) => (None, start),
    }
}

/// `count` elements, one behind the other.
pub open spec fn elements(s: Seq<u8>, at: int, count: nat) -> (Answer<Group>, int)
    decreases count,
{
    if count == 0 {
        (Some(Ok(Seq::empty())), at)
    } else {
        match elements(s, at, (count - 1) as nat) {
            (Some(Ok(before)), next) => match element(s, next) {
                (Some(Ok(last)), end) => (Some(Ok(before.push(last))), end),
                (Some(Err(e)), end) => (Some(Err(e)), end),
                (None, end) => (None, end),
            },
            other => other,
        }
    }
}

/// A datagroup: the number of its elements, and the elements.
pub open spec fn datagroup(s: Seq<u8>, at: int) -> (Answer<Group>, int) {
    match count_frame(s, at, SIZELINE_MARK, ELEMENT_COUNT_MARK) {
        (Some(Ok(count)), next) => elements(s, next, count as nat),
        (Some(Err(e)), next) => (Some(Err(e)), next),
        (None, next) => (None, next),
    }
}

/// `count` datagroups, one behind the other.
pub open spec fn datagroups(s: Seq<u8>, at: int, count: nat) -> (Answer<Seq<Group>>, int)
    decreases count,
{
    if count == 0 {
        (Some(Ok(Seq::empty())), at)
    } else {
        match datagroups(s, at, (count - 1) as nat) {
            (Some(Ok(before)), next) => match datagroup(s, next) {
                (Some(Ok(last)), end) => (Some(Ok(before.push(last))), end),
                (Some(Err(e)), end) => (Some(Err(e)), end),
                (None, end) => (None, end),
            },
            other => other,
        }
    }
}

/// Whether the announced size of the metaframe is too short for its count: the frame holds the
/// mark alone, and it is not a line feed that stands behind it.
pub open spec fn metaframe_too_short(s: Seq<u8>, at: int) -> bool {
    &&& sizeline(s, at, START_HEADER_MAGIC) matches (Some(Ok(size)), start)
    &&& size == 1
    &&& start + 1 < s.len()
    &&& s[start] == DATAGROUP_COUNT_MARK
    &&& s[start + 1] != LINE_FEED
}

/// The metaframe: the number of datagroups that follow. A count that the frame cuts off is not
/// read.
pub open spec fn metaframe(s: Seq<u8>, at: int) -> (Answer<usize>, int) {
    if metaframe_too_short(s, at) {
        (Some(Err(ParseError::UnexpectedByte)), sizeline(s, at, START_HEADER_MAGIC).1 + 1)
    } else {
        count_frame(s, at, START_HEADER_MAGIC, DATAGROUP_COUNT_MARK)
    }
}

/// A packet: the query that it carries, and the position behind it. A simple query has to be
/// followed by the start of another packet or by nothing.
pub open spec fn packet(s: Seq<u8>, at: int) -> Answer<(QueryView, int)> {
    match metaframe(s, at) {
        (Some(Ok(count)), start) => if count == 0 {
            Some(Err(ParseError::BadPacket))
        } else if count == 1 {
            match datagroup(s, start) {
                (Some(Ok(group)), end) => if end < s.len() && s[end] != START_HEADER_MAGIC {
                    Some(Err(ParseError::UnexpectedByte))
                } else {
                    Some(Ok((QueryView::Simple(group), end)))
                },
                (Some(Err(e)), _) => Some(Err(e)),
                (None, _) => None,
            }
        } else {
            match datagroups(s, start, count as nat) {
                (Some(Ok(groups)), end) => Some(Ok((QueryView::Pipelined(groups), end))),
                (Some(Err(e)), _) => Some(Err(e)),
                (None, _) => None,
            }
        },
        (Some(Err(e)), _) => Some(Err(e)),
        (None, _) => None,
    }
}

} // verus!
