//! The packet parser.
//!
//! A reader may be asked only where the format has an answer; `try_parse` finds that out first.

use vstd::prelude::*;
use vstd::slice::{slice_subrange, slice_to_vec};

use crate::decimal::{byte_digits, decimal, is_digit_byte, lemma_prefix_not_larger};
use crate::packet::{
    ActionGroup, ParseError, ParseResult, Query, DATAGROUP_COUNT_MARK, ELEMENT_COUNT_MARK,
    LINE_FEED, SIZELINE_MARK, START_HEADER_MAGIC,
};
use crate::packet::{
    count_frame, datagroup, datagroups, digit_run, element, element_answer, elements,
    group_answer, group_view, groups_view, line_end, line_next, metaframe, number, packet,
    query_answer, sizeline,
};

verus! {

/// A cursor over a buffer of packets.
#[derive(Debug)]
pub struct Parser<'a> {
    pub cursor: usize,
    pub buffer: &'a [u8],
}

impl<'a> Parser<'a> {
    /// The bytes that are parsed.
    pub open spec fn bytes(&self) -> Seq<u8> {
        self.buffer@
    }

    /// A parser at the start of `buffer`.
    pub fn new(buffer: &'a [u8]) -> (parser: Self)
        ensures
            parser.bytes() == buffer@,
            parser.cursor == 0,
    {
        Parser { cursor: 0, buffer }
    }

    /// Reads the next `until` bytes and moves the cursor behind them. Where the buffer holds
    /// fewer, the answer is `NotEnough` and the cursor stays.
    pub fn read_until(&mut self, until: usize) -> (res: ParseResult<&'a [u8]>)
        ensures
            final(self).bytes() == old(self).bytes(),
            res is Ok <==> old(self).cursor + until <= old(self).bytes().len(),
            res matches Ok(chunk) ==> {
                &&& chunk@ == old(self).bytes().subrange(
                    old(self).cursor as int,
                    old(self).cursor + until,
                )
                &&& final(self).cursor == old(self).cursor + until
            },
            res matches Err(e) ==> {
                &&& e == ParseError::NotEnough
                &&& final(self).cursor == old(self).cursor
            },
    {
        let len: usize = self.buffer.len();
        if self.cursor <= len && until <= len - self.cursor {
            let start: usize = self.cursor;
            self.cursor = start + until;
            Ok(slice_subrange(self.buffer, start, start + until))
        } else {
            Err(ParseError::NotEnough)
        }
    }

    /// Reads the line at the cursor: the position at which it starts, and the position of its
    /// line feed or of the end of the buffer. The cursor moves behind the line feed.
    pub fn read_line(&mut self) -> (res: (usize, usize))
        ensures
            final(self).bytes() == old(self).bytes(),
            res.0 == old(self).cursor,
            res.1 == line_end(old(self).bytes(), old(self).cursor as int),
            final(self).cursor == line_next(old(self).bytes(), old(self).cursor as int),
            res.0 <= res.1,
            res.0 <= old(self).bytes().len() ==> res.1 <= old(self).bytes().len(),
            forall|i: int|
                res.0 <= i < res.1 ==> #[trigger] old(self).bytes()[i] != LINE_FEED,
            res.1 < old(self).bytes().len() ==> old(self).bytes()[res.1 as int] == LINE_FEED,
    {
        let started_at: usize = self.cursor;
        let mut stopped_at: usize = self.cursor;
        while self.cursor < self.buffer.len()
            invariant_except_break
                self.cursor == stopped_at,
            invariant
                self.bytes() == old(self).bytes(),
                started_at == old(self).cursor,
                started_at <= stopped_at,
                started_at <= self.bytes().len() ==> stopped_at <= self.bytes().len(),
                started_at >= self.bytes().len() ==> stopped_at == started_at,
                line_end(self.bytes(), started_at as int) == line_end(
                    self.bytes(),
                    stopped_at as int,
                ),
                forall|i: int|
                    started_at <= i < stopped_at ==> #[trigger] self.bytes()[i] != LINE_FEED,
            ensures
                stopped_at == line_end(self.bytes(), started_at as int),
                self.cursor == line_next(self.bytes(), started_at as int),
                stopped_at < self.bytes().len() ==> self.bytes()[stopped_at as int] == LINE_FEED,
            decreases self.bytes().len() - self.cursor,
        {
            if self.buffer[self.cursor] == LINE_FEED {
                self.incr_cursor();
                break;
            }
            stopped_at += 1;
            self.incr_cursor();
        }
        (started_at, stopped_at)
    }

    /// Reads the line at the cursor as a size. It has to open with `opt_char`, or with `#` where
    /// none is given; where it does not, the cursor stays. Otherwise the cursor moves behind the
    /// line.
    pub fn read_sizeline(&mut self, opt_char: Option<u8>) -> (res: ParseResult<usize>)
        requires
            sizeline(
                old(self).bytes(),
                old(self).cursor as int,
                opt_char.unwrap_or(SIZELINE_MARK),
            ).0 is Some,
        ensures
            final(self).bytes() == old(self).bytes(),
            (Some(res), final(self).cursor as int) == sizeline(
                old(self).bytes(),
                old(self).cursor as int,
                opt_char.unwrap_or(SIZELINE_MARK),
            ),
    {
        if self.cursor < self.buffer.len() {
            if self.buffer[self.cursor] == opt_char.unwrap_or(SIZELINE_MARK) {
                self.incr_cursor();
                let (started_at, stopped_at) = self.read_line();
                return Self::parse_into_usize(
                    slice_subrange(self.buffer, started_at, stopped_at),
                );
            }
        }
        Err(ParseError::UnexpectedByte)
    }

    /// Moves the cursor one byte ahead.
    pub fn incr_cursor(&mut self)
        requires
            old(self).cursor < usize::MAX,
        ensures
            final(self).bytes() == old(self).bytes(),
            final(self).cursor == old(self).cursor + 1,
    {
        self.cursor += 1;
    }

    /// Reads `bytes` as a decimal number. A byte that is no digit is an `UnexpectedByte`; no byte
    /// at all is zero.
    pub fn parse_into_usize(bytes: &[u8]) -> (res: ParseResult<usize>)
        requires
            number(bytes@) is Some,
        ensures
            Some(res) == number(bytes@),
    {
        let mut item_usize: usize = 0;
        let mut i: usize = 0;
        assert(byte_digits(bytes@.take(0)) =~= Seq::<nat>::empty());
        while i < bytes.len()
            invariant
                i <= bytes@.len(),
                number(bytes@) is Some,
                forall|j: int| 0 <= j < i ==> is_digit_byte(#[trigger] bytes@[j]),
                item_usize == decimal(byte_digits(bytes@.take(i as int))),
            decreases bytes@.len() - i,
        {
            let curdig: usize = match bytes[i].checked_sub(48) {
                Some(dig) => {
                    if dig > 9 {
                        proof {
                            lemma_digit_run(bytes@, i as int);
                        }
                        return Err(ParseError::UnexpectedByte);
                    } else {
                        dig as usize
                    }
                },
                None => {
                    proof {
                        lemma_digit_run(bytes@, i as int);
                    }
                    return Err(ParseError::UnexpectedByte);
                },
            };
            proof {
                lemma_digit_run(bytes@, i + 1);
                lemma_number_grows(bytes@, i as int);
            }
            item_usize = (item_usize * 10) + curdig;
            i += 1;
        }
        proof {
            lemma_digit_run(bytes@, i as int);
        }
        Ok(item_usize)
    }

    /// Reads the metaframe: the number of datagroups in the packet. The cursor moves behind it.
    /// Where the frame holds the mark alone and another byte than a line feed stands behind it,
    /// the announced size is wrong, and that byte is an `UnexpectedByte`.
    pub fn parse_metaframe_get_datagroup_count(&mut self) -> (res: ParseResult<usize>)
        requires
            metaframe(old(self).bytes(), old(self).cursor as int).0 is Some,
        ensures
            final(self).bytes() == old(self).bytes(),
            (Some(res), final(self).cursor as int) == metaframe(
                old(self).bytes(),
                old(self).cursor as int,
            ),
    {
        let metaframe_sizeline: usize = self.read_sizeline(Some(START_HEADER_MAGIC))?;
        let our_chunk = self.read_until(metaframe_sizeline)?;
        if our_chunk[0] == DATAGROUP_COUNT_MARK {
            if our_chunk.len() == 1 && self.cursor < self.buffer.len() && self.buffer[self.cursor]
                != LINE_FEED {
                return Err(ParseError::UnexpectedByte);
            }
            assert(our_chunk@.subrange(1, our_chunk@.len() as int) =~= self.bytes().subrange(
                self.cursor - our_chunk@.len() + 1,
                self.cursor as int,
            ));
            let ret: usize = Self::parse_into_usize(
                slice_subrange(our_chunk, 1, our_chunk.len()),
            )?;
            self.incr_cursor();
            Ok(ret)
        } else {
            Err(ParseError::UnexpectedByte)
        }
    }

    /// Reads the head of a datagroup: the number of its elements. The cursor moves behind it.
    pub fn parse_datagroup_get_group_size(&mut self) -> (res: ParseResult<usize>)
        requires
            count_frame(
                old(self).bytes(),
                old(self).cursor as int,
                SIZELINE_MARK,
                ELEMENT_COUNT_MARK,
            ).0 is Some,
        ensures
            final(self).bytes() == old(self).bytes(),
            (Some(res), final(self).cursor as int) == count_frame(
                old(self).bytes(),
                old(self).cursor as int,
                SIZELINE_MARK,
                ELEMENT_COUNT_MARK,
            ),
    {
        let dataframe_sizeline: usize = self.read_sizeline(None)?;
        let our_chunk = self.read_until(dataframe_sizeline)?;
        if our_chunk[0] == ELEMENT_COUNT_MARK {
            assert(our_chunk@.subrange(1, our_chunk@.len() as int) =~= self.bytes().subrange(
                self.cursor - our_chunk@.len() + 1,
                self.cursor as int,
            ));
            let ret: usize = Self::parse_into_usize(
                slice_subrange(our_chunk, 1, our_chunk.len()),
            )?;
            self.incr_cursor();
            Ok(ret)
        } else {
            Err(ParseError::UnexpectedByte)
        }
    }

    /// Reads one element of a datagroup into a vector of its own. The cursor moves behind it.
    pub fn parse_next_datagroup_element(&mut self) -> (res: ParseResult<Vec<u8>>)
        requires
            element(old(self).bytes(), old(self).cursor as int).0 is Some,
        ensures
            final(self).bytes() == old(self).bytes(),
            (element_answer(res), final(self).cursor as int) == element(
                old(self).bytes(),
                old(self).cursor as int,
            ),
    {
        let element_size: usize = self.read_sizeline(None)?;
        let ret = slice_to_vec(self.read_until(element_size)?);
        self.incr_cursor();
        Ok(ret)
    }

    /// Reads one datagroup: as many elements as its head announces, in order. The cursor moves
    /// behind it.
    pub fn parse_next_actiongroup(&mut self) -> (res: ParseResult<ActionGroup>)
        requires
            datagroup(old(self).bytes(), old(self).cursor as int).0 is Some,
        ensures
            final(self).bytes() == old(self).bytes(),
            (group_answer(res), final(self).cursor as int) == datagroup(
                old(self).bytes(),
                old(self).cursor as int,
            ),
    {
        let ghost s = self.bytes();
        let len: usize = self.parse_datagroup_get_group_size()?;
        let ghost start = self.cursor as int;
        let mut group: ActionGroup = Vec::new();
        let mut i: usize = 0;
        assert(group_view(group) =~= Seq::empty());
        while i < len
            invariant
                i <= len,
                self.bytes() == s,
                s == old(self).bytes(),
                elements(s, start, len as nat).0 is Some,
                elements(s, start, len as nat) == datagroup(s, old(self).cursor as int),
                elements(s, start, i as nat) == (
                    Some(Ok::<_, ParseError>(group_view(group))),
                    self.cursor as int,
                ),
            decreases len - i,
        {
            proof {
                lemma_elements_stop(s, start, (i + 1) as nat, len as nat);
            }
            let ghost before = group_view(group);
            group.push(self.parse_next_datagroup_element()?);
            assert(group_view(group) =~= before.push(group@.last()@));
            i += 1;
        }
        Ok(group)
    }

    /// Reads one packet: the query and the position behind the packet.
    pub fn parse(self) -> (res: Result<(Query, usize), ParseError>)
        requires
            packet(self.bytes(), self.cursor as int) is Some,
        ensures
            query_answer(res) == packet(self.bytes(), self.cursor as int),
    {
        let mut parser = self;
        let ghost s = self.bytes();
        let ghost at = self.cursor as int;
        let number_of_queries: usize = parser.parse_metaframe_get_datagroup_count()?;
        if number_of_queries == 0 {
            return Err(ParseError::BadPacket);
        }
        if number_of_queries == 1 {
            let single_group = parser.parse_next_actiongroup()?;
            if parser.cursor < parser.buffer.len() && parser.buffer[parser.cursor]
                != START_HEADER_MAGIC {
                Err(ParseError::UnexpectedByte)
            } else {
                Ok((Query::SimpleQuery(single_group), parser.cursor))
            }
        } else {
            let ghost start = parser.cursor as int;
            let mut queries: Vec<ActionGroup> = Vec::new();
            let mut i: usize = 0;
            assert(groups_view(queries) =~= Seq::empty());
            while i < number_of_queries
                invariant
                    i <= number_of_queries,
                    number_of_queries > 1,
                    parser.bytes() == s,
                    s == self.bytes(),
                    at == self.cursor,
                    metaframe(s, at) == (Some(Ok::<_, ParseError>(number_of_queries)), start),
                    datagroups(s, start, number_of_queries as nat).0 is Some,
                    datagroups(s, start, i as nat) == (
                        Some(Ok::<_, ParseError>(groups_view(queries))),
                        parser.cursor as int,
                    ),
                decreases number_of_queries - i,
            {
                proof {
                    lemma_datagroups_stop(s, start, (i + 1) as nat, number_of_queries as nat);
                }
                let ghost before = groups_view(queries);
                queries.push(parser.parse_next_actiongroup()?);
                assert(groups_view(queries) =~= before.push(group_view(queries@.last())));
                i += 1;
            }
            Ok((Query::PipelinedQuery(queries), parser.cursor))
        }
    }
}

/// A list of elements that stops short stops at the same place however many are asked for.
pub proof fn lemma_elements_stop(s: Seq<u8>, at: int, k: nat, count: nat)
    requires
        k <= count,
    ensures
        !(elements(s, at, k).0 matches Some(Ok(_))) ==> elements(s, at, count) == elements(
            s,
            at,
            k,
        ),
    decreases count,
{
    if k < count {
        lemma_elements_stop(s, at, k, (count - 1) as nat);
    }
}

/// A list of datagroups that stops short stops at the same place however many are asked for.
pub proof fn lemma_datagroups_stop(s: Seq<u8>, at: int, k: nat, count: nat)
    requires
        k <= count,
    ensures
        !(datagroups(s, at, k).0 matches Some(Ok(_))) ==> datagroups(s, at, count) == datagroups(
            s,
            at,
            k,
        ),
    decreases count,
{
    if k < count {
        lemma_datagroups_stop(s, at, k, (count - 1) as nat);
    }
}

/// A line that starts inside the buffer ends inside it.
pub proof fn lemma_line_end(s: Seq<u8>, from: int)
    requires
        0 <= from <= s.len(),
    ensures
        from <= line_end(s, from) <= s.len(),
    decreases s.len() - from,
{
    if from < s.len() && s[from] != LINE_FEED {
        lemma_line_end(s, from + 1);
    }
}

/// Bytes that are known to be digits belong to the digit run, which ends at the first that is
/// not.
pub proof fn lemma_digit_run(s: Seq<u8>, k: int)
    requires
        0 <= k <= s.len(),
        forall|j: int| 0 <= j < k ==> is_digit_byte(#[trigger] s[j]),
    ensures
        k <= digit_run(s) <= s.len(),
        k == s.len() || !is_digit_byte(s[k]) ==> digit_run(s) == k,
    decreases s.len(),
{
    if s.len() > 0 && is_digit_byte(s[0]) {
        let rest = s.drop_first();
        if k > 0 {
            assert forall|j: int| 0 <= j < k - 1 implies is_digit_byte(#[trigger] rest[j]) by {
                assert(rest[j] == s[j + 1]);
            }
            lemma_digit_run(rest, k - 1);
        } else {
            lemma_digit_run(rest, 0);
        }
    }
}

/// Reading one digit more multiplies the number read so far by ten and adds the digit, and what
/// comes out is no larger than the number that the whole digit run spells.
pub proof fn lemma_number_grows(s: Seq<u8>, k: int)
    requires
        0 <= k < s.len(),
        k < digit_run(s) <= s.len(),
        is_digit_byte(s[k]),
    ensures
        decimal(byte_digits(s.take(k + 1))) == decimal(byte_digits(s.take(k))) * 10 + (s[k] - 48),
        decimal(byte_digits(s.take(k + 1))) <= decimal(byte_digits(s.take(digit_run(s)))),
{
    assert(byte_digits(s.take(k + 1)).drop_last() =~= byte_digits(s.take(k)));
    let run = byte_digits(s.take(digit_run(s)));
    lemma_prefix_not_larger(run, k + 1);
    assert(run.take(k + 1) =~= byte_digits(s.take(k + 1)));
}

} // verus!
