//! Parsing of bytes that nothing is known about.
//!
//! The readers of the parser have no answer for some buffers: those with a number that exceeds
//! `usize` or with a frame of size zero. The functions below find out whether a reader has an
//! answer before it is asked.

use vstd::prelude::*;
use vstd::slice::slice_subrange;

use crate::decimal::{byte_digits, decimal, is_digit_byte};
use crate::packet::{
    ParseError, Query, DATAGROUP_COUNT_MARK, ELEMENT_COUNT_MARK, LINE_FEED, SIZELINE_MARK,
    START_HEADER_MAGIC,
};
use crate::packet::{
    count_frame, datagroup, datagroups, element, elements, metaframe, number, packet,
    query_answer, sizeline,
};
use crate::parser::Parser;
use crate::parser::{
    lemma_datagroups_stop, lemma_digit_run, lemma_elements_stop, lemma_number_grows,
};

verus! {

impl<'a> Parser<'a> {
    /// A second parser at the same position of the same buffer.
    fn fork(&self) -> (parser: Parser<'a>)
        ensures
            parser == *self,
    {
        Parser { cursor: self.cursor, buffer: self.buffer }
    }

    /// Whether the digits at the start of `bytes` spell a number within `usize`.
    fn number_answers(bytes: &[u8]) -> (res: bool)
        ensures
            res == (number(bytes@) is Some),
    {
        let mut value: usize = 0;
        let mut i: usize = 0;
        assert(byte_digits(bytes@.take(0)) =~= Seq::<nat>::empty());
        while i < bytes.len() && 48 <= bytes[i] && bytes[i] <= 57
            invariant
                i <= bytes@.len(),
                forall|j: int| 0 <= j < i ==> is_digit_byte(#[trigger] bytes@[j]),
                value == decimal(byte_digits(bytes@.take(i as int))),
            decreases bytes@.len() - i,
        {
            let digit: usize = (bytes[i] - 48) as usize;
            proof {
                lemma_digit_run(bytes@, i + 1);
                lemma_number_grows(bytes@, i as int);
            }
            if value > (usize::MAX - digit) / 10 {
                return false;
            }
            value = value * 10 + digit;
            i += 1;
        }
        proof {
            lemma_digit_run(bytes@, i as int);
        }
        true
    }

    /// Whether `read_sizeline` has an answer.
    fn sizeline_answers(&self, mark: u8) -> (res: bool)
        ensures
            res == (sizeline(self.bytes(), self.cursor as int, mark).0 is Some),
    {
        if self.cursor < self.buffer.len() && self.buffer[self.cursor] == mark {
            let mut line = self.fork();
            line.incr_cursor();
            let (started_at, stopped_at) = line.read_line();
            Self::number_answers(slice_subrange(self.buffer, started_at, stopped_at))
        } else {
            true
        }
    }

    /// Whether the reader of a count has an answer.
    fn count_answers(&self, mark: u8, kind: u8) -> (res: bool)
        ensures
            res == (count_frame(self.bytes(), self.cursor as int, mark, kind).0 is Some),
    {
        if !self.sizeline_answers(mark) {
            return false;
        }
        let mut frame = self.fork();
        match frame.read_sizeline(Some(mark)) {
            Ok(size) => match frame.read_until(size) {
                Ok(chunk) => {
                    if size == 0 {
                        false
                    } else if chunk[0] != kind {
                        true
                    } else {
                        assert(chunk@.subrange(1, chunk@.len() as int) =~= self.bytes().subrange(
                            frame.cursor - chunk@.len() + 1,
                            frame.cursor as int,
                        ));
                        let digits = slice_subrange(chunk, 1, chunk.len());
                        if !Self::number_answers(digits) {
                            false
                        } else {
                            match Self::parse_into_usize(digits) {
                                Ok(_) => frame.cursor < usize::MAX,
                                Err(_) => true,
                            }
                        }
                    }
                },
                Err(_) => true,
            },
            Err(_) => true,
        }
    }

    /// Whether `parse_metaframe_get_datagroup_count` has an answer.
    fn metaframe_answers(&self) -> (res: bool)
        ensures
            res == (metaframe(self.bytes(), self.cursor as int).0 is Some),
    {
        if !self.sizeline_answers(START_HEADER_MAGIC) {
            return false;
        }
        let mut frame = self.fork();
        if let Ok(size) = frame.read_sizeline(Some(START_HEADER_MAGIC)) {
            if size == 1 && frame.cursor < self.buffer.len() - 1 && self.buffer[frame.cursor]
                == DATAGROUP_COUNT_MARK && self.buffer[frame.cursor + 1] != LINE_FEED {
                return true;
            }
        }
        self.count_answers(START_HEADER_MAGIC, DATAGROUP_COUNT_MARK)
    }

    /// Whether `parse_next_datagroup_element` has an answer.
    fn element_answers(&self) -> (res: bool)
        ensures
            res == (element(self.bytes(), self.cursor as int).0 is Some),
    {
        if !self.sizeline_answers(SIZELINE_MARK) {
            return false;
        }
        let mut frame = self.fork();
        match frame.read_sizeline(Some(SIZELINE_MARK)) {
            Ok(size) => match frame.read_until(size) {
                Ok(_) => frame.cursor < usize::MAX,
                Err(_) => true,
            },
            Err(_) => true,
        }
    }

    /// Whether `parse_next_actiongroup` has an answer.
    fn actiongroup_answers(&self) -> (res: bool)
        ensures
            res == (datagroup(self.bytes(), self.cursor as int).0 is Some),
    {
        if !self.count_answers(SIZELINE_MARK, ELEMENT_COUNT_MARK) {
            return false;
        }
        let ghost s = self.bytes();
        let mut ahead = self.fork();
        let len: usize = match ahead.parse_datagroup_get_group_size() {
            Ok(len) => len,
            Err(_) => return true,
        };
        let ghost start = ahead.cursor as int;
        let mut i: usize = 0;
        while i < len
            invariant
                i <= len,
                s == self.bytes(),
                ahead.bytes() == s,
                elements(s, start, len as nat) == datagroup(s, self.cursor as int),
                elements(s, start, i as nat).0 matches Some(Ok(_)),
                elements(s, start, i as nat).1 == ahead.cursor,
            decreases len - i,
        {
            proof {
                lemma_elements_stop(s, start, (i + 1) as nat, len as nat);
            }
            if !ahead.element_answers() {
                return false;
            }
            match ahead.parse_next_datagroup_element() {
                Ok(_) => {},
                Err(_) => return true,
            }
            i += 1;
        }
        true
    }

    /// Whether `parse` has an answer.
    pub fn answers(&self) -> (res: bool)
        ensures
            res == (packet(self.bytes(), self.cursor as int) is Some),
    {
        if !self.metaframe_answers() {
            return false;
        }
        let ghost s = self.bytes();
        let ghost at = self.cursor as int;
        let mut ahead = self.fork();
        let count: usize = match ahead.parse_metaframe_get_datagroup_count() {
            Ok(count) => count,
            Err(_) => return true,
        };
        if count == 0 {
            return true;
        }
        if count == 1 {
            return ahead.actiongroup_answers();
        }
        let ghost start = ahead.cursor as int;
        let mut i: usize = 0;
        while i < count
            invariant
                i <= count,
                count > 1,
                s == self.bytes(),
                at == self.cursor,
                ahead.bytes() == s,
                metaframe(s, at) == (Some(Ok::<_, ParseError>(count)), start),
                datagroups(s, start, i as nat).0 matches Some(Ok(_)),
                datagroups(s, start, i as nat).1 == ahead.cursor,
            decreases count - i,
        {
            proof {
                lemma_datagroups_stop(s, start, (i + 1) as nat, count as nat);
            }
            if !ahead.actiongroup_answers() {
                return false;
            }
            match ahead.parse_next_actiongroup() {
                Ok(_) => {},
                Err(_) => return true,
            }
            i += 1;
        }
        true
    }

    /// Reads one packet from bytes that nothing is known about: what `parse` answers, or `None`
    /// where it has no answer.
    pub fn try_parse(self) -> (res: Option<Result<(Query, usize), ParseError>>)
        ensures
            match res {
                Some(answer) => query_answer(answer) == packet(self.bytes(), self.cursor as int),
                None => packet(self.bytes(), self.cursor as int) is None,
            },
    {
        if self.answers() {
            Some(self.parse())
        } else {
            None
        }
    }
}

} // verus!
