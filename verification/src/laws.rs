//! Laws of the packet parser.

use vstd::prelude::*;

use crate::encoding::{law_packet_opens, law_packet_read_back, packet_bytes, sendable};
use crate::packet::{
    ParseError, QueryView, DATAGROUP_COUNT_MARK, ELEMENT_COUNT_MARK, LINE_FEED, SIZELINE_MARK,
    START_HEADER_MAGIC,
};
use crate::packet::{
    count_frame, datagroup, datagroups, element, elements, line_end, metaframe,
    metaframe_too_short, packet, sizeline,
};
use crate::parser::lemma_line_end;

verus! {

/// No reader moves the cursor back, and none moves it further than one byte behind the end of
/// the buffer, the place of a line feed that did not arrive.
pub proof fn law_cursor_moves_ahead(s: Seq<u8>, at: int, mark: u8, kind: u8)
    requires
        0 <= at <= s.len() + 1,
    ensures
        at <= sizeline(s, at, mark).1 <= s.len() + 1,
        at <= count_frame(s, at, mark, kind).1 <= s.len() + 1,
        at <= metaframe(s, at).1 <= s.len() + 1,
        at <= element(s, at).1 <= s.len() + 1,
        at <= datagroup(s, at).1 <= s.len() + 1,
        packet(s, at) matches Some(Ok((_, next))) ==> at < next <= s.len() + 1,
{
    lemma_sizeline_moves(s, at, mark);
    lemma_sizeline_moves(s, at, SIZELINE_MARK);
    lemma_datagroup_moves(s, at);
    lemma_sizeline_moves(s, at, START_HEADER_MAGIC);
    let (count, start) = metaframe(s, at);
    if let Some(Ok(count)) = count {
        lemma_datagroup_moves(s, start);
        lemma_datagroups_move(s, start, count as nat);
    }
}

/// A sizeline that is read as a size lies inside the buffer.
proof fn lemma_sizeline_moves(s: Seq<u8>, at: int, mark: u8)
    requires
        0 <= at <= s.len() + 1,
    ensures
        at <= sizeline(s, at, mark).1 <= s.len() + 1,
        sizeline(s, at, mark).0 matches Some(Ok(_)) ==> at < sizeline(s, at, mark).1 <= s.len(),
{
    if at < s.len() {
        lemma_line_end(s, at + 1);
    }
}

proof fn lemma_elements_move(s: Seq<u8>, at: int, count: nat)
    requires
        0 <= at <= s.len() + 1,
    ensures
        at <= elements(s, at, count).1 <= s.len() + 1,
    decreases count,
{
    if count > 0 {
        lemma_elements_move(s, at, (count - 1) as nat);
        let next = elements(s, at, (count - 1) as nat).1;
        lemma_sizeline_moves(s, next, SIZELINE_MARK);
    }
}

proof fn lemma_datagroup_moves(s: Seq<u8>, at: int)
    requires
        0 <= at <= s.len() + 1,
    ensures
        at <= datagroup(s, at).1 <= s.len() + 1,
{
    lemma_sizeline_moves(s, at, SIZELINE_MARK);
    let (count, next) = count_frame(s, at, SIZELINE_MARK, ELEMENT_COUNT_MARK);
    if let Some(Ok(count)) = count {
        lemma_elements_move(s, next, count as nat);
    }
}

proof fn lemma_datagroups_move(s: Seq<u8>, at: int, count: nat)
    requires
        0 <= at <= s.len() + 1,
    ensures
        at <= datagroups(s, at, count).1 <= s.len() + 1,
    decreases count,
{
    if count > 0 {
        lemma_datagroups_move(s, at, (count - 1) as nat);
        lemma_datagroup_moves(s, datagroups(s, at, (count - 1) as nat).1);
    }
}

/// The packet announces as many datagroups as the query has: one for a simple query, two or more
/// for a pipelined one.
pub proof fn law_announced_queries(s: Seq<u8>, at: int)
    ensures
        packet(s, at) matches Some(Ok((QueryView::Simple(_), _))) ==> metaframe(s, at).0 == Some(
            Ok::<usize, ParseError>(1),
        ),
        packet(s, at) matches Some(Ok((QueryView::Pipelined(groups), _))) ==> {
            &&& groups.len() >= 2
            &&& metaframe(s, at).0 matches Some(Ok(count))
            &&& count == groups.len()
        },
{
    let (count, start) = metaframe(s, at);
    if let Some(Ok(count)) = count {
        lemma_datagroups_count(s, start, count as nat);
    }
}

/// A datagroup announces as many elements as it has.
pub proof fn law_announced_elements(s: Seq<u8>, at: int)
    ensures
        datagroup(s, at).0 matches Some(Ok(group)) ==> {
            &&& count_frame(s, at, SIZELINE_MARK, ELEMENT_COUNT_MARK).0 matches Some(Ok(count))
            &&& count == group.len()
        },
{
    let (count, next) = count_frame(s, at, SIZELINE_MARK, ELEMENT_COUNT_MARK);
    if let Some(Ok(count)) = count {
        lemma_elements_count(s, next, count as nat);
    }
}

proof fn lemma_elements_count(s: Seq<u8>, at: int, count: nat)
    ensures
        elements(s, at, count).0 matches Some(Ok(group)) ==> group.len() == count,
    decreases count,
{
    if count > 0 {
        lemma_elements_count(s, at, (count - 1) as nat);
    }
}

proof fn lemma_datagroups_count(s: Seq<u8>, at: int, count: nat)
    ensures
        datagroups(s, at, count).0 matches Some(Ok(groups)) ==> groups.len() == count,
    decreases count,
{
    if count > 0 {
        lemma_datagroups_count(s, at, (count - 1) as nat);
    }
}

/// A packet is a `BadPacket` if and only if its metaframe announces no datagroup.
pub proof fn law_bad_packet(s: Seq<u8>, at: int)
    ensures
        packet(s, at) == Some(Err::<(QueryView, int), _>(ParseError::BadPacket)) <==> metaframe(
            s,
            at,
        ).0 == Some(Ok::<usize, ParseError>(0)),
{
    let (count, start) = metaframe(s, at);
    if let Some(Ok(count)) = count {
        lemma_datagroup_error(s, start);
        lemma_datagroups_error(s, start, count as nat);
    }
}

proof fn lemma_elements_error(s: Seq<u8>, at: int, count: nat)
    ensures
        elements(s, at, count).0 matches Some(Err(e)) ==> e != ParseError::BadPacket,
    decreases count,
{
    if count > 0 {
        lemma_elements_error(s, at, (count - 1) as nat);
    }
}

proof fn lemma_datagroup_error(s: Seq<u8>, at: int)
    ensures
        datagroup(s, at).0 matches Some(Err(e)) ==> e != ParseError::BadPacket,
{
    let (count, next) = count_frame(s, at, SIZELINE_MARK, ELEMENT_COUNT_MARK);
    if let Some(Ok(count)) = count {
        lemma_elements_error(s, next, count as nat);
    }
}

proof fn lemma_datagroups_error(s: Seq<u8>, at: int, count: nat)
    ensures
        datagroups(s, at, count).0 matches Some(Err(e)) ==> e != ParseError::BadPacket,
    decreases count,
{
    if count > 0 {
        lemma_datagroups_error(s, at, (count - 1) as nat);
        lemma_datagroup_error(s, datagroups(s, at, (count - 1) as nat).1);
    }
}

/// Whether `t` is `s` with more bytes behind it.
pub open spec fn extends(t: Seq<u8>, s: Seq<u8>) -> bool {
    s.len() <= t.len() && t.take(s.len() as int) == s
}

/// Whether `s` and `t` hold the same bytes up to position `n`.
spec fn agree(s: Seq<u8>, t: Seq<u8>, n: int) -> bool {
    0 <= n <= s.len() && n <= t.len() && s.take(n) == t.take(n)
}

/// A packet that lies inside the buffer is read alike whatever follows it. Only a simple query
/// that ends where the buffer did asks that what follows opens another packet.
pub proof fn law_trailing_bytes_ignored(s: Seq<u8>, t: Seq<u8>, at: int)
    requires
        0 <= at,
        extends(t, s),
        packet(s, at) matches Some(Ok((query, next))) && next <= s.len() && (query is Simple
            && next == s.len() && next < t.len() ==> t[next] == START_HEADER_MAGIC),
    ensures
        packet(t, at) == packet(s, at),
{
    assert(s.take(s.len() as int) =~= s);
    lemma_packet_parts_agree(s, t, at, s.len() as int);
    if let Some(Ok((QueryView::Simple(_), next))) = packet(s, at) {
        law_cursor_moves_ahead(s, at, START_HEADER_MAGIC, DATAGROUP_COUNT_MARK);
        if next < s.len() {
            assert(t[next] == t.take(s.len() as int)[next]);
        }
    }
}

/// A packet that lies inside the buffer is read alike where the buffer is cut right behind it.
pub proof fn law_cut_behind_packet(s: Seq<u8>, at: int)
    requires
        0 <= at,
        packet(s, at) matches Some(Ok((_, next))) && next <= s.len(),
    ensures
        packet(s, at) matches Some(Ok((_, next))) && packet(s.take(next), at) == packet(s, at),
{
    law_cursor_moves_ahead(s, at, START_HEADER_MAGIC, DATAGROUP_COUNT_MARK);
    if let Some(Ok((_, next))) = packet(s, at) {
        let t = s.take(next);
        assert(t.take(next) =~= s.take(next));
        lemma_packet_parts_agree(s, t, at, next);
    }
}

/// The metaframe and the datagroups of a packet that lies before position `n` are read alike in
/// two buffers that agree up to there.
proof fn lemma_packet_parts_agree(s: Seq<u8>, t: Seq<u8>, at: int, n: int)
    requires
        0 <= at,
        agree(s, t, n),
        packet(s, at) matches Some(Ok((_, next))) && next <= n,
    ensures
        metaframe(t, at) == metaframe(s, at),
        packet(s, at) matches Some(Ok((QueryView::Simple(_), _))) ==> datagroup(
            t,
            metaframe(s, at).1,
        ) == datagroup(s, metaframe(s, at).1),
        packet(s, at) matches Some(Ok((QueryView::Pipelined(_), _))) ==> packet(t, at) == packet(
            s,
            at,
        ),
{
    lemma_sizeline_moves(s, at, START_HEADER_MAGIC);
    let (count, start) = metaframe(s, at);
    if let Some(Ok(count)) = count {
        lemma_datagroup_moves(s, start);
        lemma_datagroups_move(s, start, count as nat);
        lemma_count_agrees(s, t, at, START_HEADER_MAGIC, DATAGROUP_COUNT_MARK, n);
        lemma_byte_agrees(s, t, start - 1, n);
        if count == 1 {
            lemma_datagroup_agrees(s, t, start, n);
        } else {
            lemma_datagroups_agree(s, t, start, count as nat, n);
        }
    }
}

proof fn lemma_byte_agrees(s: Seq<u8>, t: Seq<u8>, i: int, n: int)
    requires
        agree(s, t, n),
        0 <= i < n,
    ensures
        t[i] == s[i],
{
    assert(t.take(n)[i] == s.take(n)[i]);
}

proof fn lemma_subrange_agrees(s: Seq<u8>, t: Seq<u8>, from: int, to: int, n: int)
    requires
        0 <= from <= to <= n,
        agree(s, t, n),
    ensures
        t.subrange(from, to) == s.subrange(from, to),
{
    assert(t.subrange(from, to) =~= t.take(n).subrange(from, to));
    assert(s.subrange(from, to) =~= s.take(n).subrange(from, to));
}

proof fn lemma_line_agrees(s: Seq<u8>, t: Seq<u8>, from: int, n: int)
    requires
        0 <= from <= s.len(),
        agree(s, t, n),
        line_end(s, from) < n,
    ensures
        line_end(t, from) == line_end(s, from),
    decreases s.len() - from,
{
    lemma_line_end(s, from);
    lemma_byte_agrees(s, t, from, n);
    if s[from] != LINE_FEED {
        lemma_line_agrees(s, t, from + 1, n);
    }
}

/// A sizeline with a byte behind it before position `n` ends in a line feed, and is read alike.
proof fn lemma_sizeline_agrees(s: Seq<u8>, t: Seq<u8>, at: int, mark: u8, n: int)
    requires
        0 <= at < n,
        agree(s, t, n),
        sizeline(s, at, mark).1 < n,
    ensures
        sizeline(t, at, mark) == sizeline(s, at, mark),
{
    lemma_byte_agrees(s, t, at, n);
    if s[at] == mark {
        lemma_line_end(s, at + 1);
        lemma_line_agrees(s, t, at + 1, n);
        lemma_subrange_agrees(s, t, at + 1, line_end(s, at + 1), n);
    }
}

proof fn lemma_count_agrees(s: Seq<u8>, t: Seq<u8>, at: int, mark: u8, kind: u8, n: int)
    requires
        0 <= at,
        agree(s, t, n),
        count_frame(s, at, mark, kind).0 matches Some(Ok(_)),
        count_frame(s, at, mark, kind).1 <= n,
    ensures
        count_frame(t, at, mark, kind) == count_frame(s, at, mark, kind),
        sizeline(t, at, mark) == sizeline(s, at, mark),
        t[sizeline(s, at, mark).1] == kind,
{
    lemma_sizeline_moves(s, at, mark);
    lemma_sizeline_agrees(s, t, at, mark, n);
    if let (Some(Ok(size)), start) = sizeline(s, at, mark) {
        lemma_byte_agrees(s, t, start, n);
        lemma_subrange_agrees(s, t, start + 1, start + size, n);
    }
}

proof fn lemma_element_agrees(s: Seq<u8>, t: Seq<u8>, at: int, n: int)
    requires
        0 <= at,
        agree(s, t, n),
        element(s, at).0 matches Some(Ok(_)),
        element(s, at).1 <= n,
    ensures
        element(t, at) == element(s, at),
{
    lemma_sizeline_moves(s, at, SIZELINE_MARK);
    lemma_sizeline_agrees(s, t, at, SIZELINE_MARK, n);
    if let (Some(Ok(size)), start) = sizeline(s, at, SIZELINE_MARK) {
        lemma_subrange_agrees(s, t, start, start + size, n);
    }
}

proof fn lemma_elements_agree(s: Seq<u8>, t: Seq<u8>, at: int, count: nat, n: int)
    requires
        0 <= at <= s.len() + 1,
        agree(s, t, n),
        elements(s, at, count).0 matches Some(Ok(_)),
        elements(s, at, count).1 <= n,
    ensures
        elements(t, at, count) == elements(s, at, count),
    decreases count,
{
    if count > 0 {
        let before = (count - 1) as nat;
        let next = elements(s, at, before).1;
        lemma_elements_move(s, at, before);
        lemma_sizeline_moves(s, next, SIZELINE_MARK);
        lemma_elements_agree(s, t, at, before, n);
        lemma_element_agrees(s, t, next, n);
    }
}

proof fn lemma_datagroup_agrees(s: Seq<u8>, t: Seq<u8>, at: int, n: int)
    requires
        0 <= at <= s.len() + 1,
        agree(s, t, n),
        datagroup(s, at).0 matches Some(Ok(_)),
        datagroup(s, at).1 <= n,
    ensures
        datagroup(t, at) == datagroup(s, at),
{
    lemma_sizeline_moves(s, at, SIZELINE_MARK);
    let (count, next) = count_frame(s, at, SIZELINE_MARK, ELEMENT_COUNT_MARK);
    if let Some(Ok(count)) = count {
        lemma_elements_move(s, next, count as nat);
        lemma_count_agrees(s, t, at, SIZELINE_MARK, ELEMENT_COUNT_MARK, n);
        lemma_elements_agree(s, t, next, count as nat, n);
    }
}

proof fn lemma_datagroups_agree(s: Seq<u8>, t: Seq<u8>, at: int, count: nat, n: int)
    requires
        0 <= at <= s.len() + 1,
        agree(s, t, n),
        datagroups(s, at, count).0 matches Some(Ok(_)),
        datagroups(s, at, count).1 <= n,
    ensures
        datagroups(t, at, count) == datagroups(s, at, count),
    decreases count,
{
    if count > 0 {
        let before = (count - 1) as nat;
        let next = datagroups(s, at, before).1;
        lemma_datagroups_move(s, at, before);
        lemma_datagroup_moves(s, next);
        lemma_datagroups_agree(s, t, at, before, n);
        lemma_datagroup_agrees(s, t, next, n);
    }
}

/// A metaframe whose announced size is too short for its count is refused, and so is its packet.
pub proof fn law_short_metaframe_refused(s: Seq<u8>, at: int)
    requires
        metaframe_too_short(s, at),
    ensures
        metaframe(s, at).0 == Some(Err::<usize, _>(ParseError::UnexpectedByte)),
        packet(s, at) == Some(Err::<(QueryView, int), _>(ParseError::UnexpectedByte)),
{
}

/// A packet that arrived in part is never taken for a whole one: what parses, if anything, runs
/// over the end of what arrived.
pub proof fn law_partial_packet_not_taken(query: QueryView, arrived: int)
    requires
        sendable(query),
        packet_bytes(query).len() <= usize::MAX,
        0 <= arrived < packet_bytes(query).len(),
    ensures
        packet(packet_bytes(query).take(arrived), 0) matches Some(Ok((_, next))) ==> next
            > arrived,
{
    let whole = packet_bytes(query);
    let part = whole.take(arrived);
    assert(whole.subrange(0, whole.len() as int) =~= whole);
    law_packet_read_back(whole, 0, query);
    if let Some(Ok((_, next))) = packet(part, 0) {
        if next <= part.len() {
            assert(part.take(arrived) =~= part);
            lemma_packet_parts_agree(part, whole, 0, arrived);
        }
    }
}

/// Packets that stand one behind the other are read one after the other: the position that the
/// first gives is where the second starts.
pub proof fn law_packets_in_turn(first: QueryView, second: QueryView, rest: Seq<u8>)
    requires
        sendable(first),
        sendable(second),
        (packet_bytes(first) + packet_bytes(second) + rest).len() <= usize::MAX,
        second is Simple && rest.len() > 0 ==> rest[0] == START_HEADER_MAGIC,
    ensures
        ({
            let s = packet_bytes(first) + packet_bytes(second) + rest;
            let n = packet_bytes(first).len() as int;
            let m = packet_bytes(second).len() as int;
            &&& packet(s, 0) == Some(Ok::<_, ParseError>((first, n)))
            &&& packet(s, n) == Some(Ok::<_, ParseError>((second, n + m)))
            &&& packet(s.skip(n), 0) == Some(Ok::<_, ParseError>((second, m)))
        }),
{
    let a = packet_bytes(first);
    let b = packet_bytes(second);
    let s = a + b + rest;
    assert(s.subrange(0, a.len() as int) =~= a);
    assert(s.subrange(a.len() as int, (a.len() + b.len()) as int) =~= b);
    assert(s.skip(a.len() as int).subrange(0, b.len() as int) =~= b);
    law_packet_opens(second);
    assert(s[a.len() as int] == b[0]);
    law_packet_read_back(s, 0, first);
    law_packet_read_back(s, a.len() as int, second);
    law_packet_read_back(s.skip(a.len() as int), 0, second);
}

} // verus!
