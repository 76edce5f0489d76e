//! The packet that a query travels in, and the laws that tie it to the parser.

use vstd::prelude::*;

use crate::decimal::{
    byte_digits, decimal_bytes, is_digit_byte, law_decimal_bytes, lemma_numeral,
    lemma_numeral_piece, numeral,
};
use crate::packet::{
    Group, ParseError, QueryView, DATAGROUP_COUNT_MARK, ELEMENT_COUNT_MARK, LINE_FEED,
    SIZELINE_MARK, START_HEADER_MAGIC,
};
use crate::packet::{
    count_frame, datagroup, datagroups, element, elements, line_end, metaframe, number, packet,
    sizeline,
};
use crate::parser::{lemma_datagroups_stop, lemma_digit_run, lemma_elements_stop};

verus! {

/// The line that announces `size` bytes.
pub open spec fn sizeline_bytes(mark: u8, size: nat) -> Seq<u8> {
    seq![mark] + decimal_bytes(size) + seq![LINE_FEED]
}

/// A payload behind the line that announces it, closed by a line feed.
pub open spec fn framed(mark: u8, payload: Seq<u8>) -> Seq<u8> {
    sizeline_bytes(mark, payload.len()) + payload + seq![LINE_FEED]
}

/// A frame that holds the byte `kind` and a number.
#[verifier::opaque]
pub open spec fn count_bytes(mark: u8, kind: u8, count: nat) -> Seq<u8> {
    framed(mark, seq![kind] + decimal_bytes(count))
}

/// The frames of the elements of a group, one behind the other.
pub open spec fn elements_bytes(group: Group) -> Seq<u8>
    decreases group.len(),
{
    if group.len() == 0 {
        Seq::empty()
    } else {
        elements_bytes(group.drop_last()) + framed(SIZELINE_MARK, group.last())
    }
}

/// A datagroup.
pub open spec fn group_bytes(group: Group) -> Seq<u8> {
    count_bytes(SIZELINE_MARK, ELEMENT_COUNT_MARK, group.len()) + elements_bytes(group)
}

/// Datagroups, one behind the other.
pub open spec fn groups_bytes(groups: Seq<Group>) -> Seq<u8>
    decreases groups.len(),
{
    if groups.len() == 0 {
        Seq::empty()
    } else {
        groups_bytes(groups.drop_last()) + group_bytes(groups.last())
    }
}

/// The packet that carries a query.
#[verifier::opaque]
pub open spec fn packet_bytes(query: QueryView) -> Seq<u8> {
    match query {
        QueryView::Simple(group) => count_bytes(START_HEADER_MAGIC, DATAGROUP_COUNT_MARK, 1)
            + group_bytes(group),
        QueryView::Pipelined(groups) => count_bytes(
            START_HEADER_MAGIC,
            DATAGROUP_COUNT_MARK,
            groups.len(),
        ) + groups_bytes(groups),
    }
}

/// Whether a packet can carry the query: a pipeline is two queries or more.
pub open spec fn sendable(query: QueryView) -> bool {
    query matches QueryView::Pipelined(groups) ==> groups.len() >= 2
}

/// Whether `part` stands in `s` at position `at`.
pub open spec fn holds_at(s: Seq<u8>, at: int, part: Seq<u8>) -> bool {
    &&& 0 <= at
    &&& at + part.len() <= s.len()
    &&& s.subrange(at, at + part.len()) == part
}

/// What two parts make stands in `s` only if each of them does, one behind the other.
proof fn lemma_holds_split(s: Seq<u8>, at: int, left: Seq<u8>, right: Seq<u8>)
    requires
        holds_at(s, at, left + right),
    ensures
        holds_at(s, at, left),
        holds_at(s, at + left.len(), right),
{
    let whole = s.subrange(at, at + left.len() + right.len());
    assert(whole == left + right);
    assert(s.subrange(at, at + left.len()) =~= left) by {
        assert forall|i: int| 0 <= i < left.len() implies s[at + i] == left[i] by {
            assert(whole[i] == (left + right)[i]);
        }
    }
    assert(s.subrange(at + left.len(), at + left.len() + right.len()) =~= right) by {
        assert forall|i: int| 0 <= i < right.len() implies s[at + left.len() + i] == right[i] by {
            assert(whole[left.len() + i] == (left + right)[left.len() + i]);
        }
    }
}

/// A position with no line feed before it and a line feed or the end at it is the end of the line.
proof fn lemma_line_end_is(s: Seq<u8>, from: int, end: int)
    requires
        0 <= from <= end <= s.len(),
        forall|i: int| from <= i < end ==> #[trigger] s[i] != LINE_FEED,
        end == s.len() || s[end] == LINE_FEED,
    ensures
        line_end(s, from) == end,
    decreases end - from,
{
    if from < end {
        lemma_line_end_is(s, from + 1, end);
    }
}

/// The decimal spelling of a number within `usize` is read as that number.
proof fn lemma_number_reads(n: nat)
    requires
        n <= usize::MAX,
    ensures
        number(decimal_bytes(n)) == Some(Ok::<usize, ParseError>(n as usize)),
{
    law_decimal_bytes(n);
    let s = decimal_bytes(n);
    lemma_digit_run(s, s.len() as int);
    assert(s.take(s.len() as int) =~= s);
}

proof fn lemma_sizeline_reads(s: Seq<u8>, at: int, mark: u8, size: nat)
    requires
        holds_at(s, at, sizeline_bytes(mark, size)),
        size <= usize::MAX,
    ensures
        sizeline(s, at, mark) == (
            Some(Ok::<usize, ParseError>(size as usize)),
            at + sizeline_bytes(mark, size).len(),
        ),
{
    let digits = decimal_bytes(size);
    let end = at + 1 + digits.len();
    lemma_holds_split(s, at, seq![mark] + digits, seq![LINE_FEED]);
    lemma_holds_split(s, at, seq![mark], digits);
    assert(s.subrange(at, at + 1)[0] == mark);
    assert(s.subrange(end, end + 1)[0] == LINE_FEED);
    law_decimal_bytes(size);
    assert forall|i: int| at + 1 <= i < end implies #[trigger] s[i] != LINE_FEED by {
        assert(s.subrange(at + 1, end)[i - at - 1] == digits[i - at - 1]);
        assert(is_digit_byte(digits[i - at - 1]));
    }
    lemma_line_end_is(s, at + 1, end);
    lemma_number_reads(size);
}

proof fn lemma_count_reads(s: Seq<u8>, at: int, mark: u8, kind: u8, count: nat)
    requires
        holds_at(s, at, count_bytes(mark, kind, count)),
        s.len() <= usize::MAX,
        count <= usize::MAX,
    ensures
        count_frame(s, at, mark, kind) == (
            Some(Ok::<usize, ParseError>(count as usize)),
            at + count_bytes(mark, kind, count).len(),
        ),
{
    reveal(count_bytes);
    let payload = seq![kind] + decimal_bytes(count);
    let line = sizeline_bytes(mark, payload.len());
    lemma_holds_split(s, at, line + payload, seq![LINE_FEED]);
    lemma_holds_split(s, at, line, payload);
    lemma_sizeline_reads(s, at, mark, payload.len());
    let start = at + line.len();
    lemma_holds_split(s, start, seq![kind], decimal_bytes(count));
    assert(s.subrange(start, start + 1)[0] == kind);
    lemma_number_reads(count);
}

proof fn lemma_metaframe_reads(s: Seq<u8>, at: int, count: nat)
    requires
        holds_at(s, at, count_bytes(START_HEADER_MAGIC, DATAGROUP_COUNT_MARK, count)),
        s.len() <= usize::MAX,
        count <= usize::MAX,
    ensures
        metaframe(s, at) == (
            Some(Ok::<usize, ParseError>(count as usize)),
            at + count_bytes(START_HEADER_MAGIC, DATAGROUP_COUNT_MARK, count).len(),
        ),
{
    reveal(count_bytes);
    let payload = seq![DATAGROUP_COUNT_MARK] + decimal_bytes(count);
    let line = sizeline_bytes(START_HEADER_MAGIC, payload.len());
    lemma_count_reads(s, at, START_HEADER_MAGIC, DATAGROUP_COUNT_MARK, count);
    lemma_holds_split(s, at, line + payload, seq![LINE_FEED]);
    lemma_holds_split(s, at, line, payload);
    lemma_sizeline_reads(s, at, START_HEADER_MAGIC, payload.len());
    law_decimal_bytes(count);
}

proof fn lemma_element_reads(s: Seq<u8>, at: int, payload: Seq<u8>)
    requires
        holds_at(s, at, framed(SIZELINE_MARK, payload)),
        s.len() <= usize::MAX,
    ensures
        element(s, at) == (
            Some(Ok::<Seq<u8>, ParseError>(payload)),
            at + framed(SIZELINE_MARK, payload).len(),
        ),
{
    let line = sizeline_bytes(SIZELINE_MARK, payload.len());
    lemma_holds_split(s, at, line + payload, seq![LINE_FEED]);
    lemma_holds_split(s, at, line, payload);
    lemma_sizeline_reads(s, at, SIZELINE_MARK, payload.len());
}

proof fn lemma_elements_read(s: Seq<u8>, at: int, group: Group)
    requires
        holds_at(s, at, elements_bytes(group)),
        s.len() <= usize::MAX,
    ensures
        elements(s, at, group.len()) == (
            Some(Ok::<Group, ParseError>(group)),
            at + elements_bytes(group).len(),
        ),
        group.len() <= elements_bytes(group).len(),
    decreases group.len(),
{
    if group.len() == 0 {
        assert(group =~= Seq::empty());
    } else {
        let before = group.drop_last();
        let last = framed(SIZELINE_MARK, group.last());
        lemma_holds_split(s, at, elements_bytes(before), last);
        lemma_elements_read(s, at, before);
        lemma_element_reads(s, at + elements_bytes(before).len(), group.last());
        assert(before.push(group.last()) =~= group);
    }
}

proof fn lemma_datagroup_reads(s: Seq<u8>, at: int, group: Group)
    requires
        holds_at(s, at, group_bytes(group)),
        s.len() <= usize::MAX,
    ensures
        datagroup(s, at) == (
            Some(Ok::<Group, ParseError>(group)),
            at + group_bytes(group).len(),
        ),
{
    let head = count_bytes(SIZELINE_MARK, ELEMENT_COUNT_MARK, group.len());
    lemma_holds_split(s, at, head, elements_bytes(group));
    lemma_elements_read(s, at + head.len(), group);
    lemma_count_reads(s, at, SIZELINE_MARK, ELEMENT_COUNT_MARK, group.len());
}

proof fn lemma_datagroups_read(s: Seq<u8>, at: int, groups: Seq<Group>)
    requires
        holds_at(s, at, groups_bytes(groups)),
        s.len() <= usize::MAX,
    ensures
        datagroups(s, at, groups.len()) == (
            Some(Ok::<Seq<Group>, ParseError>(groups)),
            at + groups_bytes(groups).len(),
        ),
        groups.len() <= groups_bytes(groups).len(),
    decreases groups.len(),
{
    reveal(count_bytes);
    if groups.len() == 0 {
        assert(groups =~= Seq::empty());
    } else {
        let before = groups.drop_last();
        lemma_holds_split(s, at, groups_bytes(before), group_bytes(groups.last()));
        lemma_datagroups_read(s, at, before);
        lemma_datagroup_reads(s, at + groups_bytes(before).len(), groups.last());
        assert(before.push(groups.last()) =~= groups);
    }
}

/// A packet opens with the byte that marks the start of a packet.
pub proof fn law_packet_opens(query: QueryView)
    ensures
        packet_bytes(query).len() > 0,
        packet_bytes(query)[0] == START_HEADER_MAGIC,
{
    reveal(count_bytes);
    reveal(packet_bytes);
}

/// Wherever the packet of a query stands in a buffer, parsing there gives the query back and
/// stops right behind the packet. Behind a simple query the buffer has to end or to go on with
/// another packet; behind a pipelined one anything may follow.
pub proof fn law_packet_read_back(s: Seq<u8>, at: int, query: QueryView)
    requires
        s.len() <= usize::MAX,
        sendable(query),
        holds_at(s, at, packet_bytes(query)),
        query is Simple ==> {
            let end = at + packet_bytes(query).len();
            end == s.len() || s[end] == START_HEADER_MAGIC
        },
    ensures
        packet(s, at) == Some(Ok::<_, ParseError>((query, at + packet_bytes(query).len()))),
{
    reveal(packet_bytes);
    match query {
        QueryView::Simple(group) => {
            let head = count_bytes(START_HEADER_MAGIC, DATAGROUP_COUNT_MARK, 1);
            lemma_holds_split(s, at, head, group_bytes(group));
            lemma_metaframe_reads(s, at, 1);
            lemma_datagroup_reads(s, at + head.len(), group);
        },
        QueryView::Pipelined(groups) => {
            let head = count_bytes(START_HEADER_MAGIC, DATAGROUP_COUNT_MARK, groups.len());
            lemma_holds_split(s, at, head, groups_bytes(groups));
            lemma_datagroups_read(s, at + head.len(), groups);
            lemma_metaframe_reads(s, at, groups.len());
        },
    }
}

/// A simple query with anything but another packet behind it is refused: the byte there is
/// unexpected.
pub proof fn law_stray_byte_refused(s: Seq<u8>, at: int, group: Group)
    requires
        s.len() <= usize::MAX,
        holds_at(s, at, packet_bytes(QueryView::Simple(group))),
        ({
            let end = at + packet_bytes(QueryView::Simple(group)).len();
            end < s.len() && s[end] != START_HEADER_MAGIC
        }),
    ensures
        packet(s, at) == Some(Err::<(QueryView, int), _>(ParseError::UnexpectedByte)),
{
    reveal(packet_bytes);
    let head = count_bytes(START_HEADER_MAGIC, DATAGROUP_COUNT_MARK, 1);
    lemma_holds_split(s, at, head, group_bytes(group));
    lemma_metaframe_reads(s, at, 1);
    lemma_datagroup_reads(s, at + head.len(), group);
}

proof fn lemma_holds_in_part(s: Seq<u8>, arrived: int, at: int, part: Seq<u8>)
    requires
        holds_at(s, at, part),
        at + part.len() <= arrived <= s.len(),
    ensures
        holds_at(s.take(arrived), at, part),
{
    assert(s.take(arrived).subrange(at, at + part.len()) =~= s.subrange(at, at + part.len()));
}

/// A sizeline of which a part arrived. Where its line feed arrived, it is read whole. Otherwise the
/// digits that arrived are read, and they spell zero only where there is none or the size is zero.
proof fn lemma_sizeline_cut(s: Seq<u8>, arrived: int, at: int, mark: u8, size: nat)
    requires
        holds_at(s, at, sizeline_bytes(mark, size)),
        size <= usize::MAX,
        0 <= arrived <= s.len(),
    ensures
        ({
            let next = at + sizeline_bytes(mark, size).len();
            match sizeline(s.take(arrived), at, mark) {
                (Some(Ok(n)), start) => if next <= arrived {
                    n == size && start == next
                } else {
                    start == arrived && (n == 0 ==> arrived == at + 1 || (size == 0 && arrived
                        == at + 2))
                },
                _ => next > arrived,
            }
        }),
{
    let p = s.take(arrived);
    let line = sizeline_bytes(mark, size);
    let next = at + line.len();
    if next <= arrived {
        lemma_holds_in_part(s, arrived, at, line);
        lemma_sizeline_reads(p, at, mark, size);
    } else if at < arrived {
        let digits = decimal_bytes(size);
        let k = arrived - at - 1;
        lemma_holds_split(s, at, seq![mark] + digits, seq![LINE_FEED]);
        lemma_holds_split(s, at, seq![mark], digits);
        assert(s.subrange(at, at + 1)[0] == mark);
        assert(p[at] == mark);
        law_decimal_bytes(size);
        assert(p.subrange(at + 1, arrived) =~= digits.take(k)) by {
            assert forall|i: int| 0 <= i < k implies p[at + 1 + i] == digits[i] by {
                assert(s.subrange(at + 1, at + 1 + digits.len())[i] == digits[i]);
            }
        }
        assert forall|i: int| at + 1 <= i < arrived implies #[trigger] p[i] != LINE_FEED by {
            assert(p.subrange(at + 1, arrived)[i - at - 1] == digits[i - at - 1]);
            assert(is_digit_byte(digits[i - at - 1]));
        }
        lemma_line_end_is(p, at + 1, arrived);
        let cut = digits.take(k);
        assert forall|i: int| 0 <= i < cut.len() implies is_digit_byte(#[trigger] cut[i]) by {
            assert(is_digit_byte(digits[i]));
        }
        lemma_digit_run(cut, k);
        assert(cut.take(k) =~= cut);
        lemma_numeral(size);
        assert(byte_digits(cut) =~= numeral(size).take(k)) by {
            assert forall|i: int| 0 <= i < k implies byte_digits(cut)[i] == numeral(size)[i] by {
                assert(numeral(size)[i] < 10);
            }
        }
        if k >= 1 && size > 0 {
            lemma_numeral_piece(size, k);
        }
    }
}

/// An element of which a part arrived is read only if nothing but its closing line feed is
/// missing, or if its size was cut off so that none or a zero is left of it.
proof fn lemma_element_cut(s: Seq<u8>, arrived: int, at: int, payload: Seq<u8>)
    requires
        holds_at(s, at, framed(SIZELINE_MARK, payload)),
        s.len() <= usize::MAX,
        0 <= arrived < at + framed(SIZELINE_MARK, payload).len(),
    ensures
        element(s.take(arrived), at) matches (Some(Ok(_)), next) ==> next > arrived && (arrived
            == at + framed(SIZELINE_MARK, payload).len() - 1 || arrived == at + 1 || (
        payload.len() == 0 && arrived == at + 2)),
{
    let line = sizeline_bytes(SIZELINE_MARK, payload.len());
    lemma_holds_split(s, at, line + payload, seq![LINE_FEED]);
    lemma_holds_split(s, at, line, payload);
    lemma_sizeline_cut(s, arrived, at, SIZELINE_MARK, payload.len());
}

/// A count of which a part arrived is read only if nothing but its closing line feed is missing.
proof fn lemma_count_cut(s: Seq<u8>, arrived: int, at: int, mark: u8, kind: u8, count: nat)
    requires
        holds_at(s, at, count_bytes(mark, kind, count)),
        s.len() <= usize::MAX,
        count <= usize::MAX,
        0 <= arrived < at + count_bytes(mark, kind, count).len(),
    ensures
        count_frame(s.take(arrived), at, mark, kind) matches (Some(Ok(n)), next) ==> {
            &&& n == count
            &&& arrived == at + count_bytes(mark, kind, count).len() - 1
            &&& next == arrived + 1
        },
{
    reveal(count_bytes);
    let payload = seq![kind] + decimal_bytes(count);
    let line = sizeline_bytes(mark, payload.len());
    lemma_holds_split(s, at, line + payload, seq![LINE_FEED]);
    lemma_holds_split(s, at, line, payload);
    lemma_sizeline_cut(s, arrived, at, mark, payload.len());
    let start = at + line.len();
    if arrived == start + payload.len() {
        lemma_holds_in_part(s, arrived, start, payload);
        lemma_holds_split(s.take(arrived), start, seq![kind], decimal_bytes(count));
        lemma_number_reads(count);
    }
}

/// Whether a cut at `arrived` leaves something that reads like the whole group, which ends at
/// `end`: all but the last line feed, or all up to the mark of the last element, with no more of
/// its size than a zero.
pub open spec fn cut_goes_unseen(arrived: int, end: int, group: Group) -> bool {
    ||| arrived == end - 1
    ||| group.len() > 0 && {
        let at = end - framed(SIZELINE_MARK, group.last()).len();
        arrived == at + 1 || (group.last().len() == 0 && arrived == at + 2)
    }
}

proof fn lemma_elements_cut(s: Seq<u8>, arrived: int, at: int, group: Group)
    requires
        holds_at(s, at, elements_bytes(group)),
        s.len() <= usize::MAX,
        at <= arrived < at + elements_bytes(group).len(),
    ensures
        elements(s.take(arrived), at, group.len()) matches (Some(Ok(_)), next) ==> next > arrived
            && cut_goes_unseen(arrived, at + elements_bytes(group).len(), group),
    decreases group.len(),
{
    let before = group.drop_last();
    let last = framed(SIZELINE_MARK, group.last());
    let mid = at + elements_bytes(before).len();
    lemma_holds_split(s, at, elements_bytes(before), last);
    if arrived < mid {
        lemma_elements_cut(s, arrived, at, before);
    } else {
        lemma_holds_in_part(s, arrived, at, elements_bytes(before));
        lemma_elements_read(s.take(arrived), at, before);
        lemma_element_cut(s, arrived, mid, group.last());
    }
}

proof fn lemma_datagroup_cut(s: Seq<u8>, arrived: int, at: int, group: Group)
    requires
        holds_at(s, at, group_bytes(group)),
        s.len() <= usize::MAX,
        at <= arrived < at + group_bytes(group).len(),
    ensures
        datagroup(s.take(arrived), at) matches (Some(Ok(_)), next) ==> next > arrived
            && cut_goes_unseen(arrived, at + group_bytes(group).len(), group),
{
    let p = s.take(arrived);
    let head = count_bytes(SIZELINE_MARK, ELEMENT_COUNT_MARK, group.len());
    let mid = at + head.len();
    lemma_holds_split(s, at, head, elements_bytes(group));
    lemma_elements_read(s, mid, group);
    if arrived < mid {
        lemma_count_cut(s, arrived, at, SIZELINE_MARK, ELEMENT_COUNT_MARK, group.len());
        if group.len() > 0 {
            reveal_with_fuel(elements, 2);
            lemma_elements_stop(p, arrived + 1, 1, group.len());
        }
    } else {
        lemma_holds_in_part(s, arrived, at, head);
        lemma_count_reads(p, at, SIZELINE_MARK, ELEMENT_COUNT_MARK, group.len());
        lemma_elements_cut(s, arrived, mid, group);
    }
}

proof fn lemma_datagroups_cut(s: Seq<u8>, arrived: int, at: int, groups: Seq<Group>)
    requires
        holds_at(s, at, groups_bytes(groups)),
        s.len() <= usize::MAX,
        at <= arrived < at + groups_bytes(groups).len(),
    ensures
        datagroups(s.take(arrived), at, groups.len()) matches (Some(Ok(_)), next) ==> next
            > arrived && cut_goes_unseen(
            arrived,
            at + groups_bytes(groups).len(),
            groups.last(),
        ),
    decreases groups.len(),
{
    let before = groups.drop_last();
    let mid = at + groups_bytes(before).len();
    lemma_holds_split(s, at, groups_bytes(before), group_bytes(groups.last()));
    if arrived < mid {
        lemma_datagroups_cut(s, arrived, at, before);
    } else {
        lemma_holds_in_part(s, arrived, at, groups_bytes(before));
        lemma_datagroups_read(s.take(arrived), at, before);
        lemma_datagroup_cut(s, arrived, mid, groups.last());
    }
}

/// A metaframe of which a part arrived leaves no datagroup to be read.
proof fn lemma_metaframe_cut(s: Seq<u8>, arrived: int, count: nat)
    requires
        holds_at(s, 0, count_bytes(START_HEADER_MAGIC, DATAGROUP_COUNT_MARK, count)),
        s.len() <= usize::MAX,
        1 <= count <= usize::MAX,
        0 <= arrived < count_bytes(START_HEADER_MAGIC, DATAGROUP_COUNT_MARK, count).len(),
    ensures
        !(packet(s.take(arrived), 0) matches Some(Ok(_))),
{
    let p = s.take(arrived);
    lemma_count_cut(s, arrived, 0, START_HEADER_MAGIC, DATAGROUP_COUNT_MARK, count);
    if let (Some(Ok(_)), next) = metaframe(p, 0) {
        assert(next == arrived + 1);
        assert(!(datagroup(p, next).0 matches Some(Ok(_))));
        assert(datagroups(p, next, 0).0 matches Some(Ok(_)));
        assert(!(datagroups(p, next, 1).0 matches Some(Ok(_))));
        lemma_datagroups_stop(p, next, 1, count);
    }
}

proof fn lemma_simple_cut(s: Seq<u8>, arrived: int, group: Group)
    requires
        s == count_bytes(START_HEADER_MAGIC, DATAGROUP_COUNT_MARK, 1) + group_bytes(group),
        s.len() <= usize::MAX,
        0 <= arrived < s.len(),
        !cut_goes_unseen(arrived, s.len() as int, group),
    ensures
        !(packet(s.take(arrived), 0) matches Some(Ok(_))),
{
    let head = count_bytes(START_HEADER_MAGIC, DATAGROUP_COUNT_MARK, 1);
    assert(s.subrange(0, s.len() as int) =~= s);
    lemma_holds_split(s, 0, head, group_bytes(group));
    if arrived < head.len() {
        lemma_metaframe_cut(s, arrived, 1);
    } else {
        lemma_holds_in_part(s, arrived, 0, head);
        lemma_metaframe_reads(s.take(arrived), 0, 1);
        lemma_datagroup_cut(s, arrived, head.len() as int, group);
    }
}

/// A pipeline of which the metaframe arrived whole.
proof fn lemma_pipeline_cut_behind(s: Seq<u8>, arrived: int, mid: int, groups: Seq<Group>)
    requires
        metaframe(s.take(arrived), 0) == (
            Some(Ok::<usize, ParseError>(groups.len() as usize)),
            mid,
        ),
        holds_at(s, mid, groups_bytes(groups)),
        s.len() == mid + groups_bytes(groups).len(),
        s.len() <= usize::MAX,
        2 <= groups.len() <= usize::MAX,
        mid <= arrived < s.len(),
        !cut_goes_unseen(arrived, s.len() as int, groups.last()),
    ensures
        !(packet(s.take(arrived), 0) matches Some(Ok(_))),
{
    lemma_datagroups_cut(s, arrived, mid, groups);
}

proof fn lemma_pipelined_cut(s: Seq<u8>, arrived: int, groups: Seq<Group>)
    requires
        s == count_bytes(START_HEADER_MAGIC, DATAGROUP_COUNT_MARK, groups.len()) + groups_bytes(
            groups,
        ),
        s.len() <= usize::MAX,
        groups.len() >= 2,
        0 <= arrived < s.len(),
        !cut_goes_unseen(arrived, s.len() as int, groups.last()),
    ensures
        !(packet(s.take(arrived), 0) matches Some(Ok(_))),
{
    let head = count_bytes(START_HEADER_MAGIC, DATAGROUP_COUNT_MARK, groups.len());
    assert(s.subrange(0, s.len() as int) =~= s);
    lemma_holds_split(s, 0, head, groups_bytes(groups));
    lemma_datagroups_read(s, head.len() as int, groups);
    if arrived < head.len() {
        lemma_metaframe_cut(s, arrived, groups.len());
    } else {
        lemma_holds_in_part(s, arrived, 0, head);
        lemma_metaframe_reads(s.take(arrived), 0, groups.len());
        lemma_pipeline_cut_behind(s, arrived, head.len() as int, groups);
    }
}

/// A packet of which a part arrived is not read. Only where nothing but the last line feed is
/// missing, or where the cut falls into the size of the very last element and leaves no digit or a
/// zero of it, does what arrived read like a packet.
pub proof fn law_cut_packet_refused(query: QueryView, arrived: int)
    requires
        sendable(query),
        packet_bytes(query).len() <= usize::MAX,
        0 <= arrived < packet_bytes(query).len(),
        !cut_goes_unseen(
            arrived,
            packet_bytes(query).len() as int,
            match query {
                QueryView::Simple(group) => group,
                QueryView::Pipelined(groups) => groups.last(),
            },
        ),
    ensures
        !(packet(packet_bytes(query).take(arrived), 0) matches Some(Ok(_))),
{
    reveal(packet_bytes);
    match query {
        QueryView::Simple(group) => lemma_simple_cut(packet_bytes(query), arrived, group),
        QueryView::Pipelined(groups) => lemma_pipelined_cut(packet_bytes(query), arrived, groups),
    }
}

} // verus!
