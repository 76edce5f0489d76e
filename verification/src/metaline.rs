//! The metaline, the first line of a query: `<type>!<content size>!<metaline size>`.
//!
//! The type is `*` for a simple query or `$` for a pipeline. White space around a size, and NUL
//! characters inside that white space, do not count. Fields behind the third are ignored.

use vstd::prelude::*;

use crate::decimal::{decimal_chars, is_digit_char, law_decimal_chars};
use crate::text::{characters, parse_usize, split, trim, Padding};
use crate::text::{
    field_views, fields, is_white_space, joined, law_fields, law_trimmed, lemma_mark_index,
    trim_back, trim_front, trimmed, usize_of,
};

verus! {

/// How the actions of a query are to be run.
#[derive(Debug, PartialEq, Eq, Structural, Clone, Copy)]
pub enum ActionType {
    Simple,
    Pipeline,
}

/// What a client is told about a query that is not run.
#[derive(Debug, PartialEq, Eq, Structural, Clone, Copy)]
pub enum RespCodes {
    InvalidMetaframe,
}

/// What a metaline announces.
#[derive(Debug, PartialEq, Eq, Structural, Clone, Copy)]
pub struct PreQMF {
    pub action_type: ActionType,
    pub content_size: usize,
    pub metaline_size: usize,
}

/// The character that separates the fields of a metaline.
pub const FIELD_MARK: char = '!';

/// The size that a field spells.
pub open spec fn size_field(field: Seq<char>) -> Option<usize> {
    usize_of(trimmed(trimmed(field, Padding::WhiteSpace), Padding::Nul))
}

/// The action type that a field opens with.
pub open spec fn type_field(field: Seq<char>) -> Option<ActionType> {
    if field.len() > 0 && field[0] == '*' {
        Some(ActionType::Simple)
    } else if field.len() > 0 && field[0] == '$' {
        Some(ActionType::Pipeline)
    } else {
        None
    }
}

/// What the three fields of a metaline announce together.
pub open spec fn announced(kind: Seq<char>, content: Seq<char>, layout: Seq<char>) -> Result<
    PreQMF,
    RespCodes,
> {
    match (type_field(kind), size_field(content), size_field(layout)) {
        (Some(action_type), Some(content_size), Some(metaline_size)) => Ok(
            PreQMF { action_type, content_size, metaline_size },
        ),
        _ => Err(RespCodes::InvalidMetaframe),
    }
}

/// What a metaline announces.
pub open spec fn metaline(s: Seq<char>) -> Result<PreQMF, RespCodes> {
    let parts = fields(s, FIELD_MARK);
    if parts.len() >= 3 {
        announced(parts[0], parts[1], parts[2])
    } else {
        Err(RespCodes::InvalidMetaframe)
    }
}

impl PreQMF {
    /// Reads a metaline. Anything but a known type and two sizes is an `InvalidMetaframe`.
    pub fn from_buffer(buf: String) -> (res: Result<Self, RespCodes>)
        ensures
            res == metaline(buf@),
    {
        let text = characters(buf.as_str());
        let parts = split(text.as_slice(), FIELD_MARK);
        assert(field_views(parts@).len() == parts@.len());
        if parts.len() >= 3 {
            let atype = parts[0];
            let csize = parts[1];
            let metaline_size = parts[2];
            assert(field_views(parts@)[0] == atype@);
            assert(field_views(parts@)[1] == csize@);
            assert(field_views(parts@)[2] == metaline_size@);
            if atype.len() > 0 {
                let action_type: ActionType = match atype[0] {
                    '*' => ActionType::Simple,
                    '$' => ActionType::Pipeline,
                    _ => return Err(RespCodes::InvalidMetaframe),
                };
                let csize = trim(trim(csize, Padding::WhiteSpace), Padding::Nul);
                let metaline_size = trim(trim(metaline_size, Padding::WhiteSpace), Padding::Nul);
                if let (Some(content_size), Some(metaline_size)) = (
                    parse_usize(csize),
                    parse_usize(metaline_size),
                ) {
                    return Ok(PreQMF { action_type, content_size, metaline_size });
                }
            }
        }
        Err(RespCodes::InvalidMetaframe)
    }
}

/// Whether a text has no field mark in it.
pub open spec fn unmarked(s: Seq<char>) -> bool {
    forall|i: int| 0 <= i < s.len() ==> #[trigger] s[i] != FIELD_MARK
}

/// Whether a text is padding of one kind and nothing else.
pub open spec fn all_padding(s: Seq<char>, padding: Padding) -> bool {
    forall|i: int| 0 <= i < s.len() ==> padding.covers(#[trigger] s[i])
}

proof fn lemma_last_field(field: Seq<char>)
    requires
        unmarked(field),
    ensures
        fields(field, FIELD_MARK) == seq![field],
{
    lemma_mark_index(field, FIELD_MARK, field.len() as int);
}

proof fn lemma_next_field(field: Seq<char>, rest: Seq<char>)
    requires
        unmarked(field),
    ensures
        fields(field + seq![FIELD_MARK] + rest, FIELD_MARK) == seq![field] + fields(
            rest,
            FIELD_MARK,
        ),
{
    let s = field + seq![FIELD_MARK] + rest;
    lemma_mark_index(s, FIELD_MARK, field.len() as int);
    assert(s.take(field.len() as int) =~= field);
    assert(s.skip(field.len() as int + 1) =~= rest);
}

/// A metaline says what its first three fields announce, whatever further fields follow.
pub proof fn law_three_fields(
    kind: Seq<char>,
    content: Seq<char>,
    layout: Seq<char>,
    more: Seq<char>,
)
    requires
        unmarked(kind),
        unmarked(content),
        unmarked(layout),
    ensures
        metaline(
            kind + seq![FIELD_MARK] + (content + seq![FIELD_MARK] + layout),
        ) == announced(kind, content, layout),
        metaline(
            kind + seq![FIELD_MARK] + (content + seq![FIELD_MARK] + (layout + seq![FIELD_MARK]
                + more)),
        ) == announced(kind, content, layout),
{
    lemma_last_field(layout);
    lemma_next_field(content, layout);
    lemma_next_field(kind, content + seq![FIELD_MARK] + layout);
    lemma_next_field(layout, more);
    lemma_next_field(content, layout + seq![FIELD_MARK] + more);
    lemma_next_field(kind, content + seq![FIELD_MARK] + (layout + seq![FIELD_MARK] + more));
}

/// A line of one or two fields is no metaline.
pub proof fn law_too_few_fields(kind: Seq<char>, content: Seq<char>)
    requires
        unmarked(kind),
        unmarked(content),
    ensures
        metaline(kind) == Err::<PreQMF, _>(RespCodes::InvalidMetaframe),
        metaline(kind + seq![FIELD_MARK] + content) == Err::<PreQMF, _>(
            RespCodes::InvalidMetaframe,
        ),
{
    lemma_last_field(kind);
    lemma_last_field(content);
    lemma_next_field(kind, content);
}

proof fn lemma_trim_front(pad: Seq<char>, core: Seq<char>, padding: Padding)
    requires
        all_padding(pad, padding),
        core.len() > 0 ==> !padding.covers(core[0]),
    ensures
        trim_front(pad + core, padding) == core,
    decreases pad.len(),
{
    if pad.len() == 0 {
        assert(pad + core =~= core);
    } else {
        assert((pad + core)[0] == pad[0]);
        assert((pad + core).drop_first() =~= pad.drop_first() + core);
        assert forall|i: int| 0 <= i < pad.drop_first().len() implies padding.covers(
            #[trigger] pad.drop_first()[i],
        ) by {
            assert(pad.drop_first()[i] == pad[i + 1]);
        }
        lemma_trim_front(pad.drop_first(), core, padding);
    }
}

proof fn lemma_trim_back(core: Seq<char>, pad: Seq<char>, padding: Padding)
    requires
        all_padding(pad, padding),
        core.len() > 0 ==> !padding.covers(core.last()),
    ensures
        trim_back(core + pad, padding) == core,
    decreases pad.len(),
{
    if pad.len() == 0 {
        assert(core + pad =~= core);
    } else {
        assert((core + pad).last() == pad.last());
        assert((core + pad).drop_last() =~= core + pad.drop_last());
        assert forall|i: int| 0 <= i < pad.drop_last().len() implies padding.covers(
            #[trigger] pad.drop_last()[i],
        ) by {
            assert(pad.drop_last()[i] == pad[i]);
        }
        lemma_trim_back(core, pad.drop_last(), padding);
    }
}

proof fn lemma_trimmed(left: Seq<char>, core: Seq<char>, right: Seq<char>, padding: Padding)
    requires
        all_padding(left, padding),
        all_padding(right, padding),
        core.len() > 0,
        !padding.covers(core[0]),
        !padding.covers(core.last()),
    ensures
        trimmed(left + core + right, padding) == core,
{
    assert(left + core + right =~= left + (core + right));
    assert((core + right)[0] == core[0]);
    lemma_trim_front(left, core + right, padding);
    lemma_trim_back(core, right, padding);
}

/// A size is read alike with NUL characters around it and white space around those.
pub proof fn law_padded_size(
    size: nat,
    blank_left: Seq<char>,
    nul_left: Seq<char>,
    nul_right: Seq<char>,
    blank_right: Seq<char>,
)
    requires
        size <= usize::MAX,
        all_padding(blank_left, Padding::WhiteSpace),
        all_padding(nul_left, Padding::Nul),
        all_padding(nul_right, Padding::Nul),
        all_padding(blank_right, Padding::WhiteSpace),
    ensures
        size_field(
            blank_left + (nul_left + decimal_chars(size) + nul_right) + blank_right,
        ) == Some(size as usize),
{
    let digits = decimal_chars(size);
    law_decimal_chars(size);
    assert(is_digit_char(digits[0]));
    assert(is_digit_char(digits.last()));
    lemma_trimmed(nul_left, digits, nul_right, Padding::Nul);
    let core = nul_left + digits + nul_right;
    assert(core[0] == if nul_left.len() > 0 {
        nul_left[0]
    } else {
        digits[0]
    });
    assert(core.last() == if nul_right.len() > 0 {
        nul_right.last()
    } else {
        digits.last()
    });
    lemma_trimmed(blank_left, core, blank_right, Padding::WhiteSpace);
}

/// The character that stands for an action type.
pub open spec fn type_char(action_type: ActionType) -> char {
    match action_type {
        ActionType::Simple => '*',
        ActionType::Pipeline => '$',
    }
}

/// The metaline that announces `head`.
pub open spec fn metaline_chars(head: PreQMF) -> Seq<char> {
    seq![type_char(head.action_type)] + seq![FIELD_MARK] + (decimal_chars(head.content_size as nat)
        + seq![FIELD_MARK] + decimal_chars(head.metaline_size as nat))
}

/// A metaline is read back as what it announces, with or without the line feed that ends it.
pub proof fn law_metaline_read_back(head: PreQMF)
    ensures
        metaline(metaline_chars(head)) == Ok::<PreQMF, RespCodes>(head),
        metaline(metaline_chars(head) + seq!['\n']) == Ok::<PreQMF, RespCodes>(head),
{
    let kind = seq![type_char(head.action_type)];
    let content = decimal_chars(head.content_size as nat);
    let layout = decimal_chars(head.metaline_size as nat);
    let none = Seq::<char>::empty();
    let feed = seq!['\n'];
    law_decimal_chars(head.content_size as nat);
    law_decimal_chars(head.metaline_size as nat);
    assert(unmarked(content)) by {
        assert forall|i: int| 0 <= i < content.len() implies #[trigger] content[i]
            != FIELD_MARK by {
            assert(is_digit_char(content[i]));
        }
    }
    assert(unmarked(layout)) by {
        assert forall|i: int| 0 <= i < layout.len() implies #[trigger] layout[i]
            != FIELD_MARK by {
            assert(is_digit_char(layout[i]));
        }
    }
    law_padded_size(head.content_size as nat, none, none, none, none);
    law_padded_size(head.metaline_size as nat, none, none, none, none);
    law_padded_size(head.metaline_size as nat, none, none, none, feed);
    assert(none + (none + content + none) + none =~= content);
    assert(none + (none + layout + none) + none =~= layout);
    assert(none + (none + layout + none) + feed =~= layout + feed);
    law_three_fields(kind, content, layout, none);
    law_three_fields(kind, content, layout + feed, none);
    assert(metaline_chars(head) + feed =~= kind + seq![FIELD_MARK] + (content + seq![FIELD_MARK]
        + (layout + feed)));
}

/// A size is spelled by the middle of its field: white space stands all around, then NUL
/// characters, and neither of them opens or closes what it surrounds. The field says what that
/// middle spells, a number or none.
pub proof fn law_size_field(field: Seq<char>)
    ensures
        exists|a: int, b: int, c: int, d: int|
            {
                &&& 0 <= a <= c <= d <= b <= field.len()
                &&& #[trigger] field.subrange(a, b).len() == b - a
                &&& size_field(field) == usize_of(#[trigger] field.subrange(c, d))
                &&& forall|i: int| 0 <= i < a || b <= i < field.len() ==> is_white_space(
                    #[trigger] field[i],
                )
                &&& a < b ==> !is_white_space(field[a]) && !is_white_space(field[b - 1])
                &&& forall|i: int| a <= i < c || d <= i < b ==> #[trigger] field[i] == '\0'
                &&& c < d ==> field[c] != '\0' && field[d - 1] != '\0'
            },
{
    law_trimmed(field, Padding::WhiteSpace);
    let core = trimmed(field, Padding::WhiteSpace);
    let (a, b) = choose|a: int, b: int|
        {
            &&& 0 <= a <= b <= field.len()
            &&& #[trigger] field.subrange(a, b) == core
            &&& forall|i: int| 0 <= i < a || b <= i < field.len() ==> Padding::WhiteSpace.covers(
                #[trigger] field[i],
            )
            &&& a < b ==> !Padding::WhiteSpace.covers(field[a]) && !Padding::WhiteSpace.covers(
                field[b - 1],
            )
        };
    law_trimmed(core, Padding::Nul);
    let text = trimmed(core, Padding::Nul);
    let (c, d) = choose|c: int, d: int|
        {
            &&& 0 <= c <= d <= core.len()
            &&& #[trigger] core.subrange(c, d) == text
            &&& forall|i: int| 0 <= i < c || d <= i < core.len() ==> Padding::Nul.covers(
                #[trigger] core[i],
            )
            &&& c < d ==> !Padding::Nul.covers(core[c]) && !Padding::Nul.covers(core[d - 1])
        };
    assert(field.subrange(a + c, a + d) =~= core.subrange(c, d));
    assert(field.subrange(a, b).len() == b - a);
    assert forall|i: int| a <= i < a + c || a + d <= i < b implies #[trigger] field[i] == '\0' by {
        assert(core[i - a] == field[i]);
        assert(Padding::Nul.covers(core[i - a]));
    }
    if c < d {
        assert(core[c] == field[a + c]);
        assert(core[d - 1] == field[a + d - 1]);
    }
}

/// A metaline is accepted if and only if it opens with `*` or `$` and has, between its first
/// marks, a second and a third field that each spell a size. It then announces those sizes, and the
/// type that the opening character stands for.
pub proof fn law_metaline(s: Seq<char>)
    ensures
        ({
            let parts = fields(s, '!');
            &&& metaline(s) is Ok <==> {
                &&& s.len() > 0
                &&& s[0] == '*' || s[0] == '$'
                &&& parts.len() >= 3
                &&& size_field(parts[1]) is Some
                &&& size_field(parts[2]) is Some
            }
            &&& metaline(s) matches Ok(head) ==> {
                &&& head.action_type == ActionType::Simple <==> s[0] == '*'
                &&& head.action_type == ActionType::Pipeline <==> s[0] == '$'
                &&& size_field(parts[1]) == Some(head.content_size)
                &&& size_field(parts[2]) == Some(head.metaline_size)
            }
            &&& metaline(s) matches Err(code) ==> code == RespCodes::InvalidMetaframe
        }),
{
    let parts = fields(s, '!');
    law_fields(s, '!');
    reveal_with_fuel(joined, 2);
    if s.len() > 0 && parts[0].len() > 0 {
        assert(parts[0][0] == s[0]);
    }
    if s.len() > 0 && parts[0].len() == 0 && parts.len() >= 3 {
        assert(s[0] == '!');
    }
}

} // verus!
