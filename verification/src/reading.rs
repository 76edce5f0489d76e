//! Reading a query from a connection, step by step.
//!
//! A query arrives as a metaline, a layout line and a dataframe. Each step is told what happened
//! and says what to do next: the connection does the reading, and the sizes and identifiers of
//! the layout come from a codec that the connection brings along. `E` is the error of that codec.

use vstd::pervasive::unreached;
use vstd::prelude::*;

use crate::metaline::metaline;
use crate::metaline::{ActionType, PreQMF, RespCodes};

verus! {

/// A query: the identifiers that it consists of, and how to run it.
#[derive(Debug)]
pub struct QueryDataframe {
    /// The data part.
    pub data: Vec<String>,
    /// How the query is to be run.
    pub actiontype: ActionType,
}

/// What is waited for.
#[derive(Debug)]
pub enum Stage {
    /// The metaline.
    Metaline,
    /// The sizes on the layout line.
    Layout(PreQMF),
    /// The dataframe, which is to be cut into pieces of these sizes.
    Dataframe(PreQMF, Vec<usize>),
    /// The identifiers in the dataframe.
    Identifiers(ActionType),
    /// Nothing any more.
    Closed,
}

/// What happened.
#[derive(Debug)]
pub enum Event<E> {
    /// The metaline arrived.
    Metaline(String),
    /// The layout line arrived, and these are the sizes on it, or why there are none.
    Sizes(Result<Vec<usize>, E>),
    /// The dataframe arrived, in a buffer of the size that was asked for.
    Dataframe(Vec<u8>),
    /// These identifiers were cut out of the dataframe.
    Identifiers(Vec<String>),
}

/// Why a query is refused.
#[derive(Debug)]
pub enum Refusal<E> {
    /// The metaline is not one.
    Metaline(RespCodes),
    /// The layout line has no sizes.
    Layout(E),
}

/// What to do next.
#[derive(Debug)]
pub enum Action<E> {
    /// Read the layout line, of about this many bytes, and find the sizes on it.
    ReadLayout(usize),
    /// Read a dataframe of this many bytes.
    ReadDataframe(usize),
    /// Cut the dataframe into identifiers of these sizes.
    Extract(Vec<u8>, Vec<usize>),
    /// The query is complete.
    Run(QueryDataframe),
    /// The query is refused.
    Refuse(Refusal<E>),
}

impl Stage {
    /// Whether the event is one that this stage waits for. A dataframe has the announced size.
    pub open spec fn expects<E>(self, event: Event<E>) -> bool {
        match self {
            Stage::Metaline => event is Metaline,
            Stage::Layout(_) => event is Sizes,
            Stage::Dataframe(head, _) => event matches Event::Dataframe(bytes) && bytes@.len()
                == head.content_size,
            Stage::Identifiers(_) => event is Identifiers,
            Stage::Closed => false,
        }
    }

    /// Takes note of an event: the next stage, and what to do to get there. A metaline or a
    /// layout line that is refused closes the reading, and so does a query that is complete.
    pub fn step<E>(self, event: Event<E>) -> (res: (Stage, Action<E>))
        requires
            self.expects(event),
        ensures
            res == next(self, event),
    {
        match (self, event) {
            (Stage::Metaline, Event::Metaline(line)) => match PreQMF::from_buffer(line) {
                Ok(head) => {
                    let capacity: usize = head.metaline_size;
                    (Stage::Layout(head), Action::ReadLayout(capacity))
                },
                Err(code) => (Stage::Closed, Action::Refuse(Refusal::Metaline(code))),
            },
            (Stage::Layout(head), Event::Sizes(Ok(sizes))) => {
                let len: usize = head.content_size;
                (Stage::Dataframe(head, sizes), Action::ReadDataframe(len))
            },
            (Stage::Layout(_), Event::Sizes(Err(e))) => (
                Stage::Closed,
                Action::Refuse(Refusal::Layout(e)),
            ),
            (Stage::Dataframe(head, sizes), Event::Dataframe(bytes)) => (
                Stage::Identifiers(head.action_type),
                Action::Extract(bytes, sizes),
            ),
            (Stage::Identifiers(actiontype), Event::Identifiers(data)) => (
                Stage::Closed,
                Action::Run(QueryDataframe { data, actiontype }),
            ),
            _ => unreached(),
        }
    }
}

/// The stage that an expected event leads to, and what to do there.
pub open spec fn next<E>(stage: Stage, event: Event<E>) -> (Stage, Action<E>) {
    match (stage, event) {
        (Stage::Metaline, Event::Metaline(line)) => match metaline(line@) {
            Ok(head) => (Stage::Layout(head), Action::ReadLayout(head.metaline_size)),
            Err(code) => (Stage::Closed, Action::Refuse(Refusal::Metaline(code))),
        },
        (Stage::Layout(head), Event::Sizes(Ok(sizes))) => (
            Stage::Dataframe(head, sizes),
            Action::ReadDataframe(head.content_size),
        ),
        (Stage::Layout(_), Event::Sizes(Err(e))) => (
            Stage::Closed,
            Action::Refuse(Refusal::Layout(e)),
        ),
        (Stage::Dataframe(head, sizes), Event::Dataframe(bytes)) => (
            Stage::Identifiers(head.action_type),
            Action::Extract(bytes, sizes),
        ),
        (Stage::Identifiers(actiontype), Event::Identifiers(data)) => (
            Stage::Closed,
            Action::Run(QueryDataframe { data, actiontype }),
        ),
        _ => arbitrary(),
    }
}

/// Reading ends when the query is complete or refused, and not before.
pub proof fn law_reading_ends<E>(stage: Stage, event: Event<E>)
    requires
        stage.expects(event),
    ensures
        ({
            let (then, action) = next(stage, event);
            then is Closed <==> action is Run || action is Refuse
        }),
{
}

/// A query whose metaline and layout are accepted takes four steps. The dataframe that is read
/// has the announced size, it is cut by the sizes of the layout, and the query holds what was cut
/// out of it, with the announced action type.
pub proof fn law_query_from_parts<E>(
    line: String,
    head: PreQMF,
    sizes: Vec<usize>,
    bytes: Vec<u8>,
    data: Vec<String>,
)
    requires
        metaline(line@) == Ok::<PreQMF, RespCodes>(head),
        bytes@.len() == head.content_size,
    ensures
        ({
            let first = next::<E>(Stage::Metaline, Event::Metaline(line));
            let second = next::<E>(first.0, Event::Sizes(Ok(sizes)));
            let third = next::<E>(second.0, Event::Dataframe(bytes));
            let fourth = next::<E>(third.0, Event::Identifiers(data));
            &&& first.0.expects(Event::<E>::Sizes(Ok(sizes)))
            &&& second.0.expects(Event::<E>::Dataframe(bytes))
            &&& third.0.expects(Event::<E>::Identifiers(data))
            &&& first.1 == Action::<E>::ReadLayout(head.metaline_size)
            &&& second.1 == Action::<E>::ReadDataframe(head.content_size)
            &&& third.1 == Action::<E>::Extract(bytes, sizes)
            &&& fourth == (
                Stage::Closed,
                Action::<E>::Run(QueryDataframe { data, actiontype: head.action_type }),
            )
        }),
{
}

/// How far a reading has come.
pub open spec fn progress(stage: Stage) -> int {
    match stage {
        Stage::Metaline => 0,
        Stage::Layout(_) => 1,
        Stage::Dataframe(..) => 2,
        Stage::Identifiers(_) => 3,
        Stage::Closed => 4,
    }
}

/// Every step leads to a later stage, so that a reading takes four steps at most, and what is to be
/// done is what brings about the event that the stage waits for.
pub proof fn law_steps_lead_on<E>(stage: Stage, event: Event<E>)
    requires
        stage.expects(event),
    ensures
        ({
            let (then, action) = next(stage, event);
            &&& progress(stage) < progress(then) <= 4
            &&& then is Layout <==> action is ReadLayout
            &&& then is Dataframe <==> action is ReadDataframe
            &&& then is Identifiers <==> action is Extract
            &&& action is Run ==> stage is Identifiers
            &&& action is Refuse ==> stage is Metaline || stage is Layout
        }),
{
}

/// A metaline that is none, and a layout line without sizes, close the reading. The client is told
/// the very code that the metaline or the codec gave, whatever was announced before.
pub proof fn law_refusals<E>(line: String, code: RespCodes, head: PreQMF, error: E)
    ensures
        metaline(line@) == Err::<PreQMF, _>(code) <==> next::<E>(
            Stage::Metaline,
            Event::Metaline(line),
        ) == (Stage::Closed, Action::<E>::Refuse(Refusal::Metaline(code))),
        next(Stage::Layout(head), Event::Sizes(Err(error))) == (
            Stage::Closed,
            Action::Refuse(Refusal::Layout(error)),
        ),
{
}

/// From whatever stage a reading goes on, nothing that was announced or measured is lost: the
/// dataframe has the announced size, it is cut by the sizes that were measured, and the query has
/// the announced action type and what was cut out.
pub proof fn law_nothing_is_lost<E>(
    head: PreQMF,
    sizes: Vec<usize>,
    bytes: Vec<u8>,
    data: Vec<String>,
)
    ensures
        ({
            let (then, action) = next::<E>(Stage::Layout(head), Event::Sizes(Ok(sizes)));
            &&& action == Action::<E>::ReadDataframe(head.content_size)
            &&& then.expects(Event::<E>::Dataframe(bytes)) <==> bytes@.len() == head.content_size
            &&& next::<E>(then, Event::Dataframe(bytes)).1 == Action::<E>::Extract(bytes, sizes)
        }),
        ({
            let (then, action) = next::<E>(
                Stage::Dataframe(head, sizes),
                Event::Dataframe(bytes),
            );
            &&& action == Action::<E>::Extract(bytes, sizes)
            &&& next::<E>(then, Event::Identifiers(data)).1 == Action::<E>::Run(
                QueryDataframe { data, actiontype: head.action_type },
            )
        }),
        next::<E>(Stage::Identifiers(head.action_type), Event::Identifiers(data)).1 == Action::<
            E,
        >::Run(QueryDataframe { data, actiontype: head.action_type }),
{
}

/// A stage waits for one kind of event and no other, and a reading that is closed for none.
pub proof fn law_expected_events<E>(stage: Stage, event: Event<E>)
    ensures
        stage.expects(event) ==> match event {
            Event::Metaline(_) => stage is Metaline,
            Event::Sizes(_) => stage is Layout,
            Event::Dataframe(bytes) => stage matches Stage::Dataframe(head, _) && bytes@.len()
                == head.content_size,
            Event::Identifiers(_) => stage is Identifiers,
        },
        stage is Metaline && event is Metaline ==> stage.expects(event),
        stage is Layout && event is Sizes ==> stage.expects(event),
        stage is Identifiers && event is Identifiers ==> stage.expects(event),
{
}

} // verus!
