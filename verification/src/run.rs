//! Runs of a writer: the text that it is handed and the results of its
//! writes, in the order in which they come.

use vstd::prelude::*;
use crate::model::{Model, Path, WriteOutcome};
use crate::text::{all_valid, concat};

verus! {

/// One thing that happens to a writer.
pub enum Event {
    /// It is handed these chunks, for a console or not.
    Text(Seq<Seq<u8>>, bool),
    /// It is told the kind of the destination: a console or not.
    Commit(bool),
    /// One write of what was pending ended so.
    Wrote(WriteOutcome),
}

/// The writer after the event.
pub open spec fn step(m: Model, event: Event) -> Model {
    match event {
        Event::Text(chunks, console) => m.write(chunks, console),
        Event::Commit(console) => m.commit(console),
        Event::Wrote(outcome) => m.flush(outcome),
    }
}

/// The writer after the events, in order.
pub open spec fn run(m: Model, events: Seq<Event>) -> Model
    decreases events.len(),
{
    if events.len() == 0 {
        m
    } else {
        run(step(m, events[0]), events.drop_first())
    }
}

/// The bytes of text that the writer takes at the event.
pub open spec fn step_taken(m: Model, event: Event) -> Seq<u8> {
    match event {
        Event::Text(chunks, console) => if m.refusal(console) is None {
            m.taken(chunks, console)
        } else {
            Seq::empty()
        },
        _ => Seq::empty(),
    }
}

/// The bytes that the destination takes at the event.
pub open spec fn step_sent(m: Model, event: Event) -> Seq<u8> {
    match event {
        Event::Wrote(WriteOutcome::Written(n)) => if m.failure is None && m.path != Path::Console {
            if n <= m.unsent().len() {
                m.unsent().take(n as int)
            } else {
                m.unsent()
            }
        } else {
            Seq::empty()
        },
        _ => Seq::empty(),
    }
}

/// The 16-bit units that the destination takes at the event.
pub open spec fn step_sent_wide(m: Model, event: Event) -> Seq<u16> {
    match event {
        Event::Wrote(WriteOutcome::Written(n)) => if m.failure is None && m.path == Path::Console {
            if n <= m.wide_unsent().len() {
                m.wide_unsent().take(n as int)
            } else {
                m.wide_unsent()
            }
        } else {
            Seq::empty()
        },
        _ => Seq::empty(),
    }
}

/// All the text that the writer takes over the events, in order.
pub open spec fn run_taken(m: Model, events: Seq<Event>) -> Seq<u8>
    decreases events.len(),
{
    if events.len() == 0 {
        Seq::empty()
    } else {
        step_taken(m, events[0]) + run_taken(step(m, events[0]), events.drop_first())
    }
}

/// All that the destination takes over the events, in order.
pub open spec fn run_sent(m: Model, events: Seq<Event>) -> Seq<u8>
    decreases events.len(),
{
    if events.len() == 0 {
        Seq::empty()
    } else {
        step_sent(m, events[0]) + run_sent(step(m, events[0]), events.drop_first())
    }
}

/// All the 16-bit units that the destination takes over the events.
pub open spec fn run_sent_wide(m: Model, events: Seq<Event>) -> Seq<u16>
    decreases events.len(),
{
    if events.len() == 0 {
        Seq::empty()
    } else {
        step_sent_wide(m, events[0]) + run_sent_wide(step(m, events[0]), events.drop_first())
    }
}

/// All the text that the events hand over, taken or not.
pub open spec fn run_text(events: Seq<Event>) -> Seq<u8>
    decreases events.len(),
{
    if events.len() == 0 {
        Seq::empty()
    } else {
        match events[0] {
            Event::Text(chunks, _) => concat(chunks) + run_text(events.drop_first()),
            _ => run_text(events.drop_first()),
        }
    }
}

/// Whether every text that the events hand over is well formed.
pub open spec fn texts_valid(events: Seq<Event>) -> bool {
    forall|i: int|
        0 <= i < events.len() ==> (#[trigger] events[i] matches Event::Text(chunks, _)
            ==> all_valid(chunks))
}

/// The kind of destination that an event speaks of, if it speaks of one.
pub open spec fn kind_of(event: Event) -> Option<bool> {
    match event {
        Event::Text(_, console) => Some(console),
        Event::Commit(console) => Some(console),
        Event::Wrote(_) => None,
    }
}

/// Whether the events hand over well-formed text and speak of one kind of
/// destination only: a console, or none.
pub open spec fn texts_for(events: Seq<Event>, console: bool) -> bool {
    &&& texts_valid(events)
    &&& forall|i: int|
        0 <= i < events.len() ==> (kind_of(#[trigger] events[i]) matches Some(c) ==> c == console)
}

/// Whether the events hand over text only.
pub open spec fn only_text(events: Seq<Event>) -> bool {
    forall|i: int| 0 <= i < events.len() ==> #[trigger] events[i] is Text
}

/// The text that the caller still holds after the event, where it held
/// `text` before: what the writer left of it, if the event handed it in.
pub open spec fn step_held(m: Model, event: Event, text: Seq<Seq<u8>>) -> Seq<Seq<u8>> {
    match event {
        Event::Text(chunks, console) => if m.refusal(console) is None {
            m.left(chunks, console)
        } else {
            text
        },
        _ => text,
    }
}

/// Whether the events are those of a caller that sees `text` through: each
/// time it hands text in, it hands in all that it still holds.
pub open spec fn sees_through(m: Model, events: Seq<Event>, text: Seq<Seq<u8>>) -> bool
    decreases events.len(),
{
    events.len() == 0 || ((events[0] matches Event::Text(chunks, _) ==> chunks == text)
        && sees_through(
        step(m, events[0]),
        events.drop_first(),
        step_held(m, events[0], text),
    ))
}

/// The text that such a caller still holds after the events.
pub open spec fn run_held(m: Model, events: Seq<Event>, text: Seq<Seq<u8>>) -> Seq<Seq<u8>>
    decreases events.len(),
{
    if events.len() == 0 {
        text
    } else {
        run_held(step(m, events[0]), events.drop_first(), step_held(m, events[0], text))
    }
}

/// What holds of the events holds of all but the first.
pub proof fn lemma_rest(events: Seq<Event>, console: bool)
    requires
        events.len() > 0,
    ensures
        texts_valid(events) ==> texts_valid(events.drop_first()),
        texts_for(events, console) ==> texts_for(events.drop_first(), console),
        only_text(events) ==> only_text(events.drop_first()),
{
    let rest = events.drop_first();
    assert forall|i: int| 0 <= i < rest.len() implies #[trigger] rest[i] == events[i + 1] by {}
    if texts_valid(events) {
        assert forall|i: int| 0 <= i < rest.len() implies (#[trigger] rest[i] matches Event::Text(
            chunks,
            _,
        ) ==> all_valid(chunks)) by {
            assert(rest[i] == events[i + 1]);
        }
    }
    if texts_for(events, console) {
        assert forall|i: int| 0 <= i < rest.len() implies (kind_of(#[trigger] rest[i]) matches Some(
            c,
        ) ==> c == console) by {
            assert(rest[i] == events[i + 1]);
        }
    }
    if only_text(events) {
        assert forall|i: int| 0 <= i < rest.len() implies #[trigger] rest[i] is Text by {
            assert(rest[i] == events[i + 1]);
        }
    }
}

/// Every event leaves a well-formed writer well formed, keeps the saved
/// error status, and keeps the writer off the path that it did not take.
pub proof fn lemma_step(m: Model, event: Event)
    requires
        m.wf(),
        event matches Event::Text(chunks, _) ==> all_valid(chunks),
    ensures
        step(m, event).wf(),
        step(m, event).saved_error == m.saved_error,
        step(m, event).capacity == m.capacity,
        m.failure is Some ==> step(m, event) == m,
        m.path != Path::Unset ==> step(m, event).path == m.path,
        kind_of(event) matches Some(console) ==> step(m, event).path == m.path || step(
            m,
            event,
        ).path == Model::path_for(console),
        event is Wrote ==> step(m, event).path == m.path,
{
    match event {
        Event::Text(chunks, console) => {
            if m.refusal(console) is None {
                m.lemma_feed(chunks, console);
                m.lemma_feed_keeps(chunks, console);
            } else {
                assert(m.failure is Some ==> step(m, event) =~= m);
            }
        },
        Event::Commit(console) => {
            m.lemma_flush(WriteOutcome::Interrupted);
            assert(m.failure is Some ==> step(m, event) =~= m);
        },
        Event::Wrote(outcome) => {
            m.lemma_flush(outcome);
        },
    }
}

} // verus!
