//! What holds of every writer, whatever text it is handed and whatever the
//! destination answers.

use vstd::prelude::*;
use vstd::utf8::*;
use crate::dbg::{dbg_chunks, dbg_line, lemma_dbg_chunks_valid, lemma_dbg_line};
use crate::model::{
    console_fill,
    Failure,
    lemma_console_take,
    lemma_floor_is_greatest,
    Model,
    Path,
    WriteOutcome,
    MIN_CAPACITY,
};
use crate::run::{
    lemma_rest,
    lemma_step,
    only_text,
    run,
    run_held,
    run_sent,
    run_sent_wide,
    run_taken,
    run_text,
    sees_through,
    step,
    step_held,
    step_sent,
    step_sent_wide,
    step_taken,
    texts_for,
    texts_valid,
    Event,
};
use crate::scalar::{lemma_decode_concat, lemma_first_scalar};
use crate::text::{all_valid, concat};
use crate::utf16::{
    decode_utf16,
    encode_utf16,
    is_whole_text,
    lemma_encode_concat,
    lemma_round_trip,
    unit_count,
};

verus! {

/// One line of a dump.
pub struct Entry {
    pub file: Seq<u8>,
    pub line: u32,
    pub name: Seq<u8>,
    pub value: Seq<u8>,
}

/// The events of a dump: one text for each entry.
pub open spec fn dump_events(entries: Seq<Entry>) -> Seq<Event> {
    Seq::new(
        entries.len(),
        |i: int|
            Event::Text(
                dbg_chunks(entries[i].file, entries[i].line, entries[i].name, entries[i].value),
                false,
            ),
    )
}

/// The lines of a dump, in order.
pub open spec fn dump_text(entries: Seq<Entry>) -> Seq<u8>
    decreases entries.len(),
{
    if entries.len() == 0 {
        Seq::empty()
    } else {
        dbg_line(entries[0].file, entries[0].line, entries[0].name, entries[0].value) + dump_text(
            entries.drop_first(),
        )
    }
}

/// The saved error status outlives everything: whatever text a writer is
/// handed and however its writes end, the status that it puts back at the
/// end is the one it was made with.
pub proof fn law_saved_error_kept(m: Model, events: Seq<Event>)
    requires
        m.wf(),
        texts_valid(events),
    ensures
        run(m, events).wf(),
        run(m, events).saved_error == m.saved_error,
        run(m, events).capacity == m.capacity,
    decreases events.len(),
{
    if events.len() > 0 {
        lemma_step(m, events[0]);
        lemma_rest(events, false);
        law_saved_error_kept(step(m, events[0]), events.drop_first());
    }
}

/// A writer that has given up stays as it is: it takes no more text, asks
/// for no more writes, and what the destination took is not taken back.
pub proof fn law_failure_is_final(m: Model, events: Seq<Event>)
    requires
        m.failure is Some,
    ensures
        run(m, events) == m,
        !run(m, events).owes_write(),
        run_taken(m, events) == Seq::<u8>::empty(),
        run_sent(m, events) == Seq::<u8>::empty(),
        run_sent_wide(m, events) == Seq::<u16>::empty(),
    decreases events.len(),
{
    if events.len() > 0 {
        let e = events[0];
        assert(step(m, e) =~= m);
        law_failure_is_final(m, events.drop_first());
        assert(run_taken(m, events) =~= Seq::<u8>::empty());
        assert(run_sent(m, events) =~= Seq::<u8>::empty());
        assert(run_sent_wide(m, events) =~= Seq::<u16>::empty());
    }
}

/// A destination that changes its kind ends the writer before anything is
/// written in the wrong form: told before a write that the destination is
/// now of the other kind, the writer gives up, keeps what it holds and owes
/// no write any more.
pub proof fn law_switch_ends_the_writer(m: Model, console: bool)
    requires
        m.wf(),
        m.failure is None,
        m.path == Model::path_for(!console),
    ensures
        m.commit(console).failure == Some(Failure::Switched),
        !m.commit(console).owes_write(),
        m.commit(console).bytes == m.bytes,
        m.commit(console).wide == m.wide,
        m.commit(!console) == m,
{
    assert(m.commit(!console) =~= m);
}

/// A write that took a part leaves the rest pending, to go out with the
/// next write; one that took all leaves nothing; an interrupted one leaves
/// all as it was, to be written again.
pub proof fn law_flush_resends_the_rest(m: Model, n: usize)
    requires
        m.wf(),
        m.failure is None,
        n <= m.unsent().len() + m.wide_unsent().len(),
    ensures
        m.path != Path::Console ==> m.flush(WriteOutcome::Written(n)).unsent()
            == m.unsent().skip(n as int),
        m.path == Path::Console ==> m.flush(WriteOutcome::Written(n)).wide_unsent()
            == m.wide_unsent().skip(n as int),
        n == m.unsent().len() + m.wide_unsent().len() ==> m.flush(
            WriteOutcome::Written(n),
        ).drained() && !m.flush(WriteOutcome::Written(n)).owes_write(),
        n < m.unsent().len() + m.wide_unsent().len() ==> m.flush(
            WriteOutcome::Written(n),
        ).owes_write(),
        m.flush(WriteOutcome::Interrupted) == m,
{
    let after = m.flush(WriteOutcome::Written(n));
    if m.path == Path::Console {
        assert(after.wide_unsent() =~= m.wide_unsent().skip(n as int));
    } else {
        assert(after.unsent() =~= m.unsent().skip(n as int));
    }
}

/// Nothing is lost and nothing comes twice on the byte path: the bytes
/// that waited at the start and the text taken since are, in this order,
/// the bytes that the destination took and the bytes that wait now. Writes
/// that took a part, were interrupted or failed are among the events.
pub proof fn law_bytes_conserved(m: Model, events: Seq<Event>)
    requires
        m.wf(),
        m.path != Path::Console,
        texts_for(events, false),
    ensures
        m.unsent() + run_taken(m, events) == run_sent(m, events) + run(m, events).unsent(),
    decreases events.len(),
{
    if events.len() == 0 {
        assert(m.unsent() + run_taken(m, events) =~= run_sent(m, events) + run(m, events).unsent());
    } else {
        let e = events[0];
        let m1 = step(m, e);
        let rest = events.drop_first();
        lemma_step(m, e);
        lemma_rest(events, false);
        assert(m.unsent() + step_taken(m, e) =~= step_sent(m, e) + m1.unsent()) by {
            match e {
                Event::Text(chunks, console) => {
                    if m.refusal(console) is None {
                        m.lemma_feed_keeps(chunks, console);
                    }
                },
                _ => {},
            }
        }
        law_bytes_conserved(m1, rest);
        assert(m.unsent() + (step_taken(m, e) + run_taken(m1, rest)) =~= (m.unsent() + step_taken(
            m,
            e,
        )) + run_taken(m1, rest));
        assert((step_sent(m, e) + m1.unsent()) + run_taken(m1, rest) =~= step_sent(m, e) + (
        m1.unsent() + run_taken(m1, rest)));
        assert(step_sent(m, e) + (run_sent(m1, rest) + run(m1, rest).unsent()) =~= (step_sent(m, e)
            + run_sent(m1, rest)) + run(m1, rest).unsent());
    }
}

/// Where the buffer was empty at the start and is empty at the end, what
/// the destination took is the text that the writer took, byte for byte.
pub proof fn law_all_taken_goes_out(m: Model, events: Seq<Event>)
    requires
        m.wf(),
        m.path != Path::Console,
        texts_for(events, false),
        m.drained(),
        run(m, events).drained(),
    ensures
        run_sent(m, events) == run_taken(m, events),
{
    law_bytes_conserved(m, events);
    law_saved_error_kept(m, events);
    assert(m.unsent() + run_taken(m, events) =~= run_taken(m, events));
    assert(run_sent(m, events) + run(m, events).unsent() =~= run_sent(m, events));
}

/// Of the text that a writer is handed, it takes the front and hands back
/// the rest: the two together are the text, whatever the chunks.
pub proof fn law_text_is_split(m: Model, chunks: Seq<Seq<u8>>, console: bool)
    requires
        m.wf(),
        m.refusal(console) is None,
        all_valid(chunks),
    ensures
        m.taken(chunks, console) + concat(m.left(chunks, console)) == concat(chunks),
{
    m.lemma_feed_keeps(chunks, console);
}

/// A caller that sees a text through hands the writer every byte of it
/// once: what the writer took and what the caller still holds are, in this
/// order, the text.
pub proof fn law_text_taken_once(m: Model, events: Seq<Event>, text: Seq<Seq<u8>>, console: bool)
    requires
        m.wf(),
        all_valid(text),
        texts_for(events, console),
        sees_through(m, events, text),
    ensures
        all_valid(run_held(m, events, text)),
        run_taken(m, events) + concat(run_held(m, events, text)) == concat(text),
    decreases events.len(),
{
    if events.len() == 0 {
        assert(run_taken(m, events) + concat(text) =~= concat(text));
    } else {
        let e = events[0];
        let rest = events.drop_first();
        let m1 = step(m, e);
        let held = step_held(m, e, text);
        lemma_step(m, e);
        lemma_rest(events, console);
        assert(all_valid(held) && step_taken(m, e) + concat(held) =~= concat(text)) by {
            match e {
                Event::Text(chunks, c) => {
                    if m.refusal(c) is None {
                        m.lemma_feed(chunks, c);
                        m.lemma_feed_keeps(chunks, c);
                    }
                },
                _ => {},
            }
        }
        law_text_taken_once(m1, rest, held, console);
        assert(step_taken(m, e) + run_taken(m1, rest) + concat(run_held(m1, rest, held))
            =~= step_taken(m, e) + (run_taken(m1, rest) + concat(run_held(m1, rest, held))));
    }
}

/// A message arrives whole and in order, however large it is and however
/// the writes go: where a caller has seen the message through, so that it
/// holds no more of it, and the buffer is empty before and after, the bytes
/// that the destination took, one write after the other, are the message.
pub proof fn law_message_arrives_whole(m: Model, events: Seq<Event>, text: Seq<Seq<u8>>)
    requires
        m.wf(),
        m.path != Path::Console,
        m.drained(),
        all_valid(text),
        texts_for(events, false),
        sees_through(m, events, text),
        run_held(m, events, text).len() == 0,
        run(m, events).drained(),
    ensures
        run_sent(m, events) == concat(text),
{
    law_text_taken_once(m, events, text, false);
    law_all_taken_goes_out(m, events);
    assert(run_taken(m, events) + concat(run_held(m, events, text)) =~= run_taken(m, events));
}

/// The same on the console path, in 16-bit units: what waited and the
/// units of the text taken since are what the console took and what waits
/// now. So the units that go out read back as the text that came in.
pub proof fn law_units_conserved(m: Model, events: Seq<Event>)
    requires
        m.wf(),
        m.path != Path::Bytes,
        texts_for(events, true),
    ensures
        valid_utf8(run_taken(m, events)),
        m.wide_unsent() + encode_utf16(decode_utf8(run_taken(m, events))) == run_sent_wide(
            m,
            events,
        ) + run(m, events).wide_unsent(),
    decreases events.len(),
{
    if events.len() == 0 {
        assert(decode_utf8(Seq::<u8>::empty()) =~= Seq::<char>::empty());
        assert(m.wide_unsent() + encode_utf16(Seq::<char>::empty()) =~= run_sent_wide(m, events)
            + run(m, events).wide_unsent());
    } else {
        let e = events[0];
        let m1 = step(m, e);
        let rest = events.drop_first();
        lemma_step(m, e);
        lemma_rest(events, true);
        let t = step_taken(m, e);
        let u = encode_utf16(decode_utf8(t));
        assert(valid_utf8(t) && m.wide_unsent() + u =~= step_sent_wide(m, e) + m1.wide_unsent()) by {
            assert(decode_utf8(Seq::<u8>::empty()) =~= Seq::<char>::empty());
            match e {
                Event::Text(chunks, console) => {
                    if m.refusal(console) is None {
                        m.lemma_feed_keeps(chunks, console);
                    }
                },
                _ => {},
            }
        }
        law_units_conserved(m1, rest);
        let t2 = run_taken(m1, rest);
        lemma_decode_concat(t, t2);
        lemma_encode_concat(decode_utf8(t), decode_utf8(t2));
        let u2 = encode_utf16(decode_utf8(t2));
        assert(m.wide_unsent() + (u + u2) =~= (m.wide_unsent() + u) + u2);
        assert((step_sent_wide(m, e) + m1.wide_unsent()) + u2 =~= step_sent_wide(m, e) + (
        m1.wide_unsent() + u2));
        assert(step_sent_wide(m, e) + (run_sent_wide(m1, rest) + run(m1, rest).wide_unsent())
            =~= (step_sent_wide(m, e) + run_sent_wide(m1, rest)) + run(m1, rest).wide_unsent());
    }
}

/// On the console path a message arrives whole as well: under the same
/// conditions, the units that the console took are the units of the
/// message, so that they read back as the message.
pub proof fn law_message_arrives_transcoded(m: Model, events: Seq<Event>, text: Seq<Seq<u8>>)
    requires
        m.wf(),
        m.path != Path::Bytes,
        m.drained(),
        all_valid(text),
        texts_for(events, true),
        sees_through(m, events, text),
        run_held(m, events, text).len() == 0,
        run(m, events).drained(),
    ensures
        valid_utf8(concat(text)),
        run_sent_wide(m, events) == encode_utf16(decode_utf8(concat(text))),
        decode_utf16(run_sent_wide(m, events)) == decode_utf8(concat(text)),
{
    law_text_taken_once(m, events, text, true);
    law_units_conserved(m, events);
    law_saved_error_kept(m, events);
    let units = encode_utf16(decode_utf8(run_taken(m, events)));
    assert(run_taken(m, events) + concat(run_held(m, events, text)) =~= run_taken(m, events));
    assert(m.wide_unsent() + units =~= units);
    assert(run_sent_wide(m, events) + run(m, events).wide_unsent() =~= run_sent_wide(m, events));
    lemma_round_trip(decode_utf8(concat(text)));
}

/// A message that fits the room left in the buffer is taken whole, in
/// however many pieces it comes: nothing is to be written meanwhile, and in
/// the end the message stands behind what waited, to go out in one write.
pub proof fn law_fitting_text_waits(m: Model, events: Seq<Event>)
    requires
        m.wf(),
        m.failure is None,
        m.path != Path::Console,
        m.sent == 0,
        only_text(events),
        texts_for(events, false),
        m.bytes.len() + run_text(events).len() <= m.capacity,
    ensures
        run(m, events).failure is None,
        run(m, events).sent == 0,
        run(m, events).written == m.written,
        run(m, events).bytes == m.bytes + run_text(events),
        run_taken(m, events) == run_text(events),
        run_sent(m, events) == Seq::<u8>::empty(),
    decreases events.len(),
{
    if events.len() == 0 {
        assert(m.bytes + run_text(events) =~= m.bytes);
    } else {
        let e = events[0];
        let rest = events.drop_first();
        assert(e is Text);
        let chunks = e->Text_0;
        let console = e->Text_1;
        assert(!console && all_valid(chunks));
        m.lemma_fits(chunks);
        lemma_step(m, e);
        let m1 = step(m, e);
        lemma_rest(events, false);
        law_fitting_text_waits(m1, rest);
        assert(m.bytes + concat(chunks) + run_text(rest) =~= m.bytes + (concat(chunks) + run_text(
            rest,
        )));
        assert(run_sent(m, events) =~= Seq::<u8>::empty());
    }
}

/// A message that fits the buffer goes out in exactly one write that
/// carries all of it: a fresh writer takes every piece whole, so that
/// nothing is written meanwhile; then, told that the destination still
/// takes bytes, it owes a write of the whole message; and once the
/// destination has taken it, none is owed. This holds of the empty message
/// too: it goes out in one write of nothing.
pub proof fn law_one_write(capacity: nat, saved_error: i32, events: Seq<Event>, written: usize)
    requires
        capacity >= MIN_CAPACITY,
        only_text(events),
        texts_for(events, false),
        run_text(events).len() <= capacity,
        written == run_text(events).len(),
    ensures
        ({
            let filled = run(Model::fresh(capacity, saved_error), events).commit(false);
            &&& run_taken(Model::fresh(capacity, saved_error), events) == run_text(events)
            &&& run_sent(Model::fresh(capacity, saved_error), events) == Seq::<u8>::empty()
            &&& filled.failure is None
            &&& filled.owes_write()
            &&& filled.unsent() == run_text(events)
            &&& filled.flush(WriteOutcome::Written(written)).drained()
            &&& !filled.flush(WriteOutcome::Written(written)).owes_write()
        }),
{
    let m = Model::fresh(capacity, saved_error);
    Model::lemma_fresh_wf(capacity, saved_error);
    law_fitting_text_waits(m, events);
    let filled = run(m, events).commit(false);
    assert(m.bytes + run_text(events) =~= run_text(events));
    assert(filled.unsent() =~= run_text(events));
    law_saved_error_kept(m, events);
    law_path_kept(m, events);
}

/// A writer that is handed text for one kind of destination only stays off
/// the path of the other kind, and holds nothing on it.
pub proof fn law_path_kept(m: Model, events: Seq<Event>)
    requires
        m.wf(),
        m.path != Path::Console,
        texts_for(events, false),
    ensures
        run(m, events).path != Path::Console,
        run(m, events).wide.len() == 0,
    decreases events.len(),
{
    if events.len() > 0 {
        lemma_step(m, events[0]);
        let rest = events.drop_first();
        lemma_rest(events, false);
        law_path_kept(step(m, events[0]), rest);
    }
}

/// What a destination that takes bytes is handed at the start of a flush
/// is well-formed UTF-8: no character is cut in two.
pub proof fn law_bytes_payload_whole(m: Model)
    requires
        m.wf(),
        m.sent == 0,
    ensures
        valid_utf8(m.unsent()),
{
    assert(m.unsent() =~= m.bytes);
}

/// Text that goes to the console comes out as it went in: the units of a
/// text read back as the text, and they are the units that are made of the
/// bytes of the text.
pub proof fn law_console_round_trip(text: Seq<char>)
    ensures
        decode_utf16(encode_utf16(text)) == text,
        is_whole_text(encode_utf16(text)),
        encode_utf16(decode_utf8(encode_utf8(text))) == encode_utf16(text),
{
    lemma_round_trip(text);
    encode_utf8_decode_utf8(text);
}

/// What the console is handed at the start of a flush is the encoding of a
/// text: no surrogate pair is cut in two, and the units read back as the
/// characters that they were made from.
pub proof fn law_console_payload_whole(m: Model)
    requires
        m.wf(),
        m.wide_sent == 0,
    ensures
        is_whole_text(m.wide_unsent()),
        encode_utf16(decode_utf16(m.wide_unsent())) == m.wide_unsent(),
{
    assert(m.wide_unsent() =~= m.wide);
}

/// The units that one chunk adds to the console buffer read back as the
/// characters of the bytes that were taken of it.
pub proof fn law_console_reads_back(m: Model, chunk: Seq<u8>)
    requires
        m.wf(),
        m.refusal(true) is None,
        m.wide_sent == 0,
        valid_utf8(chunk),
    ensures
        m.accept(chunk, true).wide == m.wide + console_fill(m.capacity - m.wide.len(), chunk),
        decode_utf16(console_fill(m.capacity - m.wide.len(), chunk)) == decode_utf8(
            chunk.take(m.take(chunk, true)),
        ),
        decode_utf16(m.accept(chunk, true).wide) == decode_utf16(m.wide) + decode_utf8(
            chunk.take(m.take(chunk, true)),
        ),
{
    let free = m.capacity - m.wide.len();
    lemma_console_take(free, chunk);
    let chars = decode_utf8(chunk.take(m.take(chunk, true)));
    lemma_round_trip(chars);
    crate::utf16::lemma_whole_concat(m.wide, console_fill(free, chunk));
}

/// An empty buffer takes at least one byte of any text that is not empty,
/// since it holds the longest encoding of a character. So a writer whose
/// pending units are written whenever text is left comes to the end of the
/// text.
pub proof fn law_progress(m: Model, chunk: Seq<u8>, console: bool)
    requires
        m.wf(),
        m.refusal(console) is None,
        m.drained(),
        valid_utf8(chunk),
        chunk.len() > 0,
    ensures
        m.take(chunk, console) >= 1,
{
    lemma_first_scalar(chunk);
    let n = length_of_first_scalar(chunk);
    if console {
        let v = decode_first_scalar(chunk);
        lemma_console_take(m.capacity - unit_count(v), pop_first_scalar(chunk));
    } else if chunk.len() > m.capacity {
        assert(is_char_boundary(chunk, n)) by {
            reveal_with_fuel(is_char_boundary, 2);
        }
        lemma_floor_is_greatest(chunk, m.capacity as int, n);
    }
}

/// Whether the parts of every entry are well-formed UTF-8.
pub open spec fn entries_valid(entries: Seq<Entry>) -> bool {
    forall|i: int|
        0 <= i < entries.len() ==> valid_utf8((#[trigger] entries[i]).file) && valid_utf8(
            entries[i].name,
        ) && valid_utf8(entries[i].value)
}

/// A dump of several values is their lines in the order of the values:
/// that is the text which the writer is handed, and a dump that fits the
/// buffer waits there whole, to go out as one unit.
pub proof fn law_dump_in_order(capacity: nat, saved_error: i32, entries: Seq<Entry>)
    requires
        capacity >= MIN_CAPACITY,
        entries_valid(entries),
    ensures
        run_text(dump_events(entries)) == dump_text(entries),
        dump_text(entries).len() <= capacity ==> run(
            Model::fresh(capacity, saved_error),
            dump_events(entries),
        ).unsent() == dump_text(entries) && run_sent(
            Model::fresh(capacity, saved_error),
            dump_events(entries),
        ) == Seq::<u8>::empty(),
{
    lemma_dump_text(entries);
    let events = dump_events(entries);
    assert forall|i: int| 0 <= i < events.len() implies #[trigger] events[i] is Text && (
    events[i] matches Event::Text(chunks, c) ==> c == false && all_valid(chunks)) by {
        let e = entries[i];
        lemma_dbg_chunks_valid(e.file, e.line, e.name, e.value);
    }
    if dump_text(entries).len() <= capacity {
        let m = Model::fresh(capacity, saved_error);
        Model::lemma_fresh_wf(capacity, saved_error);
        law_fitting_text_waits(m, events);
        assert(m.bytes + run_text(events) =~= run_text(events));
        assert(run(m, events).unsent() =~= run_text(events));
    }
}

/// The text that the events of a dump hand over is the text of the dump.
pub proof fn lemma_dump_text(entries: Seq<Entry>)
    ensures
        run_text(dump_events(entries)) == dump_text(entries),
    decreases entries.len(),
{
    let events = dump_events(entries);
    if entries.len() > 0 {
        let e = entries[0];
        lemma_dbg_line(e.file, e.line, e.name, e.value);
        lemma_dump_text(entries.drop_first());
        assert(events.drop_first() =~= dump_events(entries.drop_first()));
    }
}

} // verus!
