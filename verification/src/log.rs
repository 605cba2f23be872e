//! A minimal adapter for the `log` crate: every record is one line on the
//! writer, and nothing is filtered.

use vstd::prelude::*;
use vstd::string::StringSliceAdditionalSpecFns;
use vstd::utf8::*;
use crate::model::Failure;
use crate::text::{chunks_of, concat, lemma_ascii_bytes, Text};
use crate::writer::Writer;

verus! {

/// The pieces of one line of the log.
pub const PIECES: usize = 6;

/// How much a record weighs, the gravest first.
#[derive(Clone, Copy, Debug, PartialEq, Eq, Structural)]
pub enum Level {
    Error,
    Warn,
    Info,
    Debug,
    Trace,
}

/// The records that are let through: none, or those up to a level.
#[derive(Clone, Copy, Debug, PartialEq, Eq, Structural)]
pub enum LevelFilter {
    Off,
    Error,
    Warn,
    Info,
    Debug,
    Trace,
}

/// The name under which a level is printed.
pub open spec fn level_name(level: Level) -> Seq<char> {
    match level {
        Level::Error => "ERROR"@,
        Level::Warn => "WARN"@,
        Level::Info => "INFO"@,
        Level::Debug => "DEBUG"@,
        Level::Trace => "TRACE"@,
    }
}

/// The chunks of a line that ends with `end`: `target: LEVEL - message` and
/// the end.
pub open spec fn log_pieces(target: Seq<u8>, level: Level, message: Seq<u8>, end: Seq<u8>) -> Seq<
    Seq<u8>,
> {
    seq![
        target,
        seq![':' as u8, ' ' as u8],
        encode_utf8(level_name(level)),
        seq![' ' as u8, '-' as u8, ' ' as u8],
        message,
        end,
    ]
}

/// The chunks in which a record is handed to the writer:
/// `target: LEVEL - message` and a newline.
pub open spec fn log_chunks(target: Seq<u8>, level: Level, message: Seq<u8>) -> Seq<Seq<u8>> {
    log_pieces(target, level, message, seq!['\n' as u8])
}

/// The chunks of the label alone, for a message that is handed over piece
/// by piece behind it: the line without its message and its end.
pub open spec fn label_chunks(target: Seq<u8>, level: Level) -> Seq<Seq<u8>> {
    log_pieces(target, level, Seq::empty(), Seq::empty())
}

/// The label, the message and a newline are the line of the record.
pub proof fn lemma_log_line(target: Seq<u8>, level: Level, message: Seq<u8>)
    ensures
        concat(label_chunks(target, level)) + message + seq!['\n' as u8] == concat(
            log_chunks(target, level, message),
        ),
{
    reveal_with_fuel(concat, 7);
    assert(concat(label_chunks(target, level)) + message + seq!['\n' as u8] =~= concat(
        log_chunks(target, level, message),
    ));
}

/// Calls `log::Level::as_str` on the level of the same name. That method
/// indexes the crate's table of names by the level, so it returns the
/// level's name in capitals.
#[verifier::external_body]
fn level_str(level: Level) -> (name: &'static str)
    ensures
        name@ == level_name(level),
{
    match level {
        Level::Error => ::log::Level::Error,
        Level::Warn => ::log::Level::Warn,
        Level::Info => ::log::Level::Info,
        Level::Debug => ::log::Level::Debug,
        Level::Trace => ::log::Level::Trace,
    }.as_str()
}

/// Calls `log::set_max_level` with the filter of the same name. It stores
/// the filter for the whole process and returns nothing, so nothing is
/// claimed.
#[verifier::external_body]
fn set_max_level(filter: LevelFilter) {
    ::log::set_max_level(
        match filter {
            LevelFilter::Off => ::log::LevelFilter::Off,
            LevelFilter::Error => ::log::LevelFilter::Error,
            LevelFilter::Warn => ::log::LevelFilter::Warn,
            LevelFilter::Info => ::log::LevelFilter::Info,
            LevelFilter::Debug => ::log::LevelFilter::Debug,
            LevelFilter::Trace => ::log::LevelFilter::Trace,
        },
    )
}

/// Whether a record of this level is printed: every record is.
pub fn enabled(level: Level) -> (yes: bool)
    ensures
        yes,
{
    true
}

/// The slices of a line that ends with `end`.
fn pieces<'a>(target: &'a str, level: Level, message: &'a str, end: &'a str) -> (parts: [&'a str;
    PIECES])
    ensures
        chunks_of(parts@) == log_pieces(
            target.spec_bytes(),
            level,
            message.spec_bytes(),
            end.spec_bytes(),
        ),
{
    let parts: [&'a str; PIECES] = [target, ": ", level_str(level), " - ", message, end];
    proof {
        reveal_strlit(": ");
        reveal_strlit(" - ");
        lemma_ascii_bytes(": ");
        lemma_ascii_bytes(" - ");
        let want = log_pieces(
            target.spec_bytes(),
            level,
            message.spec_bytes(),
            end.spec_bytes(),
        );
        let got = chunks_of(parts@);
        assert forall|i: int| 0 <= i < got.len() implies got[i] == want[i] by {
            assert(got[i] =~= want[i]);
        }
        assert(got =~= want);
    }
    parts
}

/// Hands the line of one record to the writer. What comes back is what the
/// writer had no room for: it is handed to `Writer::write` once the pending
/// units are written.
pub fn log<'a, const N: usize>(
    writer: &mut Writer<N>,
    target: &'a str,
    level: Level,
    message: &'a str,
    console: bool,
) -> (r: Result<Text<'a, PIECES>, Failure>)
    requires
        old(writer).wf(),
    ensures
        final(writer).wf(),
        final(writer)@ == old(writer)@.write(
            log_chunks(target.spec_bytes(), level, message.spec_bytes()),
            console,
        ),
        match r {
            Ok(rest) => old(writer)@.refusal(console) is None && rest.wf() && rest@ == old(
                writer,
            )@.left(log_chunks(target.spec_bytes(), level, message.spec_bytes()), console),
            Err(failure) => old(writer)@.refusal(console) == Some(failure),
        },
{
    proof {
        reveal_strlit("\n");
        lemma_ascii_bytes("\n");
        assert("\n".spec_bytes() =~= seq!['\n' as u8]);
    }
    writer.write(Text::new(pieces(target, level, message, "\n")), console)
}

/// Hands the label of a record to the writer, for a message that is
/// rendered piece by piece: the pieces follow through `Writer::write_str`,
/// and a newline ends the line.
pub fn label<'a, const N: usize>(
    writer: &mut Writer<N>,
    target: &'a str,
    level: Level,
    console: bool,
) -> (r: Result<Text<'a, PIECES>, Failure>)
    requires
        old(writer).wf(),
    ensures
        final(writer).wf(),
        final(writer)@ == old(writer)@.write(label_chunks(target.spec_bytes(), level), console),
        match r {
            Ok(rest) => old(writer)@.refusal(console) is None && rest.wf() && rest@ == old(
                writer,
            )@.left(label_chunks(target.spec_bytes(), level), console),
            Err(failure) => old(writer)@.refusal(console) == Some(failure),
        },
{
    proof {
        reveal_strlit("");
        lemma_ascii_bytes("");
        assert("".spec_bytes() =~= Seq::<u8>::empty());
    }
    writer.write(Text::new(pieces(target, level, "", "")), console)
}

/// Opens the log for every record, down to the finest level: the part of
/// setting up that needs no logger.
pub fn init() {
    set_max_level(LevelFilter::Trace);
}

} // verus!
