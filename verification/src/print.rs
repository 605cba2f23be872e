//! Printing a text that is already rendered, with or without a newline
//! behind it.

use vstd::prelude::*;
use vstd::string::StringSliceAdditionalSpecFns;
use crate::model::Failure;
use crate::text::{chunks_of, lemma_ascii_bytes, Text};
use crate::writer::Writer;

verus! {

/// The chunks of a text that is printed as it is.
pub open spec fn eprint_chunks(text: Seq<u8>) -> Seq<Seq<u8>> {
    seq![text]
}

/// The chunks of a text that is printed as a line.
pub open spec fn eprintln_chunks(text: Seq<u8>) -> Seq<Seq<u8>> {
    seq![text, seq!['\n' as u8]]
}

/// Hands `text` to the writer. What comes back is what the writer had no
/// room for: it is handed to `Writer::write` once the pending units are
/// written.
pub fn _eprint<'a, const N: usize>(writer: &mut Writer<N>, text: &'a str, console: bool) -> (r:
    Result<Text<'a, 1>, Failure>)
    requires
        old(writer).wf(),
    ensures
        final(writer).wf(),
        final(writer)@ == old(writer)@.write(eprint_chunks(text.spec_bytes()), console),
        match r {
            Ok(rest) => old(writer)@.refusal(console) is None && rest.wf() && rest@ == old(
                writer,
            )@.left(eprint_chunks(text.spec_bytes()), console),
            Err(failure) => old(writer)@.refusal(console) == Some(failure),
        },
{
    let parts: [&'a str; 1] = [text];
    assert(chunks_of(parts@) =~= eprint_chunks(text.spec_bytes()));
    writer.write(Text::new(parts), console)
}

/// Hands `text` and a newline to the writer, as `_eprint` hands text.
pub fn _eprintln<'a, const N: usize>(writer: &mut Writer<N>, text: &'a str, console: bool) -> (r:
    Result<Text<'a, 2>, Failure>)
    requires
        old(writer).wf(),
    ensures
        final(writer).wf(),
        final(writer)@ == old(writer)@.write(eprintln_chunks(text.spec_bytes()), console),
        match r {
            Ok(rest) => old(writer)@.refusal(console) is None && rest.wf() && rest@ == old(
                writer,
            )@.left(eprintln_chunks(text.spec_bytes()), console),
            Err(failure) => old(writer)@.refusal(console) == Some(failure),
        },
{
    let parts: [&'a str; 2] = [text, "\n"];
    proof {
        reveal_strlit("\n");
        lemma_ascii_bytes("\n");
        assert("\n".spec_bytes() =~= seq!['\n' as u8]);
        assert(chunks_of(parts@) =~= eprintln_chunks(text.spec_bytes()));
    }
    writer.write(Text::new(parts), console)
}

} // verus!
