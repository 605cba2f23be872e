//! Dumping several labelled values through one writer, so that they reach
//! the destination as one unit where they fit.

use vstd::prelude::*;
use vstd::string::StringSliceAdditionalSpecFns;
use vstd::utf8::*;
use crate::decimal::{
    decimal,
    decimal_chunks,
    decimal_parts,
    lemma_decimal_chunks_valid,
    lemma_decimal_u32,
    SLOTS,
};
use crate::model::{Failure, Model, MIN_CAPACITY};
use crate::scalar::lemma_ascii_valid;
use crate::text::{all_valid, chunks_of, concat, lemma_ascii_bytes, lemma_concat_add, Text};
use crate::writer::Writer;

verus! {

/// The pieces of one line of a dump.
pub const PIECES: usize = 18;

/// A dump under way: the writer that all its lines go through.
pub struct _Dbg<const N: usize>(pub Writer<N>);

/// The line of one value: `[file:line] name = value` and a newline.
pub open spec fn dbg_line(file: Seq<u8>, line: u32, name: Seq<u8>, value: Seq<u8>) -> Seq<u8> {
    seq!['[' as u8] + file + seq![':' as u8] + decimal(line as nat) + seq![']' as u8, ' ' as u8]
        + name + seq![' ' as u8, '=' as u8, ' ' as u8] + value + seq!['\n' as u8]
}

/// What stands ahead of the line number.
pub open spec fn dbg_head(file: Seq<u8>) -> Seq<Seq<u8>> {
    seq![seq!['[' as u8], file, seq![':' as u8]]
}

/// What stands behind the line number: the name, the value and the end of
/// the line.
pub open spec fn dbg_tail(name: Seq<u8>, value: Seq<u8>, end: Seq<u8>) -> Seq<Seq<u8>> {
    seq![seq![']' as u8, ' ' as u8], name, seq![' ' as u8, '=' as u8, ' ' as u8], value, end]
}

/// The chunks of a line that ends with `end`.
pub open spec fn dbg_pieces(
    file: Seq<u8>,
    line: u32,
    name: Seq<u8>,
    value: Seq<u8>,
    end: Seq<u8>,
) -> Seq<Seq<u8>> {
    dbg_head(file) + decimal_chunks(line as nat, SLOTS as nat) + dbg_tail(name, value, end)
}

/// The chunks in which the line of one value is handed to the writer.
pub open spec fn dbg_chunks(file: Seq<u8>, line: u32, name: Seq<u8>, value: Seq<u8>) -> Seq<
    Seq<u8>,
> {
    dbg_pieces(file, line, name, value, seq!['\n' as u8])
}

/// The chunks of the label alone, for a value that is handed over piece by
/// piece behind it: the line without its value and its end.
pub open spec fn dbg_label_chunks(file: Seq<u8>, line: u32, name: Seq<u8>) -> Seq<Seq<u8>> {
    dbg_pieces(file, line, name, Seq::empty(), Seq::empty())
}

/// The chunks of a line, one after the other, are the line; and the label,
/// the value and a newline are the line as well.
pub proof fn lemma_dbg_line(file: Seq<u8>, line: u32, name: Seq<u8>, value: Seq<u8>)
    ensures
        dbg_chunks(file, line, name, value).len() == PIECES,
        concat(dbg_chunks(file, line, name, value)) == dbg_line(file, line, name, value),
        concat(dbg_label_chunks(file, line, name)) + value + seq!['\n' as u8] == dbg_line(
            file,
            line,
            name,
            value,
        ),
{
    lemma_dbg_pieces(file, line, name, value, seq!['\n' as u8]);
    lemma_dbg_pieces(file, line, name, Seq::empty(), Seq::empty());
    let front = seq!['[' as u8] + file + seq![':' as u8] + decimal(line as nat) + seq![
        ']' as u8,
        ' ' as u8,
    ] + name + seq![' ' as u8, '=' as u8, ' ' as u8];
    assert(front + value + seq!['\n' as u8] =~= dbg_line(file, line, name, value));
    assert(front + Seq::<u8>::empty() + Seq::<u8>::empty() =~= front);
}

/// The chunks of a line that ends with `end`, one after the other.
pub proof fn lemma_dbg_pieces(
    file: Seq<u8>,
    line: u32,
    name: Seq<u8>,
    value: Seq<u8>,
    end: Seq<u8>,
)
    ensures
        dbg_pieces(file, line, name, value, end).len() == PIECES,
        concat(dbg_pieces(file, line, name, value, end)) == seq!['[' as u8] + file + seq![
            ':' as u8,
        ] + decimal(line as nat) + seq![']' as u8, ' ' as u8] + name + seq![
            ' ' as u8,
            '=' as u8,
            ' ' as u8,
        ] + value + end,
{
    let head = dbg_head(file);
    let digits = decimal_chunks(line as nat, SLOTS as nat);
    let tail = dbg_tail(name, value, end);
    lemma_decimal_u32(line);
    lemma_concat_add(head, digits);
    lemma_concat_add(head + digits, tail);
    assert(concat(head) =~= seq!['[' as u8] + file + seq![':' as u8]) by {
        reveal_with_fuel(concat, 4);
    }
    assert(concat(tail) =~= seq![']' as u8, ' ' as u8] + name + seq![
        ' ' as u8,
        '=' as u8,
        ' ' as u8,
    ] + value + end) by {
        reveal_with_fuel(concat, 6);
    }
    assert(concat(head) + decimal(line as nat) + concat(tail) =~= seq!['[' as u8] + file + seq![
        ':' as u8,
    ] + decimal(line as nat) + seq![']' as u8, ' ' as u8] + name + seq![
        ' ' as u8,
        '=' as u8,
        ' ' as u8,
    ] + value + end);
}

/// The chunks of a line are well formed where its parts are.
pub proof fn lemma_dbg_chunks_valid(file: Seq<u8>, line: u32, name: Seq<u8>, value: Seq<u8>)
    requires
        valid_utf8(file),
        valid_utf8(name),
        valid_utf8(value),
    ensures
        all_valid(dbg_chunks(file, line, name, value)),
{
    let head = dbg_head(file);
    let digits = decimal_chunks(line as nat, SLOTS as nat);
    let tail = dbg_tail(name, value, seq!['\n' as u8]);
    let chunks = dbg_chunks(file, line, name, value);
    lemma_decimal_chunks_valid(line as nat, SLOTS as nat);
    lemma_ascii_valid(seq!['[' as u8]);
    lemma_ascii_valid(seq![':' as u8]);
    lemma_ascii_valid(seq![']' as u8, ' ' as u8]);
    lemma_ascii_valid(seq![' ' as u8, '=' as u8, ' ' as u8]);
    lemma_ascii_valid(seq!['\n' as u8]);
    assert forall|i: int| 0 <= i < chunks.len() implies valid_utf8(#[trigger] chunks[i]) by {
        if i < 3 {
            assert(chunks[i] == head[i]);
        } else if i < 3 + digits.len() {
            assert(chunks[i] == digits[i - 3]);
        } else {
            assert(chunks[i] == tail[i - 3 - digits.len()]);
        }
    }
}

/// Starts a dump with a writer of its own, which keeps the error status that
/// is current now.
pub fn _dbg_start<const N: usize>() -> (dbg: _Dbg<N>)
    requires
        N >= MIN_CAPACITY,
    ensures
        dbg.0.wf(),
        dbg.0@ == Model::fresh(N as nat, dbg.0@.saved_error),
{
    _Dbg(Writer::new())
}

/// The slices of a line that ends with `end`.
fn pieces<'a>(file: &'a str, line: u32, name: &'a str, value: &'a str, end: &'a str) -> (parts: [&'a str; PIECES])
    ensures
        chunks_of(parts@) == dbg_pieces(
            file.spec_bytes(),
            line,
            name.spec_bytes(),
            value.spec_bytes(),
            end.spec_bytes(),
        ),
{
    let d = decimal_parts(line);
    let parts: [&'a str; PIECES] = [
        "[",
        file,
        ":",
        d[0],
        d[1],
        d[2],
        d[3],
        d[4],
        d[5],
        d[6],
        d[7],
        d[8],
        d[9],
        "] ",
        name,
        " = ",
        value,
        end,
    ];
    proof {
        reveal_strlit("[");
        reveal_strlit(":");
        reveal_strlit("] ");
        reveal_strlit(" = ");
        lemma_ascii_bytes("[");
        lemma_ascii_bytes(":");
        lemma_ascii_bytes("] ");
        lemma_ascii_bytes(" = ");
        let want = dbg_pieces(
            file.spec_bytes(),
            line,
            name.spec_bytes(),
            value.spec_bytes(),
            end.spec_bytes(),
        );
        let digits = decimal_chunks(line as nat, SLOTS as nat);
        let got = chunks_of(parts@);
        lemma_decimal_u32(line);
        assert(got.len() == want.len());
        assert forall|i: int| 0 <= i < got.len() implies got[i] == want[i] by {
            if 3 <= i < 13 {
                assert(parts@[i] == d@[i - 3]);
                assert(chunks_of(d@)[i - 3] == d@[i - 3].spec_bytes());
                assert(want[i] == digits[i - 3]);
            } else if i < 3 {
                assert(want[i] == dbg_head(file.spec_bytes())[i]);
                assert(got[i] =~= want[i]);
            } else {
                assert(want[i] == dbg_tail(
                    name.spec_bytes(),
                    value.spec_bytes(),
                    end.spec_bytes(),
                )[i - 13]);
                assert(got[i] =~= want[i]);
            }
        }
        assert(got =~= want);
    }
    parts
}

/// Hands the line of one value to the writer of the dump: the place in the
/// source, the text of the expression and its rendered value. What comes
/// back is what the writer had no room for: it is handed to `Writer::write`
/// once the pending units are written.
pub fn _dbg_write<'a, const N: usize>(
    dbg: &mut _Dbg<N>,
    file: &'a str,
    line: u32,
    name: &'a str,
    value: &'a str,
    console: bool,
) -> (r: Result<Text<'a, PIECES>, Failure>)
    requires
        old(dbg).0.wf(),
    ensures
        final(dbg).0.wf(),
        final(dbg).0@ == old(dbg).0@.write(
            dbg_chunks(file.spec_bytes(), line, name.spec_bytes(), value.spec_bytes()),
            console,
        ),
        match r {
            Ok(rest) => old(dbg).0@.refusal(console) is None && rest.wf() && rest@ == old(
                dbg,
            ).0@.left(
                dbg_chunks(file.spec_bytes(), line, name.spec_bytes(), value.spec_bytes()),
                console,
            ),
            Err(failure) => old(dbg).0@.refusal(console) == Some(failure),
        },
{
    proof {
        reveal_strlit("\n");
        lemma_ascii_bytes("\n");
        assert("\n".spec_bytes() =~= seq!['\n' as u8]);
    }
    dbg.0.write(Text::new(pieces(file, line, name, value, "\n")), console)
}

/// Hands the label of a line to the writer of the dump, for a value that is
/// rendered piece by piece: the pieces follow through `Writer::write_str`,
/// and a newline ends the line.
pub fn _dbg_label<'a, const N: usize>(
    dbg: &mut _Dbg<N>,
    file: &'a str,
    line: u32,
    name: &'a str,
    console: bool,
) -> (r: Result<Text<'a, PIECES>, Failure>)
    requires
        old(dbg).0.wf(),
    ensures
        final(dbg).0.wf(),
        final(dbg).0@ == old(dbg).0@.write(
            dbg_label_chunks(file.spec_bytes(), line, name.spec_bytes()),
            console,
        ),
        match r {
            Ok(rest) => old(dbg).0@.refusal(console) is None && rest.wf() && rest@ == old(
                dbg,
            ).0@.left(dbg_label_chunks(file.spec_bytes(), line, name.spec_bytes()), console),
            Err(failure) => old(dbg).0@.refusal(console) == Some(failure),
        },
{
    proof {
        reveal_strlit("");
        lemma_ascii_bytes("");
        assert("".spec_bytes() =~= Seq::<u8>::empty());
    }
    dbg.0.write(Text::new(pieces(file, line, name, "", "")), console)
}

/// Ends the dump and hands over its writer. What the writer holds is still
/// to be written: the whole dump in one write, where it fits the buffer.
pub fn _dbg_finish<const N: usize>(dbg: _Dbg<N>) -> (writer: Writer<N>)
    ensures
        writer == dbg.0,
{
    dbg.0
}

} // verus!
