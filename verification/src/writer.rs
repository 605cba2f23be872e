//! The buffered writer: it gathers a message in a buffer of fixed size, says
//! what is to be written to the destination, and takes the result of each
//! write. It never writes itself, takes no lock and allocates nothing.

use vstd::prelude::*;
use vstd::slice::slice_subrange;
use vstd::string::StringSliceAdditionalSpecFns;
use vstd::utf8::*;
use crate::ambient::{ambient_error, set_ambient_error};
use crate::model::{
    console_fill,
    console_take,
    floor_boundary,
    lemma_console_take,
    lemma_floor_boundary,
    Failure,
    Model,
    Path,
    WriteOutcome,
    MIN_CAPACITY,
};
use crate::scalar::{lemma_rest_after_first, scalar_at};
use crate::text::Text;
use crate::utf16::encode;

verus! {

/// A writer whose two buffers hold `N` units each.
pub struct Writer<const N: usize> {
    pos: usize,
    sent: usize,
    buf: [u8; N],
    console_pos: usize,
    console_sent: usize,
    console_buf: [u16; N],
    path: Path,
    written: bool,
    failure: Option<Failure>,
    saved_error: i32,
}

/// What is to be written to the destination next.
#[derive(Clone, Copy, Debug, PartialEq, Eq)]
pub enum Pending<'a> {
    /// Nothing: the buffers are empty and a write has been made, or the
    /// writer has given up.
    Nothing,
    /// These bytes, in one write. They are none where the message is empty
    /// and nothing has been written yet.
    Bytes(&'a [u8]),
    /// These 16-bit units, in one write to the console.
    Console(&'a [u16]),
}

impl<const N: usize> View for Writer<N> {
    type V = Model;

    closed spec fn view(&self) -> Model {
        Model {
            capacity: N as nat,
            path: self.path,
            bytes: self.buf@.subrange(0, self.pos as int),
            wide: self.console_buf@.subrange(0, self.console_pos as int),
            sent: self.sent as nat,
            wide_sent: self.console_sent as nat,
            written: self.written,
            failure: self.failure,
            saved_error: self.saved_error,
        }
    }
}

impl<const N: usize> Writer<N> {
    pub closed spec fn wf(&self) -> bool {
        &&& self.pos <= N
        &&& self.console_pos <= N
        &&& self@.wf()
    }

    /// What a well-formed writer shows: a well-formed model, whose capacity
    /// is that of the type.
    pub proof fn lemma_wf(&self)
        requires
            self.wf(),
        ensures
            self@.wf(),
            self@.capacity == N,
            N >= MIN_CAPACITY,
    {
    }

    /// A writer that holds nothing and keeps `saved_error` for the end. Its
    /// buffers hold the longest encoding of a character at least, so that no
    /// text can stay stuck in front of an empty buffer.
    pub fn with_error(saved_error: i32) -> (writer: Self)
        requires
            N >= MIN_CAPACITY,
        ensures
            writer.wf(),
            writer@ == Model::fresh(N as nat, saved_error),
    {
        let writer = Writer {
            pos: 0,
            sent: 0,
            buf: [0u8; N],
            console_pos: 0,
            console_sent: 0,
            console_buf: [0u16; N],
            path: Path::Unset,
            written: false,
            failure: None,
            saved_error,
        };
        proof {
            Model::lemma_fresh_wf(N as nat, saved_error);
        }
        assert(writer@ =~= Model::fresh(N as nat, saved_error));
        writer
    }

    /// A writer that holds nothing and keeps the error status that is
    /// current now: the one that it puts back when it is dropped.
    pub fn new() -> (writer: Self)
        requires
            N >= MIN_CAPACITY,
        ensures
            writer.wf(),
            writer@ == Model::fresh(N as nat, writer@.saved_error),
    {
        Self::with_error(ambient_error())
    }

    /// The size of each buffer.
    pub fn capacity(&self) -> (n: usize)
        ensures
            n == self@.capacity,
    {
        N
    }

    /// The error status that was kept when the writer was made.
    pub fn saved_error(&self) -> (code: i32)
        ensures
            code == self@.saved_error,
    {
        self.saved_error
    }

    /// The buffer that the writer has committed to.
    pub fn path(&self) -> (path: Path)
        ensures
            path == self@.path,
    {
        self.path
    }

    /// Why the writer gave up, if it did.
    pub fn failure(&self) -> (failure: Option<Failure>)
        ensures
            failure == self@.failure,
    {
        self.failure
    }

    /// The bytes that the writer holds, those that the destination has
    /// taken in the flush under way included.
    pub fn buffered(&self) -> (bytes: &[u8])
        requires
            self.wf(),
        ensures
            bytes@ == self@.bytes,
    {
        slice_subrange(self.buf.as_slice(), 0, self.pos)
    }

    /// The 16-bit units that the writer holds, likewise.
    pub fn console_buffered(&self) -> (units: &[u16])
        requires
            self.wf(),
        ensures
            units@ == self@.wide,
    {
        slice_subrange(self.console_buf.as_slice(), 0, self.console_pos)
    }

    /// What is to be written next: all that the destination has not taken
    /// of the buffer in use, in one write. Where nothing has been written
    /// yet, a write is owed though the buffer is empty: the empty message is
    /// a message, and goes out in one write of nothing. Before each write
    /// `commit` is told what the destination is.
    pub fn pending(&self) -> (pending: Pending<'_>)
        requires
            self.wf(),
        ensures
            match pending {
                Pending::Nothing => !self@.owes_write(),
                Pending::Bytes(bytes) => self@.owes_write() && self@.path != Path::Console
                    && bytes@ == self@.unsent(),
                Pending::Console(units) => self@.owes_write() && self@.path == Path::Console
                    && units@ == self@.wide_unsent(),
            },
    {
        if self.failure.is_some() {
            return Pending::Nothing;
        }
        match self.path {
            Path::Console => {
                if self.console_sent < self.console_pos || !self.written {
                    let units = slice_subrange(
                        self.console_buf.as_slice(),
                        self.console_sent,
                        self.console_pos,
                    );
                    assert(units@ =~= self@.wide_unsent());
                    Pending::Console(units)
                } else {
                    Pending::Nothing
                }
            },
            _ => {
                if self.sent < self.pos || !self.written {
                    let bytes = slice_subrange(self.buf.as_slice(), self.sent, self.pos);
                    assert(bytes@ =~= self@.unsent());
                    Pending::Bytes(bytes)
                } else {
                    Pending::Nothing
                }
            },
        }
    }

    /// Copies `src` behind the gathered bytes.
    fn copy_in(&mut self, src: &[u8])
        requires
            old(self).pos + src@.len() <= N,
        ensures
            final(self).pos == old(self).pos + src@.len(),
            final(self).buf@.subrange(0, final(self).pos as int) == old(self).buf@.subrange(
                0,
                old(self).pos as int,
            ) + src@,
            final(self).sent == old(self).sent,
            final(self).console_pos == old(self).console_pos,
            final(self).console_sent == old(self).console_sent,
            final(self).console_buf == old(self).console_buf,
            final(self).path == old(self).path,
            final(self).written == old(self).written,
            final(self).failure == old(self).failure,
            final(self).saved_error == old(self).saved_error,
    {
        let n: usize = src.len();
        let start: usize = self.pos;
        let mut j: usize = 0;
        while j < n
            invariant
                j <= n,
                n == src@.len(),
                start + n <= N,
                self.pos == start,
                self.buf@.subrange(0, start as int) == old(self).buf@.subrange(0, start as int),
                self.buf@.subrange(start as int, start + j) == src@.subrange(0, j as int),
                self.sent == old(self).sent,
                self.console_pos == old(self).console_pos,
                self.console_sent == old(self).console_sent,
                self.console_buf == old(self).console_buf,
                self.path == old(self).path,
                self.written == old(self).written,
                self.failure == old(self).failure,
                self.saved_error == old(self).saved_error,
            decreases n - j,
        {
            let ghost before = self.buf@;
            self.buf[start + j] = src[j];
            assert(self.buf@ == before.update(start + j, src@[j as int]));
            assert(self.buf@.subrange(0, start as int) =~= before.subrange(0, start as int));
            assert(self.buf@.subrange(start as int, start + j + 1) =~= before.subrange(
                start as int,
                start + j,
            ).push(src@[j as int]));
            assert(src@.subrange(0, j + 1) =~= src@.subrange(0, j as int).push(src@[j as int]));
            j = j + 1;
        }
        self.pos = start + n;
        assert(src@.subrange(0, n as int) =~= src@);
        assert(self.buf@.subrange(0, self.pos as int) =~= self.buf@.subrange(0, start as int)
            + self.buf@.subrange(start as int, start + n));
    }

    /// The greatest place up to `N` where a character of `s` starts.
    fn cut(s: &str) -> (k: usize)
        requires
            s.spec_bytes().len() > N,
        ensures
            k == floor_boundary(s.spec_bytes(), N as int),
            is_char_boundary(s.spec_bytes(), k as int),
            k <= N,
    {
        proof {
            encode_utf8_valid_utf8(s@);
            lemma_floor_boundary(s.spec_bytes(), N as int);
        }
        let mut k: usize = N;
        while !s.is_char_boundary(k)
            invariant
                k <= N,
                valid_utf8(s.spec_bytes()),
                floor_boundary(s.spec_bytes(), k as int) == floor_boundary(
                    s.spec_bytes(),
                    N as int,
                ),
            decreases k,
        {
            k = k - 1;
        }
        k
    }

    /// Takes of `s` what the byte buffer takes, and hands back the rest.
    fn accept_bytes<'a>(&mut self, s: &'a str) -> (rest: &'a str)
        requires
            old(self).wf(),
            old(self)@.refusal(false) is None,
        ensures
            final(self).wf(),
            final(self)@ == old(self)@.accept(s.spec_bytes(), false),
            rest.spec_bytes() == s.spec_bytes().skip(old(self)@.take(s.spec_bytes(), false)),
    {
        let ghost chunk = s.spec_bytes();
        proof {
            encode_utf8_valid_utf8(s@);
            old(self)@.lemma_accept(chunk, false);
            is_char_boundary_start_end_of_seq(chunk);
        }
        self.path = Path::Bytes;
        let len: usize = s.as_bytes().len();
        let k: usize = if self.sent > 0 {
            0
        } else if len <= N - self.pos {
            len
        } else if self.pos > 0 {
            0
        } else {
            Self::cut(s)
        };
        assert(k == old(self)@.take(chunk, false));
        let (head, rest) = s.split_at(k);
        self.copy_in(head.as_bytes());
        assert(chunk.take(k as int) =~= chunk.subrange(0, k as int));
        assert(chunk.skip(k as int) =~= chunk.subrange(k as int, chunk.len() as int));
        assert(self@ =~= old(self)@.accept(chunk, false));
        rest
    }

    /// Takes of `s` what the console buffer takes, and hands back the rest.
    fn accept_console<'a>(&mut self, s: &'a str) -> (rest: &'a str)
        requires
            old(self).wf(),
            old(self)@.refusal(true) is None,
        ensures
            final(self).wf(),
            final(self)@ == old(self)@.accept(s.spec_bytes(), true),
            rest.spec_bytes() == s.spec_bytes().skip(old(self)@.take(s.spec_bytes(), true)),
    {
        let ghost chunk = s.spec_bytes();
        let ghost free0 = N - self.console_pos;
        let ghost wide0 = self@.wide;
        proof {
            encode_utf8_valid_utf8(s@);
            old(self)@.lemma_accept(chunk, true);
            lemma_console_take(free0, chunk);
        }
        self.path = Path::Console;
        let bytes = s.as_bytes();
        let len: usize = bytes.len();
        let mut at: usize = 0;
        if self.console_sent == 0 {
            assert(chunk.skip(0) =~= chunk);
            while at < len && N - self.console_pos >= 2
                invariant
                    at <= len,
                    len == chunk.len(),
                    bytes@ == chunk,
                    self.console_pos <= N,
                    valid_utf8(chunk.skip(at as int)),
                    at + console_take(N - self.console_pos, chunk.skip(at as int)) == console_take(
                        free0,
                        chunk,
                    ),
                    self.console_buf@.subrange(0, self.console_pos as int) + console_fill(
                        N - self.console_pos,
                        chunk.skip(at as int),
                    ) == wide0 + console_fill(free0, chunk),
                    self.pos == old(self).pos,
                    self.sent == old(self).sent,
                    self.buf == old(self).buf,
                    self.console_sent == 0,
                    self.path == Path::Console,
                    self.written == old(self).written,
                    self.failure == old(self).failure,
                    self.saved_error == old(self).saved_error,
                decreases len - at,
            {
                let ghost held = self.console_buf@.subrange(0, self.console_pos as int);
                proof {
                    lemma_rest_after_first(chunk, at as int);
                }
                let (v, n) = scalar_at(bytes, at);
                let units = encode(v);
                self.console_buf[self.console_pos] = units.first;
                self.console_pos = self.console_pos + 1;
                match units.second {
                    Some(low) => {
                        self.console_buf[self.console_pos] = low;
                        self.console_pos = self.console_pos + 1;
                    },
                    None => {},
                }
                at = at + n;
                assert(self.console_buf@.subrange(0, self.console_pos as int) =~= held + units@);
                assert(held + units@ + console_fill(N - self.console_pos, chunk.skip(at as int))
                    =~= held + (units@ + console_fill(
                    N - self.console_pos,
                    chunk.skip(at as int),
                )));
            }
            assert(console_take(N - self.console_pos, chunk.skip(at as int)) == 0) by {
                if at >= len {
                    assert(chunk.skip(at as int).len() == 0);
                }
            }
            assert(console_fill(N - self.console_pos, chunk.skip(at as int)) =~= Seq::<
                u16,
            >::empty()) by {
                if at >= len {
                    assert(chunk.skip(at as int).len() == 0);
                }
            }
            assert(self.console_buf@.subrange(0, self.console_pos as int) =~= wide0 + console_fill(
                free0,
                chunk,
            ));
        }
        assert(at == old(self)@.take(chunk, true));
        let (_, rest) = s.split_at(at);
        assert(chunk.skip(at as int) =~= chunk.subrange(at as int, chunk.len() as int));
        assert(self@ =~= old(self)@.accept(chunk, true));
        rest
    }

    /// Takes of `s` what the buffer in use takes, and hands back the rest.
    fn accept<'a>(&mut self, s: &'a str, console: bool) -> (rest: &'a str)
        requires
            old(self).wf(),
            old(self)@.refusal(console) is None,
        ensures
            final(self).wf(),
            final(self)@ == old(self)@.accept(s.spec_bytes(), console),
            rest.spec_bytes() == s.spec_bytes().skip(old(self)@.take(s.spec_bytes(), console)),
    {
        if console {
            self.accept_console(s)
        } else {
            self.accept_bytes(s)
        }
    }

    /// Turns text away where the writer has given up or the destination has
    /// changed its kind, and remembers why.
    fn check_kind(&mut self, console: bool) -> (r: Result<(), Failure>)
        requires
            old(self).wf(),
        ensures
            final(self).wf(),
            match r {
                Ok(_) => old(self)@.refusal(console) is None && final(self)@ == old(self)@,
                Err(failure) => old(self)@.refusal(console) == Some(failure) && final(self)@
                    == (Model { failure: Some(failure), ..old(self)@ }),
            },
    {
        match self.failure {
            Some(failure) => {
                assert(self@ =~= (Model { failure: Some(failure), ..old(self)@ }));
                Err(failure)
            },
            None => {
                let switched = match self.path {
                    Path::Unset => false,
                    Path::Bytes => console,
                    Path::Console => !console,
                };
                if switched {
                    self.failure = Some(Failure::Switched);
                    assert(self@ =~= (Model { failure: Some(Failure::Switched), ..old(self)@ }));
                    Err(Failure::Switched)
                } else {
                    Ok(())
                }
            },
        }
    }

    /// Tells the writer the kind of the destination, as it is to be done
    /// before each write: whether it is a console that wants 16-bit units. A
    /// writer keeps to the kind that it was told first, with a piece of text
    /// or here. Told the other kind, it gives up, so that what it holds is
    /// never written in the wrong form.
    pub fn commit(&mut self, console: bool) -> (r: Result<(), Failure>)
        requires
            old(self).wf(),
        ensures
            final(self).wf(),
            final(self)@ == old(self)@.commit(console),
            match r {
                Ok(_) => old(self)@.refusal(console) is None,
                Err(failure) => old(self)@.refusal(console) == Some(failure),
            },
    {
        proof {
            old(self)@.lemma_flush(WriteOutcome::Interrupted);
        }
        match self.check_kind(console) {
            Err(failure) => Err(failure),
            Ok(_) => {
                self.path = if console {
                    Path::Console
                } else {
                    Path::Bytes
                };
                assert(self@ =~= old(self)@.commit(console));
                Ok(())
            },
        }
    }

    /// Takes as much of `s` as there is room for and hands back the rest,
    /// which is empty when all of `s` was taken. Where a rest comes back,
    /// what `pending` shows is to be written first; then the rest is handed
    /// in again. `console` says whether the destination is a console that
    /// wants 16-bit units; a writer keeps to the kind of its first text and
    /// gives up when the kind changes.
    pub fn write_str<'a>(&mut self, s: &'a str, console: bool) -> (r: Result<&'a str, Failure>)
        requires
            old(self).wf(),
        ensures
            final(self).wf(),
            final(self)@ == old(self)@.write(seq![s.spec_bytes()], console),
            match r {
                Ok(rest) => {
                    &&& old(self)@.refusal(console) is None
                    &&& final(self)@ == old(self)@.accept(s.spec_bytes(), console)
                    &&& rest.spec_bytes() == s.spec_bytes().skip(
                        old(self)@.take(s.spec_bytes(), console),
                    )
                },
                Err(failure) => {
                    &&& old(self)@.refusal(console) == Some(failure)
                    &&& final(self)@ == (Model { failure: Some(failure), ..old(self)@ })
                },
            },
    {
        proof {
            old(self)@.lemma_write_one(s.spec_bytes(), console);
        }
        match self.check_kind(console) {
            Err(failure) => Err(failure),
            Ok(_) => Ok(self.accept(s, console)),
        }
    }

    /// Takes the chunks of `text` in order, as `write_str` takes one, and
    /// hands back what is left: nothing, or the rest of the first chunk that
    /// did not fit and the chunks behind it.
    pub fn write<'a, const K: usize>(&mut self, text: Text<'a, K>, console: bool) -> (r: Result<
        Text<'a, K>,
        Failure,
    >)
        requires
            old(self).wf(),
            text.wf(),
        ensures
            final(self).wf(),
            final(self)@ == old(self)@.write(text@, console),
            match r {
                Ok(rest) => old(self)@.refusal(console) is None && rest.wf() && rest@
                    == old(self)@.left(text@, console),
                Err(failure) => old(self)@.refusal(console) == Some(failure),
            },
    {
        match self.check_kind(console) {
            Err(failure) => Err(failure),
            Ok(_) => {
                let mut left = text;
                while !left.is_empty()
                    invariant
                        self.wf(),
                        left.wf(),
                        self@.refusal(console) is None,
                        old(self)@.refusal(console) is None,
                        self@.feed(left@, console) == old(self)@.feed(text@, console),
                        self@.left(left@, console) == old(self)@.left(text@, console),
                    decreases left@.len(),
                {
                    let ghost m = self@;
                    let ghost chunks = left@;
                    let s = left.first();
                    let rest = self.accept(s, console);
                    proof {
                        left.lemma_valid();
                        m.lemma_accept(chunks[0], console);
                    }
                    if rest.as_bytes().len() == 0 {
                        left.advance();
                    } else {
                        left.replace_first(rest);
                        assert(self@ == m.feed(chunks, console));
                        assert(left@ =~= m.left(chunks, console));
                        return Ok(left);
                    }
                }
                Ok(left)
            },
        }
    }

    /// Takes the result of one write of the pending bytes. When the
    /// destination has taken them all, the buffer is empty again; when it
    /// took a part, the rest stays pending; an interrupted write changes
    /// nothing; after a failed one the writer gives up.
    pub fn flush_buf(&mut self, outcome: WriteOutcome) -> (r: Result<(), Failure>)
        requires
            old(self).wf(),
            outcome matches WriteOutcome::Written(n) ==> n <= old(self)@.unsent().len(),
        ensures
            final(self).wf(),
            final(self)@ == old(self)@.flush_buf(outcome),
            match r {
                Ok(_) => final(self)@.failure is None,
                Err(failure) => final(self)@.failure == Some(failure),
            },
    {
        proof {
            old(self)@.lemma_flush(outcome);
        }
        match self.failure {
            Some(failure) => Err(failure),
            None => match outcome {
                WriteOutcome::Written(n) => {
                    if n >= self.pos - self.sent {
                        self.pos = 0;
                        self.sent = 0;
                    } else {
                        self.sent = self.sent + n;
                    }
                    self.written = true;
                    assert(self@ =~= old(self)@.flush_buf(outcome));
                    Ok(())
                },
                WriteOutcome::Interrupted => Ok(()),
                WriteOutcome::Failed => {
                    self.failure = Some(Failure::Destination);
                    assert(self@ =~= old(self)@.flush_buf(outcome));
                    Err(Failure::Destination)
                },
            },
        }
    }

    /// The same for the pending 16-bit units.
    pub fn flush_console(&mut self, outcome: WriteOutcome) -> (r: Result<(), Failure>)
        requires
            old(self).wf(),
            outcome matches WriteOutcome::Written(n) ==> n <= old(self)@.wide_unsent().len(),
        ensures
            final(self).wf(),
            final(self)@ == old(self)@.flush_console(outcome),
            match r {
                Ok(_) => final(self)@.failure is None,
                Err(failure) => final(self)@.failure == Some(failure),
            },
    {
        proof {
            old(self)@.lemma_flush(outcome);
        }
        match self.failure {
            Some(failure) => Err(failure),
            None => match outcome {
                WriteOutcome::Written(n) => {
                    if n >= self.console_pos - self.console_sent {
                        self.console_pos = 0;
                        self.console_sent = 0;
                    } else {
                        self.console_sent = self.console_sent + n;
                    }
                    self.written = true;
                    assert(self@ =~= old(self)@.flush_console(outcome));
                    Ok(())
                },
                WriteOutcome::Interrupted => Ok(()),
                WriteOutcome::Failed => {
                    self.failure = Some(Failure::Destination);
                    assert(self@ =~= old(self)@.flush_console(outcome));
                    Err(Failure::Destination)
                },
            },
        }
    }

    /// Takes the result of one write of what `pending` showed: of the
    /// console buffer where the writer has committed to it, else of the byte
    /// buffer.
    pub fn flush(&mut self, outcome: WriteOutcome) -> (r: Result<(), Failure>)
        requires
            old(self).wf(),
            outcome matches WriteOutcome::Written(n) ==> n <= old(self)@.unsent().len() + old(
                self,
            )@.wide_unsent().len(),
        ensures
            final(self).wf(),
            final(self)@ == old(self)@.flush(outcome),
            match r {
                Ok(_) => final(self)@.failure is None,
                Err(failure) => final(self)@.failure == Some(failure),
            },
    {
        match self.path {
            Path::Console => self.flush_console(outcome),
            _ => self.flush_buf(outcome),
        }
    }
}

impl<const N: usize> Drop for Writer<N> {
    /// Puts the saved error status back, whatever became of the writes.
    /// The writer itself stays as it is.
    fn drop(&mut self)
        ensures
            *final(self) == *old(self),
        opens_invariants none
        no_unwind
    {
        set_ambient_error(self.saved_error);
    }
}

} // verus!
