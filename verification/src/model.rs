//! The writer as a state machine over plain values: what it holds, what a
//! piece of text does to it, and what the result of one write to the
//! destination does to it.

use vstd::prelude::*;
use vstd::utf8::*;
use crate::scalar::{lemma_decode_concat, lemma_first_scalar, lemma_valid_rest_is_boundary};
use crate::text::{all_valid, concat};
use crate::utf16::{
    decode_utf16,
    lemma_encode_concat,
    encode_scalar,
    encode_utf16,
    is_whole_text,
    lemma_round_trip,
    lemma_whole_concat,
    unit_count,
};

verus! {

/// Which of its two buffers a writer has committed to.
#[derive(Clone, Copy, Debug, PartialEq, Eq, Structural)]
pub enum Path {
    /// Nothing has been written yet.
    Unset,
    /// The destination takes encoded bytes.
    Bytes,
    /// The destination is a console that takes 16-bit units.
    Console,
}

/// How one write to the destination ended.
#[derive(Clone, Copy, Debug, PartialEq, Eq, Structural)]
pub enum WriteOutcome {
    /// The destination took this many units from the front of the payload.
    Written(usize),
    /// The call was interrupted before it took anything; it is to be
    /// repeated as it was.
    Interrupted,
    /// The destination refused the payload.
    Failed,
}

/// Why a writer gave up. It stays given up.
#[derive(Clone, Copy, Debug, PartialEq, Eq, Structural)]
pub enum Failure {
    /// A write to the destination failed.
    Destination,
    /// The destination was a console at one time and none at another.
    Switched,
}

/// What a writer holds.
#[verifier::ext_equal]
pub struct Model {
    /// The size of each buffer, in units.
    pub capacity: nat,
    pub path: Path,
    /// The gathered bytes, those that the destination has taken included.
    pub bytes: Seq<u8>,
    /// The gathered 16-bit units, likewise.
    pub wide: Seq<u16>,
    /// How many of `bytes` the destination has taken.
    pub sent: nat,
    /// How many of `wide` the destination has taken.
    pub wide_sent: nat,
    /// Whether the destination has taken a write since the writer was made.
    pub written: bool,
    pub failure: Option<Failure>,
    /// The error status that was current when the writer was made.
    pub saved_error: i32,
}

/// The least capacity: the longest encoding of one character, in bytes.
pub const MIN_CAPACITY: usize = 4;

/// The greatest place up to `at` where a character of `bytes` starts.
pub open spec fn floor_boundary(bytes: Seq<u8>, at: int) -> int
    decreases at,
{
    if at <= 0 {
        0
    } else if is_char_boundary(bytes, at) {
        at
    } else {
        floor_boundary(bytes, at - 1)
    }
}

/// How many bytes of `bytes` a console buffer with `free` places takes:
/// whole characters, as long as two places are free.
pub open spec fn console_take(free: int, bytes: Seq<u8>) -> int
    decreases bytes.len(),
{
    if bytes.len() == 0 || free < 2 || !valid_first_scalar(bytes) || length_of_first_scalar(bytes)
        > bytes.len() {
        0
    } else {
        length_of_first_scalar(bytes) + console_take(
            free - unit_count(decode_first_scalar(bytes)),
            pop_first_scalar(bytes),
        )
    }
}

/// The units that those characters become.
pub open spec fn console_fill(free: int, bytes: Seq<u8>) -> Seq<u16>
    decreases bytes.len(),
{
    if bytes.len() == 0 || free < 2 || !valid_first_scalar(bytes) || length_of_first_scalar(bytes)
        > bytes.len() {
        Seq::empty()
    } else {
        encode_scalar(decode_first_scalar(bytes)) + console_fill(
            free - unit_count(decode_first_scalar(bytes)),
            pop_first_scalar(bytes),
        )
    }
}

impl Model {
    /// A writer that has seen nothing.
    pub open spec fn fresh(capacity: nat, saved_error: i32) -> Model {
        Model {
            capacity,
            path: Path::Unset,
            bytes: Seq::empty(),
            wide: Seq::empty(),
            sent: 0,
            wide_sent: 0,
            written: false,
            failure: None,
            saved_error,
        }
    }

    pub open spec fn wf(self) -> bool {
        &&& self.capacity >= MIN_CAPACITY
        &&& self.bytes.len() <= self.capacity
        &&& self.wide.len() <= self.capacity
        &&& valid_utf8(self.bytes)
        &&& is_whole_text(self.wide)
        &&& (self.path != Path::Bytes ==> self.bytes.len() == 0)
        &&& (self.path != Path::Console ==> self.wide.len() == 0)
        &&& (self.sent == 0 || self.sent < self.bytes.len())
        &&& (self.wide_sent == 0 || self.wide_sent < self.wide.len())
    }

    /// The bytes that the destination has yet to take.
    pub open spec fn unsent(self) -> Seq<u8> {
        self.bytes.skip(self.sent as int)
    }

    /// The 16-bit units that the destination has yet to take.
    pub open spec fn wide_unsent(self) -> Seq<u16> {
        self.wide.skip(self.wide_sent as int)
    }

    /// Whether nothing waits for the destination.
    pub open spec fn drained(self) -> bool {
        self.bytes.len() == 0 && self.wide.len() == 0
    }

    /// Whether a write is owed: something waits for the destination, or
    /// nothing has been written yet. So every message is written at least
    /// once, the empty one too, and a writer that has given up writes no
    /// more.
    pub open spec fn owes_write(self) -> bool {
        self.failure is None && (self.unsent().len() > 0 || self.wide_unsent().len() > 0
            || !self.written)
    }

    pub open spec fn path_for(console: bool) -> Path {
        if console {
            Path::Console
        } else {
            Path::Bytes
        }
    }

    /// The failure with which a piece of text is turned away, if it is.
    pub open spec fn refusal(self, console: bool) -> Option<Failure> {
        if self.failure is Some {
            self.failure
        } else if self.path != Path::Unset && self.path != Self::path_for(console) {
            Some(Failure::Switched)
        } else {
            None
        }
    }

    /// The writer after it was told the kind of the destination: it keeps to
    /// the kind that it was told first, and gives up when told the other.
    pub open spec fn commit(self, console: bool) -> Model {
        match self.refusal(console) {
            Some(failure) => Model { failure: Some(failure), ..self },
            None => Model { path: Self::path_for(console), ..self },
        }
    }

    /// How many bytes of `chunk` the writer takes now. With a flush under
    /// way it takes none. On the byte path it takes a chunk that fits whole,
    /// makes one that does not fit wait until the buffer is empty, and cuts
    /// one that is larger than the buffer where a character starts.
    pub open spec fn take(self, chunk: Seq<u8>, console: bool) -> int {
        if console {
            if self.wide_sent > 0 {
                0
            } else {
                console_take(self.capacity - self.wide.len(), chunk)
            }
        } else {
            if self.sent > 0 {
                0
            } else if self.bytes.len() + chunk.len() <= self.capacity {
                chunk.len() as int
            } else if self.bytes.len() > 0 {
                0
            } else {
                floor_boundary(chunk, self.capacity as int)
            }
        }
    }

    /// The writer after it took what it takes of `chunk`.
    pub open spec fn accept(self, chunk: Seq<u8>, console: bool) -> Model {
        if console {
            Model {
                path: Path::Console,
                wide: if self.wide_sent > 0 {
                    self.wide
                } else {
                    self.wide + console_fill(self.capacity - self.wide.len(), chunk)
                },
                ..self
            }
        } else {
            Model {
                path: Path::Bytes,
                bytes: self.bytes + chunk.take(self.take(chunk, false)),
                ..self
            }
        }
    }

    /// The writer after it took the chunks in order, up to the first that it
    /// did not take whole.
    pub open spec fn feed(self, chunks: Seq<Seq<u8>>, console: bool) -> Model
        decreases chunks.len(),
    {
        if chunks.len() == 0 {
            self
        } else if self.take(chunks[0], console) == chunks[0].len() {
            self.accept(chunks[0], console).feed(chunks.drop_first(), console)
        } else {
            self.accept(chunks[0], console)
        }
    }

    /// What is left of the chunks after `feed`: nothing, or the rest of the
    /// chunk that was not taken whole and the chunks behind it.
    pub open spec fn left(self, chunks: Seq<Seq<u8>>, console: bool) -> Seq<Seq<u8>>
        decreases chunks.len(),
    {
        if chunks.len() == 0 {
            chunks
        } else if self.take(chunks[0], console) == chunks[0].len() {
            self.accept(chunks[0], console).left(chunks.drop_first(), console)
        } else {
            seq![chunks[0].skip(self.take(chunks[0], console))] + chunks.drop_first()
        }
    }

    /// The bytes that `feed` takes of the chunks, in order.
    pub open spec fn taken(self, chunks: Seq<Seq<u8>>, console: bool) -> Seq<u8>
        decreases chunks.len(),
    {
        if chunks.len() == 0 {
            Seq::empty()
        } else if self.take(chunks[0], console) == chunks[0].len() {
            chunks[0] + self.accept(chunks[0], console).taken(chunks.drop_first(), console)
        } else {
            chunks[0].take(self.take(chunks[0], console))
        }
    }

    /// The writer after one call that hands it text: turned away, it keeps
    /// what it holds and remembers why.
    pub open spec fn write(self, chunks: Seq<Seq<u8>>, console: bool) -> Model {
        match self.refusal(console) {
            Some(failure) => Model { failure: Some(failure), ..self },
            None => self.feed(chunks, console),
        }
    }

    /// The writer after one write of `unsent()` ended with `outcome`.
    pub open spec fn flush_buf(self, outcome: WriteOutcome) -> Model {
        if self.failure is Some {
            self
        } else {
            match outcome {
                WriteOutcome::Written(n) => if self.sent + n >= self.bytes.len() {
                    Model { bytes: Seq::empty(), sent: 0, written: true, ..self }
                } else {
                    Model { sent: (self.sent + n) as nat, written: true, ..self }
                },
                WriteOutcome::Interrupted => self,
                WriteOutcome::Failed => Model { failure: Some(Failure::Destination), ..self },
            }
        }
    }

    /// The writer after one write of `wide_unsent()` ended with `outcome`.
    pub open spec fn flush_console(self, outcome: WriteOutcome) -> Model {
        if self.failure is Some {
            self
        } else {
            match outcome {
                WriteOutcome::Written(n) => if self.wide_sent + n >= self.wide.len() {
                    Model { wide: Seq::empty(), wide_sent: 0, written: true, ..self }
                } else {
                    Model { wide_sent: (self.wide_sent + n) as nat, written: true, ..self }
                },
                WriteOutcome::Interrupted => self,
                WriteOutcome::Failed => Model { failure: Some(Failure::Destination), ..self },
            }
        }
    }

    /// The same for the buffer in use: the console buffer where the writer
    /// has committed to it, else the byte buffer.
    pub open spec fn flush(self, outcome: WriteOutcome) -> Model {
        if self.path == Path::Console {
            self.flush_console(outcome)
        } else {
            self.flush_buf(outcome)
        }
    }
}

/// `floor_boundary` is a place where a character starts, and lies in range.
pub proof fn lemma_floor_boundary(bytes: Seq<u8>, at: int)
    requires
        valid_utf8(bytes),
    ensures
        0 <= floor_boundary(bytes, at),
        at >= 0 ==> floor_boundary(bytes, at) <= at,
        is_char_boundary(bytes, floor_boundary(bytes, at)),
    decreases at,
{
    if at <= 0 {
    } else if is_char_boundary(bytes, at) {
    } else {
        lemma_floor_boundary(bytes, at - 1);
    }
}

/// The greatest start of a character up to `at` is no less than any start
/// of a character up to `at`.
pub proof fn lemma_floor_is_greatest(bytes: Seq<u8>, at: int, other: int)
    requires
        valid_utf8(bytes),
        0 <= other <= at,
        is_char_boundary(bytes, other),
    ensures
        other <= floor_boundary(bytes, at),
    decreases at,
{
    if at <= 0 {
    } else if is_char_boundary(bytes, at) {
    } else {
        lemma_floor_is_greatest(bytes, at - 1, other);
    }
}

/// What the console path takes of a well-formed text: a whole number of
/// characters, which need no more places than are free, and whose units are
/// those of the taken bytes read as text. It stops short of the end only
/// where fewer than two places are left.
pub proof fn lemma_console_take(free: int, bytes: Seq<u8>)
    requires
        valid_utf8(bytes),
    ensures
        0 <= console_take(free, bytes) <= bytes.len(),
        valid_utf8(bytes.take(console_take(free, bytes))),
        valid_utf8(bytes.skip(console_take(free, bytes))),
        console_fill(free, bytes) == encode_utf16(
            decode_utf8(bytes.take(console_take(free, bytes))),
        ),
        free >= 0 ==> console_fill(free, bytes).len() <= free,
        console_take(free, bytes) < bytes.len() ==> free - console_fill(free, bytes).len() < 2,
    decreases bytes.len(),
{
    if bytes.len() == 0 || free < 2 {
        assert(bytes.take(0) =~= Seq::<u8>::empty());
        assert(bytes.skip(0) =~= bytes);
        assert(decode_utf8(Seq::<u8>::empty()) =~= Seq::<char>::empty());
    } else {
        lemma_first_scalar(bytes);
        let n = length_of_first_scalar(bytes);
        let v = decode_first_scalar(bytes);
        let rest = pop_first_scalar(bytes);
        let free2 = free - unit_count(v);
        lemma_console_take(free2, rest);
        let k2 = console_take(free2, rest);
        let k = n + k2;
        assert(console_take(free, bytes) == k);
        let head = bytes.take(k);
        assert(head.len() > 0);
        assert(valid_first_scalar(head)) by {
            assert(head[0] == bytes[0]);
            assert(n >= 2 ==> head[1] == bytes[1]);
            assert(n >= 3 ==> head[2] == bytes[2]);
            assert(n >= 4 ==> head[3] == bytes[3]);
        }
        assert(decode_first_scalar(head) == v);
        assert(length_of_first_scalar(head) == n);
        assert(pop_first_scalar(head) =~= rest.take(k2));
        assert(bytes.skip(k) =~= rest.skip(k2));
        assert(valid_utf8(head));
        assert(decode_utf8(head) == seq![v as char] + decode_utf8(rest.take(k2)));
        let chars = decode_utf8(head);
        assert(chars[0] == v as char);
        assert(chars.drop_first() =~= decode_utf8(rest.take(k2)));
        assert(encode_utf16(chars) == encode_scalar(v) + encode_utf16(chars.drop_first()));
    }
}

impl Model {
    /// A fresh writer is well formed.
    pub proof fn lemma_fresh_wf(capacity: nat, saved_error: i32)
        requires
            capacity >= MIN_CAPACITY,
        ensures
            Self::fresh(capacity, saved_error).wf(),
    {
        assert(encode_utf16(decode_utf16(Seq::<u16>::empty())) =~= Seq::<u16>::empty());
    }

    /// What is taken of a chunk lies within it, ends where a character
    /// starts, and leaves the writer well formed.
    pub proof fn lemma_accept(self, chunk: Seq<u8>, console: bool)
        requires
            self.wf(),
            self.refusal(console) is None,
            valid_utf8(chunk),
        ensures
            0 <= self.take(chunk, console) <= chunk.len(),
            is_char_boundary(chunk, self.take(chunk, console)),
            self.accept(chunk, console).wf(),
            self.accept(chunk, console).refusal(console) is None,
    {
        let k = self.take(chunk, console);
        if console {
            let free = self.capacity - self.wide.len();
            lemma_console_take(free, chunk);
            if self.wide_sent > 0 {
                is_char_boundary_start_end_of_seq(chunk);
            } else {
                lemma_valid_rest_is_boundary(chunk, k);
                let fill = console_fill(free, chunk);
                lemma_round_trip(decode_utf8(chunk.take(k)));
                lemma_whole_concat(self.wide, fill);
            }
        } else {
            is_char_boundary_start_end_of_seq(chunk);
            lemma_floor_boundary(chunk, self.capacity as int);
            valid_utf8_split(chunk, k);
            assert(chunk.take(k) =~= chunk.subrange(0, k));
            valid_utf8_concat(self.bytes, chunk.take(k));
        }
    }

    /// Feeding well-formed chunks leaves the writer well formed; what is left
    /// is well formed; and either nothing is left, or the first chunk left is
    /// not empty.
    pub proof fn lemma_feed(self, chunks: Seq<Seq<u8>>, console: bool)
        requires
            self.wf(),
            self.refusal(console) is None,
            all_valid(chunks),
        ensures
            self.feed(chunks, console).wf(),
            self.feed(chunks, console).refusal(console) is None,
            all_valid(self.left(chunks, console)),
            self.left(chunks, console).len() > 0 ==> self.left(chunks, console)[0].len() > 0,
            self.left(chunks, console).len() <= chunks.len(),
        decreases chunks.len(),
    {
        if chunks.len() == 0 {
        } else {
            let k = self.take(chunks[0], console);
            self.lemma_accept(chunks[0], console);
            if k == chunks[0].len() {
                self.accept(chunks[0], console).lemma_feed(chunks.drop_first(), console);
            } else {
                valid_utf8_split(chunks[0], k);
                assert(chunks[0].skip(k) =~= chunks[0].subrange(k, chunks[0].len() as int));
                let left = self.left(chunks, console);
                assert forall|i: int| 0 <= i < left.len() implies valid_utf8(#[trigger] left[i]) by {
                    if i > 0 {
                        assert(left[i] == chunks[i]);
                    }
                }
            }
        }
    }

    /// Text of one chunk is taken as that chunk is.
    pub proof fn lemma_write_one(self, chunk: Seq<u8>, console: bool)
        ensures
            self.refusal(console) is None ==> self.write(seq![chunk], console) == self.accept(
                chunk,
                console,
            ),
            self.left(seq![chunk], console).len() == 0 <==> self.take(chunk, console)
                == chunk.len(),
            self.taken(seq![chunk], console) == chunk.take(self.take(chunk, console)),
    {
        let chunks = seq![chunk];
        assert(chunks.drop_first() =~= Seq::<Seq<u8>>::empty());
        reveal_with_fuel(Model::feed, 2);
        reveal_with_fuel(Model::left, 2);
        reveal_with_fuel(Model::taken, 2);
        if self.take(chunk, console) == chunk.len() {
            assert(chunk.take(chunk.len() as int) =~= chunk);
            assert(self.taken(chunks, console) =~= chunk);
        }
    }

    /// Feeding changes nothing but the buffer in use and the path.
    #[verifier::rlimit(50)]
    pub proof fn lemma_feed_keeps(self, chunks: Seq<Seq<u8>>, console: bool)
        requires
            self.wf(),
            self.refusal(console) is None,
            all_valid(chunks),
        ensures
            self.feed(chunks, console).saved_error == self.saved_error,
            self.feed(chunks, console).capacity == self.capacity,
            self.feed(chunks, console).sent == self.sent,
            self.feed(chunks, console).wide_sent == self.wide_sent,
            self.feed(chunks, console).failure == self.failure,
        self.feed(chunks, console).written == self.written,
            chunks.len() > 0 ==> self.feed(chunks, console).path == Model::path_for(console),
            chunks.len() == 0 ==> self.feed(chunks, console) == self,
            !console ==> self.feed(chunks, console).bytes == self.bytes + self.taken(chunks, console),
            !console ==> self.feed(chunks, console).wide == self.wide,
            console ==> self.feed(chunks, console).bytes == self.bytes,
            valid_utf8(self.taken(chunks, console)),
            console ==> self.feed(chunks, console).wide == self.wide + encode_utf16(
                decode_utf8(self.taken(chunks, console)),
            ),
            self.taken(chunks, console) + concat(self.left(chunks, console)) == concat(chunks),
        decreases chunks.len(),
    {
        let m = self;
        if chunks.len() == 0 {
            assert(m.bytes + m.taken(chunks, console) =~= m.bytes);
            assert(decode_utf8(Seq::<u8>::empty()) =~= Seq::<char>::empty());
            assert(m.wide + encode_utf16(Seq::<char>::empty()) =~= m.wide);
            assert(m.taken(chunks, console) + concat(m.left(chunks, console)) =~= concat(chunks));
        } else {
            let chunk = chunks[0];
            let k = m.take(chunk, console);
            let m1 = m.accept(chunk, console);
            m.lemma_accept(chunk, console);
            valid_utf8_split(chunk, k);
            assert(chunk.take(k) =~= chunk.subrange(0, k));
            assert(chunk.skip(k) =~= chunk.subrange(k, chunk.len() as int));
            if console {
                lemma_console_take(m.capacity - m.wide.len(), chunk);
            }
            if k == chunk.len() {
                let rest = chunks.drop_first();
                m1.lemma_feed_keeps(rest, console);
                let t = m1.taken(rest, console);
                assert(chunk.take(k) =~= chunk);
                valid_utf8_concat(chunk, t);
                assert(m.bytes + chunk + t =~= m.bytes + (chunk + t));
                if console {
                    lemma_decode_concat(chunk, t);
                    lemma_encode_concat(decode_utf8(chunk), decode_utf8(t));
                    if m.wide_sent > 0 {
                        // nothing is taken while a flush is under way
                        assert(chunk.len() == 0);
                        assert(decode_utf8(chunk) =~= Seq::<char>::empty());
                        assert(encode_utf16(decode_utf8(chunk)) =~= Seq::<u16>::empty());
                    }
                    assert(m1.wide == m.wide + encode_utf16(decode_utf8(chunk)));
                    assert(m.wide + encode_utf16(decode_utf8(chunk)) + encode_utf16(decode_utf8(t))
                        =~= m.wide + (encode_utf16(decode_utf8(chunk)) + encode_utf16(
                        decode_utf8(t),
                    )));
                }
                assert((chunk + t) + concat(m1.left(rest, console)) =~= chunk + (t + concat(
                    m1.left(rest, console),
                )));
            } else {
                let left = m.left(chunks, console);
                assert(left.drop_first() =~= chunks.drop_first());
                assert(left[0] == chunk.skip(k));
                assert(chunk.take(k) + (chunk.skip(k) + concat(chunks.drop_first())) =~= (chunk.take(k)
                    + chunk.skip(k)) + concat(chunks.drop_first()));
                assert(chunk.take(k) + chunk.skip(k) =~= chunk);
                if console && m.wide_sent > 0 {
                    assert(chunk.take(k) =~= Seq::<u8>::empty());
                    assert(decode_utf8(Seq::<u8>::empty()) =~= Seq::<char>::empty());
                    assert(m.wide + encode_utf16(Seq::<char>::empty()) =~= m.wide);
                }
            }
        }
    }

    /// Chunks that fit the room left in the byte buffer are taken whole.
    pub proof fn lemma_fits(self, chunks: Seq<Seq<u8>>)
        requires
            self.wf(),
            self.refusal(false) is None,
            self.sent == 0,
            all_valid(chunks),
            self.bytes.len() + concat(chunks).len() <= self.capacity,
        ensures
            self.left(chunks, false).len() == 0,
            self.taken(chunks, false) == concat(chunks),
            self.feed(chunks, false).bytes == self.bytes + concat(chunks),
            self.feed(chunks, false).sent == 0,
            self.feed(chunks, false).written == self.written,
            self.feed(chunks, false).failure == self.failure,
        decreases chunks.len(),
    {
        let m = self;
        m.lemma_feed_keeps(chunks, false);
        if chunks.len() == 0 {
            assert(m.bytes + concat(chunks) =~= m.bytes);
        } else {
            let chunk = chunks[0];
            m.lemma_accept(chunk, false);
            let m1 = m.accept(chunk, false);
            assert(chunk.take(chunk.len() as int) =~= chunk);
            m1.lemma_fits(chunks.drop_first());
            assert(m.bytes + chunk + concat(chunks.drop_first()) =~= m.bytes + concat(chunks));
        }
    }

    /// One result of a write leaves the writer well formed, and so does
    /// being told the kind of the destination.
    pub proof fn lemma_flush(self, outcome: WriteOutcome)
        requires
            self.wf(),
        ensures
            self.flush_buf(outcome).wf(),
            self.flush_console(outcome).wf(),
            self.flush(outcome).wf(),
            self.commit(true).wf(),
            self.commit(false).wf(),
    {
        assert(encode_utf16(decode_utf16(Seq::<u16>::empty())) =~= Seq::<u16>::empty());
    }
}

} // verus!
