//! A piece of text made of up to `K` string slices, of which a writer takes
//! as much as it has room for and hands the rest back.

use vstd::prelude::*;
use vstd::slice::slice_subrange;
use vstd::string::StringSliceAdditionalSpecFns;
use vstd::utf8::*;

verus! {

/// The bytes of each slice.
pub open spec fn chunks_of(parts: Seq<&str>) -> Seq<Seq<u8>> {
    Seq::new(parts.len(), |i: int| parts[i].spec_bytes())
}

/// All chunks, one after the other.
pub open spec fn concat(chunks: Seq<Seq<u8>>) -> Seq<u8>
    decreases chunks.len(),
{
    if chunks.len() == 0 {
        Seq::empty()
    } else {
        chunks[0] + concat(chunks.drop_first())
    }
}

/// Whether every chunk is well-formed UTF-8.
pub open spec fn all_valid(chunks: Seq<Seq<u8>>) -> bool {
    forall|i: int| 0 <= i < chunks.len() ==> valid_utf8(#[trigger] chunks[i])
}

/// A bytes-only view of an ASCII string: each byte is its character.
pub proof fn lemma_ascii_bytes(s: &str)
    requires
        is_ascii_chars(s@),
    ensures
        s.spec_bytes() == Seq::new(s@.len(), |i: int| s@[i] as u8),
{
    is_ascii_chars_encode_utf8(s@);
    assert(s.spec_bytes() =~= Seq::new(s@.len(), |i: int| s@[i] as u8));
}

/// All chunks together where the last is set apart.
pub proof fn lemma_concat_push(chunks: Seq<Seq<u8>>, last: Seq<u8>)
    ensures
        concat(chunks.push(last)) == concat(chunks) + last,
    decreases chunks.len(),
{
    if chunks.len() == 0 {
        reveal_with_fuel(concat, 2);
        assert(chunks.push(last).drop_first() =~= Seq::<Seq<u8>>::empty());
        assert(concat(chunks.push(last)) =~= last);
        assert(concat(chunks) + last =~= last);
    } else {
        lemma_concat_push(chunks.drop_first(), last);
        assert(chunks.push(last).drop_first() =~= chunks.drop_first().push(last));
        assert(concat(chunks.push(last)) =~= concat(chunks) + last);
    }
}

/// Two runs of chunks together.
pub proof fn lemma_concat_add(a: Seq<Seq<u8>>, b: Seq<Seq<u8>>)
    ensures
        concat(a + b) == concat(a) + concat(b),
    decreases a.len(),
{
    if a.len() == 0 {
        assert(a + b =~= b);
        assert(concat(a) + concat(b) =~= concat(b));
    } else {
        lemma_concat_add(a.drop_first(), b);
        assert((a + b).drop_first() =~= a.drop_first() + b);
        assert(concat(a + b) =~= concat(a) + concat(b));
    }
}

/// Empty chunks add nothing.
pub proof fn lemma_concat_blank(count: nat)
    ensures
        concat(Seq::new(count, |i: int| Seq::<u8>::empty())) == Seq::<u8>::empty(),
    decreases count,
{
    let blanks = Seq::new(count, |i: int| Seq::<u8>::empty());
    if count > 0 {
        lemma_concat_blank((count - 1) as nat);
        assert(blanks.drop_first() =~= Seq::new((count - 1) as nat, |i: int| Seq::<u8>::empty()));
        assert(concat(blanks) =~= Seq::<u8>::empty());
    }
}

/// Up to `K` string slices that are printed one after the other.
#[derive(Clone, Copy, Debug)]
pub struct Text<'a, const K: usize> {
    parts: [&'a str; K],
    next: usize,
}

impl<'a, const K: usize> View for Text<'a, K> {
    type V = Seq<Seq<u8>>;

    /// The chunks that are left, in order.
    closed spec fn view(&self) -> Seq<Seq<u8>> {
        chunks_of(self.parts@.skip(self.next as int))
    }
}

impl<'a, const K: usize> Text<'a, K> {
    pub closed spec fn wf(&self) -> bool {
        self.next <= K
    }

    /// The text whose chunks are `parts`.
    pub fn new(parts: [&'a str; K]) -> (text: Self)
        ensures
            text.wf(),
            text@ == chunks_of(parts@),
    {
        let text = Text { parts, next: 0 };
        assert(parts@.skip(0) =~= parts@);
        text
    }

    /// Whether nothing is left.
    pub fn is_empty(&self) -> (b: bool)
        requires
            self.wf(),
        ensures
            b == (self@.len() == 0),
    {
        self.next >= K
    }

    /// The slices that are left, in order.
    pub fn parts(&self) -> (parts: &[&'a str])
        requires
            self.wf(),
        ensures
            chunks_of(parts@) == self@,
    {
        let parts = slice_subrange(self.parts.as_slice(), self.next, K);
        assert(parts@ =~= self.parts@.skip(self.next as int));
        parts
    }

    /// The first chunk that is left.
    pub(crate) fn first(&self) -> (s: &'a str)
        requires
            self.wf(),
            self@.len() > 0,
        ensures
            s.spec_bytes() == self@[0],
    {
        self.parts[self.next]
    }

    /// Drops the first chunk.
    pub(crate) fn advance(&mut self)
        requires
            old(self).wf(),
            old(self)@.len() > 0,
        ensures
            final(self).wf(),
            final(self)@ == old(self)@.drop_first(),
    {
        self.next = self.next + 1;
        assert(self@ =~= old(self)@.drop_first());
    }

    /// Puts `rest` in the place of the first chunk.
    pub(crate) fn replace_first(&mut self, rest: &'a str)
        requires
            old(self).wf(),
            old(self)@.len() > 0,
        ensures
            final(self).wf(),
            final(self)@ == seq![rest.spec_bytes()] + old(self)@.drop_first(),
    {
        self.parts[self.next] = rest;
        assert(self@ =~= seq![rest.spec_bytes()] + old(self)@.drop_first());
    }

    /// Every chunk is the encoding of a string, so it is well formed.
    pub proof fn lemma_valid(&self)
        ensures
            all_valid(self@),
    {
        assert forall|i: int| 0 <= i < self@.len() implies valid_utf8(#[trigger] self@[i]) by {
            encode_utf8_valid_utf8(self.parts@.skip(self.next as int)[i]@);
        }
    }
}

} // verus!
