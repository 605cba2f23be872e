//! UTF-16 as the console wants it: every character becomes one 16-bit unit,
//! or a surrogate pair when it lies above the basic plane.

use vstd::prelude::*;

verus! {

/// The first unit of a surrogate pair.
pub open spec fn is_high_surrogate(u: u16) -> bool {
    0xD800 <= u <= 0xDBFF
}

/// The second unit of a surrogate pair.
pub open spec fn is_low_surrogate(u: u16) -> bool {
    0xDC00 <= u <= 0xDFFF
}

/// Whether `v` is a character's number: at most 0x10FFFF and no surrogate.
pub open spec fn is_scalar_value(v: u32) -> bool {
    v <= 0x10FFFF && !(0xD800 <= v <= 0xDFFF)
}

/// The number of 16-bit units that the scalar value `v` takes.
pub open spec fn unit_count(v: u32) -> nat {
    if v < 0x10000 {
        1
    } else {
        2
    }
}

/// The high surrogate of a scalar value above the basic plane.
pub open spec fn high_surrogate(v: u32) -> u16 {
    (0xD800 + (v - 0x10000) / 0x400) as u16
}

/// The low surrogate of a scalar value above the basic plane.
pub open spec fn low_surrogate(v: u32) -> u16 {
    (0xDC00 + (v - 0x10000) % 0x400) as u16
}

/// The units of one scalar value.
pub open spec fn encode_scalar(v: u32) -> Seq<u16> {
    if v < 0x10000 {
        seq![v as u16]
    } else {
        seq![high_surrogate(v), low_surrogate(v)]
    }
}

/// The units of a text, character by character.
pub open spec fn encode_utf16(chars: Seq<char>) -> Seq<u16>
    decreases chars.len(),
{
    if chars.len() == 0 {
        Seq::empty()
    } else {
        encode_scalar(chars[0] as u32) + encode_utf16(chars.drop_first())
    }
}

/// The scalar value that a surrogate pair stands for.
pub open spec fn join_surrogates(high: u16, low: u16) -> u32 {
    (0x10000 + (high - 0xD800) * 0x400 + (low - 0xDC00)) as u32
}

/// Whether `units` starts with a surrogate pair.
pub open spec fn starts_with_pair(units: Seq<u16>) -> bool {
    units.len() >= 2 && is_high_surrogate(units[0]) && is_low_surrogate(units[1])
}

/// The text that `units` stand for. A surrogate without its partner is read
/// as a unit of its own; no encoded text holds one.
pub open spec fn decode_utf16(units: Seq<u16>) -> Seq<char>
    decreases units.len(),
{
    if units.len() == 0 {
        Seq::empty()
    } else if starts_with_pair(units) {
        seq![join_surrogates(units[0], units[1]) as char] + decode_utf16(units.skip(2))
    } else {
        seq![units[0] as char] + decode_utf16(units.skip(1))
    }
}

/// Whether `units` is the encoding of some text: cut anywhere but at its
/// ends, it may fall apart; kept whole, it reads back as that text.
pub open spec fn is_whole_text(units: Seq<u16>) -> bool {
    encode_utf16(decode_utf16(units)) == units
}

/// The units of one character, as plain values.
pub struct Units {
    pub first: u16,
    pub second: Option<u16>,
}

impl View for Units {
    type V = Seq<u16>;

    open spec fn view(&self) -> Seq<u16> {
        match self.second {
            Some(low) => seq![self.first, low],
            None => seq![self.first],
        }
    }
}

/// Encodes one scalar value.
pub fn encode(v: u32) -> (units: Units)
    requires
        is_scalar_value(v),
    ensures
        units@ == encode_scalar(v),
{
    if v < 0x10000 {
        Units { first: v as u16, second: None }
    } else {
        let above: u32 = v - 0x10000;
        let high: u32 = 0xD800 + above / 0x400;
        let low: u32 = 0xDC00 + above % 0x400;
        Units { first: high as u16, second: Some(low as u16) }
    }
}

/// The units of one character read back as that character, whatever follows.
pub proof fn lemma_decode_first(c: char, rest: Seq<u16>)
    ensures
        decode_utf16(encode_scalar(c as u32) + rest) == seq![c] + decode_utf16(rest),
{
    let v = c as u32;
    let units = encode_scalar(v) + rest;
    if v < 0x10000 {
        assert(units[0] == v as u16);
        assert(!is_high_surrogate(units[0]));
        assert(units.skip(1) =~= rest);
        assert(units[0] as char == c);
    } else {
        assert(units[0] == high_surrogate(v));
        assert(units[1] == low_surrogate(v));
        assert(starts_with_pair(units));
        assert(units.skip(2) =~= rest);
        assert(join_surrogates(units[0], units[1]) == v);
        assert(v as char == c);
    }
}

/// Encoding goes through concatenation.
pub proof fn lemma_encode_concat(a: Seq<char>, b: Seq<char>)
    ensures
        encode_utf16(a + b) == encode_utf16(a) + encode_utf16(b),
    decreases a.len(),
{
    if a.len() == 0 {
        assert(a + b =~= b);
        assert(encode_utf16(a) + encode_utf16(b) =~= encode_utf16(b));
    } else {
        lemma_encode_concat(a.drop_first(), b);
        assert((a + b).drop_first() =~= a.drop_first() + b);
        assert((a + b)[0] == a[0]);
        assert(encode_scalar(a[0] as u32) + (encode_utf16(a.drop_first()) + encode_utf16(b))
            =~= (encode_scalar(a[0] as u32) + encode_utf16(a.drop_first())) + encode_utf16(b));
    }
}

/// Every text reads back from its units unchanged.
pub proof fn lemma_round_trip(chars: Seq<char>)
    ensures
        decode_utf16(encode_utf16(chars)) == chars,
        is_whole_text(encode_utf16(chars)),
    decreases chars.len(),
{
    if chars.len() == 0 {
        assert(decode_utf16(encode_utf16(chars)) =~= chars);
    } else {
        lemma_round_trip(chars.drop_first());
        lemma_decode_first(chars[0], encode_utf16(chars.drop_first()));
        assert(seq![chars[0]] + chars.drop_first() =~= chars);
    }
}

/// Two whole texts, one after the other, are a whole text again.
pub proof fn lemma_whole_concat(a: Seq<u16>, b: Seq<u16>)
    requires
        is_whole_text(a),
        is_whole_text(b),
    ensures
        is_whole_text(a + b),
        decode_utf16(a + b) == decode_utf16(a) + decode_utf16(b),
{
    let ca = decode_utf16(a);
    let cb = decode_utf16(b);
    lemma_encode_concat(ca, cb);
    lemma_round_trip(ca + cb);
}

} // verus!
