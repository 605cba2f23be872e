//! Decimal digits as pieces of text.

use vstd::prelude::*;
use vstd::string::StringSliceAdditionalSpecFns;
use vstd::utf8::*;
use crate::scalar::lemma_ascii_valid;
use crate::text::{
    all_valid,
    chunks_of,
    concat,
    lemma_ascii_bytes,
    lemma_concat_blank,
    lemma_concat_push,
};

verus! {

/// The slots that hold the digits of a `u32`.
pub const SLOTS: usize = 10;

/// The byte of the digit `d`.
pub open spec fn digit(d: nat) -> u8 {
    (48 + d) as u8
}

/// The digits of `n`, the first ahead.
pub open spec fn decimal(n: nat) -> Seq<u8>
    decreases n,
{
    if n < 10 {
        seq![digit(n)]
    } else {
        decimal(n / 10).push(digit(n % 10))
    }
}

/// `slots` chunks that hold the digits of `n`, one each, behind as many
/// empty chunks as it takes to fill the slots. Digits that find no slot
/// are left out.
pub open spec fn decimal_chunks(n: nat, slots: nat) -> Seq<Seq<u8>>
    decreases slots,
{
    if slots == 0 {
        Seq::empty()
    } else if n < 10 || slots == 1 {
        Seq::new((slots - 1) as nat, |i: int| Seq::<u8>::empty()).push(seq![digit(n % 10)])
    } else {
        decimal_chunks(n / 10, (slots - 1) as nat).push(seq![digit(n % 10)])
    }
}

/// The numbers that `slots` digits can hold lie below this.
pub open spec fn pow10(slots: nat) -> nat
    decreases slots,
{
    if slots == 0 {
        1
    } else {
        10 * pow10((slots - 1) as nat)
    }
}

/// The digit `d` as a string.
pub fn digit_str(d: u32) -> (s: &'static str)
    requires
        d < 10,
    ensures
        s.spec_bytes() == seq![digit(d as nat)],
{
    proof {
        reveal_strlit("0");
        reveal_strlit("1");
        reveal_strlit("2");
        reveal_strlit("3");
        reveal_strlit("4");
        reveal_strlit("5");
        reveal_strlit("6");
        reveal_strlit("7");
        reveal_strlit("8");
        reveal_strlit("9");
    }
    let s = match d {
        0 => "0",
        1 => "1",
        2 => "2",
        3 => "3",
        4 => "4",
        5 => "5",
        6 => "6",
        7 => "7",
        8 => "8",
        _ => "9",
    };
    proof {
        lemma_ascii_bytes(s);
        assert(s.spec_bytes() =~= seq![digit(d as nat)]);
    }
    s
}

/// Where the slots suffice, the chunks together are the digits of `n`.
pub proof fn lemma_decimal_chunks(n: nat, slots: nat)
    requires
        slots >= 1,
        n < pow10(slots),
    ensures
        decimal_chunks(n, slots).len() == slots,
        concat(decimal_chunks(n, slots)) == decimal(n),
    decreases slots,
{
    if n < 10 || slots == 1 {
        assert(pow10(1) == 10) by {
            reveal_with_fuel(pow10, 2);
        }
        let blanks = Seq::new((slots - 1) as nat, |i: int| Seq::<u8>::empty());
        lemma_concat_blank((slots - 1) as nat);
        lemma_concat_push(blanks, seq![digit(n % 10)]);
        assert(concat(decimal_chunks(n, slots)) =~= decimal(n));
    } else {
        lemma_decimal_chunks(n / 10, (slots - 1) as nat);
        lemma_concat_push(decimal_chunks(n / 10, (slots - 1) as nat), seq![digit(n % 10)]);
        assert(concat(decimal_chunks(n, slots)) =~= decimal(n));
    }
}

/// Ten slots hold every `u32`: its chunks are ten and, together, its digits.
pub proof fn lemma_decimal_u32(n: u32)
    ensures
        decimal_chunks(n as nat, SLOTS as nat).len() == SLOTS,
        concat(decimal_chunks(n as nat, SLOTS as nat)) == decimal(n as nat),
{
    assert(pow10(10) == 10_000_000_000) by {
        reveal_with_fuel(pow10, 11);
    }
    lemma_decimal_chunks(n as nat, SLOTS as nat);
}

/// Each chunk of digits is well formed: it is empty or one digit.
pub proof fn lemma_decimal_chunks_valid(n: nat, slots: nat)
    ensures
        all_valid(decimal_chunks(n, slots)),
    decreases slots,
{
    let chunks = decimal_chunks(n, slots);
    if slots == 0 {
    } else {
        let last = seq![digit(n % 10)];
        lemma_ascii_valid(last);
        lemma_ascii_valid(Seq::<u8>::empty());
        if n < 10 || slots == 1 {
        } else {
            lemma_decimal_chunks_valid(n / 10, (slots - 1) as nat);
        }
        assert forall|i: int| 0 <= i < chunks.len() implies valid_utf8(#[trigger] chunks[i]) by {
            if i == chunks.len() - 1 {
                assert(chunks[i] == last);
            } else if n < 10 || slots == 1 {
                assert(chunks[i] =~= Seq::<u8>::empty());
            } else {
                assert(chunks[i] == decimal_chunks(n / 10, (slots - 1) as nat)[i]);
            }
        }
    }
}

/// The digits of `n` as ten strings: empty ones ahead, then one digit each.
pub fn decimal_parts(n: u32) -> (parts: [&'static str; SLOTS])
    ensures
        chunks_of(parts@) == decimal_chunks(n as nat, SLOTS as nat),
        concat(chunks_of(parts@)) == decimal(n as nat),
{
    proof {
        reveal_strlit("");
        lemma_ascii_bytes("");
        lemma_decimal_u32(n);
    }
    let mut parts: [&'static str; SLOTS] = [""; SLOTS];
    let mut rest: u32 = n;
    let mut at: usize = SLOTS;
    while at > 0
        invariant
            at <= SLOTS,
            "".spec_bytes().len() == 0,
            forall|i: int| 0 <= i < at ==> (#[trigger] parts@[i]).spec_bytes().len() == 0,
            at > 0 ==> decimal_chunks(n as nat, SLOTS as nat) == decimal_chunks(
                rest as nat,
                at as nat,
            ) + chunks_of(parts@.skip(at as int)),
            at == 0 ==> decimal_chunks(n as nat, SLOTS as nat) == chunks_of(parts@),
        decreases at,
    {
        let ghost before = parts@;
        let d = digit_str(rest % 10);
        parts[at - 1] = d;
        assert(chunks_of(parts@.skip(at - 1)) =~= seq![d.spec_bytes()] + chunks_of(
            before.skip(at as int),
        ));
        if rest < 10 || at == 1 {
            assert(chunks_of(parts@) =~= Seq::new((at - 1) as nat, |i: int| Seq::<u8>::empty())
                + chunks_of(parts@.skip(at - 1))) by {
                assert forall|i: int| 0 <= i < at - 1 implies (#[trigger] parts@[i]).spec_bytes()
                    =~= Seq::<u8>::empty() by {
                    assert(parts@[i] == before[i]);
                }
            }
            assert(decimal_chunks(rest as nat, at as nat) + chunks_of(before.skip(at as int))
                =~= chunks_of(parts@));
            at = 0;
        } else {
            assert(decimal_chunks(rest as nat, at as nat) + chunks_of(before.skip(at as int))
                =~= decimal_chunks((rest / 10) as nat, (at - 1) as nat) + chunks_of(
                parts@.skip(at - 1),
            ));
            rest = rest / 10;
            at = at - 1;
        }
    }
    parts
}

} // verus!
