//! Fresh identifiers: sixteen random bytes rendered in the standard
//! hyphenated form, eight-four-four-four-twelve lower-case hexadecimal
//! digits.

use vstd::prelude::*;
use crate::strutil::{hex_char, hex_digit_of, push_char};

verus! {

/// Relies on uuid's `Uuid::new_v4`: sixteen random bytes, with the version
/// nibble of the seventh byte set to 4 and the leading variant bits of the
/// ninth byte set to the standard one-zero form.
#[verifier::external_body]
fn random_uuid_bytes() -> (r: Vec<u8>)
    ensures
        r@.len() == 16,
        r@[6] & 0xf0 == 0x40,
        r@[8] & 0xc0 == 0x80,
{
    uuid::Uuid::new_v4().into_bytes().to_vec()
}

/// The two hexadecimal digits of one byte, high digit first.
pub open spec fn two_hex(b: u8) -> Seq<char> {
    seq![hex_char((b / 16) as nat), hex_char((b % 16) as nat)]
}

/// The hexadecimal digits of `bytes[from..to]`, in order.
pub open spec fn hex_range(bytes: Seq<u8>, from: int, to: int) -> Seq<char>
    decreases to - from,
{
    if from >= to {
        Seq::empty()
    } else {
        hex_range(bytes, from, to - 1) + two_hex(bytes[to - 1])
    }
}

pub proof fn lemma_hex_range_len(bytes: Seq<u8>, from: int, to: int)
    requires
        from <= to,
    ensures
        hex_range(bytes, from, to).len() == 2 * (to - from),
    decreases to - from,
{
    if from < to {
        lemma_hex_range_len(bytes, from, to - 1);
    }
}

/// The hyphenated text of sixteen bytes: groups of four, two, two, two and
/// six bytes in hexadecimal, joined by hyphens.
pub open spec fn spec_hyphenated(bytes: Seq<u8>) -> Seq<char> {
    hex_range(bytes, 0, 4) + seq!['-'] + hex_range(bytes, 4, 6) + seq!['-'] + hex_range(
        bytes,
        6,
        8,
    ) + seq!['-'] + hex_range(bytes, 8, 10) + seq!['-'] + hex_range(bytes, 10, 16)
}

/// Appends the hexadecimal digits of `bytes[from..to]`.
fn append_hex_range(s: &mut String, bytes: &Vec<u8>, from: usize, to: usize)
    requires
        from <= to <= bytes@.len(),
    ensures
        final(s)@ == old(s)@ + hex_range(bytes@, from as int, to as int),
{
    let mut i: usize = from;
    proof {
        assert(old(s)@ + hex_range(bytes@, from as int, from as int) =~= old(s)@);
    }
    while i < to
        invariant
            from <= i <= to <= bytes@.len(),
            s@ == old(s)@ + hex_range(bytes@, from as int, i as int),
        decreases to - i,
    {
        let b = bytes[i];
        push_char(s, hex_digit_of((b / 16) as u32));
        push_char(s, hex_digit_of((b % 16) as u32));
        proof {
            assert(hex_range(bytes@, from as int, i + 1) == hex_range(bytes@, from as int, i as int)
                + two_hex(bytes@[i as int]));
            assert(s@ =~= old(s)@ + hex_range(bytes@, from as int, i + 1));
        }
        i += 1;
    }
}

/// Renders sixteen bytes in the hyphenated form.
pub fn hyphenated_uuid(bytes: &Vec<u8>) -> (r: String)
    requires
        bytes@.len() == 16,
    ensures
        r@ == spec_hyphenated(bytes@),
{
    let mut s = String::new();
    append_hex_range(&mut s, bytes, 0, 4);
    push_char(&mut s, '-');
    append_hex_range(&mut s, bytes, 4, 6);
    push_char(&mut s, '-');
    append_hex_range(&mut s, bytes, 6, 8);
    push_char(&mut s, '-');
    append_hex_range(&mut s, bytes, 8, 10);
    push_char(&mut s, '-');
    append_hex_range(&mut s, bytes, 10, 16);
    proof {
        assert(s@ =~= spec_hyphenated(bytes@));
    }
    s
}

/// Draws a fresh random identifier and renders it: thirty-six characters,
/// hyphens at their four standard places, the version digit 4 where the
/// version nibble sits, and one of the four standard variant digits after
/// the third hyphen.
pub fn fresh_uuid() -> (r: String)
    ensures
        r@.len() == 36,
        r@[8] == '-' && r@[13] == '-' && r@[18] == '-' && r@[23] == '-',
        r@[14] == '4',
        r@[19] == '8' || r@[19] == '9' || r@[19] == 'a' || r@[19] == 'b',
{
    let bytes = random_uuid_bytes();
    let r = hyphenated_uuid(&bytes);
    proof {
        lemma_hex_range_len(bytes@, 0, 4);
        lemma_hex_range_len(bytes@, 4, 6);
        lemma_hex_range_len(bytes@, 6, 8);
        lemma_hex_range_len(bytes@, 8, 10);
        lemma_hex_range_len(bytes@, 10, 16);
        lemma_hex_range_len(bytes@, 6, 7);
        assert(r@.len() == 36);
        assert(r@[8] == '-');
        assert(r@[13] == '-');
        assert(r@[18] == '-');
        assert(r@[23] == '-');
        let b6 = bytes@[6];
        assert(b6 / 16 == 4) by (bit_vector)
            requires
                b6 & 0xf0 == 0x40,
        ;
        assert(hex_range(bytes@, 6, 8) == hex_range(bytes@, 6, 7) + two_hex(bytes@[7]));
        assert(hex_range(bytes@, 6, 7) == hex_range(bytes@, 6, 6) + two_hex(bytes@[6]));
        assert(hex_range(bytes@, 6, 7)[0] == hex_char((b6 / 16) as nat));
        assert(r@[14] == hex_range(bytes@, 6, 8)[0]);
        assert(r@[14] == '4');
        let b8 = bytes@[8];
        assert(8 <= b8 / 16 <= 11) by (bit_vector)
            requires
                b8 & 0xc0 == 0x80,
        ;
        lemma_hex_range_len(bytes@, 8, 9);
        assert(hex_range(bytes@, 8, 10) == hex_range(bytes@, 8, 9) + two_hex(bytes@[9]));
        assert(hex_range(bytes@, 8, 9) == hex_range(bytes@, 8, 8) + two_hex(bytes@[8]));
        assert(hex_range(bytes@, 8, 9)[0] == hex_char((b8 / 16) as nat));
        assert(r@[19] == hex_range(bytes@, 8, 10)[0]);
    }
    r
}

} // verus!
