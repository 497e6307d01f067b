//! Note identifiers: opaque 128-bit values generated server-side on
//! creation, never supplied by clients, written in the hyphenated
//! lower-case hexadecimal form `xxxxxxxx-xxxx-xxxx-xxxx-xxxxxxxxxxxx`.
//!
//! Parsing and formatting of that text form are verified here; a caller
//! that receives an identifier in a request path validates it with
//! [`NoteId::parse`] before any repository call, so malformed ids are
//! rejected at the boundary.

use vstd::prelude::*;
use vstd::arithmetic::div_mod::{
    lemma_basic_div, lemma_div_denominator, lemma_fundamental_div_mod,
};
use vstd::arithmetic::power2::{lemma2_to64, lemma_pow2_adds, lemma_pow2_pos, pow2};
use vstd::bits::lemma_u128_shr_is_div;

verus! {

/// A note identifier: the 128 bits of a version-4 UUID.
#[derive(Clone, Copy, PartialEq, Eq, Structural, Debug)]
pub struct NoteId {
    pub bits: u128,
}

/// The four hyphen positions of the hyphenated text form.
pub open spec fn is_sep_index(i: int) -> bool {
    i == 8 || i == 13 || i == 18 || i == 23
}

/// ASCII hexadecimal digits, either case.
pub open spec fn is_hex_digit(b: u8) -> bool {
    (48 <= b && b <= 57) || (65 <= b && b <= 70) || (97 <= b && b <= 102)
}

/// The numeric value of a hexadecimal digit.
pub open spec fn hex_digit_value(b: u8) -> int {
    if 48 <= b && b <= 57 {
        b - 48
    } else if 65 <= b && b <= 70 {
        b - 55
    } else {
        b - 87
    }
}

/// The lower-case digit with the given value, for values below sixteen.
pub open spec fn hex_char_of(v: int) -> u8 {
    if v < 10 {
        (48 + v) as u8
    } else {
        (87 + v) as u8
    }
}

/// Whether a byte string is a well-formed hyphenated identifier:
/// thirty-six bytes, hyphens exactly at the four separator positions,
/// hexadecimal digits everywhere else.
pub open spec fn is_uuid_text(s: Seq<u8>) -> bool {
    &&& s.len() == 36
    &&& s[8] == 45u8
    &&& s[13] == 45u8
    &&& s[18] == 45u8
    &&& s[23] == 45u8
    &&& forall|i: int| 0 <= i < 36 && !is_sep_index(i) ==> is_hex_digit(#[trigger] s[i])
}

/// How many digit positions lie strictly before position `i`.
pub open spec fn hex_count(i: int) -> int {
    i - (if i > 8 {
        1int
    } else {
        0int
    }) - (if i > 13 {
        1int
    } else {
        0int
    }) - (if i > 18 {
        1int
    } else {
        0int
    }) - (if i > 23 {
        1int
    } else {
        0int
    })
}

/// The value of the digits among the first `i` bytes, most significant
/// digit first.
pub open spec fn value_prefix(s: Seq<u8>, i: int) -> int
    decreases i,
{
    if i <= 0 {
        0
    } else if is_sep_index(i - 1) {
        value_prefix(s, i - 1)
    } else {
        value_prefix(s, i - 1) * 16 + hex_digit_value(s[i - 1])
    }
}

/// The value written by a well-formed hyphenated identifier.
pub open spec fn uuid_text_value(s: Seq<u8>) -> int {
    value_prefix(s, 36)
}

/// Sixteen to the power `n`.
pub open spec fn pow16(n: int) -> int
    decreases n,
{
    if n <= 0 {
        1
    } else {
        16 * pow16(n - 1)
    }
}

/// The digit of `b` at digit position `k` of thirty-two, most
/// significant first.
pub open spec fn nibble_of(b: u128, k: int) -> int {
    ((b >> (((31 - k) * 4) as u128)) & 0xf) as int
}

/// The hyphenated lower-case text form of a 128-bit value.
pub open spec fn uuid_text_of(b: u128) -> Seq<u8> {
    Seq::new(
        36,
        |i: int|
            if is_sep_index(i) {
                45u8
            } else {
                hex_char_of(nibble_of(b, hex_count(i)))
            },
    )
}

/// The low four bits of any value name a digit.
proof fn lemma_low_nibble(y: u128)
    ensures
        0 <= y & 0xf < 16,
{
    assert(y & 0xf < 16) by (bit_vector);
}

/// The value accumulated over a prefix stays below sixteen to the number
/// of digits read.
proof fn lemma_value_prefix_bound(s: Seq<u8>, i: int)
    requires
        0 <= i <= 36,
        forall|k: int| 0 <= k < i && !is_sep_index(k) ==> is_hex_digit(#[trigger] s[k]),
    ensures
        0 <= value_prefix(s, i) < pow16(hex_count(i)),
    decreases i,
{
    if i > 0 {
        lemma_value_prefix_bound(s, i - 1);
    }
}

/// `pow16` never falls as the exponent grows.
proof fn lemma_pow16_monotone(a: int, b: int)
    requires
        0 <= a <= b,
    ensures
        pow16(a) <= pow16(b),
    decreases b,
{
    if a < b {
        lemma_pow16_monotone(a, b - 1);
        assert(pow16(b - 1) >= 1) by {
            lemma_pow16_positive(b - 1);
        }
    }
}

/// `pow16` is positive.
proof fn lemma_pow16_positive(n: int)
    ensures
        pow16(n) >= 1,
    decreases n,
{
    if n > 0 {
        lemma_pow16_positive(n - 1);
    }
}

/// Thirty-two digits fill exactly the 128 bits.
proof fn lemma_pow16_32()
    ensures
        pow16(32) == 0x100000000000000000000000000000000int,
{
    reveal_with_fuel(pow16, 33);
}

impl NoteId {
    /// The version nibble of a version-4 identifier.
    pub open spec fn spec_version(self) -> u128 {
        (self.bits >> 76) & 0xf
    }

    /// The variant bits prescribed for random identifiers.
    pub open spec fn spec_variant(self) -> u128 {
        (self.bits >> 62) & 0x3
    }

    /// A freshly generated identifier carries version 4 and the
    /// standard variant; nothing else is promised of its bits.
    pub open spec fn is_v4(self) -> bool {
        self.spec_version() == 4 && self.spec_variant() == 2
    }

    /// Draws a fresh random identifier. Two calls may return anything,
    /// including (with negligible probability) the same value: callers
    /// must not assume distinctness.
    ///
    /// Relies on uuid::Uuid::new_v4, which fills 128 bits from the
    /// operating system's randomness and then forces the version nibble
    /// to 4 and the variant bits to binary 10, and on uuid::Uuid::as_u128,
    /// which returns those bits as an integer.
    #[verifier::external_body]
    pub fn fresh() -> (r: NoteId)
        ensures
            r.is_v4(),
    {
        NoteId { bits: uuid::Uuid::new_v4().as_u128() }
    }

    /// Reads an identifier from its hyphenated text form. Returns the
    /// identifier exactly when the bytes are well formed, and nothing
    /// otherwise: this is the boundary validation for client-supplied
    /// ids.
    pub fn parse(s: &[u8]) -> (r: Option<NoteId>)
        ensures
            r is Some <==> is_uuid_text(s@),
            r matches Some(nid) ==> nid.bits as int == uuid_text_value(s@),
    {
        if s.len() != 36 {
            return None;
        }
        let ghost sv = s@;
        let mut acc: u128 = 0;
        let mut i: usize = 0;
        while i < 36
            invariant
                i <= 36,
                sv == s@,
                sv.len() == 36,
                acc as int == value_prefix(sv, i as int),
                forall|k: int| 0 <= k < i && !is_sep_index(k) ==> is_hex_digit(#[trigger] sv[k]),
                i > 8 ==> sv[8] == 45u8,
                i > 13 ==> sv[13] == 45u8,
                i > 18 ==> sv[18] == 45u8,
                i > 23 ==> sv[23] == 45u8,
            decreases 36 - i,
        {
            let b = s[i];
            if i == 8 || i == 13 || i == 18 || i == 23 {
                if b != 45 {
                    return None;
                }
            } else {
                let v: u8 = if 48 <= b && b <= 57 {
                    b - 48
                } else if 65 <= b && b <= 70 {
                    b - 55
                } else if 97 <= b && b <= 102 {
                    b - 87
                } else {
                    return None;
                };
                proof {
                    lemma_value_prefix_bound(sv, i as int);
                    lemma_pow16_monotone(hex_count(i as int), 31);
                    lemma_pow16_32();
                    reveal_with_fuel(pow16, 2);
                    assert(pow16(32) == 16 * pow16(31));
                }
                acc = acc * 16 + (v as u128);
            }
            i = i + 1;
        }
        Some(NoteId { bits: acc })
    }

    /// Writes the identifier in its hyphenated lower-case text form:
    /// always thirty-six bytes that [`NoteId::parse`] accepts.
    pub fn hyphenated(&self) -> (r: Vec<u8>)
        ensures
            r@ == uuid_text_of(self.bits),
            is_uuid_text(r@),
    {
        let b = self.bits;
        let mut r: Vec<u8> = Vec::new();
        let mut i: usize = 0;
        let mut k: usize = 0;
        while i < 36
            invariant
                i <= 36,
                k as int == hex_count(i as int),
                r@.len() == i,
                forall|j: int| 0 <= j < i ==> r@[j] == uuid_text_of(b)[j],
            decreases 36 - i,
        {
            if i == 8 || i == 13 || i == 18 || i == 23 {
                r.push(45);
            } else {
                let shift: u128 = ((31 - k) as u128) * 4;
                let nib: u128 = (b >> shift) & 0xf;
                proof {
                    lemma_low_nibble(b >> shift);
                }
                let c: u8 = if nib < 10 {
                    48 + (nib as u8)
                } else {
                    87 + (nib as u8)
                };
                r.push(c);
                k = k + 1;
            }
            i = i + 1;
        }
        proof {
            assert(r@ =~= uuid_text_of(self.bits));
            lemma_uuid_text_of_valid(self.bits);
        }
        r
    }
}

/// Formatting a digit and reading it back are mutual inverses.
proof fn lemma_hex_digit_value_of_char(v: int)
    requires
        0 <= v < 16,
    ensures
        is_hex_digit(hex_char_of(v)),
        hex_digit_value(hex_char_of(v)) == v,
{
}

/// Every 128-bit value lies below two to the 128th.
proof fn lemma_u128_below_pow2_128(b: u128)
    ensures
        (b as nat) < pow2(128),
{
    lemma_pow2_adds(64, 64);
    lemma2_to64();
}

/// Reading the first `i` bytes of a value's text form accumulates
/// exactly the digits already passed: the value shifted past the digits
/// still to come.
proof fn lemma_value_prefix_of_text(b: u128, i: int)
    requires
        0 <= i <= 36,
    ensures
        value_prefix(uuid_text_of(b), i) == (b as nat) / pow2((4 * (32 - hex_count(i))) as nat),
    decreases i,
{
    let s = uuid_text_of(b);
    if i == 0 {
        lemma_u128_below_pow2_128(b);
        lemma_basic_div(b as int, pow2(128) as int);
    } else if is_sep_index(i - 1) {
        lemma_value_prefix_of_text(b, i - 1);
    } else {
        lemma_value_prefix_of_text(b, i - 1);
        let c = hex_count(i - 1);
        assert(0 <= c <= 31);
        assert(hex_count(i) == c + 1);
        let d = 32 - c;
        let sh: u128 = ((31 - c) * 4) as u128;
        assert(s[i - 1] == hex_char_of(nibble_of(b, c)));
        lemma_low_nibble(b >> sh);
        lemma_hex_digit_value_of_char(nibble_of(b, c));
        // the nibble is the low four bits, i.e. the remainder modulo sixteen
        lemma_u128_shr_is_div(b, sh);
        assert((b >> sh) & 0xf == (b >> sh) % 16) by (bit_vector);
        let z = (b as nat) / pow2((4 * (d - 1)) as nat);
        assert(sh as nat == (4 * (d - 1)) as nat);
        assert((b >> sh) as nat == z);
        assert(nibble_of(b, c) == z % 16);
        // dividing past one more digit divides the quotient by sixteen
        lemma_pow2_pos((4 * (d - 1)) as nat);
        lemma_div_denominator(b as int, pow2((4 * (d - 1)) as nat) as int, 16);
        lemma_pow2_adds((4 * (d - 1)) as nat, 4);
        lemma2_to64();
        assert(pow2((4 * d) as nat) == pow2((4 * (d - 1)) as nat) * 16);
        assert((b as nat) / pow2((4 * d) as nat) == z / 16) by {
            assert((z as int) / 16 == (b as int) / (pow2((4 * (d - 1)) as nat) as int * 16));
        }
        // a quotient splits into sixteen times its quotient plus its remainder
        lemma_fundamental_div_mod(z as int, 16);
        assert(value_prefix(s, i) == value_prefix(s, i - 1) * 16 + hex_digit_value(s[i - 1]));
        assert(value_prefix(s, i) == (z / 16) * 16 + z % 16);
    }
}

/// Round trip: the text form of an identifier reads back as exactly the
/// identifier's value.
pub proof fn lemma_hyphenated_parse_round_trip(b: u128)
    ensures
        is_uuid_text(uuid_text_of(b)),
        uuid_text_value(uuid_text_of(b)) == b as int,
{
    lemma_uuid_text_of_valid(b);
    lemma_value_prefix_of_text(b, 36);
    lemma2_to64();
}

/// The text form of any identifier is well formed.
pub proof fn lemma_uuid_text_of_valid(b: u128)
    ensures
        is_uuid_text(uuid_text_of(b)),
{
    let s = uuid_text_of(b);
    assert forall|i: int| 0 <= i < 36 && !is_sep_index(i) implies is_hex_digit(#[trigger] s[i]) by {
        lemma_low_nibble(b >> (((31 - hex_count(i)) * 4) as u128));
    }
}

} // verus!
