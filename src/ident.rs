//! Node identifiers: 128-bit values, generated at random and written as
//! lower-case hyphenated hexadecimal text.

use vstd::prelude::*;

verus! {

#[verifier::external_type_specification]
#[verifier::external_body]
pub struct ExUuidError(uuid::Error);

/// The sixteen lower-case hexadecimal digits.
pub open spec fn hex_chars() -> Seq<char> {
    seq!['0', '1', '2', '3', '4', '5', '6', '7', '8', '9', 'a', 'b', 'c', 'd', 'e', 'f']
}

/// The `k`-th hexadecimal digit of `v`, counted from the most significant one.
pub open spec fn nibble(v: u128, k: int) -> u128 {
    (v >> ((124 - 4 * k) as u128)) & 15
}

/// The digit index shown at position `i` of the hyphenated text.
pub open spec fn digit_at(i: int) -> int {
    if i < 8 {
        i
    } else if i < 13 {
        i - 1
    } else if i < 18 {
        i - 2
    } else if i < 23 {
        i - 3
    } else {
        i - 4
    }
}

pub open spec fn is_hyphen_pos(i: int) -> bool {
    i == 8 || i == 13 || i == 18 || i == 23
}

/// The hyphenated text of an identifier: 32 lower-case hexadecimal digits,
/// most significant first, in groups of 8-4-4-4-12 joined by `-`.
pub open spec fn uuid_text(v: u128) -> Seq<char> {
    Seq::new(
        36,
        |i: int|
            if is_hyphen_pos(i) {
                '-'
            } else {
                hex_chars()[nibble(v, digit_at(i)) as int]
            },
    )
}

/// Relies on uuid::Uuid::new_v4: a random identifier, of which nothing is
/// promised here.
#[verifier::external_body]
pub(crate) fn fresh_id() -> (r: u128) {
    uuid::Uuid::new_v4().as_u128()
}

/// Relies on uuid::Uuid::from_u128 and the Display of uuid::fmt::Hyphenated:
/// the digits of the value, most significant first, lower case, 8-4-4-4-12.
#[verifier::external_body]
pub(crate) fn render_id(v: u128) -> (r: String)
    ensures
        r@ == uuid_text(v),
{
    uuid::Uuid::from_u128(v).hyphenated().to_string()
}

/// `r` is what parsing `s` must give where `s` is the text of an identifier.
pub open spec fn accepts_text_of(r: Result<u128, uuid::Error>, s: Seq<char>) -> bool {
    forall|v: u128| #[trigger] uuid_text(v) == s ==> r == Ok::<u128, uuid::Error>(v)
}

/// Relies on uuid::Uuid::parse_str: it accepts the hyphenated form that
/// `render_id` produces and returns the value that was rendered.
#[verifier::external_body]
pub(crate) fn parse_uuid(s: &str) -> (r: Result<u128, uuid::Error>)
    ensures
        accepts_text_of(r, s@),
{
    uuid::Uuid::parse_str(s).map(|u| u.as_u128())
}

proof fn lemma_hex_chars_distinct(a: u128, b: u128)
    requires
        a < 16,
        b < 16,
        hex_chars()[a as int] == hex_chars()[b as int],
    ensures
        a == b,
{
    let h = hex_chars();
    assert(h[0] == '0' && h[1] == '1' && h[2] == '2' && h[3] == '3' && h[4] == '4' && h[5] == '5'
        && h[6] == '6' && h[7] == '7' && h[8] == '8' && h[9] == '9' && h[10] == 'a' && h[11] == 'b'
        && h[12] == 'c' && h[13] == 'd' && h[14] == 'e' && h[15] == 'f');
}

proof fn lemma_nibble_bound(v: u128, k: int)
    requires
        0 <= k < 32,
    ensures
        nibble(v, k) < 16,
{
    let s = (124 - 4 * k) as u128;
    assert((v >> s) & 15 < 16) by (bit_vector);
}

/// Two identifiers with the same text are the same identifier.
pub proof fn lemma_uuid_text_injective(v: u128, w: u128)
    requires
        uuid_text(v) == uuid_text(w),
    ensures
        v == w,
{
    assert forall|k: int| 0 <= k < 32 implies nibble(v, k) == nibble(w, k) by {
        let i = if k < 8 {
            k
        } else if k < 12 {
            k + 1
        } else if k < 16 {
            k + 2
        } else if k < 20 {
            k + 3
        } else {
            k + 4
        };
        assert(digit_at(i) == k);
        assert(!is_hyphen_pos(i));
        assert(uuid_text(v)[i] == hex_chars()[nibble(v, k) as int]);
        assert(uuid_text(w)[i] == hex_chars()[nibble(w, k) as int]);
        lemma_nibble_bound(v, k);
        lemma_nibble_bound(w, k);
        lemma_hex_chars_distinct(nibble(v, k), nibble(w, k));
    }
    lemma_nibbles_determine(v, w);
}

proof fn lemma_nibbles_determine(v: u128, w: u128)
    requires
        forall|k: int| 0 <= k < 32 ==> nibble(v, k) == nibble(w, k),
    ensures
        v == w,
{
    assert(nibble(v, 0) == nibble(w, 0));
    assert(nibble(v, 1) == nibble(w, 1));
    assert(nibble(v, 2) == nibble(w, 2));
    assert(nibble(v, 3) == nibble(w, 3));
    assert(nibble(v, 4) == nibble(w, 4));
    assert(nibble(v, 5) == nibble(w, 5));
    assert(nibble(v, 6) == nibble(w, 6));
    assert(nibble(v, 7) == nibble(w, 7));
    assert(nibble(v, 8) == nibble(w, 8));
    assert(nibble(v, 9) == nibble(w, 9));
    assert(nibble(v, 10) == nibble(w, 10));
    assert(nibble(v, 11) == nibble(w, 11));
    assert(nibble(v, 12) == nibble(w, 12));
    assert(nibble(v, 13) == nibble(w, 13));
    assert(nibble(v, 14) == nibble(w, 14));
    assert(nibble(v, 15) == nibble(w, 15));
    assert(nibble(v, 16) == nibble(w, 16));
    assert(nibble(v, 17) == nibble(w, 17));
    assert(nibble(v, 18) == nibble(w, 18));
    assert(nibble(v, 19) == nibble(w, 19));
    assert(nibble(v, 20) == nibble(w, 20));
    assert(nibble(v, 21) == nibble(w, 21));
    assert(nibble(v, 22) == nibble(w, 22));
    assert(nibble(v, 23) == nibble(w, 23));
    assert(nibble(v, 24) == nibble(w, 24));
    assert(nibble(v, 25) == nibble(w, 25));
    assert(nibble(v, 26) == nibble(w, 26));
    assert(nibble(v, 27) == nibble(w, 27));
    assert(nibble(v, 28) == nibble(w, 28));
    assert(nibble(v, 29) == nibble(w, 29));
    assert(nibble(v, 30) == nibble(w, 30));
    assert(nibble(v, 31) == nibble(w, 31));
    assert(v == w) by (bit_vector)
        requires
            (v >> 124u128) & 15 == (w >> 124u128) & 15,
            (v >> 120u128) & 15 == (w >> 120u128) & 15,
            (v >> 116u128) & 15 == (w >> 116u128) & 15,
            (v >> 112u128) & 15 == (w >> 112u128) & 15,
            (v >> 108u128) & 15 == (w >> 108u128) & 15,
            (v >> 104u128) & 15 == (w >> 104u128) & 15,
            (v >> 100u128) & 15 == (w >> 100u128) & 15,
            (v >> 96u128) & 15 == (w >> 96u128) & 15,
            (v >> 92u128) & 15 == (w >> 92u128) & 15,
            (v >> 88u128) & 15 == (w >> 88u128) & 15,
            (v >> 84u128) & 15 == (w >> 84u128) & 15,
            (v >> 80u128) & 15 == (w >> 80u128) & 15,
            (v >> 76u128) & 15 == (w >> 76u128) & 15,
            (v >> 72u128) & 15 == (w >> 72u128) & 15,
            (v >> 68u128) & 15 == (w >> 68u128) & 15,
            (v >> 64u128) & 15 == (w >> 64u128) & 15,
            (v >> 60u128) & 15 == (w >> 60u128) & 15,
            (v >> 56u128) & 15 == (w >> 56u128) & 15,
            (v >> 52u128) & 15 == (w >> 52u128) & 15,
            (v >> 48u128) & 15 == (w >> 48u128) & 15,
            (v >> 44u128) & 15 == (w >> 44u128) & 15,
            (v >> 40u128) & 15 == (w >> 40u128) & 15,
            (v >> 36u128) & 15 == (w >> 36u128) & 15,
            (v >> 32u128) & 15 == (w >> 32u128) & 15,
            (v >> 28u128) & 15 == (w >> 28u128) & 15,
            (v >> 24u128) & 15 == (w >> 24u128) & 15,
            (v >> 20u128) & 15 == (w >> 20u128) & 15,
            (v >> 16u128) & 15 == (w >> 16u128) & 15,
            (v >> 12u128) & 15 == (w >> 12u128) & 15,
            (v >> 8u128) & 15 == (w >> 8u128) & 15,
            (v >> 4u128) & 15 == (w >> 4u128) & 15,
            (v >> 0u128) & 15 == (w >> 0u128) & 15,
    ;
}

/// Reads an identifier from its hyphenated text. Only the exact text that
/// `uuid_text` gives for some value is accepted.
pub fn id_from_text(s: &str) -> (r: Option<u128>)
    ensures
        match r {
            Some(v) => uuid_text(v) == s@,
            None => forall|v: u128| uuid_text(v) != s@,
        },
{
    match parse_uuid(s) {
        Ok(v) => {
            let t = render_id(v);
            if t == s.to_owned() {
                Some(v)
            } else {
                None
            }
        },
        Err(_) => None,
    }
}

} // verus!
