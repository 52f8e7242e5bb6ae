//! The identifier codec: a reversible mapping between binary card
//! identifiers and fixed-length printable tokens drawn from a 64-symbol
//! alphabet (`A`-`Z`, `a`-`z`, `0`-`9`, `+`, `/`).

use vstd::prelude::*;

verus! {

/// The printable byte standing for a six-bit digit.
pub open spec fn digit_byte(d: u8) -> u8
    recommends
        d < 64,
{
    if d < 26 {
        (65 + d) as u8  // 'A'..='Z'
    } else if d < 52 {
        (97 + (d - 26)) as u8  // 'a'..='z'
    } else if d < 62 {
        (48 + (d - 52)) as u8  // '0'..='9'
    } else if d == 62 {
        43u8  // '+'
    } else {
        47u8  // '/'
    }
}

/// Whether a byte is one of the 64 alphabet symbols.
pub open spec fn is_alphabet_byte(b: u8) -> bool {
    (65 <= b <= 90) || (97 <= b <= 122) || (48 <= b <= 57) || b == 43 || b == 47
}

/// The six-bit digit a printable alphabet byte stands for.
pub open spec fn byte_digit(b: u8) -> u8
    recommends
        is_alphabet_byte(b),
{
    if 65 <= b <= 90 {
        (b - 65) as u8
    } else if 97 <= b <= 122 {
        (26 + (b - 97)) as u8
    } else if 48 <= b <= 57 {
        (52 + (b - 48)) as u8
    } else if b == 43 {
        62u8
    } else {
        63u8
    }
}

/// The two digit maps are inverse to each other.
pub proof fn lemma_digit_byte_inverse(d: u8)
    requires
        d < 64,
    ensures
        is_alphabet_byte(digit_byte(d)),
        byte_digit(digit_byte(d)) == d,
{
}

/// Decoding an alphabet byte and re-encoding it gives the byte back.
pub proof fn lemma_byte_digit_inverse(b: u8)
    requires
        is_alphabet_byte(b),
    ensures
        byte_digit(b) < 64,
        digit_byte(byte_digit(b)) == b,
{
}

fn digit_to_byte(d: u8) -> (b: u8)
    requires
        d < 64,
    ensures
        b == digit_byte(d),
{
    if d < 26 {
        65 + d
    } else if d < 52 {
        97 + (d - 26)
    } else if d < 62 {
        48 + (d - 52)
    } else if d == 62 {
        43
    } else {
        47
    }
}

pub(crate) fn byte_to_digit(b: u8) -> (r: Option<u8>)
    ensures
        r is Some <==> is_alphabet_byte(b),
        r is Some ==> r->Some_0 == byte_digit(b),
{
    if 65 <= b && b <= 90 {
        Some(b - 65)
    } else if 97 <= b && b <= 122 {
        Some(26 + (b - 97))
    } else if 48 <= b && b <= 57 {
        Some(52 + (b - 48))
    } else if b == 43 {
        Some(62)
    } else if b == 47 {
        Some(63)
    } else {
        None
    }
}

/// The printable character standing for a six-bit digit.
pub open spec fn digit_char(d: u8) -> char
    recommends
        d < 64,
{
    digit_byte(d) as char
}

/// Whether a character is one of the 64 alphabet symbols.
pub open spec fn is_alphabet_char(c: char) -> bool {
    (c as u32) < 128 && is_alphabet_byte(c as u8)
}

/// The six-bit digit a printable alphabet character stands for.
pub open spec fn char_digit(c: char) -> u8
    recommends
        is_alphabet_char(c),
{
    byte_digit(c as u8)
}

/// Appends one character to a string.
///
/// Relies on `String::push`: the string's characters afterwards are the old
/// characters followed by the pushed one.
#[verifier::external_body]
pub(crate) fn push_char(s: &mut String, c: char)
    ensures
        final(s)@ == old(s)@ + seq![c],
{
    s.push(c)
}

fn char_to_digit(c: char) -> (r: Option<u8>)
    ensures
        r is Some <==> is_alphabet_char(c),
        r is Some ==> r->Some_0 == char_digit(c),
{
    let u = c as u32;
    if u < 128 {
        byte_to_digit(u as u8)
    } else {
        None
    }
}

/// The twelve-character token encoding a `u64`: eleven alphabet symbols
/// (the final one carrying only the value's low four bits, shifted high)
/// and a closing `=`.
pub open spec fn token_chars_u64(v: u64) -> Seq<char> {
    seq![
        digit_char(((v >> 58) & 63) as u8),
        digit_char(((v >> 52) & 63) as u8),
        digit_char(((v >> 46) & 63) as u8),
        digit_char(((v >> 40) & 63) as u8),
        digit_char(((v >> 34) & 63) as u8),
        digit_char(((v >> 28) & 63) as u8),
        digit_char(((v >> 22) & 63) as u8),
        digit_char(((v >> 16) & 63) as u8),
        digit_char(((v >> 10) & 63) as u8),
        digit_char(((v >> 4) & 63) as u8),
        digit_char((((v & 15) << 2) as u8)),
        '=',
    ]
}

/// A well-formed twelve-character token: eleven alphabet symbols then `=`.
pub open spec fn valid_token_chars(s: Seq<char>) -> bool {
    &&& s.len() == 12
    &&& forall|i: int| 0 <= i < 11 ==> is_alphabet_char(#[trigger] s[i])
    &&& s[11] == '='
}

/// The `u64` a well-formed token stands for.
pub open spec fn token_value(s: Seq<char>) -> u64
    recommends
        valid_token_chars(s),
{
    ((char_digit(s[0]) as u64) << 58) | ((char_digit(s[1]) as u64) << 52) | ((char_digit(s[2])
        as u64) << 46) | ((char_digit(s[3]) as u64) << 40) | ((char_digit(s[4]) as u64) << 34) | ((
    char_digit(s[5]) as u64) << 28) | ((char_digit(s[6]) as u64) << 22) | ((char_digit(s[7])
        as u64) << 16) | ((char_digit(s[8]) as u64) << 10) | ((char_digit(s[9]) as u64) << 4) | ((
    char_digit(s[10]) as u64) >> 2)
}

/// Encodes a `u64` as its twelve-character token.
pub fn to_base64(data: u64) -> (r: String)
    ensures
        r@ == token_chars_u64(data),
{
    assert((data >> 58) & 63 < 64 && (data >> 52) & 63 < 64 && (data >> 46) & 63 < 64 && (data
        >> 40) & 63 < 64 && (data >> 34) & 63 < 64 && (data >> 28) & 63 < 64 && (data >> 22) & 63
        < 64 && (data >> 16) & 63 < 64 && (data >> 10) & 63 < 64 && (data >> 4) & 63 < 64 && (data
        & 15) << 2 < 64) by (bit_vector);
    let mut r = String::new();
    push_char(&mut r, digit_to_byte(((data >> 58) & 63) as u8) as char);
    push_char(&mut r, digit_to_byte(((data >> 52) & 63) as u8) as char);
    push_char(&mut r, digit_to_byte(((data >> 46) & 63) as u8) as char);
    push_char(&mut r, digit_to_byte(((data >> 40) & 63) as u8) as char);
    push_char(&mut r, digit_to_byte(((data >> 34) & 63) as u8) as char);
    push_char(&mut r, digit_to_byte(((data >> 28) & 63) as u8) as char);
    push_char(&mut r, digit_to_byte(((data >> 22) & 63) as u8) as char);
    push_char(&mut r, digit_to_byte(((data >> 16) & 63) as u8) as char);
    push_char(&mut r, digit_to_byte(((data >> 10) & 63) as u8) as char);
    push_char(&mut r, digit_to_byte(((data >> 4) & 63) as u8) as char);
    push_char(&mut r, digit_to_byte(((data & 15) << 2) as u8) as char);
    push_char(&mut r, '=');
    assert(r@ =~= token_chars_u64(data));
    r
}

/// Decodes a twelve-character token back to its `u64`, returning `None` for
/// input of the wrong length or holding a character outside the alphabet.
pub fn from_base64(data: &str) -> (r: Option<u64>)
    ensures
        r is Some <==> valid_token_chars(data@),
        r is Some ==> r->Some_0 == token_value(data@),
{
    if data.unicode_len() != 12 {
        return None;
    }
    let d0 = match char_to_digit(data.get_char(0)) {
        Some(d) => d,
        None => { return None; },
    };
    let d1 = match char_to_digit(data.get_char(1)) {
        Some(d) => d,
        None => { return None; },
    };
    let d2 = match char_to_digit(data.get_char(2)) {
        Some(d) => d,
        None => { return None; },
    };
    let d3 = match char_to_digit(data.get_char(3)) {
        Some(d) => d,
        None => { return None; },
    };
    let d4 = match char_to_digit(data.get_char(4)) {
        Some(d) => d,
        None => { return None; },
    };
    let d5 = match char_to_digit(data.get_char(5)) {
        Some(d) => d,
        None => { return None; },
    };
    let d6 = match char_to_digit(data.get_char(6)) {
        Some(d) => d,
        None => { return None; },
    };
    let d7 = match char_to_digit(data.get_char(7)) {
        Some(d) => d,
        None => { return None; },
    };
    let d8 = match char_to_digit(data.get_char(8)) {
        Some(d) => d,
        None => { return None; },
    };
    let d9 = match char_to_digit(data.get_char(9)) {
        Some(d) => d,
        None => { return None; },
    };
    let d10 = match char_to_digit(data.get_char(10)) {
        Some(d) => d,
        None => { return None; },
    };
    if data.get_char(11) != '=' {
        return None;
    }
    let r = ((d0 as u64) << 58) | ((d1 as u64) << 52) | ((d2 as u64) << 46) | ((d3 as u64) << 40)
        | ((d4 as u64) << 34) | ((d5 as u64) << 28) | ((d6 as u64) << 22) | ((d7 as u64) << 16) | (
    (d8 as u64) << 10) | ((d9 as u64) << 4) | ((d10 as u64) >> 2);
    Some(r)
}

/// Round trip: decoding an encoded `u64` yields the value back, for every
/// value, and the encoding is always a well-formed token.
pub proof fn lemma_base64_round_trip(v: u64)
    ensures
        valid_token_chars(token_chars_u64(v)),
        token_value(token_chars_u64(v)) == v,
{
    assert((v >> 58) & 63 < 64 && (v >> 52) & 63 < 64 && (v >> 46) & 63 < 64 && (v >> 40) & 63
        < 64 && (v >> 34) & 63 < 64 && (v >> 28) & 63 < 64 && (v >> 22) & 63 < 64 && (v >> 16) & 63
        < 64 && (v >> 10) & 63 < 64 && (v >> 4) & 63 < 64 && (v & 15) << 2 < 64) by (bit_vector);
    let s = token_chars_u64(v);
    assert forall|i: int| 0 <= i < 11 implies is_alphabet_char(#[trigger] s[i])
        && char_digit(s[i]) < 64 by {
        lemma_digit_chars(v, i);
    }
    assert(char_digit(s[0]) == ((v >> 58) & 63) as u8 && char_digit(s[1]) == ((v >> 52) & 63) as u8
        && char_digit(s[2]) == ((v >> 46) & 63) as u8 && char_digit(s[3]) == ((v >> 40) & 63) as u8
        && char_digit(s[4]) == ((v >> 34) & 63) as u8 && char_digit(s[5]) == ((v >> 28) & 63) as u8
        && char_digit(s[6]) == ((v >> 22) & 63) as u8 && char_digit(s[7]) == ((v >> 16) & 63) as u8
        && char_digit(s[8]) == ((v >> 10) & 63) as u8 && char_digit(s[9]) == ((v >> 4) & 63) as u8
        && char_digit(s[10]) == ((v & 15) << 2) as u8) by {
        lemma_digit_chars(v, 0);
        lemma_digit_chars(v, 1);
        lemma_digit_chars(v, 2);
        lemma_digit_chars(v, 3);
        lemma_digit_chars(v, 4);
        lemma_digit_chars(v, 5);
        lemma_digit_chars(v, 6);
        lemma_digit_chars(v, 7);
        lemma_digit_chars(v, 8);
        lemma_digit_chars(v, 9);
        lemma_digit_chars(v, 10);
    }
    assert(((((v >> 58) & 63) as u8 as u64) << 58) | ((((v >> 52) & 63) as u8 as u64) << 52) | ((((
    v >> 46) & 63) as u8 as u64) << 46) | ((((v >> 40) & 63) as u8 as u64) << 40) | ((((v >> 34)
        & 63) as u8 as u64) << 34) | ((((v >> 28) & 63) as u8 as u64) << 28) | ((((v >> 22) & 63)
        as u8 as u64) << 22) | ((((v >> 16) & 63) as u8 as u64) << 16) | ((((v >> 10) & 63) as u8
        as u64) << 10) | ((((v >> 4) & 63) as u8 as u64) << 4) | ((((v & 15) << 2) as u8 as u64)
        >> 2) == v) by (bit_vector);
}

proof fn lemma_digit_chars(v: u64, i: int)
    requires
        0 <= i < 11,
    ensures
        is_alphabet_char(token_chars_u64(v)[i]),
        char_digit(token_chars_u64(v)[i]) == if i == 0 {
            ((v >> 58) & 63) as u8
        } else if i == 1 {
            ((v >> 52) & 63) as u8
        } else if i == 2 {
            ((v >> 46) & 63) as u8
        } else if i == 3 {
            ((v >> 40) & 63) as u8
        } else if i == 4 {
            ((v >> 34) & 63) as u8
        } else if i == 5 {
            ((v >> 28) & 63) as u8
        } else if i == 6 {
            ((v >> 22) & 63) as u8
        } else if i == 7 {
            ((v >> 16) & 63) as u8
        } else if i == 8 {
            ((v >> 10) & 63) as u8
        } else if i == 9 {
            ((v >> 4) & 63) as u8
        } else {
            ((v & 15) << 2) as u8
        },
        char_digit(token_chars_u64(v)[i]) < 64,
{
    assert((v >> 58) & 63 < 64 && (v >> 52) & 63 < 64 && (v >> 46) & 63 < 64 && (v >> 40) & 63
        < 64 && (v >> 34) & 63 < 64 && (v >> 28) & 63 < 64 && (v >> 22) & 63 < 64 && (v >> 16) & 63
        < 64 && (v >> 10) & 63 < 64 && (v >> 4) & 63 < 64 && (v & 15) << 2 < 64) by (bit_vector);
    let d: u8 = if i == 0 {
        ((v >> 58) & 63) as u8
    } else if i == 1 {
        ((v >> 52) & 63) as u8
    } else if i == 2 {
        ((v >> 46) & 63) as u8
    } else if i == 3 {
        ((v >> 40) & 63) as u8
    } else if i == 4 {
        ((v >> 34) & 63) as u8
    } else if i == 5 {
        ((v >> 28) & 63) as u8
    } else if i == 6 {
        ((v >> 22) & 63) as u8
    } else if i == 7 {
        ((v >> 16) & 63) as u8
    } else if i == 8 {
        ((v >> 10) & 63) as u8
    } else {
        ((v >> 4) & 63) as u8
    };
    if i < 10 {
        lemma_digit_byte_inverse(d);
        lemma_digit_char_cast(d);
    } else {
        lemma_digit_byte_inverse(((v & 15) << 2) as u8);
        lemma_digit_char_cast(((v & 15) << 2) as u8);
    }
}

/// The eight-symbol token encoding a six-byte card identifier. Forty-eight
/// bits fill the eight six-bit digits exactly, so there is no padding.
pub open spec fn id_token_bytes(id: Seq<u8>) -> Seq<u8>
    recommends
        id.len() == 6,
{
    seq![
        digit_byte(id[0] >> 2),
        digit_byte(((id[0] & 3) << 4) | (id[1] >> 4)),
        digit_byte(((id[1] & 15) << 2) | (id[2] >> 6)),
        digit_byte(id[2] & 63),
        digit_byte(id[3] >> 2),
        digit_byte(((id[3] & 3) << 4) | (id[4] >> 4)),
        digit_byte(((id[4] & 15) << 2) | (id[5] >> 6)),
        digit_byte(id[5] & 63),
    ]
}

/// A well-formed identifier token: eight alphabet symbols.
pub open spec fn is_token8(t: Seq<u8>) -> bool {
    t.len() == 8 && (forall|i: int| 0 <= i < 8 ==> is_alphabet_byte(#[trigger] t[i]))
}

/// The six identifier bytes a well-formed eight-symbol token stands for.
pub open spec fn token8_id(t: Seq<u8>) -> Seq<u8>
    recommends
        is_token8(t),
{
    seq![
        (byte_digit(t[0]) << 2) | (byte_digit(t[1]) >> 4),
        ((byte_digit(t[1]) & 15) << 4) | (byte_digit(t[2]) >> 2),
        ((byte_digit(t[2]) & 3) << 6) | byte_digit(t[3]),
        (byte_digit(t[4]) << 2) | (byte_digit(t[5]) >> 4),
        ((byte_digit(t[5]) & 15) << 4) | (byte_digit(t[6]) >> 2),
        ((byte_digit(t[6]) & 3) << 6) | byte_digit(t[7]),
    ]
}

/// The token of a card identifier, as raw bytes for splicing into a document.
pub fn id_token(id: &crate::CardId) -> (t: Vec<u8>)
    ensures
        t@ == id_token_bytes(id@),
        is_token8(t@),
{
    let b0 = id.0[0];
    let b1 = id.0[1];
    let b2 = id.0[2];
    let b3 = id.0[3];
    let b4 = id.0[4];
    let b5 = id.0[5];
    proof {
        lemma_group_digit_bounds(b0, b1);
        lemma_group_digit_bounds(b1, b2);
        lemma_group_digit_bounds(b2, b3);
        lemma_group_digit_bounds(b3, b4);
        lemma_group_digit_bounds(b4, b5);
        lemma_group_digit_bounds(b5, b0);
    }
    let mut t: Vec<u8> = Vec::new();
    t.push(digit_to_byte(b0 >> 2));
    t.push(digit_to_byte(((b0 & 3) << 4) | (b1 >> 4)));
    t.push(digit_to_byte(((b1 & 15) << 2) | (b2 >> 6)));
    t.push(digit_to_byte(b2 & 63));
    t.push(digit_to_byte(b3 >> 2));
    t.push(digit_to_byte(((b3 & 3) << 4) | (b4 >> 4)));
    t.push(digit_to_byte(((b4 & 15) << 2) | (b5 >> 6)));
    t.push(digit_to_byte(b5 & 63));
    assert(t@ =~= id_token_bytes(id@));
    proof {
        lemma_id_token_well_formed(id@);
    }
    t
}

/// The eight-character printable form of an identifier token.
pub open spec fn id_token_chars(id: Seq<u8>) -> Seq<char>
    recommends
        id.len() == 6,
{
    id_token_bytes(id).map(|i: int, b: u8| b as char)
}

/// Encodes a card identifier as its eight-character token string.
pub fn encode_id(id: &crate::CardId) -> (r: String)
    ensures
        r@ == id_token_chars(id@),
{
    let t = id_token(id);
    let mut r = String::new();
    let mut i: usize = 0;
    while i < t.len()
        invariant
            i <= t@.len(),
            t@ == id_token_bytes(id@),
            is_token8(t@),
            r@.len() == i,
            forall|k: int| 0 <= k < i ==> r@[k] == (t@[k] as char),
        decreases t@.len() - i,
    {
        push_char(&mut r, t[i] as char);
        i += 1;
    }
    assert(r@ =~= id_token_chars(id@));
    r
}

/// Reads a card identifier back out of eight token bytes, returning `None`
/// unless all eight are alphabet symbols.
pub fn parse_id_token(t: &[u8]) -> (r: Option<crate::CardId>)
    ensures
        r is Some <==> is_token8(t@),
        r is Some ==> r->Some_0@ == token8_id(t@),
{
    if t.len() != 8 {
        assert(!is_token8(t@));
        return None;
    }
    let d0 = match byte_to_digit(t[0]) {
        Some(d) => d,
        None => { return None; },
    };
    let d1 = match byte_to_digit(t[1]) {
        Some(d) => d,
        None => { return None; },
    };
    let d2 = match byte_to_digit(t[2]) {
        Some(d) => d,
        None => { return None; },
    };
    let d3 = match byte_to_digit(t[3]) {
        Some(d) => d,
        None => { return None; },
    };
    let d4 = match byte_to_digit(t[4]) {
        Some(d) => d,
        None => { return None; },
    };
    let d5 = match byte_to_digit(t[5]) {
        Some(d) => d,
        None => { return None; },
    };
    let d6 = match byte_to_digit(t[6]) {
        Some(d) => d,
        None => { return None; },
    };
    let d7 = match byte_to_digit(t[7]) {
        Some(d) => d,
        None => { return None; },
    };
    let id = crate::CardId(
        [
            (d0 << 2) | (d1 >> 4),
            ((d1 & 15) << 4) | (d2 >> 2),
            ((d2 & 3) << 6) | d3,
            (d4 << 2) | (d5 >> 4),
            ((d5 & 15) << 4) | (d6 >> 2),
            ((d6 & 3) << 6) | d7,
        ],
    );
    assert(id@ =~= token8_id(t@));
    Some(id)
}

/// The four six-bit digits cut from a three-byte group are below 64.
proof fn lemma_group_digit_bounds(x: u8, y: u8)
    ensures
        (x >> 2) < 64,
        (((x & 3) << 4) | (y >> 4)) < 64,
        (((x & 15) << 2) | (y >> 6)) < 64,
        (x & 63) < 64,
{
    assert((x >> 2) < 64 && (((x & 3) << 4) | (y >> 4)) < 64 && ((((x & 15) << 2) | (y >> 6)))
        < 64 && (x & 63) < 64) by (bit_vector);
}

/// An identifier's token is always eight alphabet symbols.
pub proof fn lemma_id_token_well_formed(id: Seq<u8>)
    requires
        id.len() == 6,
    ensures
        is_token8(id_token_bytes(id)),
{
    let b0 = id[0];
    let b1 = id[1];
    let b2 = id[2];
    let b3 = id[3];
    let b4 = id[4];
    let b5 = id[5];
    lemma_group_digit_bounds(b0, b1);
    lemma_group_digit_bounds(b1, b2);
    lemma_group_digit_bounds(b2, b3);
    lemma_group_digit_bounds(b3, b4);
    lemma_group_digit_bounds(b4, b5);
    lemma_group_digit_bounds(b5, b0);
    assert forall|i: int| 0 <= i < 8 implies is_alphabet_byte(#[trigger] id_token_bytes(id)[i]) by {
        if i == 0 {
            lemma_digit_byte_inverse(b0 >> 2);
        } else if i == 1 {
            lemma_digit_byte_inverse(((b0 & 3) << 4) | (b1 >> 4));
        } else if i == 2 {
            lemma_digit_byte_inverse(((b1 & 15) << 2) | (b2 >> 6));
        } else if i == 3 {
            lemma_digit_byte_inverse(b2 & 63);
        } else if i == 4 {
            lemma_digit_byte_inverse(b3 >> 2);
        } else if i == 5 {
            lemma_digit_byte_inverse(((b3 & 3) << 4) | (b4 >> 4));
        } else if i == 6 {
            lemma_digit_byte_inverse(((b4 & 15) << 2) | (b5 >> 6));
        } else {
            lemma_digit_byte_inverse(b5 & 63);
        }
    }
}

/// Round trip: decoding an identifier's token yields the identifier back,
/// for every six-byte identifier.
pub proof fn lemma_id_round_trip(id: Seq<u8>)
    requires
        id.len() == 6,
    ensures
        is_token8(id_token_bytes(id)),
        token8_id(id_token_bytes(id)) == id,
{
    lemma_id_token_well_formed(id);
    let t = id_token_bytes(id);
    let b0 = id[0];
    let b1 = id[1];
    let b2 = id[2];
    let b3 = id[3];
    let b4 = id[4];
    let b5 = id[5];
    lemma_group_digit_bounds(b0, b1);
    lemma_group_digit_bounds(b1, b2);
    lemma_group_digit_bounds(b2, b3);
    lemma_group_digit_bounds(b3, b4);
    lemma_group_digit_bounds(b4, b5);
    lemma_group_digit_bounds(b5, b0);
    lemma_digit_byte_inverse(b0 >> 2);
    lemma_digit_byte_inverse(((b0 & 3) << 4) | (b1 >> 4));
    lemma_digit_byte_inverse(((b1 & 15) << 2) | (b2 >> 6));
    lemma_digit_byte_inverse(b2 & 63);
    lemma_digit_byte_inverse(b3 >> 2);
    lemma_digit_byte_inverse(((b3 & 3) << 4) | (b4 >> 4));
    lemma_digit_byte_inverse(((b4 & 15) << 2) | (b5 >> 6));
    lemma_digit_byte_inverse(b5 & 63);
    lemma_group_reassemble(b0, b1, b2);
    lemma_group_reassemble(b3, b4, b5);
    assert(token8_id(t) =~= id);
}

/// Splitting a three-byte group into digits and reassembling gives the bytes
/// back.
proof fn lemma_group_reassemble(x: u8, y: u8, z: u8)
    ensures
        (((x >> 2) << 2) | ((((x & 3) << 4) | (y >> 4)) >> 4)) == x,
        ((((((x & 3) << 4) | (y >> 4)) & 15) << 4) | ((((y & 15) << 2) | (z >> 6)) >> 2)) == y,
        ((((((y & 15) << 2) | (z >> 6)) & 3) << 6) | (z & 63)) == z,
{
    assert((((x >> 2) << 2) | ((((x & 3) << 4) | (y >> 4)) >> 4)) == x && ((((((x & 3) << 4) | (y
        >> 4)) & 15) << 4) | ((((y & 15) << 2) | (z >> 6)) >> 2)) == y && ((((((y & 15) << 2) | (z
        >> 6)) & 3) << 6) | (z & 63)) == z) by (bit_vector);
}

/// Round trip the other way: a well-formed eight-symbol token re-encodes to
/// itself, because forty-eight bits leave no padding.
pub proof fn lemma_token8_round_trip(t: Seq<u8>)
    requires
        is_token8(t),
    ensures
        token8_id(t).len() == 6,
        id_token_bytes(token8_id(t)) == t,
{
    let d0 = byte_digit(t[0]);
    let d1 = byte_digit(t[1]);
    let d2 = byte_digit(t[2]);
    let d3 = byte_digit(t[3]);
    let d4 = byte_digit(t[4]);
    let d5 = byte_digit(t[5]);
    let d6 = byte_digit(t[6]);
    let d7 = byte_digit(t[7]);
    lemma_byte_digit_inverse(t[0]);
    lemma_byte_digit_inverse(t[1]);
    lemma_byte_digit_inverse(t[2]);
    lemma_byte_digit_inverse(t[3]);
    lemma_byte_digit_inverse(t[4]);
    lemma_byte_digit_inverse(t[5]);
    lemma_byte_digit_inverse(t[6]);
    lemma_byte_digit_inverse(t[7]);
    lemma_digits_reassemble(d0, d1, d2, d3);
    lemma_digits_reassemble(d4, d5, d6, d7);
    lemma_digit_byte_inverse(d0);
    lemma_digit_byte_inverse(d1);
    lemma_digit_byte_inverse(d2);
    lemma_digit_byte_inverse(d3);
    lemma_digit_byte_inverse(d4);
    lemma_digit_byte_inverse(d5);
    lemma_digit_byte_inverse(d6);
    lemma_digit_byte_inverse(d7);
    assert(id_token_bytes(token8_id(t)) =~= t);
}

/// Packing four six-bit digits into three bytes and cutting them again gives
/// the digits back.
proof fn lemma_digits_reassemble(a: u8, b: u8, c: u8, d: u8)
    requires
        a < 64,
        b < 64,
        c < 64,
        d < 64,
    ensures
        ((a << 2) | (b >> 4)) >> 2 == a,
        (((((a << 2) | (b >> 4)) & 3) << 4) | ((((b & 15) << 4) | (c >> 2)) >> 4)) == b,
        ((((((b & 15) << 4) | (c >> 2)) & 15) << 2) | (((((c & 3) << 6) | d)) >> 6)) == c,
        ((((c & 3) << 6) | d) & 63) == d,
{
    assert(((a << 2) | (b >> 4)) >> 2 == a && (((((a << 2) | (b >> 4)) & 3) << 4) | ((((b & 15)
        << 4) | (c >> 2)) >> 4)) == b && ((((((b & 15) << 4) | (c >> 2)) & 15) << 2) | (((((c & 3)
        << 6) | d)) >> 6)) == c && ((((c & 3) << 6) | d) & 63) == d) by (bit_vector)
        requires
            a < 64 && b < 64 && c < 64 && d < 64,
    ;
}

proof fn lemma_digit_char_cast(d: u8)
    requires
        d < 64,
    ensures
        (digit_char(d) as u32) < 128,
        digit_char(d) as u8 == digit_byte(d),
{
    assert(digit_byte(d) < 128);
}

} // verus!
