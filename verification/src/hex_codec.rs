//! Hexadecimal text: two digits per byte, high half first.

use vstd::prelude::*;

verus! {

/// The lowercase hexadecimal digit for `n`, where `n < 16`.
pub open spec fn hex_digit(n: u8) -> char {
    seq!['0', '1', '2', '3', '4', '5', '6', '7', '8', '9', 'a', 'b', 'c', 'd', 'e', 'f'][n as int]
}

/// The lowercase hexadecimal text of `b`: two digits per byte, high half first.
pub open spec fn hex_encoding(b: Seq<u8>) -> Seq<char> {
    Seq::new(
        2 * b.len(),
        |i: int|
            if i % 2 == 0 {
                hex_digit(b[i / 2] / 16)
            } else {
                hex_digit(b[i / 2] % 16)
            },
    )
}

/// Whether `c` is a hexadecimal digit, in either case.
pub open spec fn is_hex_char(c: char) -> bool {
    ('0' <= c && c <= '9') || ('a' <= c && c <= 'f') || ('A' <= c && c <= 'F')
}

/// The value of the hexadecimal digit `c`.
pub open spec fn hex_char_value(c: char) -> nat {
    if '0' <= c && c <= '9' {
        (c as nat - '0' as nat) as nat
    } else if 'a' <= c && c <= 'f' {
        (c as nat - 'a' as nat + 10) as nat
    } else {
        (c as nat - 'A' as nat + 10) as nat
    }
}

/// Whether `s` is hexadecimal text: an even number of hexadecimal digits.
pub open spec fn is_hex(s: Seq<char>) -> bool {
    &&& s.len() % 2 == 0
    &&& forall|i: int| 0 <= i < s.len() ==> is_hex_char(#[trigger] s[i])
}

/// The bytes that the hexadecimal text `s` stands for.
pub open spec fn hex_decoding(s: Seq<char>) -> Seq<u8> {
    Seq::new(
        s.len() / 2,
        |i: int| (16 * hex_char_value(s[2 * i]) + hex_char_value(s[2 * i + 1])) as u8,
    )
}

/// Encodes `data` as lowercase hexadecimal text by calling `hex::encode`.
/// Claims that the text is `hex_encoding(data)`: for each byte, the digit of
/// its high half, then that of its low half, from the table
/// `0123456789abcdef`.
#[verifier::external_body]
pub(crate) fn hex_encode(data: &[u8]) -> (text: String)
    ensures
        text@ == hex_encoding(data@),
{
    hex::encode(data)
}

/// Decodes hexadecimal text by calling `hex::decode`. Claims that it succeeds
/// exactly on text of an even number of digits `0-9`, `a-f`, `A-F`, and then
/// gives `hex_decoding(text)`. Nothing is stated of the error value.
#[verifier::external_body]
pub(crate) fn hex_decode(text: &str) -> (res: Result<Vec<u8>, hex::FromHexError>)
    ensures
        res is Ok <==> is_hex(text@),
        res matches Ok(b) ==> b@ == hex_decoding(text@),
{
    hex::decode(text)
}

/// `c` with an ASCII capital letter made small, as `char::to_ascii_lowercase`
/// does.
pub open spec fn ascii_lowercase_char(c: char) -> char {
    if 'A' <= c && c <= 'Z' {
        ((c as u32) + 32) as char
    } else {
        c
    }
}

/// `c` with an ASCII small letter made capital, as `char::to_ascii_uppercase`
/// does.
pub open spec fn ascii_uppercase_char(c: char) -> char {
    if 'a' <= c && c <= 'z' {
        ((c as u32) - 32) as char
    } else {
        c
    }
}

/// The text `s` with ASCII capitals made small, as `str::to_ascii_lowercase`
/// does.
pub open spec fn ascii_lowercase(s: Seq<char>) -> Seq<char> {
    Seq::new(s.len(), |i: int| ascii_lowercase_char(s[i]))
}

/// The text `s` with ASCII small letters made capital, as
/// `str::to_ascii_uppercase` does.
pub open spec fn ascii_uppercase(s: Seq<char>) -> Seq<char> {
    Seq::new(s.len(), |i: int| ascii_uppercase_char(s[i]))
}

/// Each lowercase digit is a hexadecimal digit with its own value, and is
/// not changed by making it lowercase.
pub proof fn lemma_hex_digit(n: u8)
    requires
        n < 16,
    ensures
        is_hex_char(hex_digit(n)),
        hex_char_value(hex_digit(n)) == n,
        ascii_lowercase_char(hex_digit(n)) == hex_digit(n),
{
    let t = seq!['0', '1', '2', '3', '4', '5', '6', '7', '8', '9', 'a', 'b', 'c', 'd', 'e', 'f'];
    assert(hex_digit(n) == t[n as int]);
    if n == 0 {
    } else if n == 1 {
    } else if n == 2 {
    } else if n == 3 {
    } else if n == 4 {
    } else if n == 5 {
    } else if n == 6 {
    } else if n == 7 {
    } else if n == 8 {
    } else if n == 9 {
    } else if n == 10 {
    } else if n == 11 {
    } else if n == 12 {
    } else if n == 13 {
    } else if n == 14 {
    } else {
        assert(n == 15);
    }
}

/// The hexadecimal text of any bytes is hexadecimal text in lowercase, and
/// decoding it gives the bytes back.
pub proof fn lemma_hex_roundtrip(b: Seq<u8>)
    ensures
        is_hex(hex_encoding(b)),
        ascii_lowercase(hex_encoding(b)) =~= hex_encoding(b),
        hex_decoding(hex_encoding(b)) =~= b,
{
    let e = hex_encoding(b);
    assert forall|i: int| 0 <= i < e.len() implies is_hex_char(#[trigger] e[i])
        && ascii_lowercase_char(e[i]) == e[i] by {
        lemma_hex_digit(b[i / 2] / 16);
        lemma_hex_digit(b[i / 2] % 16);
    }
    assert forall|i: int| 0 <= i < b.len() implies #[trigger] hex_decoding(e)[i] == b[i] by {
        assert((2 * i) / 2 == i);
        assert((2 * i + 1) / 2 == i);
        assert((2 * i) % 2 == 0);
        assert((2 * i + 1) % 2 == 1);
        lemma_hex_digit(b[i] / 16);
        lemma_hex_digit(b[i] % 16);
    }
}

/// The lowercase digit of a hexadecimal digit's value is the digit made
/// lowercase.
pub proof fn lemma_hex_char_lowercase(c: char)
    requires
        is_hex_char(c),
    ensures
        hex_char_value(c) < 16,
        hex_digit(hex_char_value(c) as u8) == ascii_lowercase_char(c),
{
    let n = hex_char_value(c);
    let t = seq!['0', '1', '2', '3', '4', '5', '6', '7', '8', '9', 'a', 'b', 'c', 'd', 'e', 'f'];
    assert(n < 16);
    assert(hex_digit(n as u8) == t[n as int]);
    let l = ascii_lowercase_char(c);
    if n == 0 {
        assert(l == '0');
    } else if n == 1 {
        assert(l == '1');
    } else if n == 2 {
        assert(l == '2');
    } else if n == 3 {
        assert(l == '3');
    } else if n == 4 {
        assert(l == '4');
    } else if n == 5 {
        assert(l == '5');
    } else if n == 6 {
        assert(l == '6');
    } else if n == 7 {
        assert(l == '7');
    } else if n == 8 {
        assert(l == '8');
    } else if n == 9 {
        assert(l == '9');
    } else if n == 10 {
        assert(l == 'a');
    } else if n == 11 {
        assert(l == 'b');
    } else if n == 12 {
        assert(l == 'c');
    } else if n == 13 {
        assert(l == 'd');
    } else if n == 14 {
        assert(l == 'e');
    } else {
        assert(l == 'f');
    }
}

/// Hexadecimal text decoded and encoded again is the text in lowercase.
pub proof fn lemma_hex_decode_encode(s: Seq<char>)
    requires
        is_hex(s),
    ensures
        hex_encoding(hex_decoding(s)) =~= ascii_lowercase(s),
{
    let b = hex_decoding(s);
    let e = hex_encoding(b);
    assert forall|i: int| 0 <= i < s.len() implies #[trigger] e[i] == ascii_lowercase(s)[i] by {
        let j = i / 2;
        assert(0 <= 2 * j && 2 * j + 1 < s.len());
        let hi = hex_char_value(s[2 * j]);
        let lo = hex_char_value(s[2 * j + 1]);
        lemma_hex_char_lowercase(s[2 * j]);
        lemma_hex_char_lowercase(s[2 * j + 1]);
        assert(b[j] == 16 * hi + lo);
        assert(b[j] / 16 == hi);
        assert(b[j] % 16 == lo);
        if i % 2 == 0 {
            assert(i == 2 * j);
        } else {
            assert(i == 2 * j + 1);
        }
    }
}

/// Capitals and small letters are the same to hexadecimal text: making the
/// text uppercase or lowercase changes neither whether it is hexadecimal
/// text nor the bytes it stands for.
pub proof fn lemma_hex_ignores_case(s: Seq<char>)
    ensures
        is_hex(ascii_uppercase(s)) == is_hex(s),
        is_hex(ascii_lowercase(s)) == is_hex(s),
        is_hex(s) ==> hex_decoding(ascii_uppercase(s)) =~= hex_decoding(s),
        is_hex(s) ==> hex_decoding(ascii_lowercase(s)) =~= hex_decoding(s),
{
    let up = ascii_uppercase(s);
    let low = ascii_lowercase(s);
    assert forall|i: int| 0 <= i < s.len() implies {
        &&& is_hex_char(#[trigger] up[i]) == is_hex_char(s[i])
        &&& is_hex_char(low[i]) == is_hex_char(s[i])
        &&& is_hex_char(s[i]) ==> hex_char_value(up[i]) == hex_char_value(s[i])
        &&& is_hex_char(s[i]) ==> hex_char_value(low[i]) == hex_char_value(s[i])
    } by {}
    if !is_hex(s) && s.len() % 2 == 0 {
        let i = choose|i: int| 0 <= i < s.len() && !is_hex_char(#[trigger] s[i]);
        assert(!is_hex_char(up[i]));
        assert(!is_hex_char(low[i]));
    }
    if is_hex(s) {
        assert(forall|i: int| 0 <= i < s.len() ==> is_hex_char(#[trigger] up[i]));
        assert(forall|i: int| 0 <= i < s.len() ==> is_hex_char(#[trigger] low[i]));
    }
}

} // verus!
