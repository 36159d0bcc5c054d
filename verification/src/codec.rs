//! The consensus codec: values read from the front of a byte slice, and
//! values appended to a byte vector.

use vstd::prelude::*;
use crate::bytes::{
    pow256, le_value, le_bytes, lemma_le_value_bound, lemma_pow256_values, read_le, write_le, take,
    take_u64,
};
use crate::compact_size::{
    CompactSize, compact_size_encoding, parse_compact_size, lemma_compact_size_roundtrip,
    lemma_compact_size_canonical,
};
use crate::hex_codec::{
    hex_encoding, hex_decoding, is_hex, hex_encode, hex_decode, ascii_lowercase,
    lemma_hex_decode_encode,
};
use crate::error::Error;

verus! {

/// A value that can be read from the front of a byte slice.
pub trait Decodable: Sized + DeepView {
    /// What `consensus_decode` reads from the front of `bytes`: the value and
    /// the number of bytes it takes up, or `None` where the bytes end first.
    spec fn spec_decode(bytes: Seq<u8>) -> Option<(Self::V, nat)>;

    /// Reads a value from the front of `r` and moves `r` past it. Where the
    /// bytes end first, fails with `Error::Io` and leaves `r` empty.
    fn consensus_decode(r: &mut &[u8]) -> (res: Result<Self, Error>)
        ensures
            match Self::spec_decode(old(r)@) {
                Some((v, n)) => {
                    &&& res matches Ok(x) && x.deep_view() == v
                    &&& n <= old(r)@.len()
                    &&& final(r)@ == old(r)@.skip(n as int)
                },
                None => res is Err && final(r)@ == Seq::<u8>::empty(),
            },
    ;
}

/// A value that can be appended to a byte vector.
pub trait Encodable: DeepView {
    /// The bytes that stand for `v`.
    spec fn spec_encode(v: Self::V) -> Seq<u8>;

    /// Whether `v` can be encoded at all.
    spec fn encodable(v: Self::V) -> bool;

    /// Appends the bytes that stand for `self` to `w` and returns how many
    /// there are.
    fn consensus_encode(&self, w: &mut Vec<u8>) -> (res: Result<usize, Error>)
        requires
            Self::encodable(self.deep_view()),
        ensures
            final(w)@ == old(w)@ + Self::spec_encode(self.deep_view()),
            res matches Ok(n) && n == Self::spec_encode(self.deep_view()).len(),
    ;
}

/// What reading a `width`-byte little-endian integer from the front of
/// `bytes` gives: its value and `width`.
pub open spec fn parse_le(bytes: Seq<u8>, width: nat) -> Option<(nat, nat)> {
    if bytes.len() >= width {
        Some((le_value(bytes.take(width as int)), width))
    } else {
        None
    }
}

/// Reads a `width`-byte little-endian integer from the front of `r`.
fn decode_le(r: &mut &[u8], width: usize) -> (res: Result<u64, Error>)
    requires
        width <= 8,
    ensures
        match parse_le(old(r)@, width as nat) {
            Some((v, n)) => {
                &&& res matches Ok(x) && x == v
                &&& v < pow256(width as nat)
                &&& final(r)@ == old(r)@.skip(n as int)
            },
            None => res is Err && final(r)@ == Seq::<u8>::empty(),
        },
{
    match take(r, width) {
        Ok(b) => {
            proof {
                lemma_le_value_bound(b@);
            }
            Ok(read_le(b))
        },
        Err(e) => Err(e),
    }
}

impl Decodable for u8 {
    open spec fn spec_decode(bytes: Seq<u8>) -> Option<(u8, nat)> {
        match parse_le(bytes, 1) {
            Some((v, n)) => Some((v as u8, n)),
            None => None,
        }
    }

    fn consensus_decode(r: &mut &[u8]) -> (res: Result<u8, Error>) {
        proof {
            lemma_pow256_values();
        }
        match decode_le(r, 1) {
            Ok(v) => Ok(v as u8),
            Err(e) => Err(e),
        }
    }
}

impl Decodable for u16 {
    open spec fn spec_decode(bytes: Seq<u8>) -> Option<(u16, nat)> {
        match parse_le(bytes, 2) {
            Some((v, n)) => Some((v as u16, n)),
            None => None,
        }
    }

    fn consensus_decode(r: &mut &[u8]) -> (res: Result<u16, Error>) {
        proof {
            lemma_pow256_values();
        }
        match decode_le(r, 2) {
            Ok(v) => Ok(v as u16),
            Err(e) => Err(e),
        }
    }
}

impl Decodable for u32 {
    open spec fn spec_decode(bytes: Seq<u8>) -> Option<(u32, nat)> {
        match parse_le(bytes, 4) {
            Some((v, n)) => Some((v as u32, n)),
            None => None,
        }
    }

    fn consensus_decode(r: &mut &[u8]) -> (res: Result<u32, Error>) {
        proof {
            lemma_pow256_values();
        }
        match decode_le(r, 4) {
            Ok(v) => Ok(v as u32),
            Err(e) => Err(e),
        }
    }
}

impl Decodable for u64 {
    open spec fn spec_decode(bytes: Seq<u8>) -> Option<(u64, nat)> {
        match parse_le(bytes, 8) {
            Some((v, n)) => Some((v as u64, n)),
            None => None,
        }
    }

    fn consensus_decode(r: &mut &[u8]) -> (res: Result<u64, Error>) {
        proof {
            lemma_pow256_values();
        }
        decode_le(r, 8)
    }
}

impl Encodable for u8 {
    open spec fn spec_encode(v: u8) -> Seq<u8> {
        le_bytes(v as nat, 1)
    }

    open spec fn encodable(v: u8) -> bool {
        true
    }

    fn consensus_encode(&self, w: &mut Vec<u8>) -> (res: Result<usize, Error>) {
        let start = w.len();
        write_le(w, *self as u64, 1);
        Ok(w.len() - start)
    }
}

impl Encodable for u16 {
    open spec fn spec_encode(v: u16) -> Seq<u8> {
        le_bytes(v as nat, 2)
    }

    open spec fn encodable(v: u16) -> bool {
        true
    }

    fn consensus_encode(&self, w: &mut Vec<u8>) -> (res: Result<usize, Error>) {
        let start = w.len();
        write_le(w, *self as u64, 2);
        Ok(w.len() - start)
    }
}

impl Encodable for u32 {
    open spec fn spec_encode(v: u32) -> Seq<u8> {
        le_bytes(v as nat, 4)
    }

    open spec fn encodable(v: u32) -> bool {
        true
    }

    fn consensus_encode(&self, w: &mut Vec<u8>) -> (res: Result<usize, Error>) {
        let start = w.len();
        write_le(w, *self as u64, 4);
        Ok(w.len() - start)
    }
}

impl Encodable for u64 {
    open spec fn spec_encode(v: u64) -> Seq<u8> {
        le_bytes(v as nat, 8)
    }

    open spec fn encodable(v: u64) -> bool {
        true
    }

    fn consensus_encode(&self, w: &mut Vec<u8>) -> (res: Result<usize, Error>) {
        let start = w.len();
        write_le(w, *self, 8);
        Ok(w.len() - start)
    }
}

impl Encodable for [u8; 32] {
    open spec fn spec_encode(v: Seq<u8>) -> Seq<u8> {
        v
    }

    open spec fn encodable(v: Seq<u8>) -> bool {
        true
    }

    fn consensus_encode(&self, w: &mut Vec<u8>) -> (res: Result<usize, Error>) {
        let start = w.len();
        let mut i: usize = 0;
        while i < 32
            invariant
                i <= 32,
                w@ == old(w)@ + self.deep_view().take(i as int),
            decreases 32 - i,
        {
            w.push(self[i]);
            i = i + 1;
            assert(w@ =~= old(w)@ + self.deep_view().take(i as int));
        }
        assert(self.deep_view().take(32) =~= self.deep_view());
        Ok(w.len() - start)
    }
}

/// A run of bytes prefixed by its length as a compact size.
pub open spec fn var_bytes_encoding(b: Seq<u8>) -> Seq<u8> {
    compact_size_encoding(b.len() as u64) + b
}

/// What reading a length-prefixed run of bytes from the front of `s` gives:
/// the bytes and the number of bytes taken, prefix included.
pub open spec fn parse_var_bytes(s: Seq<u8>) -> Option<(Seq<u8>, nat)> {
    match parse_compact_size(s) {
        Some((len, k)) => if len <= s.len() - k {
            Some((s.skip(k as int).take(len as int), k + len as nat))
        } else {
            None
        },
        None => None,
    }
}

/// Reading a length-prefixed run of bytes back from its written form,
/// whatever follows it, gives the bytes and takes the written form.
pub proof fn lemma_var_bytes_roundtrip(b: Seq<u8>, rest: Seq<u8>)
    requires
        b.len() <= u64::MAX,
    ensures
        parse_var_bytes(var_bytes_encoding(b) + rest) == Some((b, var_bytes_encoding(b).len())),
{
    let c = compact_size_encoding(b.len() as u64);
    let s = var_bytes_encoding(b) + rest;
    assert(s =~= c + (b + rest));
    lemma_compact_size_roundtrip(b.len() as u64, b + rest);
    assert(s.skip(c.len() as int).take(b.len() as int) =~= b);
}

/// Whatever a length-prefixed run of bytes is read from, its written form is
/// no longer than what was read, and where it is as long, it is what was read.
pub proof fn lemma_var_bytes_canonical(s: Seq<u8>)
    ensures
        parse_var_bytes(s) matches Some((b, n)) ==> {
            &&& var_bytes_encoding(b).len() <= n
            &&& var_bytes_encoding(b).len() == n ==> s.take(n as int) == var_bytes_encoding(b)
        },
{
    lemma_compact_size_canonical(s);
    if let Some((b, n)) = parse_var_bytes(s) {
        let (len, k) = parse_compact_size(s).unwrap();
        assert(b.len() == len);
        if var_bytes_encoding(b).len() == n {
            assert(s.take(n as int) =~= s.take(k as int) + b);
        }
    }
}

/// Reads a length-prefixed run of bytes off the front of `r`.
pub fn decode_var_bytes<'a>(r: &mut &'a [u8]) -> (res: Result<&'a [u8], Error>)
    ensures
        match parse_var_bytes(old(r)@) {
            Some((b, n)) => {
                &&& res matches Ok(x) && x@ == b
                &&& n <= old(r)@.len()
                &&& final(r)@ == old(r)@.skip(n as int)
            },
            None => res is Err && final(r)@ == Seq::<u8>::empty(),
        },
{
    let ghost s = old(r)@;
    let length = match CompactSize::consensus_decode(r) {
        Ok(c) => c.0,
        Err(e) => return Err(e),
    };
    let ghost k = (s.len() - r@.len()) as nat;
    let res = take_u64(r, length);
    proof {
        if res is Ok {
            assert(s.skip(k as int).skip(length as int) =~= s.skip(k + length));
        }
    }
    res
}

/// Appends `b` to `w`, prefixed by its length as a compact size.
pub fn encode_var_bytes(b: &[u8], w: &mut Vec<u8>)
    ensures
        final(w)@ == old(w)@ + var_bytes_encoding(b@),
{
    let _ = CompactSize(b.len() as u64).consensus_encode(w);
    let ghost mid = w@;
    let mut i: usize = 0;
    while i < b.len()
        invariant
            i <= b@.len(),
            w@ == mid + b@.take(i as int),
        decreases b@.len() - i,
    {
        w.push(b[i]);
        i = i + 1;
        assert(w@ =~= mid + b@.take(i as int));
    }
    assert(b@.take(b@.len() as int) =~= b@);
    assert(w@ =~= old(w)@ + var_bytes_encoding(b@));
}

/// Text is read as a length-prefixed run of bytes and given as their
/// hexadecimal text; it is written by decoding the hexadecimal text and
/// writing the bytes with their length.
impl Decodable for String {
    open spec fn spec_decode(bytes: Seq<u8>) -> Option<(Seq<char>, nat)> {
        match parse_var_bytes(bytes) {
            Some((b, n)) => Some((hex_encoding(b), n)),
            None => None,
        }
    }

    fn consensus_decode(r: &mut &[u8]) -> (res: Result<String, Error>) {
        match decode_var_bytes(r) {
            Ok(b) => Ok(hex_encode(b)),
            Err(e) => Err(e),
        }
    }
}

impl Encodable for String {
    open spec fn spec_encode(v: Seq<char>) -> Seq<u8> {
        var_bytes_encoding(hex_decoding(v))
    }

    open spec fn encodable(v: Seq<char>) -> bool {
        is_hex(v)
    }

    fn consensus_encode(&self, w: &mut Vec<u8>) -> (res: Result<usize, Error>) {
        let start = w.len();
        let b = hex_decode(self.as_str()).unwrap();
        encode_var_bytes(b.as_slice(), w);
        Ok(w.len() - start)
    }
}

/// Text written and read back is the text in lowercase, and reading takes
/// exactly the written bytes, whatever follows them.
pub proof fn lemma_text_roundtrip(text: Seq<char>, rest: Seq<u8>)
    requires
        is_hex(text),
        hex_decoding(text).len() <= u64::MAX,
    ensures
        <String as Decodable>::spec_decode(<String as Encodable>::spec_encode(text) + rest) == Some(
            (ascii_lowercase(text), <String as Encodable>::spec_encode(text).len()),
        ),
{
    lemma_var_bytes_roundtrip(hex_decoding(text), rest);
    lemma_hex_decode_encode(text);
}

} // verus!
