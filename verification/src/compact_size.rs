//! Bitcoin's variable-length integer ("compact size"): one byte for values
//! up to 252, else a tag byte (253, 254, 255) followed by the value in 2, 4
//! or 8 little-endian bytes.

use vstd::prelude::*;
use crate::bytes::{
    le_bytes, lemma_le_bytes_len, lemma_le_value_single, lemma_le_bytes_of_value, lemma_le_value_bound,
    lemma_le_value_of_bytes, lemma_pow256_values,
};
use crate::codec::{parse_le, Decodable, Encodable};
use crate::error::Error;

verus! {

/// A count or a length, written in Bitcoin's variable-length form.
#[derive(Debug)]
pub struct CompactSize(pub u64);

impl View for CompactSize {
    type V = u64;

    open spec fn view(&self) -> u64 {
        self.0
    }
}

impl DeepView for CompactSize {
    type V = u64;

    open spec fn deep_view(&self) -> u64 {
        self.0
    }
}

/// The number of value bytes that follow a tag byte above 252.
pub open spec fn compact_size_width(tag: u8) -> nat {
    if tag == 0xFD {
        2
    } else if tag == 0xFE {
        4
    } else {
        8
    }
}

/// The shortest form of `n`, which is the form that is written.
pub open spec fn compact_size_encoding(n: u64) -> Seq<u8> {
    if n <= 0xFC {
        seq![n as u8]
    } else if n <= 0xFFFF {
        seq![0xFDu8] + le_bytes(n as nat, 2)
    } else if n <= 0xFFFF_FFFF {
        seq![0xFEu8] + le_bytes(n as nat, 4)
    } else {
        seq![0xFFu8] + le_bytes(n as nat, 8)
    }
}

/// What reading a compact size from the front of `s` gives: the value and the
/// number of bytes it takes. Longer forms than needed are accepted.
pub open spec fn parse_compact_size(s: Seq<u8>) -> Option<(u64, nat)> {
    if s.len() == 0 {
        None
    } else if s[0] <= 0xFC {
        Some((s[0] as u64, 1))
    } else {
        match parse_le(s.skip(1), compact_size_width(s[0])) {
            Some((v, n)) => Some((v as u64, 1 + n)),
            None => None,
        }
    }
}

impl Decodable for CompactSize {
    open spec fn spec_decode(bytes: Seq<u8>) -> Option<(u64, nat)> {
        parse_compact_size(bytes)
    }

    fn consensus_decode(r: &mut &[u8]) -> (res: Result<CompactSize, Error>) {
        let ghost s = old(r)@;
        proof {
            lemma_pow256_values();
        }
        let n = match u8::consensus_decode(r) {
            Ok(n) => n,
            Err(e) => return Err(e),
        };
        proof {
            lemma_le_value_single(s.take(1));
            assert(n == s[0]);
        }
        if n <= 252 {
            Ok(CompactSize(n as u64))
        } else if n == 253 {
            match u16::consensus_decode(r) {
                Ok(x) => {
                    assert(s.skip(1).skip(2) =~= s.skip(3));
                    proof {
                        lemma_le_value_bound(s.skip(1).take(2));
                    }
                    Ok(CompactSize(x as u64))
                },
                Err(e) => Err(e),
            }
        } else if n == 254 {
            match u32::consensus_decode(r) {
                Ok(x) => {
                    assert(s.skip(1).skip(4) =~= s.skip(5));
                    proof {
                        lemma_le_value_bound(s.skip(1).take(4));
                    }
                    Ok(CompactSize(x as u64))
                },
                Err(e) => Err(e),
            }
        } else {
            match u64::consensus_decode(r) {
                Ok(x) => {
                    assert(s.skip(1).skip(8) =~= s.skip(9));
                    proof {
                        lemma_le_value_bound(s.skip(1).take(8));
                    }
                    Ok(CompactSize(x))
                },
                Err(e) => Err(e),
            }
        }
    }
}

impl Encodable for CompactSize {
    open spec fn spec_encode(v: u64) -> Seq<u8> {
        compact_size_encoding(v)
    }

    open spec fn encodable(v: u64) -> bool {
        true
    }

    fn consensus_encode(&self, w: &mut Vec<u8>) -> (res: Result<usize, Error>) {
        let ghost start = old(w)@;
        proof {
            lemma_pow256_values();
            lemma_le_bytes_len(self.0 as nat, 1);
            lemma_le_bytes_len(self.0 as nat, 2);
            lemma_le_bytes_len(self.0 as nat, 4);
            lemma_le_bytes_len(self.0 as nat, 8);
        }
        if self.0 <= 0xFC {
            let _ = (self.0 as u8).consensus_encode(w);
            assert(le_bytes((self.0 as u8) as nat, 1) =~= seq![self.0 as u8]);
            Ok(1)
        } else if self.0 <= 0xFFFF {
            w.push(0xFD);
            let _ = (self.0 as u16).consensus_encode(w);
            assert(w@ =~= start + compact_size_encoding(self.0));
            Ok(3)
        } else if self.0 <= 0xFFFF_FFFF {
            w.push(0xFE);
            let _ = (self.0 as u32).consensus_encode(w);
            assert(w@ =~= start + compact_size_encoding(self.0));
            Ok(5)
        } else {
            w.push(0xFF);
            let _ = self.0.consensus_encode(w);
            assert(w@ =~= start + compact_size_encoding(self.0));
            Ok(9)
        }
    }
}

/// Reads a compact size from the front of `r` and gives its value.
pub fn read_compact_size(r: &mut &[u8]) -> (res: Result<u64, Error>)
    ensures
        match parse_compact_size(old(r)@) {
            Some((v, n)) => res matches Ok(x) && x == v && final(r)@ == old(r)@.skip(n as int),
            None => res is Err && final(r)@ == Seq::<u8>::empty(),
        },
{
    match CompactSize::consensus_decode(r) {
        Ok(c) => Ok(c.0),
        Err(e) => Err(e),
    }
}

/// The written form of `n` takes 1, 3, 5 or 9 bytes, by the range `n` is in.
pub proof fn lemma_compact_size_encoding_len(n: u64)
    ensures
        compact_size_encoding(n).len() == if n <= 0xFC {
            1nat
        } else if n <= 0xFFFF {
            3nat
        } else if n <= 0xFFFF_FFFF {
            5nat
        } else {
            9nat
        },
{
    lemma_le_bytes_len(n as nat, 2);
    lemma_le_bytes_len(n as nat, 4);
    lemma_le_bytes_len(n as nat, 8);
}

/// Reading a compact size back from its written form, whatever follows it,
/// gives the value and takes exactly the written bytes.
pub proof fn lemma_compact_size_roundtrip(n: u64, rest: Seq<u8>)
    ensures
        parse_compact_size(compact_size_encoding(n) + rest) == Some(
            (n, compact_size_encoding(n).len()),
        ),
{
    lemma_pow256_values();
    lemma_compact_size_encoding_len(n);
    let e = compact_size_encoding(n);
    let s = e + rest;
    if n <= 0xFC {
        assert(s[0] == n as u8);
    } else {
        let width: nat = if n <= 0xFFFF {
            2
        } else if n <= 0xFFFF_FFFF {
            4
        } else {
            8
        };
        assert(compact_size_width(s[0]) == width);
        lemma_le_bytes_len(n as nat, width);
        assert(s.skip(1).take(width as int) =~= le_bytes(n as nat, width));
        lemma_le_value_of_bytes(n as nat, width);
    }
}

/// Whatever a compact size is read from, the written form of the value is no
/// longer than what was read, and where it is as long, it is what was read.
/// (It is shorter where the bytes used a longer form than the value needs.)
pub proof fn lemma_compact_size_canonical(s: Seq<u8>)
    ensures
        parse_compact_size(s) matches Some((n, k)) ==> {
            &&& compact_size_encoding(n).len() <= k
            &&& compact_size_encoding(n).len() == k ==> s.take(k as int) == compact_size_encoding(
                n,
            )
        },
{
    lemma_pow256_values();
    if let Some((n, k)) = parse_compact_size(s) {
        lemma_compact_size_encoding_len(n);
        if s[0] <= 0xFC {
            assert(s.take(1) =~= seq![s[0]]);
        } else {
            let width = compact_size_width(s[0]);
            let body = s.skip(1).take(width as int);
            lemma_le_value_bound(body);
            lemma_le_bytes_of_value(body);
            if compact_size_encoding(n).len() == k {
                assert(s.take(k as int) =~= seq![s[0]] + body);
            }
        }
    }
}

} // verus!
