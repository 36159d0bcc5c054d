//! Little-endian integers and a byte reader over a slice.

use vstd::prelude::*;
use vstd::slice::slice_subrange;
use crate::error::{Error, unexpected_eof};

verus! {

/// `256` raised to the power `n`.
pub open spec fn pow256(n: nat) -> nat
    decreases n,
{
    if n == 0 {
        1
    } else {
        256 * pow256((n - 1) as nat)
    }
}

/// The number that the bytes `s` stand for, least significant byte first.
pub open spec fn le_value(s: Seq<u8>) -> nat
    decreases s.len(),
{
    if s.len() == 0 {
        0
    } else {
        s[0] as nat + 256 * le_value(s.drop_first())
    }
}

/// The `n` low bytes of `x`, least significant byte first.
pub open spec fn le_bytes(x: nat, n: nat) -> Seq<u8>
    decreases n,
{
    if n == 0 {
        Seq::empty()
    } else {
        seq![(x % 256) as u8] + le_bytes(x / 256, (n - 1) as nat)
    }
}

pub proof fn lemma_pow256_positive(n: nat)
    ensures
        pow256(n) >= 1,
    decreases n,
{
    if n > 0 {
        lemma_pow256_positive((n - 1) as nat);
    }
}

pub proof fn lemma_pow256_monotonic(a: nat, b: nat)
    requires
        a <= b,
    ensures
        pow256(a) <= pow256(b),
    decreases b,
{
    if a < b {
        lemma_pow256_monotonic(a, (b - 1) as nat);
        lemma_pow256_positive((b - 1) as nat);
    }
}

pub proof fn lemma_pow256_values()
    ensures
        pow256(1) == 0x100,
        pow256(2) == 0x1_0000,
        pow256(4) == 0x1_0000_0000,
        pow256(8) == 0x1_0000_0000_0000_0000,
{
    reveal_with_fuel(pow256, 9);
}

pub proof fn lemma_le_bytes_len(x: nat, n: nat)
    ensures
        le_bytes(x, n).len() == n,
    decreases n,
{
    if n > 0 {
        lemma_le_bytes_len(x / 256, (n - 1) as nat);
    }
}

/// The value of `n` bytes is below `256^n`.
pub proof fn lemma_le_value_bound(s: Seq<u8>)
    ensures
        le_value(s) < pow256(s.len()),
    decreases s.len(),
{
    if s.len() > 0 {
        lemma_le_value_bound(s.drop_first());
    }
}

/// A single byte stands for itself.
pub proof fn lemma_le_value_single(s: Seq<u8>)
    requires
        s.len() == 1,
    ensures
        le_value(s) == s[0] as nat,
{
    assert(s.drop_first() =~= Seq::<u8>::empty());
    assert(le_value(s.drop_first()) == 0);
}

/// Reading back the `n` low bytes of `x` gives `x`, where `x < 256^n`.
pub proof fn lemma_le_value_of_bytes(x: nat, n: nat)
    requires
        x < pow256(n),
    ensures
        le_value(le_bytes(x, n)) == x,
    decreases n,
{
    if n > 0 {
        let s = le_bytes(x, n);
        lemma_le_bytes_len(x, n);
        assert(s.drop_first() =~= le_bytes(x / 256, (n - 1) as nat));
        lemma_le_value_of_bytes(x / 256, (n - 1) as nat);
    }
}

/// Writing the value of `s` back in `s.len()` bytes gives `s`.
pub proof fn lemma_le_bytes_of_value(s: Seq<u8>)
    ensures
        le_bytes(le_value(s), s.len()) =~= s,
    decreases s.len(),
{
    if s.len() > 0 {
        lemma_le_bytes_of_value(s.drop_first());
        let v = le_value(s);
        assert(v % 256 == s[0] as nat);
        assert(v / 256 == le_value(s.drop_first()));
        assert(s =~= seq![s[0]] + s.drop_first());
    }
}

/// Appends the `n` low bytes of `x` to `w`, least significant first.
pub fn write_le(w: &mut Vec<u8>, x: u64, n: usize)
    ensures
        final(w)@ == old(w)@ + le_bytes(x as nat, n as nat),
{
    let ghost start = old(w)@;
    let mut v: u64 = x;
    let mut i: usize = 0;
    while i < n
        invariant
            i <= n,
            start + le_bytes(x as nat, n as nat) == w@ + le_bytes(v as nat, (n - i) as nat),
        decreases n - i,
    {
        let byte: u8 = (v % 256) as u8;
        proof {
            assert(le_bytes(v as nat, (n - i) as nat) == seq![byte] + le_bytes(
                (v / 256) as nat,
                (n - i - 1) as nat,
            ));
            assert(w@.push(byte) + le_bytes((v / 256) as nat, (n - i - 1) as nat) =~= w@
                + le_bytes(v as nat, (n - i) as nat));
        }
        w.push(byte);
        v = v / 256;
        i = i + 1;
    }
    assert(w@ + le_bytes(v as nat, 0) =~= w@);
}

/// The value of at most eight bytes, least significant first.
pub fn read_le(b: &[u8]) -> (v: u64)
    requires
        b@.len() <= 8,
    ensures
        v as nat == le_value(b@),
{
    let n = b.len();
    let mut v: u64 = 0;
    let mut i: usize = n;
    proof {
        assert(b@.subrange(n as int, n as int) =~= Seq::<u8>::empty());
        lemma_pow256_monotonic(0, 8);
        lemma_pow256_values();
    }
    while i > 0
        invariant
            i <= n,
            n == b@.len(),
            n <= 8,
            v as nat == le_value(b@.subrange(i as int, n as int)),
            v < pow256((n - i) as nat),
        decreases i,
    {
        i = i - 1;
        proof {
            let s = b@.subrange(i as int, n as int);
            assert(s.drop_first() =~= b@.subrange(i + 1, n as int));
            lemma_pow256_monotonic((n - i) as nat, 8);
            lemma_pow256_values();
            assert(pow256((n - i) as nat) == 256 * pow256((n - i - 1) as nat));
        }
        v = v * 256 + b[i] as u64;
    }
    assert(b@.subrange(0, n as int) =~= b@);
    v
}

/// Takes the first `n` bytes off the front of `r`. Where fewer than `n` bytes
/// are left, fails and leaves `r` empty, as reading a slice to its end does.
pub fn take<'a>(r: &mut &'a [u8], n: usize) -> (res: Result<&'a [u8], Error>)
    ensures
        n <= old(r)@.len() ==> (res matches Ok(b) && b@ == old(r)@.take(n as int)
            && final(r)@ == old(r)@.skip(n as int)),
        n > old(r)@.len() ==> res is Err && final(r)@ == Seq::<u8>::empty(),
{
    let len = r.len();
    if n <= len {
        let head = slice_subrange(*r, 0, n);
        *r = slice_subrange(*r, n, len);
        Ok(head)
    } else {
        *r = slice_subrange(*r, len, len);
        Err(Error::Io(unexpected_eof()))
    }
}

/// Takes the first `n` bytes off the front of `r`, for a count read as a
/// `u64`; fails as `take` does where fewer are left.
pub fn take_u64<'a>(r: &mut &'a [u8], n: u64) -> (res: Result<&'a [u8], Error>)
    ensures
        n <= old(r)@.len() ==> (res matches Ok(b) && b@ == old(r)@.take(n as int)
            && final(r)@ == old(r)@.skip(n as int)),
        n > old(r)@.len() ==> res is Err && final(r)@ == Seq::<u8>::empty(),
{
    let len = r.len();
    if n <= len as u64 {
        take(r, n as usize)
    } else {
        *r = slice_subrange(*r, len, len);
        Err(Error::Io(unexpected_eof()))
    }
}

} // verus!
