//! Where each field sits in the written form: every reader and writer stated
//! in terms of little-endian integers, compact sizes and plain byte ranges,
//! with list items in index order.

use vstd::prelude::*;
use crate::bytes::{
    le_bytes, le_value, lemma_le_bytes_len, lemma_le_value_bound, pow256, lemma_pow256_values,
};
use crate::codec::{parse_le, parse_var_bytes, Decodable, Encodable};
use crate::compact_size::{CompactSize, compact_size_encoding, parse_compact_size};
use crate::hex_codec::{hex_decoding, hex_encoding};
use crate::transaction::{
    Amount, Script, Transaction, TransactionView, transaction_encoding, TxId, TxIn, TxInView, TxOut, TxOutView, items_encoding, list_encoding, parse_items, parse_list,
    txin_encoder, txin_parser, txout_encoder, txout_parser,
};

verus! {

/// Byte `i` of the `n`-byte little-endian form of `x` is the `i`-th base-256
/// digit of `x`: the least significant byte comes first.
pub proof fn lemma_le_bytes_digit(x: nat, n: nat, i: int)
    requires
        0 <= i < n,
    ensures
        le_bytes(x, n)[i] as nat == (x / pow256(i as nat)) % 256,
    decreases n,
{
    lemma_le_bytes_len(x / 256, (n - 1) as nat);
    let rest = le_bytes(x / 256, (n - 1) as nat);
    assert(le_bytes(x, n) == seq![(x % 256) as u8] + rest);
    if i > 0 {
        assert(le_bytes(x, n)[i] == rest[i - 1]);
        lemma_le_bytes_digit(x / 256, (n - 1) as nat, i - 1);
        crate::bytes::lemma_pow256_positive((i - 1) as nat);
        vstd::arithmetic::div_mod::lemma_div_denominator(
            x as int,
            256,
            pow256((i - 1) as nat) as int,
        );
        assert(pow256(i as nat) == 256 * pow256((i - 1) as nat));
    } else {
        assert(pow256(0) == 1);
        assert(x / 1 == x);
    }
}

/// A `u8` is read from its 1 little-endian byte(s) at the front, whenever
/// there are that many, and written as its 1 little-endian byte(s).
pub proof fn lemma_u8_layout(s: Seq<u8>, v: u8)
    ensures
        <u8 as Decodable>::spec_decode(s) is Some <==> s.len() >= 1,
        <u8 as Decodable>::spec_decode(s) matches Some((x, n)) ==> n == 1 && x as nat == le_value(
            s.subrange(0, 1),
        ),
        <u8 as Encodable>::spec_encode(v) == le_bytes(v as nat, 1),
{
    lemma_pow256_values();
    if s.len() >= 1 {
        assert(s.take(1) =~= s.subrange(0, 1));
        lemma_le_value_bound(s.subrange(0, 1));
    }
}

/// A `u16` is read from its 2 little-endian byte(s) at the front, whenever
/// there are that many, and written as its 2 little-endian byte(s).
pub proof fn lemma_u16_layout(s: Seq<u8>, v: u16)
    ensures
        <u16 as Decodable>::spec_decode(s) is Some <==> s.len() >= 2,
        <u16 as Decodable>::spec_decode(s) matches Some((x, n)) ==> n == 2 && x as nat == le_value(
            s.subrange(0, 2),
        ),
        <u16 as Encodable>::spec_encode(v) == le_bytes(v as nat, 2),
{
    lemma_pow256_values();
    if s.len() >= 2 {
        assert(s.take(2) =~= s.subrange(0, 2));
        lemma_le_value_bound(s.subrange(0, 2));
    }
}

/// A `u32` is read from its 4 little-endian byte(s) at the front, whenever
/// there are that many, and written as its 4 little-endian byte(s).
pub proof fn lemma_u32_layout(s: Seq<u8>, v: u32)
    ensures
        <u32 as Decodable>::spec_decode(s) is Some <==> s.len() >= 4,
        <u32 as Decodable>::spec_decode(s) matches Some((x, n)) ==> n == 4 && x as nat == le_value(
            s.subrange(0, 4),
        ),
        <u32 as Encodable>::spec_encode(v) == le_bytes(v as nat, 4),
{
    lemma_pow256_values();
    if s.len() >= 4 {
        assert(s.take(4) =~= s.subrange(0, 4));
        lemma_le_value_bound(s.subrange(0, 4));
    }
}

/// A `u64` is read from its 8 little-endian byte(s) at the front, whenever
/// there are that many, and written as its 8 little-endian byte(s).
pub proof fn lemma_u64_layout(s: Seq<u8>, v: u64)
    ensures
        <u64 as Decodable>::spec_decode(s) is Some <==> s.len() >= 8,
        <u64 as Decodable>::spec_decode(s) matches Some((x, n)) ==> n == 8 && x as nat == le_value(
            s.subrange(0, 8),
        ),
        <u64 as Encodable>::spec_encode(v) == le_bytes(v as nat, 8),
{
    lemma_pow256_values();
    if s.len() >= 8 {
        assert(s.take(8) =~= s.subrange(0, 8));
        lemma_le_value_bound(s.subrange(0, 8));
    }
}

/// A compact size is read as: a first byte up to 252 standing for itself; or
/// a tag byte 253, 254 or 255 followed by the value in 2, 4 or 8 little-endian
/// bytes. It is written in the shortest of these forms.
pub proof fn lemma_compact_size_layout(s: Seq<u8>, v: u64)
    ensures
        <CompactSize as Decodable>::spec_decode(s) matches Some((x, n)) ==> {
            &&& 1 <= n <= s.len()
            &&& s[0] <= 0xFC ==> n == 1 && x == s[0]
            &&& s[0] == 0xFD ==> n == 3 && x as nat == le_value(s.subrange(1, 3))
            &&& s[0] == 0xFE ==> n == 5 && x as nat == le_value(s.subrange(1, 5))
            &&& s[0] == 0xFF ==> n == 9 && x as nat == le_value(s.subrange(1, 9))
        },
        s.len() >= 1 && (s[0] <= 0xFC || (s[0] == 0xFD && s.len() >= 3) || (s[0] == 0xFE
            && s.len() >= 5) || s.len() >= 9) ==> <CompactSize as Decodable>::spec_decode(s) is Some,
        v <= 0xFC ==> <CompactSize as Encodable>::spec_encode(v) == seq![v as u8],
        0xFD <= v <= 0xFFFF ==> <CompactSize as Encodable>::spec_encode(v) == seq![0xFDu8]
            + le_bytes(v as nat, 2),
        0x1_0000 <= v <= 0xFFFF_FFFF ==> <CompactSize as Encodable>::spec_encode(v) == seq![0xFEu8]
            + le_bytes(v as nat, 4),
        0x1_0000_0000 <= v ==> <CompactSize as Encodable>::spec_encode(v) == seq![0xFFu8]
            + le_bytes(v as nat, 8),
{
    lemma_pow256_values();
    if s.len() >= 1 && s[0] > 0xFC {
        let w = crate::compact_size::compact_size_width(s[0]);
        if s.len() >= 1 + w {
            assert(s.skip(1).take(w as int) =~= s.subrange(1, 1 + w as int));
            lemma_le_value_bound(s.subrange(1, 1 + w as int));
        }
    }
}

/// A transaction id is read as the 32 bytes at the front, whenever there are
/// that many, and written as its bytes.
pub proof fn lemma_txid_layout(s: Seq<u8>, v: Seq<u8>)
    ensures
        <TxId as Decodable>::spec_decode(s) is Some <==> s.len() >= 32,
        <TxId as Decodable>::spec_decode(s) matches Some((x, n)) ==> n == 32 && x == s.subrange(
            0,
            32,
        ),
        <TxId as Encodable>::spec_encode(v) == v,
        <[u8; 32] as Encodable>::spec_encode(v) == v,
{
    assert(s.len() >= 32 ==> s.take(32) =~= s.subrange(0, 32));
}

/// An amount is written as eight little-endian bytes; a script as its length
/// as a compact size, then its bytes.
pub proof fn lemma_amount_script_layout(amount: u64, script: Seq<u8>)
    ensures
        <Amount as Encodable>::spec_encode(amount) == le_bytes(amount as nat, 8),
        <Script as Encodable>::spec_encode(script) == compact_size_encoding(script.len() as u64)
            + script,
{
}

/// Text is read as a length given as a compact size, then that many bytes,
/// given as their hexadecimal text; it is written as the length of the bytes
/// that the text stands for, as a compact size, then those bytes.
pub proof fn lemma_text_layout(s: Seq<u8>, text: Seq<char>)
    ensures
        <String as Decodable>::spec_decode(s) matches Some((h, n)) ==> {
            &&& parse_compact_size(s) matches Some((len, k))
            &&& n == k + len
            &&& n <= s.len()
            &&& h == hex_encoding(s.subrange(k as int, k + len as int))
        },
        parse_compact_size(s) matches Some((len, k)) && k + len <= s.len() ==> <String as Decodable>::spec_decode(s) is Some,
        <String as Encodable>::spec_encode(text) == compact_size_encoding(
            hex_decoding(text).len() as u64,
        ) + hex_decoding(text),
{
    crate::compact_size::lemma_compact_size_canonical(s);
    if let Some((len, k)) = parse_compact_size(s) {
        if k + len <= s.len() {
            assert(s.skip(k as int).take(len as int) =~= s.subrange(k as int, k + len as int));
        }
    }
}

/// Reading an input takes, in this order: 32 bytes of the spent transaction's
/// id; the index of the spent output as four little-endian bytes; the
/// script's length as a compact size; that many bytes of script, in order;
/// and the sequence number as four little-endian bytes. It succeeds whenever
/// the bytes hold all of these.
pub proof fn lemma_txin_read_layout(s: Seq<u8>)
    ensures
        <TxIn as Decodable>::spec_decode(s) matches Some((t, n)) ==> {
            &&& parse_compact_size(s.skip(36)) matches Some((len, k))
            &&& n == 40 + k + len
            &&& n <= s.len()
            &&& t.txid == s.subrange(0, 32)
            &&& t.vout as nat == le_value(s.subrange(32, 36))
            &&& t.script_sig == s.subrange(36 + k as int, 36 + k + len as int)
            &&& t.sequence as nat == le_value(s.subrange(36 + k + len as int, 40 + k + len as int))
        },
        s.len() >= 36 ==> (parse_compact_size(s.skip(36)) matches Some((len, k)) && 40 + k + len
            <= s.len() ==> <TxIn as Decodable>::spec_decode(s) is Some),
{
    lemma_pow256_values();
    if s.len() >= 36 {
        assert(s.skip(32).take(4) =~= s.subrange(32, 36));
        lemma_le_value_bound(s.subrange(32, 36));
        if let Some((len, k)) = parse_compact_size(s.skip(36)) {
            let m = k + len;
            if 40 + m <= s.len() {
                assert(s.skip(36 + m as int).take(4) =~= s.subrange(36 + m as int, 40 + m as int));
                lemma_le_value_bound(s.subrange(36 + m as int, 40 + m as int));
                assert(s.skip(36).skip(k as int).take(len as int) =~= s.subrange(
                    36 + k as int,
                    36 + m as int,
                ));
            }
        }
    }
}

/// Writing an input gives the spent transaction's id, the index of the spent
/// output as four little-endian bytes, the script's length as a compact size,
/// the script's bytes, and the sequence number as four little-endian bytes.
pub proof fn lemma_txin_write_layout(t: TxInView)
    ensures
        <TxIn as Encodable>::spec_encode(t) == t.txid + le_bytes(t.vout as nat, 4)
            + compact_size_encoding(t.script_sig.len() as u64) + t.script_sig + le_bytes(
            t.sequence as nat,
            4,
        ),
{
    assert(<TxIn as Encodable>::spec_encode(t) =~= t.txid + le_bytes(t.vout as nat, 4)
        + compact_size_encoding(t.script_sig.len() as u64) + t.script_sig + le_bytes(
        t.sequence as nat,
        4,
    ));
}

/// Reading an output takes, in this order: the amount as eight little-endian
/// bytes, the script's length as a compact size, and that many bytes of
/// script, in order. It succeeds whenever the bytes hold all of these.
pub proof fn lemma_txout_read_layout(s: Seq<u8>)
    ensures
        <TxOut as Decodable>::spec_decode(s) matches Some((o, n)) ==> {
            &&& parse_compact_size(s.skip(8)) matches Some((len, k))
            &&& n == 8 + k + len
            &&& n <= s.len()
            &&& o.amount as nat == le_value(s.subrange(0, 8))
            &&& o.script_pubkey == s.subrange(8 + k as int, 8 + k + len as int)
        },
        s.len() >= 8 ==> (parse_compact_size(s.skip(8)) matches Some((len, k)) && 8 + k + len
            <= s.len() ==> <TxOut as Decodable>::spec_decode(s) is Some),
{
    lemma_pow256_values();
    if s.len() >= 8 {
        assert(s.take(8) =~= s.subrange(0, 8));
        lemma_le_value_bound(s.subrange(0, 8));
        if let Some((len, k)) = parse_compact_size(s.skip(8)) {
            if 8 + k + len <= s.len() {
                assert(s.skip(8).skip(k as int).take(len as int) =~= s.subrange(
                    8 + k as int,
                    8 + k + len as int,
                ));
            }
        }
    }
}

/// Writing an output gives the amount as eight little-endian bytes, the
/// script's length as a compact size, and the script's bytes.
pub proof fn lemma_txout_write_layout(o: TxOutView)
    ensures
        <TxOut as Encodable>::spec_encode(o) == le_bytes(o.amount as nat, 8) + compact_size_encoding(
            o.script_pubkey.len() as u64,
        ) + o.script_pubkey,
{
    assert(<TxOut as Encodable>::spec_encode(o) =~= le_bytes(o.amount as nat, 8)
        + compact_size_encoding(o.script_pubkey.len() as u64) + o.script_pubkey);
}

/// The items written first are written first: the written form of the first
/// `j` items begins the written form of all of them.
pub proof fn lemma_items_encoding_prefix<T>(items: Seq<T>, j: int, enc: spec_fn(T) -> Seq<u8>)
    requires
        0 <= j <= items.len(),
    ensures
        items_encoding(items.take(j), enc).len() <= items_encoding(items, enc).len(),
        items_encoding(items, enc).take(items_encoding(items.take(j), enc).len() as int)
            == items_encoding(items.take(j), enc),
    decreases items.len(),
{
    if j == items.len() {
        assert(items.take(j) =~= items);
        assert(items_encoding(items, enc).take(items_encoding(items, enc).len() as int)
            =~= items_encoding(items, enc));
    } else {
        let dl = items.drop_last();
        assert(items.take(j) =~= dl.take(j));
        lemma_items_encoding_prefix(dl, j, enc);
        let p = items_encoding(dl.take(j), enc);
        assert(items_encoding(items, enc) == items_encoding(dl, enc) + enc(items.last()));
        assert(items_encoding(items, enc).take(p.len() as int) =~= items_encoding(dl, enc).take(
            p.len() as int,
        ));
    }
}

/// Where each item's written form sits in the written form of a list of
/// items: item `i` takes the bytes from `off(i)` to `off(i + 1)`, where
/// `off(i)` is the length of the written form of the items before it.
pub proof fn lemma_items_encoding_offsets<T>(items: Seq<T>, enc: spec_fn(T) -> Seq<u8>)
    ensures
        forall|i: int|
            0 <= i < items.len() ==> {
                let a = items_encoding(items.take(i), enc).len() as int;
                let b = items_encoding(items.take(i + 1), enc).len() as int;
                &&& a <= b <= items_encoding(items, enc).len()
                &&& items_encoding(items, enc).subrange(a, b) == enc(#[trigger] items[i])
            },
        items_encoding(items.take(0), enc).len() == 0,
        items_encoding(items.take(items.len() as int), enc) == items_encoding(items, enc),
{
    assert(items.take(0) =~= Seq::<T>::empty());
    assert(items.take(items.len() as int) =~= items);
    assert forall|i: int| 0 <= i < items.len() implies {
        let a = items_encoding(items.take(i), enc).len() as int;
        let b = items_encoding(items.take(i + 1), enc).len() as int;
        &&& a <= b <= items_encoding(items, enc).len()
        &&& items_encoding(items, enc).subrange(a, b) == enc(#[trigger] items[i])
    } by {
        let e = items_encoding(items, enc);
        let t1 = items.take(i + 1);
        assert(t1.drop_last() =~= items.take(i));
        assert(t1.last() == items[i]);
        let pa = items_encoding(items.take(i), enc);
        let pb = items_encoding(t1, enc);
        assert(pb == pa + enc(items[i]));
        lemma_items_encoding_prefix(items, i + 1, enc);
        assert(e.subrange(pa.len() as int, pb.len() as int) =~= pb.subrange(
            pa.len() as int,
            pb.len() as int,
        ));
        assert(pb.subrange(pa.len() as int, pb.len() as int) =~= enc(items[i]));
    }
}

/// Where each item read one after another was read from: offsets, starting
/// at 0 and ending at the bytes taken, never decreasing, such that item `i` is
/// what `parse` reads at offset `i` and takes the bytes up to offset `i + 1`.
pub proof fn lemma_items_read_offsets<T>(
    s: Seq<u8>,
    count: nat,
    parse: spec_fn(Seq<u8>) -> Option<(T, nat)>,
    items: Seq<T>,
    m: nat,
) -> (offs: Seq<nat>)
    requires
        parse_items(s, count, parse) == Some((items, m)),
        forall|x: Seq<u8>| #[trigger] parse(x) matches Some((v, k)) ==> k <= x.len(),
    ensures
        items.len() == count,
        offs.len() == count + 1,
        offs[0] == 0,
        offs[count as int] == m,
        m <= s.len(),
        forall|i: int| 0 <= i < count ==> #[trigger] offs[i] <= offs[i + 1],
        forall|i: int|
            0 <= i < count ==> parse(s.skip(offs[i] as int)) == Some(
                (#[trigger] items[i], (offs[i + 1] - offs[i]) as nat),
            ),
    decreases count,
{
    if count == 0 {
        seq![0nat]
    } else {
        let (prev_items, pm) = parse_items(s, (count - 1) as nat, parse).unwrap();
        let prev = lemma_items_read_offsets(s, (count - 1) as nat, parse, prev_items, pm);
        let x = s.skip(pm as int);
        let (item, k) = parse(x).unwrap();
        assert(k <= x.len());
        let offs = prev.push(pm + k);
        assert(items == prev_items.push(item));
        assert forall|i: int| 0 <= i < count implies #[trigger] offs[i] <= offs[i + 1] by {
            if i < count - 1 {
                assert(prev[i] <= prev[i + 1]);
            }
        }
        assert forall|i: int| 0 <= i < count implies parse(s.skip(offs[i] as int)) == Some(
            (#[trigger] items[i], (offs[i + 1] - offs[i]) as nat),
        ) by {
            if i < count - 1 {
                assert(items[i] == prev_items[i]);
                assert(parse(s.skip(prev[i] as int)) == Some(
                    (prev_items[i], (prev[i + 1] - prev[i]) as nat),
                ));
            } else {
                assert(items[i] == item);
            }
        }
        offs
    }
}

/// Offsets that never decrease from one to the next never decrease.
proof fn lemma_offsets_monotonic(o: Seq<nat>, a: int, b: int)
    requires
        0 <= a <= b < o.len(),
        forall|i: int| 0 <= i < b ==> #[trigger] o[i] <= o[i + 1],
    ensures
        o[a] <= o[b],
    decreases b - a,
{
    if a < b {
        lemma_offsets_monotonic(o, a, b - 1);
        assert(o[b - 1] <= o[b]);
    }
}

/// Reading a list takes the count as a compact size, then the items one after
/// another in index order: offsets, starting after the count and ending at the
/// bytes taken, such that item `i` is what `parse` reads at offset `i`.
pub proof fn lemma_list_read_offsets<T>(
    s: Seq<u8>,
    parse: spec_fn(Seq<u8>) -> Option<(T, nat)>,
    items: Seq<T>,
    n: nat,
) -> (offs: Seq<nat>)
    requires
        parse_list(s, parse) == Some((items, n)),
        forall|x: Seq<u8>| #[trigger] parse(x) matches Some((v, k)) ==> k <= x.len(),
    ensures
        parse_compact_size(s) matches Some((count, k)) && items.len() == count && offs.len()
            == count + 1 && offs[0] == k && offs[count as int] == n,
        forall|i: int| 0 <= i < items.len() ==> #[trigger] offs[i] <= offs[i + 1],
        forall|i: int|
            0 <= i < items.len() ==> parse(s.skip(offs[i] as int)) == Some(
                (#[trigger] items[i], (offs[i + 1] - offs[i]) as nat),
            ),
{
    let (count, k) = parse_compact_size(s).unwrap();
    let x = s.skip(k as int);
    let (xi, m) = parse_items(x, count as nat, parse).unwrap();
    let o = lemma_items_read_offsets(x, count as nat, parse, xi, m);
    let offs = Seq::new((count + 1) as nat, |i: int| o[i] + k);
    assert forall|i: int| 0 <= i < items.len() implies parse(s.skip(offs[i] as int)) == Some(
        (#[trigger] items[i], (offs[i + 1] - offs[i]) as nat),
    ) by {
        lemma_offsets_monotonic(o, i, count as int);
        assert(x.skip(o[i] as int) =~= s.skip(offs[i] as int));
        assert(parse(x.skip(o[i] as int)) == Some((xi[i], (o[i + 1] - o[i]) as nat)));
    }
    assert forall|i: int| 0 <= i < items.len() implies #[trigger] offs[i] <= offs[i + 1] by {
        assert(o[i] <= o[i + 1]);
    }
    offs
}

/// Writing a list gives the count as a compact size, then each item's written
/// form in index order: offsets, starting after the count and ending at the
/// end, such that item `i` is written between offset `i` and offset `i + 1`.
pub proof fn lemma_list_write_offsets<T>(items: Seq<T>, enc: spec_fn(T) -> Seq<u8>) -> (offs: Seq<nat>)
    ensures
        list_encoding(items, enc).take(compact_size_encoding(items.len() as u64).len() as int)
            == compact_size_encoding(items.len() as u64),
        offs.len() == items.len() + 1,
        offs[0] == compact_size_encoding(items.len() as u64).len(),
        offs[items.len() as int] == list_encoding(items, enc).len(),
        forall|i: int| 0 <= i < items.len() ==> #[trigger] offs[i] <= offs[i + 1],
        forall|i: int|
            0 <= i < items.len() ==> list_encoding(items, enc).subrange(
                offs[i] as int,
                offs[i + 1] as int,
            ) == enc(#[trigger] items[i]),
{
    let e = list_encoding(items, enc);
    let c = compact_size_encoding(items.len() as u64);
    let body = items_encoding(items, enc);
    assert(e.take(c.len() as int) =~= c);
    lemma_items_encoding_offsets(items, enc);
    let offs = Seq::new(
        (items.len() + 1) as nat,
        |i: int| c.len() + items_encoding(items.take(i), enc).len(),
    );
    assert forall|i: int| 0 <= i < items.len() implies #[trigger] offs[i] <= offs[i + 1] by {
        assert(enc(items[i]) == enc(items[i]));
    }
    assert forall|i: int| 0 <= i < items.len() implies e.subrange(
        offs[i] as int,
        offs[i + 1] as int,
    ) == enc(#[trigger] items[i]) by {
        let a = items_encoding(items.take(i), enc).len() as int;
        let b = items_encoding(items.take(i + 1), enc).len() as int;
        assert(body.subrange(a, b) == enc(items[i]));
        assert(e.subrange(offs[i] as int, offs[i + 1] as int) =~= body.subrange(a, b));
    }
    offs
}

/// Reading a list of inputs takes the count as a compact size, then that many
/// inputs one after another, in index order: input `i` is what reading one input
/// at offset `i` gives, and it ends where input `i + 1` starts.
pub proof fn lemma_txins_read_layout(s: Seq<u8>)
    ensures
        <Vec<TxIn> as Decodable>::spec_decode(s) matches Some((items, n)) ==> {
            &&& parse_compact_size(s) matches Some((count, k))
            &&& items.len() == count
            &&& exists|offs: Seq<nat>|
                {
                    &&& offs.len() == count + 1
                    &&& offs[0] == k
                    &&& offs[count as int] == n
                    &&& forall|i: int| 0 <= i < count ==> #[trigger] offs[i] <= offs[i + 1]
                    &&& forall|i: int|
                        0 <= i < count ==> <TxIn as Decodable>::spec_decode(s.skip(offs[i] as int))
                            == Some((#[trigger] items[i], (offs[i + 1] - offs[i]) as nat))
                }
        },
{
    if let Some((items, n)) = <Vec<TxIn> as Decodable>::spec_decode(s) {
        assert forall|x: Seq<u8>| #[trigger] txin_parser()(x) matches Some((v, k)) ==> k <= x.len() by {
            lemma_txin_read_layout(x);
        }
        let offs = lemma_list_read_offsets(s, txin_parser(), items, n);
        let (count, k) = parse_compact_size(s).unwrap();
        assert forall|i: int| 0 <= i < count implies <TxIn as Decodable>::spec_decode(
            s.skip(offs[i] as int),
        ) == Some((#[trigger] items[i], (offs[i + 1] - offs[i]) as nat)) by {
            assert(txin_parser()(s.skip(offs[i] as int)) == Some(
                (items[i], (offs[i + 1] - offs[i]) as nat),
            ));
        }
        assert forall|i: int| 0 <= i < count implies #[trigger] offs[i] <= offs[i + 1] by {}
    }
}

/// Reading a list of outputs takes the count as a compact size, then that many
/// outputs one after another, in index order: output `i` is what reading one output
/// at offset `i` gives, and it ends where output `i + 1` starts.
pub proof fn lemma_txouts_read_layout(s: Seq<u8>)
    ensures
        <Vec<TxOut> as Decodable>::spec_decode(s) matches Some((items, n)) ==> {
            &&& parse_compact_size(s) matches Some((count, k))
            &&& items.len() == count
            &&& exists|offs: Seq<nat>|
                {
                    &&& offs.len() == count + 1
                    &&& offs[0] == k
                    &&& offs[count as int] == n
                    &&& forall|i: int| 0 <= i < count ==> #[trigger] offs[i] <= offs[i + 1]
                    &&& forall|i: int|
                        0 <= i < count ==> <TxOut as Decodable>::spec_decode(s.skip(offs[i] as int))
                            == Some((#[trigger] items[i], (offs[i + 1] - offs[i]) as nat))
                }
        },
{
    if let Some((items, n)) = <Vec<TxOut> as Decodable>::spec_decode(s) {
        assert forall|x: Seq<u8>| #[trigger] txout_parser()(x) matches Some((v, k)) ==> k <= x.len() by {
            lemma_txout_read_layout(x);
        }
        let offs = lemma_list_read_offsets(s, txout_parser(), items, n);
        let (count, k) = parse_compact_size(s).unwrap();
        assert forall|i: int| 0 <= i < count implies <TxOut as Decodable>::spec_decode(
            s.skip(offs[i] as int),
        ) == Some((#[trigger] items[i], (offs[i + 1] - offs[i]) as nat)) by {
            assert(txout_parser()(s.skip(offs[i] as int)) == Some(
                (items[i], (offs[i + 1] - offs[i]) as nat),
            ));
        }
        assert forall|i: int| 0 <= i < count implies #[trigger] offs[i] <= offs[i + 1] by {}
    }
}

/// Writing a list of inputs gives the count as a compact size, then each
/// input's written form, in index order: there are offsets, starting right after
/// the count and ending at the end, such that input `i` is written between
/// offset `i` and offset `i + 1`.
pub proof fn lemma_txins_write_layout(items: Seq<TxInView>)
    ensures
        ({
            let e = <Vec<TxIn> as Encodable>::spec_encode(items);
            let c = compact_size_encoding(items.len() as u64);
            &&& e.take(c.len() as int) == c
            &&& exists|offs: Seq<nat>|
                {
                    &&& offs.len() == items.len() + 1
                    &&& offs[0] == c.len()
                    &&& offs[items.len() as int] == e.len()
                    &&& forall|i: int| 0 <= i < items.len() ==> #[trigger] offs[i] <= offs[i + 1]
                    &&& forall|i: int|
                        0 <= i < items.len() ==> e.subrange(offs[i] as int, offs[i + 1] as int)
                            == <TxIn as Encodable>::spec_encode(#[trigger] items[i])
                }
        }),
{
    let e = <Vec<TxIn> as Encodable>::spec_encode(items);
    let offs = lemma_list_write_offsets(items, txin_encoder());
    assert forall|i: int| 0 <= i < items.len() implies e.subrange(offs[i] as int, offs[i + 1] as int)
        == <TxIn as Encodable>::spec_encode(#[trigger] items[i]) by {
        assert(e.subrange(offs[i] as int, offs[i + 1] as int) == txin_encoder()(items[i]));
    }
    assert forall|i: int| 0 <= i < items.len() implies #[trigger] offs[i] <= offs[i + 1] by {}
}

/// Writing a list of outputs gives the count as a compact size, then each
/// output's written form, in index order: there are offsets, starting right after
/// the count and ending at the end, such that output `i` is written between
/// offset `i` and offset `i + 1`.
pub proof fn lemma_txouts_write_layout(items: Seq<TxOutView>)
    ensures
        ({
            let e = <Vec<TxOut> as Encodable>::spec_encode(items);
            let c = compact_size_encoding(items.len() as u64);
            &&& e.take(c.len() as int) == c
            &&& exists|offs: Seq<nat>|
                {
                    &&& offs.len() == items.len() + 1
                    &&& offs[0] == c.len()
                    &&& offs[items.len() as int] == e.len()
                    &&& forall|i: int| 0 <= i < items.len() ==> #[trigger] offs[i] <= offs[i + 1]
                    &&& forall|i: int|
                        0 <= i < items.len() ==> e.subrange(offs[i] as int, offs[i + 1] as int)
                            == <TxOut as Encodable>::spec_encode(#[trigger] items[i])
                }
        }),
{
    let e = <Vec<TxOut> as Encodable>::spec_encode(items);
    let offs = lemma_list_write_offsets(items, txout_encoder());
    assert forall|i: int| 0 <= i < items.len() implies e.subrange(offs[i] as int, offs[i + 1] as int)
        == <TxOut as Encodable>::spec_encode(#[trigger] items[i]) by {
        assert(e.subrange(offs[i] as int, offs[i + 1] as int) == txout_encoder()(items[i]));
    }
    assert forall|i: int| 0 <= i < items.len() implies #[trigger] offs[i] <= offs[i + 1] by {}
}

/// Reading a transaction takes, in this order: the version as four
/// little-endian bytes, the list of inputs, the list of outputs, and the lock
/// time as four little-endian bytes.
pub proof fn lemma_transaction_read_layout(s: Seq<u8>)
    ensures
        <Transaction as Decodable>::spec_decode(s) matches Some((t, n)) ==> {
            &&& t.version as nat == le_value(s.subrange(0, 4))
            &&& <Vec<TxIn> as Decodable>::spec_decode(s.skip(4)) matches Some((inputs, n1))
            &&& inputs == t.inputs
            &&& <Vec<TxOut> as Decodable>::spec_decode(s.skip(4 + n1 as int)) matches Some(
                (outputs, n2),
            )
            &&& outputs == t.outputs
            &&& n == 8 + n1 + n2
            &&& n <= s.len()
            &&& t.lock_time as nat == le_value(s.subrange(4 + n1 + n2 as int, n as int))
        },
{
    if let Some((t, n)) = <Transaction as Decodable>::spec_decode(s) {
        crate::roundtrip::lemma_transaction_canonical(s);
        lemma_pow256_values();
        assert(s.take(4) =~= s.subrange(0, 4));
        lemma_le_value_bound(s.subrange(0, 4));
        let (inputs, n1) = <Vec<TxIn> as Decodable>::spec_decode(s.skip(4)).unwrap();
        let (outputs, n2) = <Vec<TxOut> as Decodable>::spec_decode(s.skip(4 + n1 as int)).unwrap();
        let rest = s.skip(4 + n1 + n2 as int);
        assert(rest.len() >= 4);
        assert(rest.take(4) =~= s.subrange(4 + n1 + n2 as int, n as int));
        lemma_le_value_bound(rest.take(4));
    }
}

/// The written form of a transaction, which its id hashes: the version as
/// four little-endian bytes, the list of inputs, the list of outputs, and the
/// lock time as four little-endian bytes.
pub proof fn lemma_transaction_write_layout(t: TransactionView)
    ensures
        transaction_encoding(t) == le_bytes(t.version as nat, 4) + <Vec<TxIn> as Encodable>::spec_encode(
            t.inputs,
        ) + <Vec<TxOut> as Encodable>::spec_encode(t.outputs) + le_bytes(t.lock_time as nat, 4),
{
}

} // verus!
