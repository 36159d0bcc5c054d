//! What reading gives back of writing, and what writing gives back of reading.

use vstd::prelude::*;
use crate::bytes::{
    le_bytes, lemma_le_bytes_len, lemma_le_bytes_of_value, lemma_le_value_bound,
    lemma_le_value_of_bytes, lemma_pow256_values,
};
use crate::codec::{
    parse_le, parse_var_bytes, var_bytes_encoding, lemma_var_bytes_canonical,
    lemma_var_bytes_roundtrip,
};
use crate::compact_size::{
    compact_size_encoding, parse_compact_size, lemma_compact_size_canonical,
    lemma_compact_size_roundtrip,
};
use crate::hash::sha256;
use crate::transaction::{
    TxInView, TxOutView, TransactionView, items_encoding, list_encoding, parse_items, parse_list,
    parse_transaction, parse_txin, parse_txout, transaction_encoding, txin_encoder,
    txin_encoding, txin_parser, txout_encoder, txout_encoding, txout_parser, u32_encoding,
};

verus! {

/// An input that a value of type `TxIn` can hold: a 32-byte id and a script
/// whose length fits in a compact size.
pub open spec fn txin_valid(t: TxInView) -> bool {
    t.txid.len() == 32 && t.script_sig.len() <= u64::MAX
}

/// An output that a value of type `TxOut` can hold.
pub open spec fn txout_valid(o: TxOutView) -> bool {
    o.script_pubkey.len() <= u64::MAX
}

/// A transaction that a value of type `Transaction` can hold.
pub open spec fn transaction_valid(t: TransactionView) -> bool {
    &&& t.inputs.len() <= u64::MAX
    &&& t.outputs.len() <= u64::MAX
    &&& forall|i: int| 0 <= i < t.inputs.len() ==> txin_valid(#[trigger] t.inputs[i])
    &&& forall|i: int| 0 <= i < t.outputs.len() ==> txout_valid(#[trigger] t.outputs[i])
}

/// Reading a `width`-byte integer back from its bytes gives its value.
pub proof fn lemma_le_roundtrip(x: nat, width: nat, rest: Seq<u8>)
    requires
        width == 4 || width == 8,
        x < crate::bytes::pow256(width),
    ensures
        parse_le(le_bytes(x, width) + rest, width) == Some((x, width)),
{
    lemma_le_bytes_len(x, width);
    assert((le_bytes(x, width) + rest).take(width as int) =~= le_bytes(x, width));
    lemma_le_value_of_bytes(x, width);
}

/// Reading an input back from its written form, whatever follows it, gives
/// the input and takes exactly the written bytes.
pub proof fn lemma_txin_roundtrip(t: TxInView, rest: Seq<u8>)
    requires
        txin_valid(t),
    ensures
        parse_txin(txin_encoding(t) + rest) == Some((t, txin_encoding(t).len())),
{
    lemma_pow256_values();
    let v = u32_encoding(t.vout);
    let b = var_bytes_encoding(t.script_sig);
    let q = u32_encoding(t.sequence);
    let s = txin_encoding(t) + rest;
    lemma_le_bytes_len(t.vout as nat, 4);
    lemma_le_bytes_len(t.sequence as nat, 4);
    assert(s =~= t.txid + (v + (b + (q + rest))));
    assert(s.take(32) =~= t.txid);
    assert(s.skip(32) =~= v + (b + (q + rest)));
    lemma_le_roundtrip(t.vout as nat, 4, b + (q + rest));
    assert(s.skip(36) =~= b + (q + rest));
    lemma_var_bytes_roundtrip(t.script_sig, q + rest);
    assert(s.skip(36 + b.len() as int) =~= q + rest);
    lemma_le_roundtrip(t.sequence as nat, 4, rest);
}

/// Reading an output back from its written form, whatever follows it, gives
/// the output and takes exactly the written bytes.
pub proof fn lemma_txout_roundtrip(o: TxOutView, rest: Seq<u8>)
    requires
        txout_valid(o),
    ensures
        parse_txout(txout_encoding(o) + rest) == Some((o, txout_encoding(o).len())),
{
    lemma_pow256_values();
    let a = le_bytes(o.amount as nat, 8);
    let b = var_bytes_encoding(o.script_pubkey);
    let s = txout_encoding(o) + rest;
    lemma_le_bytes_len(o.amount as nat, 8);
    assert(s =~= a + (b + rest));
    lemma_le_roundtrip(o.amount as nat, 8, b + rest);
    assert(s.skip(8) =~= b + rest);
    lemma_var_bytes_roundtrip(o.script_pubkey, rest);
}

/// Reading items back from their written forms, one after another, gives the
/// items, where reading each item back from its written form does.
pub proof fn lemma_items_roundtrip<T>(
    items: Seq<T>,
    enc: spec_fn(T) -> Seq<u8>,
    parse: spec_fn(Seq<u8>) -> Option<(T, nat)>,
    rest: Seq<u8>,
)
    requires
        forall|i: int, r: Seq<u8>|
            0 <= i < items.len() ==> #[trigger] parse(enc(items[i]) + r) == Some(
                (items[i], enc(items[i]).len()),
            ),
    ensures
        parse_items(items_encoding(items, enc) + rest, items.len(), parse) == Some(
            (items, items_encoding(items, enc).len()),
        ),
    decreases items.len(),
{
    if items.len() > 0 {
        let init = items.drop_last();
        let last = items.last();
        let e_init = items_encoding(init, enc);
        let s = items_encoding(items, enc) + rest;
        assert(s =~= e_init + (enc(last) + rest));
        assert forall|i: int, r: Seq<u8>| 0 <= i < init.len() implies #[trigger] parse(
            enc(init[i]) + r,
        ) == Some((init[i], enc(init[i]).len())) by {
            assert(init[i] == items[i]);
            assert(parse(enc(items[i]) + r) == Some((items[i], enc(items[i]).len())));
        }
        lemma_items_roundtrip(init, enc, parse, enc(last) + rest);
        assert(s.skip(e_init.len() as int) =~= enc(last) + rest);
        assert(parse(enc(items[items.len() - 1]) + rest) == Some(
            (items[items.len() - 1], enc(items[items.len() - 1]).len()),
        ));
        assert(init.push(last) =~= items);
    } else {
        assert(items =~= Seq::<T>::empty());
    }
}

/// Reading a list back from its written form, whatever follows it, gives the
/// list, where reading each item back from its written form does.
pub proof fn lemma_list_roundtrip<T>(
    items: Seq<T>,
    enc: spec_fn(T) -> Seq<u8>,
    parse: spec_fn(Seq<u8>) -> Option<(T, nat)>,
    rest: Seq<u8>,
)
    requires
        items.len() <= u64::MAX,
        forall|i: int, r: Seq<u8>|
            0 <= i < items.len() ==> #[trigger] parse(enc(items[i]) + r) == Some(
                (items[i], enc(items[i]).len()),
            ),
    ensures
        parse_list(list_encoding(items, enc) + rest, parse) == Some(
            (items, list_encoding(items, enc).len()),
        ),
{
    let c = compact_size_encoding(items.len() as u64);
    let e = items_encoding(items, enc);
    let s = list_encoding(items, enc) + rest;
    assert(s =~= c + (e + rest));
    lemma_compact_size_roundtrip(items.len() as u64, e + rest);
    assert(s.skip(c.len() as int) =~= e + rest);
    lemma_items_roundtrip(items, enc, parse, rest);
}

/// Reading a transaction back from its written form, whatever follows it,
/// gives the transaction and takes exactly the written bytes.
#[verifier::spinoff_prover]
#[verifier::rlimit(30)]
pub proof fn lemma_transaction_roundtrip(t: TransactionView, rest: Seq<u8>)
    requires
        transaction_valid(t),
    ensures
        parse_transaction(transaction_encoding(t) + rest) == Some(
            (t, transaction_encoding(t).len()),
        ),
{
    lemma_pow256_values();
    let v = u32_encoding(t.version);
    let ins = list_encoding(t.inputs, txin_encoder());
    let outs = list_encoding(t.outputs, txout_encoder());
    let l = u32_encoding(t.lock_time);
    let s = transaction_encoding(t) + rest;
    lemma_le_bytes_len(t.version as nat, 4);
    lemma_le_bytes_len(t.lock_time as nat, 4);
    assert(s =~= v + (ins + (outs + (l + rest))));
    lemma_le_roundtrip(t.version as nat, 4, ins + (outs + (l + rest)));
    assert forall|i: int, r: Seq<u8>| 0 <= i < t.inputs.len() implies #[trigger] txin_parser()(
        txin_encoder()(t.inputs[i]) + r,
    ) == Some((t.inputs[i], txin_encoder()(t.inputs[i]).len())) by {
        lemma_txin_roundtrip(t.inputs[i], r);
    }
    assert forall|i: int, r: Seq<u8>| 0 <= i < t.outputs.len() implies #[trigger] txout_parser()(
        txout_encoder()(t.outputs[i]) + r,
    ) == Some((t.outputs[i], txout_encoder()(t.outputs[i]).len())) by {
        lemma_txout_roundtrip(t.outputs[i], r);
    }
    assert(s.skip(4) =~= ins + (outs + (l + rest)));
    lemma_list_roundtrip(t.inputs, txin_encoder(), txin_parser(), outs + (l + rest));
    assert(s.skip(4 + ins.len() as int) =~= outs + (l + rest));
    lemma_list_roundtrip(t.outputs, txout_encoder(), txout_parser(), l + rest);
    assert(s.skip(4 + ins.len() + outs.len() as int) =~= l + rest);
    lemma_le_roundtrip(t.lock_time as nat, 4, rest);
}

/// Of what `parse` reads from the front of `s`: it takes no more than `s`,
/// its written form under `enc` is no longer than what was taken, and where
/// it is as long, it is what was taken.
pub open spec fn written_back<T>(
    s: Seq<u8>,
    parse: spec_fn(Seq<u8>) -> Option<(T, nat)>,
    enc: spec_fn(T) -> Seq<u8>,
) -> bool {
    parse(s) matches Some((v, k)) ==> {
        &&& k <= s.len()
        &&& enc(v).len() <= k
        &&& enc(v).len() == k ==> s.take(k as int) == enc(v)
    }
}

/// Of an integer read from four bytes: the bytes are its written form.
proof fn lemma_le4_canonical(s: Seq<u8>)
    requires
        s.len() >= 4,
    ensures
        parse_le(s, 4) matches Some((v, k)) && k == 4 && v < 0x1_0000_0000 && u32_encoding(
            v as u32,
        ) == s.take(4),
{
    lemma_pow256_values();
    lemma_le_value_bound(s.take(4));
    lemma_le_bytes_of_value(s.take(4));
}

/// Of an input read from the front of `s`: its written form is no longer than
/// what was read, and where it is as long, it is what was read.
pub proof fn lemma_txin_canonical(s: Seq<u8>)
    ensures
        written_back(s, txin_parser(), txin_encoder()),
{
    if let Some((t, n)) = parse_txin(s) {
        lemma_le4_canonical(s.skip(32));
        let (script, m) = parse_var_bytes(s.skip(36)).unwrap();
        lemma_var_bytes_canonical(s.skip(36));
        lemma_le4_canonical(s.skip(36 + m as int));
        assert(n == 40 + m);
        let e = txin_encoding(t);
        lemma_le_bytes_len(t.vout as nat, 4);
        lemma_le_bytes_len(t.sequence as nat, 4);
        assert(s.skip(32).take(4) =~= s.subrange(32, 36));
        if e.len() == n {
            assert(s.skip(36).take(m as int) =~= s.subrange(36, 36 + m as int));
            assert(s.skip(36 + m as int).take(4) =~= s.subrange(36 + m as int, 40 + m as int));
            assert(s.take(n as int) =~= s.take(32) + s.subrange(32, 36) + s.subrange(
                36,
                36 + m as int,
            ) + s.subrange(36 + m as int, 40 + m as int));
        }
    }
}

/// Of an output read from the front of `s`: its written form is no longer
/// than what was read, and where it is as long, it is what was read.
pub proof fn lemma_txout_canonical(s: Seq<u8>)
    ensures
        written_back(s, txout_parser(), txout_encoder()),
{
    if let Some((o, n)) = parse_txout(s) {
        lemma_pow256_values();
        lemma_le_value_bound(s.take(8));
        lemma_le_bytes_of_value(s.take(8));
        let (script, m) = parse_var_bytes(s.skip(8)).unwrap();
        lemma_var_bytes_canonical(s.skip(8));
        lemma_le_bytes_len(o.amount as nat, 8);
        if txout_encoding(o).len() == n {
            assert(s.skip(8).take(m as int) =~= s.subrange(8, 8 + m as int));
            assert(s.take(n as int) =~= s.take(8) + s.subrange(8, 8 + m as int));
        }
    }
}

/// Of items read one after another: there are `count` of them, and their
/// written forms relate to what was read as each item's does.
pub proof fn lemma_items_canonical<T>(
    s: Seq<u8>,
    count: nat,
    parse: spec_fn(Seq<u8>) -> Option<(T, nat)>,
    enc: spec_fn(T) -> Seq<u8>,
)
    requires
        forall|x: Seq<u8>| #[trigger] written_back(x, parse, enc),
    ensures
        parse_items(s, count, parse) matches Some((items, m)) ==> {
            &&& items.len() == count
            &&& m <= s.len()
            &&& items_encoding(items, enc).len() <= m
            &&& items_encoding(items, enc).len() == m ==> s.take(m as int) == items_encoding(
                items,
                enc,
            )
        },
    decreases count,
{
    if count > 0 {
        lemma_items_canonical(s, (count - 1) as nat, parse, enc);
        if let Some((items, m)) = parse_items(s, (count - 1) as nat, parse) {
            let x = s.skip(m as int);
            assert(written_back(x, parse, enc));
            if let Some((item, k)) = parse(x) {
                let all = items.push(item);
                assert(all.drop_last() =~= items);
                let e0 = items_encoding(items, enc);
                let e = items_encoding(all, enc);
                assert(e == e0 + enc(item));
                if e.len() == m + k {
                    assert(s.take(m + k as int) =~= s.take(m as int) + x.take(k as int));
                }
            }
        }
    }
}

/// Of a list read from the front of `s`: its written form relates to what
/// was read as each item's does.
pub proof fn lemma_list_canonical<T>(
    s: Seq<u8>,
    parse: spec_fn(Seq<u8>) -> Option<(T, nat)>,
    enc: spec_fn(T) -> Seq<u8>,
)
    requires
        forall|x: Seq<u8>| #[trigger] written_back(x, parse, enc),
    ensures
        parse_list(s, parse) matches Some((items, n)) ==> {
            &&& items.len() <= u64::MAX
            &&& n <= s.len()
            &&& list_encoding(items, enc).len() <= n
            &&& list_encoding(items, enc).len() == n ==> s.take(n as int) == list_encoding(
                items,
                enc,
            )
        },
{
    lemma_compact_size_canonical(s);
    if let Some((count, k)) = parse_compact_size(s) {
        let x = s.skip(k as int);
        lemma_items_canonical(x, count as nat, parse, enc);
        if let Some((items, m)) = parse_items(x, count as nat, parse) {
            let c = compact_size_encoding(count);
            let e = items_encoding(items, enc);
            assert(items.len() as u64 == count);
            if c.len() + e.len() == k + m {
                assert(s.take(k + m as int) =~= s.take(k as int) + x.take(m as int));
            }
        }
    }
}

/// Of a transaction read from the front of `s`: its written form is no
/// longer than what was read, and where it is as long, it is what was read.
/// (It is shorter where a count or a length was written in a longer form
/// than it needs.)
pub proof fn lemma_transaction_canonical(s: Seq<u8>)
    ensures
        parse_transaction(s) matches Some((t, n)) ==> {
            &&& transaction_valid(t)
            &&& n <= s.len()
            &&& transaction_encoding(t).len() <= n
            &&& transaction_encoding(t).len() == n ==> s.take(n as int) == transaction_encoding(t)
        },
{
    if let Some((t, n)) = parse_transaction(s) {
        assert forall|x: Seq<u8>| #[trigger] written_back(x, txin_parser(), txin_encoder()) by {
            lemma_txin_canonical(x);
        }
        assert forall|x: Seq<u8>| #[trigger] written_back(x, txout_parser(), txout_encoder()) by {
            lemma_txout_canonical(x);
        }
        lemma_le4_canonical(s);
        let (inputs, n1) = parse_list(s.skip(4), txin_parser()).unwrap();
        lemma_list_canonical(s.skip(4), txin_parser(), txin_encoder());
        let (outputs, n2) = parse_list(s.skip(4 + n1 as int), txout_parser()).unwrap();
        lemma_list_canonical(s.skip(4 + n1 as int), txout_parser(), txout_encoder());
        lemma_le4_canonical(s.skip(4 + n1 + n2 as int));
        lemma_parsed_items_valid(s.skip(4), s.skip(4 + n1 as int));
        let e = transaction_encoding(t);
        if e.len() == n {
            assert(s.take(n as int) =~= s.take(4) + s.skip(4).take(n1 as int) + s.skip(
                4 + n1 as int,
            ).take(n2 as int) + s.skip(4 + n1 + n2 as int).take(4));
        }
    }
}

/// The id of a transaction read from `s` is SHA-256 applied twice to the
/// bytes it was read from, where its written form takes as many bytes as were
/// read (that is, where no count or length was written longer than it needs).
pub proof fn lemma_txid_of_read_bytes(s: Seq<u8>)
    ensures
        parse_transaction(s) matches Some((t, n)) ==> (transaction_encoding(t).len() == n
            ==> sha256(sha256(transaction_encoding(t))) == sha256(sha256(s.take(n as int)))),
{
    lemma_transaction_canonical(s);
}

/// Of what `parse` reads from the front of `s`: it takes no more than `s`,
/// and bytes put after `s` change nothing about it.
pub open spec fn unaffected_by_following<T>(
    s: Seq<u8>,
    u: Seq<u8>,
    parse: spec_fn(Seq<u8>) -> Option<(T, nat)>,
) -> bool {
    parse(s) matches Some((v, k)) ==> k <= s.len() && parse(s + u) == Some((v, k))
}

/// Bytes after a little-endian integer change nothing about reading it.
pub proof fn lemma_le_unaffected_by_following(s: Seq<u8>, u: Seq<u8>, width: nat)
    ensures
        parse_le(s, width) is Some ==> parse_le(s + u, width) == parse_le(s, width),
{
    if parse_le(s, width) is Some {
        assert((s + u).take(width as int) =~= s.take(width as int));
    }
}

/// Bytes after a compact size change nothing about reading it.
pub proof fn lemma_compact_size_unaffected_by_following(s: Seq<u8>, u: Seq<u8>)
    ensures
        parse_compact_size(s) matches Some((v, k)) ==> k <= s.len() && parse_compact_size(s + u)
            == Some((v, k)),
{
    if let Some((v, k)) = parse_compact_size(s) {
        assert((s + u)[0] == s[0]);
        if s[0] > 0xFC {
            assert((s + u).skip(1) =~= s.skip(1) + u);
            lemma_le_unaffected_by_following(s.skip(1), u, crate::compact_size::compact_size_width(s[0]));
        }
    }
}

/// Bytes after a length-prefixed run of bytes change nothing about reading it.
pub proof fn lemma_var_bytes_unaffected_by_following(s: Seq<u8>, u: Seq<u8>)
    ensures
        parse_var_bytes(s) matches Some((b, k)) ==> k <= s.len() && parse_var_bytes(s + u) == Some(
            (b, k),
        ),
{
    lemma_compact_size_unaffected_by_following(s, u);
    if let Some((b, k)) = parse_var_bytes(s) {
        let (len, c) = parse_compact_size(s).unwrap();
        assert((s + u).skip(c as int) =~= s.skip(c as int) + u);
        assert((s + u).skip(c as int).take(len as int) =~= s.skip(c as int).take(len as int));
    }
}

/// Bytes after an input change nothing about reading it.
pub proof fn lemma_txin_unaffected_by_following(s: Seq<u8>, u: Seq<u8>)
    ensures
        unaffected_by_following(s, u, txin_parser()),
{
    if let Some((t, n)) = parse_txin(s) {
        let (script, m) = parse_var_bytes(s.skip(36)).unwrap();
        let su = s + u;
        assert(su.take(32) =~= s.take(32));
        assert(su.skip(32) =~= s.skip(32) + u);
        lemma_le_unaffected_by_following(s.skip(32), u, 4);
        assert(su.skip(36) =~= s.skip(36) + u);
        lemma_var_bytes_unaffected_by_following(s.skip(36), u);
        assert(su.skip(36 + m as int) =~= s.skip(36 + m as int) + u);
        lemma_le_unaffected_by_following(s.skip(36 + m as int), u, 4);
    }
}

/// Bytes after an output change nothing about reading it.
pub proof fn lemma_txout_unaffected_by_following(s: Seq<u8>, u: Seq<u8>)
    ensures
        unaffected_by_following(s, u, txout_parser()),
{
    if let Some((o, n)) = parse_txout(s) {
        let su = s + u;
        lemma_le_unaffected_by_following(s, u, 8);
        assert(su.skip(8) =~= s.skip(8) + u);
        lemma_var_bytes_unaffected_by_following(s.skip(8), u);
    }
}

/// Bytes after items read one after another change nothing about reading
/// them, where bytes after an item change nothing about reading it.
pub proof fn lemma_items_unaffected_by_following<T>(
    s: Seq<u8>,
    u: Seq<u8>,
    count: nat,
    parse: spec_fn(Seq<u8>) -> Option<(T, nat)>,
)
    requires
        forall|x: Seq<u8>, y: Seq<u8>| #[trigger] unaffected_by_following(x, y, parse),
    ensures
        parse_items(s, count, parse) matches Some((items, m)) ==> m <= s.len() && parse_items(
            s + u,
            count,
            parse,
        ) == Some((items, m)),
    decreases count,
{
    if count > 0 {
        lemma_items_unaffected_by_following(s, u, (count - 1) as nat, parse);
        if let Some((items, m)) = parse_items(s, (count - 1) as nat, parse) {
            assert(unaffected_by_following(s.skip(m as int), u, parse));
            assert((s + u).skip(m as int) =~= s.skip(m as int) + u);
        }
    }
}

/// Bytes after a list change nothing about reading it, where bytes after an
/// item change nothing about reading it.
pub proof fn lemma_list_unaffected_by_following<T>(
    s: Seq<u8>,
    u: Seq<u8>,
    parse: spec_fn(Seq<u8>) -> Option<(T, nat)>,
)
    requires
        forall|x: Seq<u8>, y: Seq<u8>| #[trigger] unaffected_by_following(x, y, parse),
    ensures
        parse_list(s, parse) matches Some((items, n)) ==> n <= s.len() && parse_list(s + u, parse)
            == Some((items, n)),
{
    lemma_compact_size_unaffected_by_following(s, u);
    if let Some((count, k)) = parse_compact_size(s) {
        assert((s + u).skip(k as int) =~= s.skip(k as int) + u);
        lemma_items_unaffected_by_following(s.skip(k as int), u, count as nat, parse);
    }
}

/// Bytes after a transaction change nothing about reading it: reading stops
/// at its end and leaves what follows alone.
pub proof fn lemma_transaction_unaffected_by_following(s: Seq<u8>, u: Seq<u8>)
    ensures
        parse_transaction(s) matches Some((t, n)) ==> n <= s.len() && parse_transaction(s + u)
            == Some((t, n)),
{
    if let Some((t, n)) = parse_transaction(s) {
        assert forall|x: Seq<u8>, y: Seq<u8>| #[trigger]
            unaffected_by_following(x, y, txin_parser()) by {
            lemma_txin_unaffected_by_following(x, y);
        }
        assert forall|x: Seq<u8>, y: Seq<u8>| #[trigger]
            unaffected_by_following(x, y, txout_parser()) by {
            lemma_txout_unaffected_by_following(x, y);
        }
        let su = s + u;
        lemma_le_unaffected_by_following(s, u, 4);
        let (inputs, n1) = parse_list(s.skip(4), txin_parser()).unwrap();
        assert(su.skip(4) =~= s.skip(4) + u);
        lemma_list_unaffected_by_following(s.skip(4), u, txin_parser());
        let (outputs, n2) = parse_list(s.skip(4 + n1 as int), txout_parser()).unwrap();
        assert(su.skip(4 + n1 as int) =~= s.skip(4 + n1 as int) + u);
        lemma_list_unaffected_by_following(s.skip(4 + n1 as int), u, txout_parser());
        assert(su.skip(4 + n1 + n2 as int) =~= s.skip(4 + n1 + n2 as int) + u);
        lemma_le_unaffected_by_following(s.skip(4 + n1 + n2 as int), u, 4);
    }
}

/// Whatever inputs and outputs are read are ones that the types can hold.
proof fn lemma_parsed_items_valid(a: Seq<u8>, b: Seq<u8>)
    ensures
        parse_list(a, txin_parser()) matches Some((inputs, _)) ==> forall|i: int|
            0 <= i < inputs.len() ==> txin_valid(#[trigger] inputs[i]),
        parse_list(b, txout_parser()) matches Some((outputs, _)) ==> forall|i: int|
            0 <= i < outputs.len() ==> txout_valid(#[trigger] outputs[i]),
{
    if let Some((count, k)) = parse_compact_size(a) {
        lemma_items_valid_txin(a.skip(k as int), count as nat);
    }
    if let Some((count, k)) = parse_compact_size(b) {
        lemma_items_valid_txout(b.skip(k as int), count as nat);
    }
}

proof fn lemma_items_valid_txin(s: Seq<u8>, count: nat)
    ensures
        parse_items(s, count, txin_parser()) matches Some((items, _)) ==> forall|i: int|
            0 <= i < items.len() ==> txin_valid(#[trigger] items[i]),
    decreases count,
{
    if count > 0 {
        lemma_items_valid_txin(s, (count - 1) as nat);
    }
}

proof fn lemma_items_valid_txout(s: Seq<u8>, count: nat)
    ensures
        parse_items(s, count, txout_parser()) matches Some((items, _)) ==> forall|i: int|
            0 <= i < items.len() ==> txout_valid(#[trigger] items[i]),
    decreases count,
{
    if count > 0 {
        lemma_items_valid_txout(s, (count - 1) as nat);
    }
}

} // verus!
