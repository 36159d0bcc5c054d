//! Transactions, their inputs and outputs, and how they are read and written.

use vstd::prelude::*;
use crate::bytes::{le_bytes, lemma_pow256_values, take};
use crate::codec::{Decodable, Encodable, parse_le, parse_var_bytes, var_bytes_encoding};
use crate::compact_size::{CompactSize, compact_size_encoding, parse_compact_size};
use crate::error::Error;
use crate::hash::{sha256, sha256_digest};
use crate::hex_codec::{
    hex_encoding, hex_decoding, is_hex, hex_encode, hex_decode, lemma_hex_roundtrip,
    ascii_lowercase, lemma_hex_decode_encode,
};

verus! {

/// A transaction id or another 32-byte hash, in the byte order it is written in.
#[derive(Debug)]
pub struct TxId(pub [u8; 32]);

/// A script, kept as its bytes.
#[derive(Debug)]
pub struct Script(pub Vec<u8>);

/// An amount of satoshis.
#[derive(Debug)]
pub struct Amount(pub u64);

/// A transaction input: the output it spends and its unlocking script.
#[derive(Debug)]
pub struct TxIn {
    pub txid: TxId,
    pub vout: u32,
    pub script_sig: Script,
    pub sequence: u32,
}

/// A transaction output: an amount and its locking script.
#[derive(Debug)]
pub struct TxOut {
    pub amount: Amount,
    pub script_pubkey: Script,
}

/// A transaction in its legacy form.
#[derive(Debug)]
pub struct Transaction {
    pub version: u32,
    pub inputs: Vec<TxIn>,
    pub outputs: Vec<TxOut>,
    pub lock_time: u32,
}

/// What a transaction input holds.
pub struct TxInView {
    pub txid: Seq<u8>,
    pub vout: u32,
    pub script_sig: Seq<u8>,
    pub sequence: u32,
}

/// What a transaction output holds.
pub struct TxOutView {
    pub amount: u64,
    pub script_pubkey: Seq<u8>,
}

/// What a transaction holds.
pub struct TransactionView {
    pub version: u32,
    pub inputs: Seq<TxInView>,
    pub outputs: Seq<TxOutView>,
    pub lock_time: u32,
}

impl View for TxId {
    type V = Seq<u8>;

    open spec fn view(&self) -> Seq<u8> {
        self.0@
    }
}

impl DeepView for TxId {
    type V = Seq<u8>;

    open spec fn deep_view(&self) -> Seq<u8> {
        self.0@
    }
}

impl View for Script {
    type V = Seq<u8>;

    open spec fn view(&self) -> Seq<u8> {
        self.0@
    }
}

impl DeepView for Script {
    type V = Seq<u8>;

    open spec fn deep_view(&self) -> Seq<u8> {
        self.0@
    }
}

impl View for Amount {
    type V = u64;

    open spec fn view(&self) -> u64 {
        self.0
    }
}

impl DeepView for Amount {
    type V = u64;

    open spec fn deep_view(&self) -> u64 {
        self.0
    }
}

impl View for TxIn {
    type V = TxInView;

    open spec fn view(&self) -> TxInView {
        TxInView {
            txid: self.txid@,
            vout: self.vout,
            script_sig: self.script_sig@,
            sequence: self.sequence,
        }
    }
}

impl DeepView for TxIn {
    type V = TxInView;

    open spec fn deep_view(&self) -> TxInView {
        self@
    }
}

impl View for TxOut {
    type V = TxOutView;

    open spec fn view(&self) -> TxOutView {
        TxOutView { amount: self.amount@, script_pubkey: self.script_pubkey@ }
    }
}

impl DeepView for TxOut {
    type V = TxOutView;

    open spec fn deep_view(&self) -> TxOutView {
        self@
    }
}

impl View for Transaction {
    type V = TransactionView;

    open spec fn view(&self) -> TransactionView {
        TransactionView {
            version: self.version,
            inputs: self.inputs.deep_view(),
            outputs: self.outputs.deep_view(),
            lock_time: self.lock_time,
        }
    }
}

impl DeepView for Transaction {
    type V = TransactionView;

    open spec fn deep_view(&self) -> TransactionView {
        self@
    }
}

// ---------------------------------------------------------------------------
// The written form.

/// A four-byte little-endian integer.
pub open spec fn u32_encoding(x: u32) -> Seq<u8> {
    le_bytes(x as nat, 4)
}

/// The written form of an input: the spent transaction's id, the index of
/// the spent output, the script with its length, and the sequence number.
pub open spec fn txin_encoding(t: TxInView) -> Seq<u8> {
    t.txid + u32_encoding(t.vout) + var_bytes_encoding(t.script_sig) + u32_encoding(t.sequence)
}

/// The written form of an output: the amount in eight bytes, then the script
/// with its length.
pub open spec fn txout_encoding(o: TxOutView) -> Seq<u8> {
    le_bytes(o.amount as nat, 8) + var_bytes_encoding(o.script_pubkey)
}

/// The items of a list written one after another.
pub open spec fn items_encoding<T>(items: Seq<T>, enc: spec_fn(T) -> Seq<u8>) -> Seq<u8>
    decreases items.len(),
{
    if items.len() == 0 {
        Seq::empty()
    } else {
        items_encoding(items.drop_last(), enc) + enc(items.last())
    }
}

/// A list: its length as a compact size, then its items.
pub open spec fn list_encoding<T>(items: Seq<T>, enc: spec_fn(T) -> Seq<u8>) -> Seq<u8> {
    compact_size_encoding(items.len() as u64) + items_encoding(items, enc)
}

/// The written form of a list of inputs.
pub open spec fn txins_encoding(inputs: Seq<TxInView>) -> Seq<u8> {
    list_encoding(inputs, txin_encoder())
}

/// The written form of a list of outputs.
pub open spec fn txouts_encoding(outputs: Seq<TxOutView>) -> Seq<u8> {
    list_encoding(outputs, txout_encoder())
}

/// `txin_encoding` as a value.
pub open spec fn txin_encoder() -> spec_fn(TxInView) -> Seq<u8> {
    |t: TxInView| txin_encoding(t)
}

/// `txout_encoding` as a value.
pub open spec fn txout_encoder() -> spec_fn(TxOutView) -> Seq<u8> {
    |o: TxOutView| txout_encoding(o)
}

/// The written form of a transaction: version, inputs, outputs, lock time.
pub open spec fn transaction_encoding(t: TransactionView) -> Seq<u8> {
    u32_encoding(t.version) + txins_encoding(t.inputs) + txouts_encoding(t.outputs)
        + u32_encoding(t.lock_time)
}

// ---------------------------------------------------------------------------
// Reading the written form.

/// What reading an input from the front of `s` gives, with the bytes taken.
pub open spec fn parse_txin(s: Seq<u8>) -> Option<(TxInView, nat)> {
    if s.len() < 32 {
        None
    } else {
        match parse_le(s.skip(32), 4) {
            None => None,
            Some((vout, _)) => match parse_var_bytes(s.skip(36)) {
                None => None,
                Some((script, n)) => match parse_le(s.skip(36 + n as int), 4) {
                    None => None,
                    Some((sequence, _)) => Some(
                        (
                            TxInView {
                                txid: s.take(32),
                                vout: vout as u32,
                                script_sig: script,
                                sequence: sequence as u32,
                            },
                            40 + n,
                        ),
                    ),
                },
            },
        }
    }
}

/// What reading an output from the front of `s` gives, with the bytes taken.
pub open spec fn parse_txout(s: Seq<u8>) -> Option<(TxOutView, nat)> {
    match parse_le(s, 8) {
        None => None,
        Some((amount, _)) => match parse_var_bytes(s.skip(8)) {
            None => None,
            Some((script, n)) => Some(
                (TxOutView { amount: amount as u64, script_pubkey: script }, 8 + n),
            ),
        },
    }
}

/// What reading `count` items one after another from the front of `s` gives,
/// with the bytes taken; `None` where one of them cannot be read.
pub open spec fn parse_items<T>(s: Seq<u8>, count: nat, parse: spec_fn(Seq<u8>) -> Option<(T, nat)>) -> Option<(Seq<T>, nat)>
    decreases count,
{
    if count == 0 {
        Some((Seq::empty(), 0))
    } else {
        match parse_items(s, (count - 1) as nat, parse) {
            None => None,
            Some((items, m)) => match parse(s.skip(m as int)) {
                None => None,
                Some((item, k)) => Some((items.push(item), m + k)),
            },
        }
    }
}

/// What reading a list from the front of `s` gives: its length as a compact
/// size, then that many items.
pub open spec fn parse_list<T>(s: Seq<u8>, parse: spec_fn(Seq<u8>) -> Option<(T, nat)>) -> Option<(Seq<T>, nat)> {
    match parse_compact_size(s) {
        None => None,
        Some((count, k)) => match parse_items(s.skip(k as int), count as nat, parse) {
            None => None,
            Some((items, m)) => Some((items, k + m)),
        },
    }
}

/// What reading a list of inputs gives.
pub open spec fn parse_txins(s: Seq<u8>) -> Option<(Seq<TxInView>, nat)> {
    parse_list(s, txin_parser())
}

/// What reading a list of outputs gives.
pub open spec fn parse_txouts(s: Seq<u8>) -> Option<(Seq<TxOutView>, nat)> {
    parse_list(s, txout_parser())
}

/// `parse_txin` as a value.
pub open spec fn txin_parser() -> spec_fn(Seq<u8>) -> Option<(TxInView, nat)> {
    |b: Seq<u8>| parse_txin(b)
}

/// `parse_txout` as a value.
pub open spec fn txout_parser() -> spec_fn(Seq<u8>) -> Option<(TxOutView, nat)> {
    |b: Seq<u8>| parse_txout(b)
}

/// What reading a transaction from the front of `s` gives, with the bytes
/// taken. Bytes after it are left alone.
pub open spec fn parse_transaction(s: Seq<u8>) -> Option<(TransactionView, nat)> {
    match parse_le(s, 4) {
        None => None,
        Some((version, _)) => match parse_txins(s.skip(4)) {
            None => None,
            Some((inputs, n1)) => match parse_txouts(s.skip(4 + n1 as int)) {
                None => None,
                Some((outputs, n2)) => match parse_le(s.skip(4 + n1 + n2 as int), 4) {
                    None => None,
                    Some((lock_time, _)) => Some(
                        (
                            TransactionView {
                                version: version as u32,
                                inputs,
                                outputs,
                                lock_time: lock_time as u32,
                            },
                            8 + n1 + n2,
                        ),
                    ),
                },
            },
        },
    }
}

/// Where reading `count` items fails, reading more of them fails too.
pub proof fn lemma_parse_items_failure_persists<T>(
    s: Seq<u8>,
    count: nat,
    more: nat,
    parse: spec_fn(Seq<u8>) -> Option<(T, nat)>,
)
    requires
        count <= more,
        parse_items(s, count, parse) is None,
    ensures
        parse_items(s, more, parse) is None,
    decreases more,
{
    if count < more {
        lemma_parse_items_failure_persists(s, count, (more - 1) as nat, parse);
    }
}

// ---------------------------------------------------------------------------
// Constructors and conversions.

impl Amount {
    /// The amount of `satoshi` satoshis.
    pub fn from_sat(satoshi: u64) -> (a: Amount)
        ensures
            a@ == satoshi,
    {
        Amount(satoshi)
    }
}

impl TxId {
    /// The id whose bytes are `bytes`.
    pub fn from_hash(bytes: [u8; 32]) -> (id: TxId)
        ensures
            id@ == bytes@,
    {
        TxId(bytes)
    }

    /// The id of a transaction written as `tx`: SHA-256 applied twice.
    pub fn from_raw_transaction(tx: Vec<u8>) -> (id: TxId)
        ensures
            id@ == sha256(sha256(tx@)),
    {
        let hash1 = sha256_digest(tx.as_slice());
        let hash2 = sha256_digest(hash1.as_slice());
        TxId::from_hash(hash2)
    }

    /// The id as hexadecimal text in the order Bitcoin shows ids in: the
    /// bytes reversed.
    pub fn display_hex(&self) -> (text: String)
        ensures
            text@ == hex_encoding(self@.reverse()),
    {
        let mut bytes: Vec<u8> = Vec::new();
        let mut i: usize = 32;
        proof {
            vstd::array::array_len_matches_n(&self.0);
        }
        while i > 0
            invariant
                i <= 32,
                self@.len() == 32,
                bytes@ =~= self@.reverse().take(32 - i),
            decreases i,
        {
            i = i - 1;
            bytes.push(self.0[i]);
            assert(bytes@ =~= self@.reverse().take(32 - i));
        }
        assert(self@.reverse().take(32) =~= self@.reverse());
        hex_encode(bytes.as_slice())
    }
}

impl Script {
    /// The script whose bytes the hexadecimal text `hex` stands for.
    pub fn from_hex(hex: String) -> (s: Script)
        requires
            is_hex(hex@),
        ensures
            s@ == hex_decoding(hex@),
    {
        Script(hex_decode(hex.as_str()).unwrap())
    }

    /// The script's bytes as lowercase hexadecimal text.
    pub fn to_hex(&self) -> (text: String)
        ensures
            text@ == hex_encoding(self@),
    {
        hex_encode(self.0.as_slice())
    }
}

/// A script's hexadecimal text has two lowercase digits per byte; and a
/// script made from hexadecimal text gives back that text in lowercase.
pub proof fn lemma_script_hex(script: Script, text: Seq<char>)
    ensures
        hex_encoding(script@).len() == 2 * script@.len(),
        is_hex(hex_encoding(script@)),
        ascii_lowercase(hex_encoding(script@)) == hex_encoding(script@),
        is_hex(text) && script@ == hex_decoding(text) ==> hex_encoding(script@) == ascii_lowercase(
            text,
        ),
{
    lemma_hex_roundtrip(script@);
    if is_hex(text) {
        lemma_hex_decode_encode(text);
    }
}

// ---------------------------------------------------------------------------
// Reading.

impl Decodable for TxId {
    open spec fn spec_decode(bytes: Seq<u8>) -> Option<(Seq<u8>, nat)> {
        if bytes.len() >= 32 {
            Some((bytes.take(32), 32))
        } else {
            None
        }
    }

    fn consensus_decode(r: &mut &[u8]) -> (res: Result<TxId, Error>) {
        let b = match take(r, 32) {
            Ok(b) => b,
            Err(e) => return Err(e),
        };
        let mut buffer = [0u8; 32];
        let mut i: usize = 0;
        proof {
            vstd::array::array_len_matches_n(&buffer);
        }
        while i < 32
            invariant
                i <= 32,
                b@.len() == 32,
                buffer@.len() == 32,
                forall|j: int| 0 <= j < i ==> buffer@[j] == b@[j],
            decreases 32 - i,
        {
            buffer[i] = b[i];
            i = i + 1;
        }
        assert(buffer@ =~= b@);
        Ok(TxId::from_hash(buffer))
    }
}

impl Decodable for TxIn {
    open spec fn spec_decode(bytes: Seq<u8>) -> Option<(TxInView, nat)> {
        parse_txin(bytes)
    }

    fn consensus_decode(r: &mut &[u8]) -> (res: Result<TxIn, Error>) {
        let ghost s = old(r)@;
        proof {
            lemma_pow256_values();
        }
        let txid = match TxId::consensus_decode(r) {
            Ok(x) => x,
            Err(e) => return Err(e),
        };
        let vout = match u32::consensus_decode(r) {
            Ok(x) => x,
            Err(e) => return Err(e),
        };
        assert(s.skip(32).skip(4) =~= s.skip(36));
        let hex = match String::consensus_decode(r) {
            Ok(x) => x,
            Err(e) => return Err(e),
        };
        let ghost n = (s.len() - 36 - r@.len()) as nat;
        proof {
            let (b, m) = parse_var_bytes(s.skip(36)).unwrap();
            assert(m == n);
            assert(s.skip(36).skip(n as int) =~= s.skip(36 + n as int));
            lemma_hex_roundtrip(b);
        }
        let script_sig = Script::from_hex(hex);
        let sequence = match u32::consensus_decode(r) {
            Ok(x) => x,
            Err(e) => return Err(e),
        };
        assert(s.skip(36 + n as int).skip(4) =~= s.skip(40 + n as int));
        Ok(TxIn { txid, vout, script_sig, sequence })
    }
}

impl Decodable for TxOut {
    open spec fn spec_decode(bytes: Seq<u8>) -> Option<(TxOutView, nat)> {
        parse_txout(bytes)
    }

    fn consensus_decode(r: &mut &[u8]) -> (res: Result<TxOut, Error>) {
        let ghost s = old(r)@;
        proof {
            lemma_pow256_values();
        }
        let amount = match u64::consensus_decode(r) {
            Ok(x) => Amount::from_sat(x),
            Err(e) => return Err(e),
        };
        let hex = match String::consensus_decode(r) {
            Ok(x) => x,
            Err(e) => return Err(e),
        };
        proof {
            let (b, m) = parse_var_bytes(s.skip(8)).unwrap();
            assert(s.skip(8).skip(m as int) =~= s.skip(8 + m as int));
            lemma_hex_roundtrip(b);
        }
        let script_pubkey = Script::from_hex(hex);
        Ok(TxOut { amount, script_pubkey })
    }
}

impl Decodable for Vec<TxIn> {
    open spec fn spec_decode(bytes: Seq<u8>) -> Option<(Seq<TxInView>, nat)> {
        parse_txins(bytes)
    }

    fn consensus_decode(r: &mut &[u8]) -> (res: Result<Vec<TxIn>, Error>) {
        let ghost s = old(r)@;
        let input_count = match CompactSize::consensus_decode(r) {
            Ok(c) => c.0,
            Err(e) => return Err(e),
        };
        let ghost s0 = r@;
        let ghost k = (s.len() - s0.len()) as nat;
        assert(s.skip(k as int) =~= s0);
        let mut inputs: Vec<TxIn> = Vec::new();
        let mut i: u64 = 0;
        assert(inputs.deep_view() =~= Seq::<TxInView>::empty());
        while i < input_count
            invariant
                i <= input_count,
                old(r)@ == s,
                k <= s.len(),
                s.skip(k as int) == s0,
                parse_compact_size(s) == Some((input_count, k)),
                r@.len() <= s0.len(),
                r@ == s0.skip(s0.len() - r@.len()),
                parse_items(s0, i as nat, txin_parser()) == Some(
                    (inputs.deep_view(), (s0.len() - r@.len()) as nat),
                ),
            decreases input_count - i,
        {
            let ghost before = r@;
            let ghost m = (s0.len() - before.len()) as nat;
            let ghost items = inputs.deep_view();
            match TxIn::consensus_decode(r) {
                Ok(t) => {
                    inputs.push(t);
                    assert(inputs.deep_view() =~= items.push(t.deep_view()));
                    assert(r@ =~= s0.skip(s0.len() - r@.len()));
                },
                Err(e) => {
                    proof {
                        assert(s.skip(k as int) =~= s0);
                        assert(before == s0.skip(m as int));
                        assert(parse_txin(before) is None);
                        assert(parse_items(s0, (i + 1) as nat, txin_parser()) is None);
                        lemma_parse_items_failure_persists(
                            s0,
                            (i + 1) as nat,
                            input_count as nat,
                            txin_parser(),
                        );
                        assert(parse_list(s, txin_parser()) is None);
                    }
                    return Err(e);
                },
            }
            i = i + 1;
        }
        assert(s.skip(k as int) =~= s0);
        assert(r@ =~= s.skip(s.len() - r@.len()));
        Ok(inputs)
    }
}

impl Decodable for Vec<TxOut> {
    open spec fn spec_decode(bytes: Seq<u8>) -> Option<(Seq<TxOutView>, nat)> {
        parse_txouts(bytes)
    }

    fn consensus_decode(r: &mut &[u8]) -> (res: Result<Vec<TxOut>, Error>) {
        let ghost s = old(r)@;
        let output_count = match CompactSize::consensus_decode(r) {
            Ok(c) => c.0,
            Err(e) => return Err(e),
        };
        let ghost s0 = r@;
        let ghost k = (s.len() - s0.len()) as nat;
        assert(s.skip(k as int) =~= s0);
        let mut outputs: Vec<TxOut> = Vec::new();
        let mut i: u64 = 0;
        assert(outputs.deep_view() =~= Seq::<TxOutView>::empty());
        while i < output_count
            invariant
                i <= output_count,
                old(r)@ == s,
                k <= s.len(),
                s.skip(k as int) == s0,
                parse_compact_size(s) == Some((output_count, k)),
                r@.len() <= s0.len(),
                r@ == s0.skip(s0.len() - r@.len()),
                parse_items(s0, i as nat, txout_parser()) == Some(
                    (outputs.deep_view(), (s0.len() - r@.len()) as nat),
                ),
            decreases output_count - i,
        {
            let ghost before = r@;
            let ghost m = (s0.len() - before.len()) as nat;
            let ghost items = outputs.deep_view();
            match TxOut::consensus_decode(r) {
                Ok(t) => {
                    outputs.push(t);
                    assert(outputs.deep_view() =~= items.push(t.deep_view()));
                    assert(r@ =~= s0.skip(s0.len() - r@.len()));
                },
                Err(e) => {
                    proof {
                        assert(s.skip(k as int) =~= s0);
                        assert(before == s0.skip(m as int));
                        assert(parse_txout(before) is None);
                        assert(parse_items(s0, (i + 1) as nat, txout_parser()) is None);
                        lemma_parse_items_failure_persists(
                            s0,
                            (i + 1) as nat,
                            output_count as nat,
                            txout_parser(),
                        );
                        assert(parse_list(s, txout_parser()) is None);
                    }
                    return Err(e);
                },
            }
            i = i + 1;
        }
        assert(s.skip(k as int) =~= s0);
        assert(r@ =~= s.skip(s.len() - r@.len()));
        Ok(outputs)
    }
}

impl Decodable for Transaction {
    open spec fn spec_decode(bytes: Seq<u8>) -> Option<(TransactionView, nat)> {
        parse_transaction(bytes)
    }

    #[verifier::rlimit(40)]
    fn consensus_decode(r: &mut &[u8]) -> (res: Result<Transaction, Error>) {
        let ghost s = old(r)@;
        proof {
            lemma_pow256_values();
        }
        let version = match u32::consensus_decode(r) {
            Ok(x) => x,
            Err(e) => return Err(e),
        };
        let inputs = match Vec::<TxIn>::consensus_decode(r) {
            Ok(x) => x,
            Err(e) => return Err(e),
        };
        let ghost n1 = (s.len() - 4 - r@.len()) as nat;
        assert(s.skip(4).skip(n1 as int) =~= s.skip(4 + n1 as int));
        let outputs = match Vec::<TxOut>::consensus_decode(r) {
            Ok(x) => x,
            Err(e) => return Err(e),
        };
        let ghost n2 = (s.len() - 4 - n1 - r@.len()) as nat;
        assert(s.skip(4 + n1 as int).skip(n2 as int) =~= s.skip(4 + n1 + n2 as int));
        let lock_time = match u32::consensus_decode(r) {
            Ok(x) => x,
            Err(e) => return Err(e),
        };
        assert(s.skip(4 + n1 + n2 as int).skip(4) =~= s.skip(8 + n1 + n2 as int));
        Ok(Transaction { version, inputs, outputs, lock_time })
    }
}

// ---------------------------------------------------------------------------
// Writing.

impl Encodable for TxId {
    open spec fn spec_encode(v: Seq<u8>) -> Seq<u8> {
        v
    }

    open spec fn encodable(v: Seq<u8>) -> bool {
        true
    }

    fn consensus_encode(&self, w: &mut Vec<u8>) -> (res: Result<usize, Error>) {
        assert(self.0.deep_view() =~= self.0@);
        self.0.consensus_encode(w)
    }
}

impl Encodable for Script {
    open spec fn spec_encode(v: Seq<u8>) -> Seq<u8> {
        var_bytes_encoding(v)
    }

    open spec fn encodable(v: Seq<u8>) -> bool {
        true
    }

    fn consensus_encode(&self, w: &mut Vec<u8>) -> (res: Result<usize, Error>) {
        proof {
            lemma_hex_roundtrip(self@);
        }
        self.to_hex().consensus_encode(w)
    }
}

impl Encodable for Amount {
    open spec fn spec_encode(v: u64) -> Seq<u8> {
        le_bytes(v as nat, 8)
    }

    open spec fn encodable(v: u64) -> bool {
        true
    }

    fn consensus_encode(&self, w: &mut Vec<u8>) -> (res: Result<usize, Error>) {
        self.0.consensus_encode(w)
    }
}

impl Encodable for TxIn {
    open spec fn spec_encode(v: TxInView) -> Seq<u8> {
        txin_encoding(v)
    }

    open spec fn encodable(v: TxInView) -> bool {
        true
    }

    fn consensus_encode(&self, w: &mut Vec<u8>) -> (res: Result<usize, Error>) {
        let start = w.len();
        let _ = self.txid.consensus_encode(w);
        let _ = self.vout.consensus_encode(w);
        let _ = self.script_sig.consensus_encode(w);
        let _ = self.sequence.consensus_encode(w);
        assert(w@ =~= old(w)@ + txin_encoding(self@));
        Ok(w.len() - start)
    }
}

impl Encodable for TxOut {
    open spec fn spec_encode(v: TxOutView) -> Seq<u8> {
        txout_encoding(v)
    }

    open spec fn encodable(v: TxOutView) -> bool {
        true
    }

    fn consensus_encode(&self, w: &mut Vec<u8>) -> (res: Result<usize, Error>) {
        let start = w.len();
        let _ = self.amount.consensus_encode(w);
        let _ = self.script_pubkey.consensus_encode(w);
        assert(w@ =~= old(w)@ + txout_encoding(self@));
        Ok(w.len() - start)
    }
}

impl Encodable for Vec<TxIn> {
    open spec fn spec_encode(v: Seq<TxInView>) -> Seq<u8> {
        list_encoding(v, txin_encoder())
    }

    open spec fn encodable(v: Seq<TxInView>) -> bool {
        true
    }

    fn consensus_encode(&self, w: &mut Vec<u8>) -> (res: Result<usize, Error>) {
        let start = w.len();
        let _ = CompactSize(self.len() as u64).consensus_encode(w);
        let ghost mid = w@;
        let ghost items = self.deep_view();
        let mut i: usize = 0;
        assert(items.take(0) =~= Seq::<TxInView>::empty());
        while i < self.len()
            invariant
                i <= self@.len(),
                items == self.deep_view(),
                w@ == mid + items_encoding(items.take(i as int), txin_encoder()),
            decreases self@.len() - i,
        {
            let _ = self[i].consensus_encode(w);
            assert(items.take(i + 1).drop_last() =~= items.take(i as int));
            assert(items.take(i + 1).last() == self@[i as int].deep_view());
            assert(w@ =~= mid + items_encoding(items.take(i + 1), txin_encoder()));
            i = i + 1;
        }
        assert(items.take(self@.len() as int) =~= items);
        assert(w@ =~= old(w)@ + list_encoding(items, txin_encoder()));
        Ok(w.len() - start)
    }
}

impl Encodable for Vec<TxOut> {
    open spec fn spec_encode(v: Seq<TxOutView>) -> Seq<u8> {
        list_encoding(v, txout_encoder())
    }

    open spec fn encodable(v: Seq<TxOutView>) -> bool {
        true
    }

    fn consensus_encode(&self, w: &mut Vec<u8>) -> (res: Result<usize, Error>) {
        let start = w.len();
        let _ = CompactSize(self.len() as u64).consensus_encode(w);
        let ghost mid = w@;
        let ghost items = self.deep_view();
        let mut i: usize = 0;
        assert(items.take(0) =~= Seq::<TxOutView>::empty());
        while i < self.len()
            invariant
                i <= self@.len(),
                items == self.deep_view(),
                w@ == mid + items_encoding(items.take(i as int), txout_encoder()),
            decreases self@.len() - i,
        {
            let _ = self[i].consensus_encode(w);
            assert(items.take(i + 1).drop_last() =~= items.take(i as int));
            assert(items.take(i + 1).last() == self@[i as int].deep_view());
            assert(w@ =~= mid + items_encoding(items.take(i + 1), txout_encoder()));
            i = i + 1;
        }
        assert(items.take(self@.len() as int) =~= items);
        assert(w@ =~= old(w)@ + list_encoding(items, txout_encoder()));
        Ok(w.len() - start)
    }
}

impl Transaction {
    /// The transaction's id: SHA-256 applied twice to its written form.
    pub fn txid(&self) -> (id: TxId)
        ensures
            id@ == sha256(sha256(transaction_encoding(self@))),
            id@ == sha256(
                sha256(
                    le_bytes(self.version as nat, 4) + <Vec<TxIn> as Encodable>::spec_encode(
                        self.inputs.deep_view(),
                    ) + <Vec<TxOut> as Encodable>::spec_encode(self.outputs.deep_view())
                        + le_bytes(self.lock_time as nat, 4),
                ),
            ),
    {
        let mut txid_data: Vec<u8> = Vec::new();
        self.version.consensus_encode(&mut txid_data).expect("Error serializing txid");
        self.inputs.consensus_encode(&mut txid_data).expect("Error serializing inputs");
        self.outputs.consensus_encode(&mut txid_data).expect("Error serializing outputs");
        self.lock_time.consensus_encode(&mut txid_data).expect("Error serializing locktime");
        assert(txid_data@ =~= transaction_encoding(self@));
        TxId::from_raw_transaction(txid_data)
    }
}

} // verus!
