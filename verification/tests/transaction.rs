use transaction_decoder::{
    decode_transaction, Amount, DecodeError, Decodable, Encodable, Script, Transaction, TxId,
    TxIn, TxOut,
};

// The transaction of block 170, the first one between two people.
const TX_HEX: &str = "0100000001c997a5e56e104102fa209c6a852dd90660a20b2d9c352423edce25857fcd3704000000004847304402204e45e16932b8af514961a1d3a1a25fdf3f4f7732e9d624c6c61548ab5fb8cd410220181522ec8eca07de4860a4acdd12909d831cc56cbbac4622082221a8768d1d0901ffffffff0200ca9a3b00000000434104ae1a62fe09c5f51b13905f07f06b99a2f7159b2225f374cd378d71302fa28414e7aab37397f554a7df5f142c21c1b7303b8a0626f1baded5c72a704f7e6cd84cac00286bee0000000043410411db93e1dcdb8a016b49840f8c53bc1eb68a382e97b1482ecad7b148a6909a5cb2e0eaddfb84ccf9744464f82e160bfa9b8b64f9d4c03f999b8643f656b412a3ac00000000";
const TX_ID: &str = "f4184fc596403b9d638783cf57adfe4c75c605f6356fbc91338530e9831e9e16";

#[test]
fn decodes_a_known_transaction() {
    let tx = decode_transaction(TX_HEX.to_string()).unwrap();
    assert_eq!(tx.version, 1);
    assert_eq!(tx.lock_time, 0);
    assert_eq!(tx.inputs.len(), 1);
    assert_eq!(tx.outputs.len(), 2);
    let input = &tx.inputs[0];
    assert_eq!(
        input.txid.display_hex(),
        "0437cd7f8525ceed2324359c2d0ba26006d92d856a9c20fa0241106ee5a597c9"
    );
    assert_eq!(input.vout, 0);
    assert_eq!(input.sequence, 0xFFFF_FFFF);
    assert_eq!(input.script_sig.0.len(), 72);
    assert_eq!(input.script_sig.to_hex(), &TX_HEX[84..228]);
    assert_eq!(tx.outputs[0].amount.0, 1_000_000_000);
    assert_eq!(tx.outputs[1].amount.0, 4_000_000_000);
    assert_eq!(tx.outputs[0].script_pubkey.0.len(), 67);
}

#[test]
fn transaction_id_is_double_sha256_shown_reversed() {
    let tx = decode_transaction(TX_HEX.to_string()).unwrap();
    assert_eq!(tx.txid().display_hex(), TX_ID);
    let raw = hex::decode(TX_HEX).unwrap();
    assert_eq!(TxId::from_raw_transaction(raw).display_hex(), TX_ID);
}

fn written(tx: &Transaction) -> Vec<u8> {
    let mut w = Vec::new();
    tx.version.consensus_encode(&mut w).unwrap();
    tx.inputs.consensus_encode(&mut w).unwrap();
    tx.outputs.consensus_encode(&mut w).unwrap();
    tx.lock_time.consensus_encode(&mut w).unwrap();
    w
}

#[test]
fn writing_a_read_transaction_gives_its_bytes() {
    let raw = hex::decode(TX_HEX).unwrap();
    let mut r = raw.as_slice();
    let tx = Transaction::consensus_decode(&mut r).unwrap();
    assert!(r.is_empty());
    assert_eq!(written(&tx), raw);
}

#[test]
fn reading_a_written_transaction_gives_it_back() {
    let tx = Transaction {
        version: 2,
        inputs: vec![TxIn {
            txid: TxId::from_hash([7; 32]),
            vout: 3,
            script_sig: Script::from_hex("00ff".to_string()),
            sequence: 9,
        }],
        outputs: vec![
            TxOut { amount: Amount::from_sat(5), script_pubkey: Script::from_hex(String::new()) },
            TxOut { amount: Amount::from_sat(u64::MAX), script_pubkey: Script(vec![1; 300]) },
        ],
        lock_time: 500_000,
    };
    let mut bytes = written(&tx);
    bytes.push(0xAA);
    let mut r = bytes.as_slice();
    let back = Transaction::consensus_decode(&mut r).unwrap();
    assert_eq!(r, &[0xAA]);
    assert_eq!(back.version, 2);
    assert_eq!(back.lock_time, 500_000);
    assert_eq!(back.inputs[0].txid.0, [7; 32]);
    assert_eq!(back.inputs[0].vout, 3);
    assert_eq!(back.inputs[0].script_sig.0, vec![0x00, 0xFF]);
    assert_eq!(back.inputs[0].sequence, 9);
    assert_eq!(back.outputs.len(), 2);
    assert_eq!(back.outputs[0].amount.0, 5);
    assert!(back.outputs[0].script_pubkey.0.is_empty());
    assert_eq!(back.outputs[1].amount.0, u64::MAX);
    assert_eq!(back.outputs[1].script_pubkey.0, vec![1; 300]);
    assert_eq!(back.txid().0, tx.txid().0);
}

#[test]
fn script_hex_roundtrip() {
    let s = Script::from_hex("00AbfF".to_string());
    assert_eq!(s.0, vec![0x00, 0xAB, 0xFF]);
    assert_eq!(s.to_hex(), "00abff");
    assert_eq!(Script::from_hex(s.to_hex()).0, s.0);
}

#[test]
fn txid_display_reverses_bytes() {
    let mut bytes = [0_u8; 32];
    bytes[0] = 0x01;
    bytes[31] = 0xAB;
    let id = TxId::from_hash(bytes);
    let text = id.display_hex();
    assert!(text.starts_with("ab00"));
    assert!(text.ends_with("0001"));
    assert_eq!(text.len(), 64);
}

#[test]
fn input_and_output_write_back() {
    let input = TxIn {
        txid: TxId::from_hash([0x11; 32]),
        vout: 1,
        script_sig: Script(vec![0xAA, 0xBB]),
        sequence: 2,
    };
    let mut w = Vec::new();
    assert_eq!(input.consensus_encode(&mut w).unwrap(), 32 + 4 + 3 + 4);
    let mut r = w.as_slice();
    let back = TxIn::consensus_decode(&mut r).unwrap();
    assert!(r.is_empty());
    assert_eq!(back.script_sig.0, vec![0xAA, 0xBB]);

    let output = TxOut { amount: Amount::from_sat(0x0102), script_pubkey: Script(vec![]) };
    let mut w = Vec::new();
    assert_eq!(output.consensus_encode(&mut w).unwrap(), 9);
    assert_eq!(w, vec![2, 1, 0, 0, 0, 0, 0, 0, 0]);
}

#[test]
fn bad_hex_is_a_hex_error() {
    assert!(matches!(decode_transaction("abc".to_string()), Err(DecodeError::Hex(_))));
    assert!(matches!(decode_transaction("zz".to_string()), Err(DecodeError::Hex(_))));
}

#[test]
fn truncated_transaction_is_a_transaction_error() {
    let short = &TX_HEX[..TX_HEX.len() - 2];
    match decode_transaction(short.to_string()) {
        Err(DecodeError::Transaction(transaction_decoder::Error::Io(e))) => {
            assert_eq!(e.kind(), std::io::ErrorKind::UnexpectedEof)
        },
        _ => panic!("expected a transaction error"),
    }
    assert!(matches!(decode_transaction(String::new()), Err(DecodeError::Transaction(_))));
}

#[test]
fn trailing_bytes_are_ignored() {
    let longer = format!("{}0000", TX_HEX);
    let tx = decode_transaction(longer).unwrap();
    assert_eq!(tx.txid().display_hex(), TX_ID);
}

#[test]
fn input_count_beyond_the_bytes_fails() {
    // Version, then a count of 0xFFFFFFFF inputs with nothing after it.
    let mut r = [1_u8, 0, 0, 0, 0xFE, 0xFF, 0xFF, 0xFF, 0xFF].as_slice();
    assert!(Transaction::consensus_decode(&mut r).is_err());
    assert!(r.is_empty());
}

#[test]
fn uppercase_text_reads_as_the_same_transaction() {
    let tx = decode_transaction(TX_HEX.to_ascii_uppercase()).unwrap();
    assert_eq!(tx.txid().display_hex(), TX_ID);
    assert!(matches!(decode_transaction("ABC".to_string()), Err(DecodeError::Hex(_))));
}

#[test]
fn script_text_comes_back_lowercase() {
    let text = "0A1bC2dE3f";
    let s = Script::from_hex(text.to_string());
    let back = s.to_hex();
    assert_eq!(back, text.to_ascii_lowercase());
    assert_eq!(back.len(), 2 * s.0.len());
    assert!(back.chars().all(|c| c.is_ascii_digit() || ('a'..='f').contains(&c)));
}
