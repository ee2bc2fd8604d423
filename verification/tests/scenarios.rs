//! End-to-end replays of small chains through the engine.

use taint_fifo::{Block, OutPoint, TaintError, TaintFifo, TaintPart, Tx, TxOut};

fn txid_with(tag: u8) -> Vec<u8> {
    let mut v = vec![0u8; 32];
    v[0] = tag;
    v
}

fn hex_swapped(t: &[u8]) -> String {
    t.iter().rev().map(|b| format!("{:02x}", b)).collect()
}

fn op(t: &Vec<u8>, i: u32) -> OutPoint {
    OutPoint { txid: t.clone(), index: i }
}

fn outs(vals: &[u64]) -> Vec<TxOut> {
    vals.iter().map(|v| TxOut { value: *v, address: String::from("addr") }).collect()
}

fn coinbase(t: &Vec<u8>, vals: &[u64]) -> Tx {
    Tx { txid: t.clone(), is_coinbase: true, inputs: vec![], outputs: outs(vals) }
}

fn tx(t: &Vec<u8>, ins: Vec<OutPoint>, vals: &[u64]) -> Tx {
    Tx { txid: t.clone(), is_coinbase: false, inputs: ins, outputs: outs(vals) }
}

fn block(ts: i64, txs: Vec<Tx>) -> Block {
    Block { timestamp: ts, txs }
}

fn queue_of(eng: &TaintFifo, o: &OutPoint) -> Vec<TaintPart> {
    let info = eng.address_mapping.get(o).expect("entry should exist");
    match &info.tainted_balance {
        Some(q) => q.iter().cloned().collect(),
        None => vec![],
    }
}

fn ledger_sums_match(eng: &TaintFifo) -> bool {
    eng.address_mapping.entries.iter().all(|(_, info)| match &info.tainted_balance {
        Some(q) => q.iter().map(|p| p.value).sum::<u64>() == info.current_balance,
        None => true,
    })
}

fn ledger_nw_total(eng: &TaintFifo) -> u64 {
    eng.address_mapping
        .entries
        .iter()
        .map(|(_, info)| match &info.tainted_balance {
            Some(q) => q.iter().filter(|p| p.name != 0).map(|p| p.value).sum::<u64>(),
            None => 0,
        })
        .sum()
}

#[test]
fn s1_pass_through() {
    let mut eng = TaintFifo::new(0);
    eng.on_start(0);
    let a = txid_with(1);
    let line = format!("{},red,100", hex_swapped(&a)).into_bytes();
    assert!(eng.load_bootstrap_line(&line));
    let c1 = txid_with(0xC1);
    eng.on_block(&block(1_600_000_000, vec![coinbase(&c1, &[100])]), 1).unwrap();
    eng.on_block(&block(1_600_000_600, vec![tx(&a, vec![op(&c1, 0)], &[100])]), 2).unwrap();
    let b = txid_with(2);
    eng.on_block(&block(1_600_001_200, vec![tx(&b, vec![op(&a, 0)], &[100])]), 3).unwrap();
    assert_eq!(queue_of(&eng, &op(&b, 0)), vec![TaintPart { name: 1, value: 100 }]);
    assert_eq!(eng.taint_collisions, 0);
    assert!(eng.overlap_log.is_empty());
    assert!(ledger_sums_match(&eng));
}

#[test]
fn s2_split() {
    let mut eng = TaintFifo::new(0);
    eng.on_start(0);
    let a = txid_with(1);
    let line = format!("{},red,100", hex_swapped(&a)).into_bytes();
    assert!(eng.load_bootstrap_line(&line));
    let c1 = txid_with(0xC1);
    eng.on_block(&block(1_600_000_000, vec![coinbase(&c1, &[100])]), 1).unwrap();
    eng.on_block(&block(1_600_000_600, vec![tx(&a, vec![op(&c1, 0)], &[100])]), 2).unwrap();
    let b = txid_with(2);
    eng.on_block(&block(1_600_001_200, vec![tx(&b, vec![op(&a, 0)], &[60, 40])]), 3).unwrap();
    assert_eq!(queue_of(&eng, &op(&b, 0)), vec![TaintPart { name: 1, value: 60 }]);
    assert_eq!(queue_of(&eng, &op(&b, 1)), vec![TaintPart { name: 1, value: 40 }]);
    assert_eq!(eng.taint_collisions, 0);
    assert!(ledger_sums_match(&eng));
}

#[test]
fn s3_merge_keeps_both_colors() {
    let mut eng = TaintFifo::new(0);
    eng.on_start(0);
    let a = txid_with(1);
    let line = format!("{},red,50,blue,50", hex_swapped(&a)).into_bytes();
    assert!(eng.load_bootstrap_line(&line));
    let c1 = txid_with(0xC1);
    eng.on_block(&block(1_600_000_000, vec![coinbase(&c1, &[100])]), 1).unwrap();
    eng.on_block(&block(1_600_000_600, vec![tx(&a, vec![op(&c1, 0)], &[50, 50])]), 2).unwrap();
    assert_eq!(queue_of(&eng, &op(&a, 0)), vec![TaintPart { name: 1, value: 50 }]);
    assert_eq!(queue_of(&eng, &op(&a, 1)), vec![TaintPart { name: 2, value: 50 }]);
    let b = txid_with(2);
    eng.on_block(
        &block(1_600_001_200, vec![tx(&b, vec![op(&a, 0), op(&a, 1)], &[100])]),
        3,
    )
    .unwrap();
    assert_eq!(
        queue_of(&eng, &op(&b, 0)),
        vec![TaintPart { name: 1, value: 50 }, TaintPart { name: 2, value: 50 }]
    );
    assert!(ledger_sums_match(&eng));
}

#[test]
fn s3_collision_on_overlap() {
    // A red-tainted input overlaid with a blue bootstrap assignment on the
    // same positional range yields one (red, blue) collision row.
    let mut eng = TaintFifo::new(0);
    eng.on_start(0);
    let a = txid_with(1);
    let s = txid_with(2);
    assert!(eng.load_bootstrap_line(&format!("{},red,50", hex_swapped(&a)).into_bytes()));
    assert!(eng.load_bootstrap_line(&format!("{},blue,50", hex_swapped(&s)).into_bytes()));
    let c1 = txid_with(0xC1);
    let c2 = txid_with(0xC2);
    eng.on_block(&block(1_600_000_000, vec![coinbase(&c1, &[50])]), 1).unwrap();
    eng.on_block(&block(1_600_000_300, vec![coinbase(&c2, &[50])]), 2).unwrap();
    eng.on_block(&block(1_600_000_600, vec![tx(&a, vec![op(&c1, 0)], &[50])]), 3).unwrap();
    eng.on_block(
        &block(1_600_001_200, vec![tx(&s, vec![op(&a, 0), op(&c2, 0)], &[100])]),
        4,
    )
    .unwrap();
    assert_eq!(eng.taint_collisions, 1);
    assert_eq!(eng.overlap_log.len(), 1);
    let row = &eng.overlap_log[0];
    assert_eq!(row.left_name, 1);
    assert_eq!(row.right_name, 2);
    assert_eq!(row.overlap, 50);
    assert_eq!(row.offset, 0);
    assert_eq!(row.tag, hex_swapped(&s));
    assert_eq!(
        queue_of(&eng, &op(&s, 0)),
        vec![TaintPart { name: 1, value: 50 }, TaintPart { name: 0, value: 50 }]
    );
}

#[test]
fn s4_dilution() {
    let mut eng = TaintFifo::new(0);
    eng.on_start(0);
    let a = txid_with(1);
    assert!(eng.load_bootstrap_line(&format!("{},red,30", hex_swapped(&a)).into_bytes()));
    let c1 = txid_with(0xC1);
    let c2 = txid_with(0xC2);
    eng.on_block(&block(1_600_000_000, vec![coinbase(&c1, &[30])]), 1).unwrap();
    eng.on_block(&block(1_600_000_300, vec![coinbase(&c2, &[70])]), 2).unwrap();
    eng.on_block(&block(1_600_000_600, vec![tx(&a, vec![op(&c1, 0)], &[30])]), 3).unwrap();
    let nw_before = ledger_nw_total(&eng);
    let b = txid_with(2);
    eng.on_block(
        &block(1_600_001_200, vec![tx(&b, vec![op(&a, 0), op(&c2, 0)], &[100])]),
        4,
    )
    .unwrap();
    assert_eq!(
        queue_of(&eng, &op(&b, 0)),
        vec![TaintPart { name: 1, value: 30 }, TaintPart { name: 0, value: 70 }]
    );
    // Non-clean value over the whole ledger never shrinks across a block.
    assert!(ledger_nw_total(&eng) >= nw_before);
    assert!(ledger_sums_match(&eng));
}

#[test]
fn s5_miner_fee() {
    let mut eng = TaintFifo::new(0);
    eng.on_start(0);
    let a = txid_with(1);
    assert!(eng.load_bootstrap_line(&format!("{},red,100", hex_swapped(&a)).into_bytes()));
    let c1 = txid_with(0xC1);
    eng.on_block(&block(1_600_000_000, vec![coinbase(&c1, &[100])]), 1).unwrap();
    eng.on_block(&block(1_600_000_600, vec![tx(&a, vec![op(&c1, 0)], &[100])]), 2).unwrap();
    let c3 = txid_with(0xC3);
    let s = txid_with(2);
    eng.on_block(
        &block(
            1_600_001_200,
            vec![coinbase(&c3, &[50]), tx(&s, vec![op(&a, 0)], &[90])],
        ),
        3,
    )
    .unwrap();
    assert_eq!(queue_of(&eng, &op(&s, 0)), vec![TaintPart { name: 1, value: 90 }]);
    assert_eq!(
        queue_of(&eng, &op(&c3, 0)),
        vec![TaintPart { name: 1, value: 10 }, TaintPart { name: 0, value: 40 }]
    );
    let info = eng.address_mapping.get(&op(&c3, 0)).unwrap();
    assert_eq!(info.current_balance, 50);
    assert!(ledger_sums_match(&eng));
}

#[test]
fn s6_bootstrap_shortfall() {
    let mut eng = TaintFifo::new(0);
    eng.on_start(0);
    let a = txid_with(1);
    assert!(eng.load_bootstrap_line(&format!("{},red,100", hex_swapped(&a)).into_bytes()));
    let c1 = txid_with(0xC1);
    eng.on_block(&block(1_600_000_000, vec![coinbase(&c1, &[150])]), 1).unwrap();
    eng.on_block(&block(1_600_000_600, vec![tx(&a, vec![op(&c1, 0)], &[150])]), 2).unwrap();
    assert_eq!(
        queue_of(&eng, &op(&a, 0)),
        vec![TaintPart { name: 1, value: 100 }, TaintPart { name: 0, value: 50 }]
    );
    assert_eq!(eng.taint_collisions, 0);
    assert!(ledger_sums_match(&eng));
}

#[test]
fn missing_input_is_fatal() {
    let mut eng = TaintFifo::new(0);
    eng.on_start(0);
    let b = txid_with(2);
    let ghost = txid_with(9);
    let r = eng.on_block(&block(1_600_000_000, vec![tx(&b, vec![op(&ghost, 0)], &[10])]), 1);
    assert_eq!(r, Err(TaintError::MissingInput));
}

#[test]
fn negative_fee_is_fatal() {
    let mut eng = TaintFifo::new(0);
    eng.on_start(0);
    let c1 = txid_with(0xC1);
    eng.on_block(&block(1_600_000_000, vec![coinbase(&c1, &[50])]), 1).unwrap();
    let b = txid_with(2);
    let r = eng.on_block(&block(1_600_000_600, vec![tx(&b, vec![op(&c1, 0)], &[60])]), 2);
    assert_eq!(r, Err(TaintError::NegativeFee));
}

#[test]
fn coinbase_underflow_is_fatal() {
    let mut eng = TaintFifo::new(0);
    eng.on_start(0);
    let c1 = txid_with(0xC1);
    eng.on_block(&block(1_600_000_000, vec![coinbase(&c1, &[100])]), 1).unwrap();
    let b = txid_with(2);
    // Fee of 10 with no coinbase in this block to attribute it to.
    let r = eng.on_block(&block(1_600_000_600, vec![tx(&b, vec![op(&c1, 0)], &[90])]), 2);
    assert_eq!(r, Err(TaintError::CoinbaseUnderflow));
}

#[test]
fn value_overflow_is_fatal() {
    let mut eng = TaintFifo::new(0);
    eng.on_start(0);
    let c1 = txid_with(0xC1);
    let c2 = txid_with(0xC2);
    eng.on_block(&block(1_600_000_000, vec![coinbase(&c1, &[u64::MAX])]), 1).unwrap();
    eng.on_block(&block(1_600_000_300, vec![coinbase(&c2, &[1])]), 2).unwrap();
    let b = txid_with(2);
    let r = eng.on_block(
        &block(1_600_000_600, vec![tx(&b, vec![op(&c1, 0), op(&c2, 0)], &[1])]),
        3,
    );
    assert_eq!(r, Err(TaintError::ValueOverflow));
}

#[test]
fn fee_offsets_stack_on_coinbase() {
    // Two fee-paying transactions in one block fill the same coinbase
    // output; the second slice lands behind the first through its offset,
    // and settlement appends the unattributed remainder as clean.
    let mut eng = TaintFifo::new(0);
    eng.on_start(0);
    let a = txid_with(1);
    let b = txid_with(2);
    assert!(eng.load_bootstrap_line(&format!("{},red,100", hex_swapped(&a)).into_bytes()));
    assert!(eng.load_bootstrap_line(&format!("{},blue,100", hex_swapped(&b)).into_bytes()));
    let c1 = txid_with(0xC1);
    let c2 = txid_with(0xC2);
    eng.on_block(&block(1_600_000_000, vec![coinbase(&c1, &[100])]), 1).unwrap();
    eng.on_block(&block(1_600_000_300, vec![coinbase(&c2, &[100])]), 2).unwrap();
    eng.on_block(&block(1_600_000_600, vec![tx(&a, vec![op(&c1, 0)], &[100])]), 3).unwrap();
    eng.on_block(&block(1_600_000_900, vec![tx(&b, vec![op(&c2, 0)], &[100])]), 4).unwrap();
    let cm = txid_with(0xC3);
    let s1 = txid_with(3);
    let s2 = txid_with(4);
    eng.on_block(
        &block(
            1_600_001_200,
            vec![
                coinbase(&cm, &[100]),
                tx(&s1, vec![op(&a, 0)], &[60]),
                tx(&s2, vec![op(&b, 0)], &[70]),
            ],
        ),
        5,
    )
    .unwrap();
    assert_eq!(queue_of(&eng, &op(&s1, 0)), vec![TaintPart { name: 1, value: 60 }]);
    assert_eq!(queue_of(&eng, &op(&s2, 0)), vec![TaintPart { name: 2, value: 70 }]);
    assert_eq!(
        queue_of(&eng, &op(&cm, 0)),
        vec![
            TaintPart { name: 1, value: 40 },
            TaintPart { name: 2, value: 30 },
            TaintPart { name: 0, value: 30 },
        ]
    );
    let info = eng.address_mapping.get(&op(&cm, 0)).unwrap();
    assert_eq!(info.current_balance, 100);
    assert_eq!(eng.taint_collisions, 0);
    assert!(ledger_sums_match(&eng));
}

#[test]
fn offset_mismatch_is_fatal() {
    // A second transaction carrying an already-live txid meets its own
    // unspent output in the ledger with a balance its offset cannot cover.
    let mut eng = TaintFifo::new(0);
    eng.on_start(0);
    let c1 = txid_with(0xC1);
    let c2 = txid_with(0xC2);
    eng.on_block(&block(1_600_000_000, vec![coinbase(&c1, &[100])]), 1).unwrap();
    eng.on_block(&block(1_600_000_300, vec![coinbase(&c2, &[100])]), 2).unwrap();
    let x = txid_with(7);
    eng.on_block(&block(1_600_000_600, vec![tx(&x, vec![op(&c1, 0)], &[100])]), 3).unwrap();
    let r = eng.on_block(&block(1_600_000_900, vec![tx(&x, vec![op(&c2, 0)], &[100])]), 4);
    assert_eq!(r, Err(TaintError::OffsetMismatch));
}

#[test]
fn duplicate_outpoint_is_fatal() {
    // A bootstrap-tainted transaction whose outpoint already entered the
    // ledger through a fee slice in the same block.
    let mut eng = TaintFifo::new(0);
    eng.on_start(0);
    let x = txid_with(0xAA);
    assert!(eng.load_bootstrap_line(&format!("{},red,10", hex_swapped(&x)).into_bytes()));
    let c1 = txid_with(0xC1);
    eng.on_block(&block(1_600_000_000, vec![coinbase(&c1, &[100])]), 1).unwrap();
    let t = txid_with(1);
    let r = eng.on_block(
        &block(
            1_600_000_600,
            vec![
                coinbase(&x, &[50]),
                tx(&t, vec![op(&c1, 0)], &[90]),
                tx(&x, vec![op(&t, 0)], &[10]),
            ],
        ),
        2,
    );
    assert_eq!(r, Err(TaintError::DuplicateOutpoint));
}

#[test]
fn bootstrap_entries_are_consumed() {
    let mut eng = TaintFifo::new(0);
    eng.on_start(0);
    let a = txid_with(1);
    assert!(eng.load_bootstrap_line(&format!("{},red,100", hex_swapped(&a)).into_bytes()));
    let c1 = txid_with(0xC1);
    eng.on_block(&block(1_600_000_000, vec![coinbase(&c1, &[100])]), 1).unwrap();
    assert_eq!(eng.bootstrap_addresses.entries.len(), 1);
    eng.on_block(&block(1_600_000_600, vec![tx(&a, vec![op(&c1, 0)], &[100])]), 2).unwrap();
    assert_eq!(eng.bootstrap_addresses.entries.len(), 0);
}

#[test]
fn max_height_skips_block() {
    let mut eng = TaintFifo::new(2);
    eng.on_start(0);
    let c1 = txid_with(0xC1);
    eng.on_block(&block(1_600_000_000, vec![coinbase(&c1, &[100])]), 2).unwrap();
    // The block was skipped entirely: nothing entered the ledger.
    assert_eq!(eng.utxo_set.entries.len(), 0);
    assert_eq!(eng.address_mapping.entries.len(), 0);
}

#[test]
fn on_complete_records_height() {
    let mut eng = TaintFifo::new(0);
    eng.on_start(7);
    eng.on_complete(42);
    assert_eq!(eng.start_height, 7);
    assert_eq!(eng.end_height, 42);
}

#[test]
fn exports_after_replay() {
    let mut eng = TaintFifo::new(0);
    eng.on_start(0);
    let a = txid_with(1);
    assert!(eng.load_bootstrap_line(&format!("{},red,100", hex_swapped(&a)).into_bytes()));
    let c1 = txid_with(0xC1);
    eng.on_block(&block(0, vec![coinbase(&c1, &[100])]), 1).unwrap();
    let mapping = eng.taint_mapping_rows();
    assert_eq!(mapping, vec![String::from("Clean,0"), String::from("red,1")]);
    let utxo = eng.utxo_rows();
    assert_eq!(utxo.len(), 1);
    assert_eq!(utxo[0], format!("{},0,addr", hex_swapped(&c1)));
    let infos = eng.address_info_rows();
    assert_eq!(infos.len(), 1);
    assert_eq!(infos[0], format!("{}:0,19700101-000000,100,", hex_swapped(&c1)));
}
