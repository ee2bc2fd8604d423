//! A mathematical replay of one block: the exact ledger, UTXO set,
//! collision log and error that `TaintFifo::on_block` produces, built
//! from the taint-queue models. Each function mirrors one phase of the
//! block processor; `rep_block` chains them.

use vstd::prelude::*;
use std::collections::VecDeque;
use crate::taint::{
    TaintPart, CollisionRow, ex_taken, ex_left, cm_result, cm_rows, cm_count, runs_nz,
    nw_sum_frags,
};
use crate::chain::{OutPoint, Tx, TxOut};
use crate::engine::{TaintError, AddressInfo, MAX_COMBINE_LEN};
use crate::text::{date_string_of, hex_swapped_text};

verus! {

/// The observable content of one ledger entry: the timestamp text, the
/// balance, and the taint queue.
pub struct InfoModel {
    pub stamp: Seq<char>,
    pub balance: u64,
    pub taint: Option<Seq<TaintPart>>,
}

/// The observable content of one collision-log row.
pub struct RowModel {
    pub left: u16,
    pub right: u16,
    pub overlap: u64,
    pub offset: int,
    pub tag: Seq<char>,
}

/// The state a block's replay threads along: the two ledgers, the waiting
/// bootstrap taint, the per-transaction buffer, the coinbase queue, the
/// per-block fee-attribution offsets (with the outpoints in first-touch
/// order), and the collision count and log.
pub struct RepState {
    pub utxo: Map<(Seq<u8>, u32), String>,
    pub ledger: Map<(Seq<u8>, u32), InfoModel>,
    pub bootstrap: Map<Seq<u8>, Seq<TaintPart>>,
    pub buffer: Seq<TaintPart>,
    pub minerq: Seq<(Seq<u8>, u32, u64)>,
    pub offsets: Map<(Seq<u8>, u32), u64>,
    pub touched: Seq<(Seq<u8>, u32)>,
    pub collisions: int,
    pub rows: Seq<RowModel>,
}

pub open spec fn clean_frag(v: u64) -> TaintPart {
    TaintPart { name: 0, value: v }
}

/// First pass over a coinbase transaction's outputs: each one enters the
/// UTXO set and the coinbase queue.
pub open spec fn rep_coinbase_outs(txid: Seq<u8>, outs: Seq<TxOut>, oi: int, s: RepState) -> RepState
    decreases outs.len() - oi,
{
    if oi < 0 || oi >= outs.len() {
        s
    } else {
        let s2 = RepState {
            utxo: s.utxo.insert((txid, oi as u32), outs[oi].address),
            minerq: s.minerq.push((txid, oi as u32, outs[oi].value)),
            ..s
        };
        rep_coinbase_outs(txid, outs, oi + 1, s2)
    }
}

/// First pass over the block: register every coinbase output.
pub open spec fn rep_pass1(txs: Seq<Tx>, ti: int, s: RepState) -> RepState
    decreases txs.len() - ti,
{
    if ti < 0 || ti >= txs.len() {
        s
    } else {
        let s2 = if txs[ti].is_coinbase {
            rep_coinbase_outs(txs[ti].txid@, txs[ti].outputs@, 0, s)
        } else {
            s
        };
        rep_pass1(txs, ti + 1, s2)
    }
}

/// Bootstrap injection: the pre-assigned taint is cut to the outputs'
/// sizes, front-first; an outpoint already in the ledger is fatal.
pub open spec fn rep_inject(
    txid: Seq<u8>,
    outs: Seq<TxOut>,
    oi: int,
    dirt: Seq<TaintPart>,
    ledger: Map<(Seq<u8>, u32), InfoModel>,
    pending: Seq<Option<Seq<TaintPart>>>,
) -> Result<Seq<Option<Seq<TaintPart>>>, TaintError>
    decreases outs.len() - oi,
{
    if oi < 0 || oi >= outs.len() {
        Ok(pending)
    } else if ledger.dom().contains((txid, oi as u32)) {
        Err(TaintError::DuplicateOutpoint)
    } else {
        rep_inject(
            txid,
            outs,
            oi + 1,
            ex_left(dirt, outs[oi].value),
            ledger,
            pending.push(Some(ex_taken(dirt, outs[oi].value))),
        )
    }
}

/// Input drain: each input's balance joins the sum and its taint (or a
/// single clean fragment) joins the buffer; the entry is zeroed in place.
pub open spec fn rep_drain(
    inputs: Seq<OutPoint>,
    ii: int,
    ledger: Map<(Seq<u8>, u32), InfoModel>,
    buffer: Seq<TaintPart>,
    summed: u64,
) -> Result<(Map<(Seq<u8>, u32), InfoModel>, Seq<TaintPart>, u64), TaintError>
    decreases inputs.len() - ii,
{
    if ii < 0 || ii >= inputs.len() {
        Ok((ledger, buffer, summed))
    } else {
        let k = inputs[ii].key();
        if !ledger.dom().contains(k) {
            Err(TaintError::MissingInput)
        } else {
            let info = ledger[k];
            if summed > u64::MAX - info.balance {
                Err(TaintError::ValueOverflow)
            } else {
                let buffer2 = match info.taint {
                    Some(q) => buffer + q,
                    None => if info.balance > 0 {
                        buffer.push(clean_frag(info.balance))
                    } else {
                        buffer
                    },
                };
                rep_drain(
                    inputs,
                    ii + 1,
                    ledger.insert(k, InfoModel { stamp: info.stamp, balance: 0, taint: None }),
                    buffer2,
                    (summed + info.balance) as u64,
                )
            }
        }
    }
}

/// Output registration: every output enters the UTXO set and the sum.
pub open spec fn rep_outs(
    txid: Seq<u8>,
    outs: Seq<TxOut>,
    oi: int,
    utxo: Map<(Seq<u8>, u32), String>,
    summed: u64,
) -> Result<(Map<(Seq<u8>, u32), String>, u64), TaintError>
    decreases outs.len() - oi,
{
    if oi < 0 || oi >= outs.len() {
        Ok((utxo, summed))
    } else {
        let u2 = utxo.insert((txid, oi as u32), outs[oi].address);
        if summed > u64::MAX - outs[oi].value {
            Err(TaintError::ValueOverflow)
        } else {
            rep_outs(txid, outs, oi + 1, u2, (summed + outs[oi].value) as u64)
        }
    }
}

/// The distribution list starts with every regular output at offset 0.
pub open spec fn rep_base_hul(txid: Seq<u8>, outs: Seq<TxOut>) -> Seq<(u64, (Seq<u8>, u32), u64)> {
    Seq::new(outs.len(), |i: int| (outs[i].value, (txid, i as u32), 0u64))
}

/// Fee attribution: coinbase-queue heads are popped (splitting the last
/// one) until the fee is covered; each slice carries its outpoint's
/// cumulative offset, and a first-touched outpoint is recorded.
pub open spec fn rep_fee(
    left: u64,
    minerq: Seq<(Seq<u8>, u32, u64)>,
    offsets: Map<(Seq<u8>, u32), u64>,
    touched: Seq<(Seq<u8>, u32)>,
    hul: Seq<(u64, (Seq<u8>, u32), u64)>,
) -> Result<
    (Seq<(Seq<u8>, u32, u64)>, Map<(Seq<u8>, u32), u64>, Seq<(Seq<u8>, u32)>, Seq<
        (u64, (Seq<u8>, u32), u64),
    >),
    TaintError,
>
    decreases left, minerq.len(),
{
    if left == 0 {
        Ok((minerq, offsets, touched, hul))
    } else if minerq.len() == 0 {
        Err(TaintError::CoinbaseUnderflow)
    } else {
        let t = minerq[0].0;
        let ix = minerq[0].1;
        let val = minerq[0].2;
        let k = (t, ix);
        let slice = if val > left {
            left
        } else {
            val
        };
        let mq2 = if val > left {
            seq![(t, ix, (val - left) as u64)] + minerq.drop_first()
        } else {
            minerq.drop_first()
        };
        let left2 = if val > left {
            0u64
        } else {
            (left - val) as u64
        };
        let off = if offsets.dom().contains(k) {
            offsets[k]
        } else {
            0u64
        };
        let touched2 = if offsets.dom().contains(k) {
            touched
        } else {
            touched.push(k)
        };
        if off > u64::MAX - slice {
            Err(TaintError::ValueOverflow)
        } else {
            rep_fee(
                left2,
                mq2,
                offsets.insert(k, (off + slice) as u64),
                touched2,
                hul.push((slice, k, off)),
            )
        }
    }
}

/// The collision rows of one combination, tagged with the transaction's
/// displayed hash.
pub open spec fn rep_tag_rows(rs: Seq<(u16, u16, u64, int)>, txid: Seq<u8>) -> Seq<RowModel> {
    Seq::new(
        rs.len(),
        |i: int|
            RowModel {
                left: rs[i].0,
                right: rs[i].1,
                overlap: rs[i].2,
                offset: rs[i].3,
                tag: hex_swapped_text(txid),
            },
    )
}

/// Distribution: each list entry takes exactly its value from the front
/// of the buffer, merges with any prior ledger entry or pending bootstrap
/// queue, is compacted, and lands in the ledger.
pub open spec fn rep_dist(
    hul: Seq<(u64, (Seq<u8>, u32), u64)>,
    hi: int,
    nouts: int,
    pending: Seq<Option<Seq<TaintPart>>>,
    buffer: Seq<TaintPart>,
    ledger: Map<(Seq<u8>, u32), InfoModel>,
    collisions: int,
    rows: Seq<RowModel>,
    tx_out: u64,
    txid: Seq<u8>,
    ts: i64,
) -> Result<
    (Seq<TaintPart>, Map<(Seq<u8>, u32), InfoModel>, int, Seq<RowModel>, u64),
    TaintError,
>
    decreases hul.len() - hi, 1int,
{
    if hi < 0 || hi >= hul.len() {
        Ok((buffer, ledger, collisions, rows, tx_out))
    } else {
        let val = hul[hi].0;
        let k = hul[hi].1;
        let off = hul[hi].2;
        let tb = ex_taken(buffer, val);
        let buffer2 = ex_left(buffer, val);
        let p = if hi < nouts && pending.len() > 0 {
            pending[0]
        } else {
            None
        };
        let pending2 = if hi < nouts && pending.len() > 0 {
            pending.drop_first()
        } else {
            pending
        };
        if ledger.dom().contains(k) {
            let info = ledger[k];
            if p is Some {
                Err(TaintError::DuplicateOutpoint)
            } else if info.balance != off {
                Err(TaintError::OffsetMismatch)
            } else if off > u64::MAX - val {
                Err(TaintError::ValueOverflow)
            } else {
                match info.taint {
                    Some(x) => {
                        let l = if off > 0 {
                            seq![clean_frag(off)] + tb
                        } else {
                            tb
                        };
                        if l.len() > MAX_COMBINE_LEN || x.len() > MAX_COMBINE_LEN {
                            Err(TaintError::ValueOverflow)
                        } else if collisions + cm_count(l, x) > u64::MAX {
                            Err(TaintError::ValueOverflow)
                        } else {
                            rep_dist_finish(
                                hul,
                                hi,
                                nouts,
                                pending2,
                                buffer2,
                                ledger,
                                collisions + cm_count(l, x),
                                rows + rep_tag_rows(cm_rows(l, x, 0), txid),
                                tx_out,
                                txid,
                                ts,
                                cm_result(l, x),
                                val,
                                off,
                            )
                        }
                    },
                    None => {
                        let q = if off > 0 {
                            seq![clean_frag(off)] + tb
                        } else {
                            tb
                        };
                        rep_dist_finish(
                            hul,
                            hi,
                            nouts,
                            pending2,
                            buffer2,
                            ledger,
                            collisions,
                            rows,
                            tx_out,
                            txid,
                            ts,
                            q,
                            val,
                            off,
                        )
                    },
                }
            }
        } else {
            match p {
                Some(x) => {
                    if tb.len() > MAX_COMBINE_LEN || x.len() > MAX_COMBINE_LEN {
                        Err(TaintError::ValueOverflow)
                    } else if collisions + cm_count(tb, x) > u64::MAX {
                        Err(TaintError::ValueOverflow)
                    } else {
                        rep_dist_finish(
                            hul,
                            hi,
                            nouts,
                            pending2,
                            buffer2,
                            ledger,
                            collisions + cm_count(tb, x),
                            rows + rep_tag_rows(cm_rows(tb, x, 0), txid),
                            tx_out,
                            txid,
                            ts,
                            cm_result(tb, x),
                            val,
                            0,
                        )
                    }
                },
                None => rep_dist_finish(
                    hul,
                    hi,
                    nouts,
                    pending2,
                    buffer2,
                    ledger,
                    collisions,
                    rows,
                    tx_out,
                    txid,
                    ts,
                    tb,
                    val,
                    0,
                ),
            }
        }
    }
}

/// Tail of one distribution step: compact, account non-clean value for
/// regular outputs, normalize an all-clean queue to `None`, and write the
/// entry back.
pub open spec fn rep_dist_finish(
    hul: Seq<(u64, (Seq<u8>, u32), u64)>,
    hi: int,
    nouts: int,
    pending: Seq<Option<Seq<TaintPart>>>,
    buffer: Seq<TaintPart>,
    ledger: Map<(Seq<u8>, u32), InfoModel>,
    collisions: int,
    rows: Seq<RowModel>,
    tx_out: u64,
    txid: Seq<u8>,
    ts: i64,
    q: Seq<TaintPart>,
    val: u64,
    add_bal: u64,
) -> Result<
    (Seq<TaintPart>, Map<(Seq<u8>, u32), InfoModel>, int, Seq<RowModel>, u64),
    TaintError,
>
    decreases hul.len() - hi, 0int,
{
    if hi < 0 || hi >= hul.len() {
        Ok((buffer, ledger, collisions, rows, tx_out))
    } else {
        let red = runs_nz(q);
        if hul[hi].2 == 0 && tx_out + nw_sum_frags(red) > u64::MAX {
            Err(TaintError::ValueOverflow)
        } else {
            let tx_out2 = if hul[hi].2 == 0 {
                (tx_out + nw_sum_frags(red)) as u64
            } else {
                tx_out
            };
            let is_clean = red.len() == 0 || (red.len() == 1 && red[0].name == 0);
            let im = InfoModel {
                stamp: date_string_of(ts),
                balance: (val + add_bal) as u64,
                taint: if !is_clean {
                    Some(red)
                } else {
                    None
                },
            };
            rep_dist(
                hul,
                hi + 1,
                nouts,
                pending,
                buffer,
                ledger.insert(hul[hi].1, im),
                collisions,
                rows,
                tx_out2,
                txid,
                ts,
            )
        }
    }
}

/// A distribution-phase error, typed.
pub open spec fn rep_dist_err(e: TaintError) -> Result<
    (Seq<TaintPart>, Map<(Seq<u8>, u32), InfoModel>, int, Seq<RowModel>, u64),
    TaintError,
> {
    Err(e)
}

/// Color accounting over the coinbase outpoints this block has
/// fee-tagged so far, in first-touch order.
pub open spec fn rep_collect(
    touched: Seq<(Seq<u8>, u32)>,
    ci: int,
    ledger: Map<(Seq<u8>, u32), InfoModel>,
    tx_out: u64,
) -> Result<u64, TaintError>
    decreases touched.len() - ci,
{
    if ci < 0 || ci >= touched.len() {
        Ok(tx_out)
    } else {
        let k = touched[ci];
        if !ledger.dom().contains(k) {
            Err(TaintError::MissingInput)
        } else {
            match ledger[k].taint {
                Some(x) => if tx_out + nw_sum_frags(x) > u64::MAX {
                    Err(TaintError::ValueOverflow)
                } else {
                    rep_collect(touched, ci + 1, ledger, (tx_out + nw_sum_frags(x)) as u64)
                },
                None => rep_collect(touched, ci + 1, ledger, tx_out),
            }
        }
    }
}

/// Spending the inputs removes them from both ledgers.
pub open spec fn rep_spend(
    inputs: Seq<OutPoint>,
    si: int,
    utxo: Map<(Seq<u8>, u32), String>,
    ledger: Map<(Seq<u8>, u32), InfoModel>,
) -> (Map<(Seq<u8>, u32), String>, Map<(Seq<u8>, u32), InfoModel>)
    decreases inputs.len() - si,
{
    if si < 0 || si >= inputs.len() {
        (utxo, ledger)
    } else {
        rep_spend(
            inputs,
            si + 1,
            utxo.remove(inputs[si].key()),
            ledger.remove(inputs[si].key()),
        )
    }
}

/// One regular transaction, in the processor's order: buffer check,
/// bootstrap injection, input drain, output registration, fee check and
/// attribution, distribution, color accounting, conservation check,
/// input spend.
pub open spec fn rep_tx(tx: Tx, ts: i64, s: RepState) -> Result<RepState, TaintError> {
    if s.buffer.len() > 0 {
        Err(TaintError::TaintBufferNotEmpty)
    } else {
        let has_dirt = s.bootstrap.dom().contains(tx.txid@);
        let dirt = if has_dirt {
            s.bootstrap[tx.txid@]
        } else {
            Seq::empty()
        };
        let bootstrap2 = s.bootstrap.remove(tx.txid@);
        let pend_r = if has_dirt && dirt.len() > 0 {
            rep_inject(tx.txid@, tx.outputs@, 0, dirt, s.ledger, Seq::empty())
        } else {
            Ok(Seq::empty())
        };
        match pend_r {
            Err(e) => Err(e),
            Ok(pending) => match rep_drain(tx.inputs@, 0, s.ledger, s.buffer, 0) {
                Err(e) => Err(e),
                Ok((ledger1, buffer1, inputs_summed)) => match rep_outs(
                    tx.txid@,
                    tx.outputs@,
                    0,
                    s.utxo,
                    0,
                ) {
                    Err(e) => Err(e),
                    Ok((utxo1, outputs_summed)) => if inputs_summed < outputs_summed {
                        Err(TaintError::NegativeFee)
                    } else {
                        let fee = (inputs_summed - outputs_summed) as u64;
                        let tx_inp = nw_sum_frags(buffer1);
                        let hul0 = rep_base_hul(tx.txid@, tx.outputs@);
                        let fee_r = if fee > 0 {
                            rep_fee(fee, s.minerq, s.offsets, s.touched, hul0)
                        } else {
                            Ok((s.minerq, s.offsets, s.touched, hul0))
                        };
                        match fee_r {
                            Err(e) => Err(e),
                            Ok((minerq2, offsets2, touched2, hul)) => match rep_dist(
                                hul,
                                0,
                                tx.outputs@.len() as int,
                                pending,
                                buffer1,
                                ledger1,
                                s.collisions,
                                s.rows,
                                0,
                                tx.txid@,
                                ts,
                            ) {
                                Err(e) => Err(e),
                                Ok(
                                    (buffer2, ledger2, collisions2, rows2, tx_out1),
                                ) => match rep_collect(touched2, 0, ledger2, tx_out1) {
                                    Err(e) => Err(e),
                                    Ok(tx_out2) => if tx_inp > tx_out2 {
                                        Err(TaintError::TaintLost)
                                    } else {
                                        let spent = rep_spend(tx.inputs@, 0, utxo1, ledger2);
                                        Ok(
                                            RepState {
                                                utxo: spent.0,
                                                ledger: spent.1,
                                                bootstrap: bootstrap2,
                                                buffer: buffer2,
                                                minerq: minerq2,
                                                offsets: offsets2,
                                                touched: touched2,
                                                collisions: collisions2,
                                                rows: rows2,
                                            },
                                        )
                                    },
                                },
                            },
                        }
                    },
                },
            },
        }
    }
}

/// Second pass over the block: every non-coinbase transaction in order.
pub open spec fn rep_txs(txs: Seq<Tx>, ti: int, ts: i64, s: RepState) -> Result<
    RepState,
    TaintError,
>
    decreases txs.len() - ti,
{
    if ti < 0 || ti >= txs.len() {
        Ok(s)
    } else {
        let r = if txs[ti].is_coinbase {
            Ok(s)
        } else {
            rep_tx(txs[ti], ts, s)
        };
        match r {
            Err(e) => Err(e),
            Ok(s2) => rep_txs(txs, ti + 1, ts, s2),
        }
    }
}

/// Settlement: leftover coinbase value is appended to its entry as clean
/// (creating the entry if the outpoint is new) and compacted.
pub open spec fn rep_settle(
    minerq: Seq<(Seq<u8>, u32, u64)>,
    mi: int,
    ledger: Map<(Seq<u8>, u32), InfoModel>,
    ts: i64,
) -> Result<Map<(Seq<u8>, u32), InfoModel>, TaintError>
    decreases minerq.len() - mi,
{
    if mi < 0 || mi >= minerq.len() {
        Ok(ledger)
    } else {
        let k = (minerq[mi].0, minerq[mi].1);
        let rew = minerq[mi].2;
        if ledger.dom().contains(k) {
            let info = ledger[k];
            if info.balance > u64::MAX - rew {
                Err(TaintError::ValueOverflow)
            } else {
                let taint2 = match info.taint {
                    Some(x) => {
                        let x1 = if rew > 0 {
                            x.push(clean_frag(rew))
                        } else {
                            x
                        };
                        let red = runs_nz(x1);
                        if red.len() == 0 || (red.len() == 1 && red[0].name == 0) {
                            None
                        } else {
                            Some(red)
                        }
                    },
                    None => None,
                };
                rep_settle(
                    minerq,
                    mi + 1,
                    ledger.insert(
                        k,
                        InfoModel {
                            stamp: info.stamp,
                            balance: (info.balance + rew) as u64,
                            taint: taint2,
                        },
                    ),
                    ts,
                )
            }
        } else {
            rep_settle(
                minerq,
                mi + 1,
                ledger.insert(k, InfoModel { stamp: date_string_of(ts), balance: rew, taint: None }),
                ts,
            )
        }
    }
}

/// The whole block: coinbase registration, the transactions in order,
/// settlement, and the final buffer check.
pub open spec fn rep_block(txs: Seq<Tx>, ts: i64, s0: RepState) -> Result<RepState, TaintError> {
    let s1 = rep_pass1(txs, 0, s0);
    match rep_txs(txs, 0, ts, s1) {
        Err(e) => Err(e),
        Ok(s2) => match rep_settle(s2.minerq, 0, s2.ledger, ts) {
            Err(e) => Err(e),
            Ok(ledger2) => if s2.buffer.len() > 0 {
                Err(TaintError::TaintBufferNotEmpty)
            } else {
                Ok(RepState { ledger: ledger2, minerq: Seq::empty(), ..s2 })
            },
        },
    }
}

/// The observable content of a ledger entry.
pub open spec fn info_view(info: AddressInfo) -> InfoModel {
    InfoModel {
        stamp: info.timestamp@,
        balance: info.current_balance,
        taint: match info.tainted_balance {
            Some(q) => Some(q@),
            None => None,
        },
    }
}

/// The observable content of the ledger map.
pub open spec fn ledger_view(m: Map<(Seq<u8>, u32), AddressInfo>) -> Map<
    (Seq<u8>, u32),
    InfoModel,
> {
    Map::new(|k: (Seq<u8>, u32)| m.dom().contains(k), |k: (Seq<u8>, u32)| info_view(m[k]))
}

/// The observable content of the bootstrap map.
pub open spec fn bs_view(m: Map<Seq<u8>, VecDeque<TaintPart>>) -> Map<Seq<u8>, Seq<TaintPart>> {
    Map::new(|k: Seq<u8>| m.dom().contains(k), |k: Seq<u8>| m[k]@)
}

/// The observable content of the coinbase queue.
pub open spec fn mq_view(s: Seq<(OutPoint, u64)>) -> Seq<(Seq<u8>, u32, u64)> {
    Seq::new(s.len(), |i: int| (s[i].0.txid@, s[i].0.index, s[i].1))
}

/// The observable content of one collision row.
pub open spec fn row_view(r: CollisionRow) -> RowModel {
    RowModel {
        left: r.left_name,
        right: r.right_name,
        overlap: r.overlap,
        offset: r.offset as int,
        tag: r.tag@,
    }
}

/// The observable content of the collision log.
pub open spec fn log_view(s: Seq<CollisionRow>) -> Seq<RowModel> {
    Seq::new(s.len(), |i: int| row_view(s[i]))
}

/// The observable content of the pending bootstrap queues.
pub open spec fn pending_view(s: Seq<Option<VecDeque<TaintPart>>>) -> Seq<Option<Seq<TaintPart>>> {
    Seq::new(
        s.len(),
        |i: int|
            match s[i] {
                Some(q) => Some(q@),
                None => None,
            },
    )
}

/// The observable content of the distribution list.
pub open spec fn hul_view(s: Seq<(u64, OutPoint, u64)>) -> Seq<(u64, (Seq<u8>, u32), u64)> {
    Seq::new(s.len(), |i: int| (s[i].0, s[i].1.key(), s[i].2))
}

/// The keys of the touched-outpoint list.
pub open spec fn touched_view(s: Seq<OutPoint>) -> Seq<(Seq<u8>, u32)> {
    Seq::new(s.len(), |i: int| s[i].key())
}

} // verus!
