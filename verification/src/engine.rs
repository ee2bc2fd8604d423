//! The taint-propagation engine: per-block replay of transactions,
//! FIFO draining of input taint, distribution over outputs, miner-fee
//! reattribution, and the invariants that keep value and color conserved.

use vstd::prelude::*;
use vstd::string::StringExecFns;
use std::collections::VecDeque;
use crate::taint::{
    TaintPart, CollisionRow, sum_frags, frags_pos, extract_taint, combine_taints, reduce_taint,
    non_white_taint_to_sum, lemma_sum_one, lemma_sum_append, lemma_runs_nz_sum,
    lemma_runs_nz_compacted, lemma_extract_all, lemma_cm_result_sum, ex_taken, cm_result,
    cm_rows, cm_count, runs_nz, nw_sum_frags,
};
use crate::replay::{
    RepState, InfoModel, rep_block, rep_pass1, rep_coinbase_outs, rep_txs, rep_tx, rep_inject,
    rep_drain, rep_outs, rep_base_hul, rep_fee, rep_dist, rep_dist_finish, rep_collect, rep_spend,
    rep_settle, rep_tag_rows, rep_dist_err, clean_frag, ledger_view, bs_view, mq_view, log_view,
    pending_view, hul_view, touched_view, info_view,
};
use crate::chain::{OutPoint, Tx, TxOut, Block, clone_bytes};
use crate::maps::{OutMap, TxidMap};
use crate::registry::ColorRegistry;
use crate::text::{
    split_text, split_commas, views_of, valid_txid_hex, unhex_swapped, txid_from_hex,
    valid_u64_text, dec_val, parse_u64_bytes, taint_text, taint_to_string, dec_str,
    timestamp_to_date, u64_to_string, date_string_of, hex_swapped_text,
};

verus! {

/// The recorded state of one live UTXO: when it was created, its balance,
/// and its taint queue. `None` taint means the whole balance is clean.
pub struct AddressInfo {
    pub timestamp: String,
    pub current_balance: u64,
    pub tainted_balance: Option<VecDeque<TaintPart>>,
}

/// A stored taint queue accounts for the whole balance, fragment values
/// are positive.
pub open spec fn info_wf(info: AddressInfo) -> bool {
    match info.tainted_balance {
        Some(q) => sum_frags(q@) == info.current_balance as int && frags_pos(q@),
        None => true,
    }
}

/// Display form of an `AddressInfo`: `timestamp,balance,<color value,>*`.
pub open spec fn info_text(info: AddressInfo) -> Seq<char> {
    info.timestamp@ + seq![','] + dec_str(info.current_balance as nat) + seq![','] + (
    match info.tainted_balance {
        Some(q) => taint_text(q@),
        None => Seq::empty(),
    })
}

impl AddressInfo {
    /// Render this entry as its CSV cell text.
    pub fn to_csv_string(&self) -> (r: String)
        ensures
            r@ == info_text(*self),
    {
        let mut s = String::new();
        s.append(self.timestamp.as_str());
        s.append(",");
        s.append(u64_to_string(self.current_balance).as_str());
        s.append(",");
        s.append(taint_to_string(&self.tainted_balance).as_str());
        proof {
            reveal_strlit(",");
            assert(","@ =~= seq![',']);
            assert(s@ =~= info_text(*self));
        }
        s
    }
}

/// Queues longer than this are refused before a combination: it keeps
/// the number of combination steps, and so the collision counter, inside
/// the u32 range.
pub const MAX_COMBINE_LEN: usize = 1000000000;

/// A fatal inconsistency between the chain feed and the engine's state.
/// The replay stops rather than continue from a corrupt state.
#[derive(PartialEq, Eq, Structural, Debug, Clone, Copy)]
pub enum TaintError {
    /// A transaction input names an outpoint the ledger does not hold.
    MissingInput,
    /// A transaction's outputs sum to more than its inputs.
    NegativeFee,
    /// The coinbase queue ran out while fees were still owed.
    CoinbaseUnderflow,
    /// A coinbase entry's balance disagrees with its attribution offset.
    OffsetMismatch,
    /// A bootstrap-tainted output's outpoint already exists in the ledger.
    DuplicateOutpoint,
    /// Colored input value exceeded colored output value in a transaction.
    TaintLost,
    /// The per-transaction taint buffer was not empty when it had to be.
    TaintBufferNotEmpty,
    /// A balance or counter exceeded the integer range.
    ValueOverflow,
}

/// The FIFO taint-propagation engine.
pub struct TaintFifo {
    /// Live outpoints and the address each pays to.
    pub utxo_set: OutMap<String>,
    /// Live outpoints and their balance and taint state.
    pub address_mapping: OutMap<AddressInfo>,
    /// Pre-labeled taint waiting for its transaction to appear, by txid.
    pub bootstrap_addresses: TxidMap<VecDeque<TaintPart>>,
    /// Tag-name registry; a color ID is a position in it.
    pub registry: ColorRegistry,
    pub start_height: usize,
    pub end_height: usize,
    pub max_height: usize,
    /// Total collision events seen so far.
    pub taint_collisions: u64,
    /// Per-transaction FIFO buffer of drained input taint.
    pub total_taint_for_tx: VecDeque<TaintPart>,
    /// Every collision event recorded so far, in order.
    pub overlap_log: Vec<CollisionRow>,
}

impl TaintFifo {
    /// The engine's invariant between blocks.
    pub open spec fn wf(&self) -> bool {
        &&& self.utxo_set.wf()
    &&& self.address_mapping.wf()
    &&& self.bootstrap_addresses.wf()
    &&& self.registry.wf()
    &&& forall|k: (Seq<u8>, u32)|
        #[trigger] self.address_mapping@.dom().contains(k) ==> info_wf(self.address_mapping@[k])
    &&& forall|k: Seq<u8>|
        #[trigger] self.bootstrap_addresses@.dom().contains(k) ==> frags_pos(
            self.bootstrap_addresses@[k]@,
        )
    &&& self.total_taint_for_tx@.len() == 0
    }

    /// A fresh engine with an empty ledger, an empty bootstrap set and a
    /// registry holding only the clean tag.
    pub fn new(max_height: usize) -> (r: Self)
        ensures
            r.wf(),
            r.max_height == max_height,
            r.start_height == 0,
            r.end_height == 0,
            r.taint_collisions == 0,
            r.utxo_set@ == Map::<(Seq<u8>, u32), String>::empty(),
            r.address_mapping@ == Map::<(Seq<u8>, u32), AddressInfo>::empty(),
            r.bootstrap_addresses@ == Map::<Seq<u8>, VecDeque<TaintPart>>::empty(),
            r.registry.tags@.len() == 1,
            r.overlap_log@.len() == 0,
    {
        TaintFifo {
            utxo_set: OutMap::new(),
            address_mapping: OutMap::new(),
            bootstrap_addresses: TxidMap::new(),
            registry: ColorRegistry::new(),
            start_height: 0,
            end_height: 0,
            max_height,
            taint_collisions: 0,
            total_taint_for_tx: VecDeque::new(),
            overlap_log: Vec::new(),
        }
    }

    /// Record the height replay starts from.
    pub fn on_start(&mut self, block_height: usize)
        ensures
            *final(self) == (TaintFifo { start_height: block_height, ..*old(self) }),
    {
        self.start_height = block_height;
    }

    /// Record the height replay ended at.
    pub fn on_complete(&mut self, block_height: usize)
        ensures
            *final(self) == (TaintFifo { end_height: block_height, ..*old(self) }),
    {
        self.end_height = block_height;
    }

    /// One line of the bootstrap file: `txid_hex,tag,value,tag,value,…`.
    /// A well-formed new line inserts a taint queue under the txid
    /// (swapped to internal byte order) and registers unseen tags;
    /// malformed lines and duplicate txids are skipped.
    #[verifier::loop_isolation(false)]
    pub fn load_bootstrap_line(&mut self, line: &Vec<u8>) -> (r: bool)
        requires
            old(self).wf(),
        ensures
            final(self).wf(),
            final(self).utxo_set == old(self).utxo_set,
            final(self).address_mapping == old(self).address_mapping,
            final(self).start_height == old(self).start_height,
            final(self).end_height == old(self).end_height,
            final(self).max_height == old(self).max_height,
            final(self).taint_collisions == old(self).taint_collisions,
            final(self).overlap_log == old(self).overlap_log,
            old(self).registry.tags@.is_prefix_of(final(self).registry.tags@),
            !r ==> final(self).bootstrap_addresses == old(self).bootstrap_addresses,
            r ==> ({
                let ts = split_text(line@);
                let txid = unhex_swapped(ts[0]);
                let n = (ts.len() - 1) / 2;
                let q = final(self).bootstrap_addresses@[txid]@;
                &&& line_shape_ok(ts)
                &&& !old(self).bootstrap_addresses@.dom().contains(txid)
                &&& final(self).bootstrap_addresses@ == old(self).bootstrap_addresses@.insert(txid, final(self).bootstrap_addresses@[txid])
                &&& q.len() == n
                &&& (forall|j: int|
                    0 <= j < n ==> (#[trigger] q[j]).value as int == dec_val(ts[2 * j + 2]))
                &&& (forall|j: int|
                    0 <= j < n ==> ((#[trigger] q[j]).name as int) < final(self).registry.tags@.len() && final(self).registry.tags@[q[j].name as int]@ == ts[2 * j + 1])
                &&& tags_view(final(self).registry.tags@) == reg_model(
                    ts,
                    0,
                    n as int,
                    tags_view(old(self).registry.tags@),
                )
            }),
            ({
                let ts = split_text(line@);
                line_shape_ok(ts) && !old(self).bootstrap_addresses@.dom().contains(
                    unhex_swapped(ts[0]),
                ) && old(self).registry.tags@.len() + (ts.len() - 1) / 2 <= 65536
            }) ==> r,
    {
        let ghost ts = split_text(line@);
        let tokens = split_commas(line);
        if tokens.len() < 3 || tokens.len() % 2 == 0 {
            return false;
        }
        let txid = match txid_from_hex(&tokens[0]) {
            Some(t) => t,
            None => {
                return false;
            },
        };
        if self.bootstrap_addresses.contains_key(&txid) {
            return false;
        }
        let n = (tokens.len() - 1) / 2;
        proof {
            assert(tokens@.len() == 2 * (n as int) + 1);
        }
        let mut vals: Vec<u64> = Vec::new();
        let mut j: usize = 0;
        while j < n
            invariant
                0 <= j <= n,
                tokens@.len() == 2 * (n as int) + 1,
                tokens@.len() <= usize::MAX,
                3 <= tokens@.len(),
                views_of(tokens@) == ts,
                vals@.len() == j,
                forall|i: int| 0 <= i < j ==> #[trigger] val_fact(ts, vals@, i),
            decreases n - j,
        {
            proof {
                assert(2 * (j as int) + 2 < tokens@.len());
                assert(ts[2 * j as int + 2] == tokens@[2 * j as int + 2]@);
                assert(ts.len() == tokens@.len());
            }
            match parse_u64_bytes(&tokens[2 * j + 2]) {
                Some(v) => {
                    if v == 0 {
                        proof {
                            assert(dec_val(ts[2 * (j as int) + 2]) == 0);
                            assert(!line_shape_ok(ts));
                        }
                        return false;
                    }
                    let ghost vpre = vals@;
                    vals.push(v);
                    proof {
                        assert forall|i: int| 0 <= i < j + 1 implies #[trigger] val_fact(
                            ts,
                            vals@,
                            i,
                        ) by {
                            if i < j {
                                assert(val_fact(ts, vpre, i));
                                assert(vals@[i] == vpre[i]);
                            } else {
                                assert(vals@[i] == v);
                            }
                        }
                    }
                },
                None => {
                    proof {
                        assert(!valid_u64_text(ts[2 * (j as int) + 2]));
                        assert(!line_shape_ok(ts));
                    }
                    return false;
                },
            }
            j = j + 1;
        }
        // The line is fully validated; now register tags and build the queue.
        let mut q: VecDeque<TaintPart> = VecDeque::new();
        let mut j2: usize = 0;
        while j2 < n
            invariant
                0 <= j2 <= n,
                tokens@.len() == 2 * (n as int) + 1,
                tokens@.len() <= usize::MAX,
                3 <= tokens@.len(),
                views_of(tokens@) == ts,
                vals@.len() == n,
                forall|i: int| 0 <= i < n ==> #[trigger] val_fact(ts, vals@, i),
                self.registry.wf(),
                old(self).registry.tags@.is_prefix_of(self.registry.tags@),
                self.registry.tags@.len() <= old(self).registry.tags@.len() + j2,
                reg_model(ts, j2 as int, n as int, tags_view(self.registry.tags@)) == reg_model(
                    ts,
                    0,
                    n as int,
                    tags_view(old(self).registry.tags@),
                ),
                q@.len() == j2,
                forall|i: int| 0 <= i < j2 ==> #[trigger] frag_fact(ts, q@, self.registry.tags@, i),
                self.utxo_set == old(self).utxo_set,
                self.address_mapping == old(self).address_mapping,
                self.bootstrap_addresses == old(self).bootstrap_addresses,
                self.start_height == old(self).start_height,
                self.end_height == old(self).end_height,
                self.max_height == old(self).max_height,
                self.taint_collisions == old(self).taint_collisions,
                self.overlap_log == old(self).overlap_log,
                self.total_taint_for_tx == old(self).total_taint_for_tx,
            decreases n - j2,
        {
            proof {
                assert(2 * (j2 as int) + 1 < tokens@.len());
                assert(ts[2 * j2 as int + 1] == tokens@[2 * j2 as int + 1]@);
            }
            let ghost rpre = self.registry.tags@;
            let id = match self.registry.get_or_insert(clone_bytes(&tokens[2 * j2 + 1])) {
                Some(id) => id,
                None => {
                    proof {
                        assert(rpre.len() == 65536);
                        assert(old(self).registry.tags@.len() + n > 65536);
                    }
                    return false;
                },
            };
            let ghost qpre = q@;
            let ghost tagsnow = self.registry.tags@;
            q.push_back(TaintPart { name: id, value: vals[j2] });
            proof {
                assert(old(self).registry.tags@.is_prefix_of(self.registry.tags@));
                let cur = tags_view(rpre);
                let tg = ts[2 * (j2 as int) + 1];
                if self.registry.tags@ == rpre {
                    assert(cur[id as int] == tg);
                    assert(reg_step(cur, tg) == cur);
                } else {
                    assert(self.registry.tags@ == rpre.push(
                        self.registry.tags@[self.registry.tags@.len() - 1],
                    ));
                    assert(self.registry.tags@[id as int]@ == tg);
                    assert(!(exists|i: int| 0 <= i < cur.len() && cur[i] == tg)) by {
                        if exists|i: int| 0 <= i < cur.len() && cur[i] == tg {
                            let i = choose|i: int| 0 <= i < cur.len() && cur[i] == tg;
                            assert(self.registry.tags@[i]@ == tg);
                            assert(self.registry.tags@[id as int]@ == self.registry.tags@[i]@);
                        }
                    }
                    assert(tags_view(self.registry.tags@) =~= cur.push(tg));
                    assert(reg_step(cur, tg) == cur.push(tg));
                }
                assert(reg_model(ts, j2 as int, n as int, cur) == reg_model(
                    ts,
                    j2 as int + 1,
                    n as int,
                    tags_view(self.registry.tags@),
                ));
                assert(val_fact(ts, vals@, j2 as int));
                assert forall|i: int| 0 <= i < j2 + 1 implies #[trigger] frag_fact(
                    ts,
                    q@,
                    self.registry.tags@,
                    i,
                ) by {
                    if i < j2 {
                        assert(frag_fact(ts, qpre, rpre, i));
                        assert(q@[i] == qpre[i]);
                        assert(rpre.is_prefix_of(self.registry.tags@));
                        assert(self.registry.tags@[qpre[i].name as int] == rpre[qpre[i].name as int]);
                    } else {
                        assert(q@[i].name == id && q@[i].value == vals@[j2 as int]);
                    }
                }
            }
            j2 = j2 + 1;
        }
        proof {
            assert forall|i: int| 0 <= i < q@.len() implies (#[trigger] q@[i]).value > 0 by {
                assert(frag_fact(ts, q@, self.registry.tags@, i));
            }
            assert(frags_pos(q@));
            assert(ts.len() == tokens@.len());
            assert(ts[0] == tokens@[0]@);
            assert forall|i: int|
                0 <= i < (ts.len() - 1) / 2 implies valid_u64_text(#[trigger] ts[2 * i + 2])
                && dec_val(ts[2 * i + 2]) > 0 by {
                assert(val_fact(ts, vals@, i));
            }
            assert(line_shape_ok(ts));
        }
        let ghost qv = q@;
        let ghost txk = txid@;
        self.bootstrap_addresses.insert(txid, q);
        proof {
            assert(txk == unhex_swapped(ts[0]));
            assert(self.bootstrap_addresses@[txk]@ == qv);
            let n2 = (ts.len() - 1) / 2;
            assert forall|j: int| 0 <= j < n2 implies (#[trigger] qv[j]).value as int == dec_val(
                ts[2 * j + 2],
            ) by {
                assert(frag_fact(ts, qv, self.registry.tags@, j));
            }
            assert forall|j: int|
                0 <= j < n2 implies ((#[trigger] qv[j]).name as int) < self.registry.tags@.len()
                && self.registry.tags@[qv[j].name as int]@ == ts[2 * j + 1] by {
                assert(frag_fact(ts, qv, self.registry.tags@, j));
            }
        }
        proof {
            assert forall|k: Seq<u8>| #[trigger] self.bootstrap_addresses@.dom().contains(
                k,
            ) implies frags_pos(self.bootstrap_addresses@[k]@) by {
                if k != unhex_swapped(ts[0]) {
                    assert(old(self).bootstrap_addresses@.dom().contains(k));
                }
            }
        }
        true
    }

    /// The distribution phase of one transaction, exactly as `rep_dist`
    /// describes it: each list entry takes its value from the front of the
    /// buffer, merges with any prior ledger entry or pending bootstrap
    /// queue, is compacted, and lands in the ledger.
    #[verifier::loop_isolation(false)]
    #[verifier::rlimit(100)]
    fn distribute(
        &mut self,
        tx: &Tx,
        ts: i64,
        hul: &Vec<(u64, OutPoint, u64)>,
        pending: &mut Vec<Option<VecDeque<TaintPart>>>,
        tag_hex: &String,
        tx_out: &mut u64,
    ) -> (r: Result<(), TaintError>)
        requires
            maps_ok(*old(self)),
            tx.wf(),
            tag_hex@ == hex_swapped_text(tx.txid@),
            frags_pos(old(self).total_taint_for_tx@),
            0 <= ts <= u32::MAX,
            hul@.len() >= tx.outputs@.len(),
            forall|i: int|
                0 <= i < tx.outputs@.len() ==> (#[trigger] hul@[i]).0 == tx.outputs@[i].value
                    && hul@[i].2 == 0,
            old(pending)@.len() > 0 ==> old(pending)@.len() == tx.outputs@.len(),
            forall|i: int|
                0 <= i < old(pending)@.len() ==> #[trigger] pend_fact(
                    old(pending)@,
                    tx.outputs@,
                    i,
                ),
        ensures
            maps_ok(*final(self)),
            evolves(*old(self), *final(self)),
            final(self).bootstrap_addresses == old(self).bootstrap_addresses,
            final(self).utxo_set@ == old(self).utxo_set@,
            frags_pos(final(self).total_taint_for_tx@),
            ({
                let m = rep_dist(
                    hul_view(hul@),
                    0,
                    tx.outputs@.len() as int,
                    pending_view(old(pending)@),
                    old(self).total_taint_for_tx@,
                    ledger_view(old(self).address_mapping@),
                    old(self).taint_collisions as int,
                    log_view(old(self).overlap_log@),
                    *old(tx_out),
                    tx.txid@,
                    ts,
                );
                match r {
                    Ok(()) => m == Ok::<
                        (Seq<TaintPart>, Map<(Seq<u8>, u32), InfoModel>, int, Seq<
                            crate::replay::RowModel,
                        >, u64),
                        TaintError,
                    >(
                        (
                            final(self).total_taint_for_tx@,
                            ledger_view(final(self).address_mapping@),
                            final(self).taint_collisions as int,
                            log_view(final(self).overlap_log@),
                            *final(tx_out),
                        ),
                    ),
                    Err(e) => m == rep_dist_err(e),
                }
            }),
    {
        let ghost hm = hul_view(hul@);
        let ghost nn = tx.outputs@.len() as int;
        let ghost p0 = pending_view(pending@);
        let ghost b0 = self.total_taint_for_tx@;
        let ghost l0 = ledger_view(self.address_mapping@);
        let ghost c0 = self.taint_collisions as int;
        let ghost r0 = log_view(self.overlap_log@);
        proof {
            assert forall|i: int| 0 <= i < pending@.len() implies #[trigger] pend_fact_at(
                pending@,
                tx.outputs@,
                0,
                i,
            ) by {
                assert(pend_fact(pending@, tx.outputs@, i));
            }
        }
        let mut hi: usize = 0;
        while hi < hul.len()
            invariant
                0 <= hi <= hul@.len(),
                maps_ok(*self),
                evolves(*old(self), *self),
                self.bootstrap_addresses == old(self).bootstrap_addresses,
                                frags_pos(self.total_taint_for_tx@),
                hul@.len() >= tx.outputs@.len(),
                forall|i: int|
                    0 <= i < tx.outputs@.len() ==> (#[trigger] hul@[i]).0
                        == tx.outputs@[i].value && hul@[i].2 == 0,
                pending@.len() > 0 ==> pending@.len() + hi == tx.outputs@.len(),
                forall|i: int|
                    0 <= i < pending@.len() ==> #[trigger] pend_fact_at(
                        pending@,
                        tx.outputs@,
                        hi as int,
                        i,
                    ),
                self.utxo_set@ == old(self).utxo_set@,
                rep_dist(
                    hm,
                    hi as int,
                    nn,
                    pending_view(pending@),
                    self.total_taint_for_tx@,
                    ledger_view(self.address_mapping@),
                    self.taint_collisions as int,
                    log_view(self.overlap_log@),
                    (*tx_out),
                    tx.txid@,
                    ts,
                ) == rep_dist(
                    hm,
                    0,
                    nn,
                    p0,
                    b0,
                    l0,
                    c0,
                    r0,
                    *old(tx_out),
                    tx.txid@,
                    ts,
                ),
            decreases hul@.len() - hi,
        {
            let ghost p_h = pending_view(pending@);
            let ghost b_h = self.total_taint_for_tx@;
            let ghost l_h = ledger_view(self.address_mapping@);
            let ghost c_h = self.taint_collisions as int;
            let ghost r_h = log_view(self.overlap_log@);
            let ghost t_h = (*tx_out);
            let ghost mut q_m: Seq<TaintPart> = Seq::empty();
            let ghost mut addb_m: u64 = 0;
            proof {
                let he = hul@[hi as int];
                assert(hm[hi as int] == (he.0, he.1.key(), he.2));
            }
            let out_value = hul[hi].0;
            let taint_offset = hul[hi].2;
            let ghost total0 = self.total_taint_for_tx@;
            let mut tainted_balance = extract_taint(
                &mut self.total_taint_for_tx,
                out_value,
            );
            proof {
                lemma_extract_all(total0, out_value);
            }
            let mut p: Option<VecDeque<TaintPart>> = None;
            if hi < tx.outputs.len() && pending.len() > 0 {
                let ghost ppre = pending@;
                p = pending.remove(0);
                proof {
                    assert(pend_fact_at(ppre, tx.outputs@, hi as int, 0));
                    assert forall|i: int| 0 <= i < pending@.len() implies #[trigger] pend_fact_at(
                        pending@,
                        tx.outputs@,
                        hi as int + 1,
                        i,
                    ) by {
                        assert(pend_fact_at(ppre, tx.outputs@, hi as int, i + 1));
                        assert(pending@[i] == ppre[i + 1]);
                    }
                    assert(pending_view(pending@) =~= p_h.drop_first());
                    assert((match p {
                        Some(q) => Some(q@),
                        None => None,
                    }) == p_h[0]);
                }
            } else {
                proof {
                    assert(pending_view(pending@) == p_h);
                }
            }
            let ghost p_m: Option<Seq<TaintPart>> = (if hi < nn && p_h.len() > 0 {
                p_h[0]
            } else {
                None
            });
            proof {
                assert((match p {
                    Some(q) => Some(q@),
                    None => None,
                }) == p_m);
            }
            let mut add_bal: u64 = 0;
            let taken = self.address_mapping.take(&hul[hi].1);
            match taken {
                Some(info) => {
                    proof {
                        assert(l_h.dom().contains(hul@[hi as int].1.key()));
                        assert(l_h[hul@[hi as int].1.key()] == info_view(info));
                    }
                    if p.is_some() {
                        proof {
                            assert(rep_dist(hm, hi as int, nn, p_h, b_h, l_h, c_h, r_h, t_h,
                                tx.txid@, ts) == rep_dist_err(TaintError::DuplicateOutpoint));
                        }
                        return Err(TaintError::DuplicateOutpoint);
                    }
                    add_bal = info.current_balance;
                    if add_bal != taint_offset {
                        proof {
                            assert(rep_dist(hm, hi as int, nn, p_h, b_h, l_h, c_h, r_h, t_h,
                                tx.txid@, ts) == rep_dist_err(TaintError::OffsetMismatch));
                        }
                        return Err(TaintError::OffsetMismatch);
                    }
                    if taint_offset > u64::MAX - out_value {
                        proof {
                            assert(rep_dist(hm, hi as int, nn, p_h, b_h, l_h, c_h, r_h, t_h,
                                tx.txid@, ts) == rep_dist_err(TaintError::ValueOverflow));
                        }
                        return Err(TaintError::ValueOverflow);
                    }
                    match info.tainted_balance {
                        Some(mut x) => {
                            let ghost tb0 = tainted_balance@;
                            if taint_offset > 0 {
                                tainted_balance.push_front(
                                    TaintPart { name: 0, value: taint_offset },
                                );
                                proof {
                                    assert(tainted_balance@ =~= seq![
                                        TaintPart { name: 0, value: taint_offset },
                                    ] + tb0);
                                    lemma_sum_append(
                                        seq![TaintPart { name: 0, value: taint_offset }],
                                        tb0,
                                    );
                                    lemma_sum_one(
                                        TaintPart { name: 0, value: taint_offset },
                                    );
                                }
                            }
                            if tainted_balance.len() > MAX_COMBINE_LEN || x.len()
                                > MAX_COMBINE_LEN {
                                proof {
                                    assert(rep_dist(hm, hi as int, nn, p_h, b_h, l_h, c_h,
                                        r_h, t_h, tx.txid@, ts) == rep_dist_err(
                                        TaintError::ValueOverflow,
                                    ));
                                }
                                return Err(TaintError::ValueOverflow);
                            }
                            let ghost lv = tainted_balance@;
                            let ghost rv = x@;
                            let c = combine_taints(
                                &mut tainted_balance,
                                &mut x,
                                &mut self.overlap_log,
                                tag_hex.as_str(),
                            );
                            proof {
                                lemma_cm_result_sum(lv, rv);
                            }
                            if self.taint_collisions > u64::MAX - c as u64 {
                                proof {
                                    assert(rep_dist(hm, hi as int, nn, p_h, b_h, l_h, c_h,
                                        r_h, t_h, tx.txid@, ts) == rep_dist_err(
                                        TaintError::ValueOverflow,
                                    ));
                                }
                                return Err(TaintError::ValueOverflow);
                            }
                            self.taint_collisions = self.taint_collisions + c as u64;
                            proof {
                                q_m = cm_result(lv, rv);
                                addb_m = add_bal;
                                assert(self.taint_collisions as int == c_h + cm_count(lv, rv));
                                assert(log_view(self.overlap_log@) =~= r_h + rep_tag_rows(
                                    cm_rows(lv, rv, 0),
                                    tx.txid@,
                                ));
                            }
                        },
                        None => {
                            let ghost tb0 = tainted_balance@;
                            if add_bal > 0 {
                                tainted_balance.push_front(
                                    TaintPart { name: 0, value: add_bal },
                                );
                                proof {
                                    assert(tainted_balance@ =~= seq![
                                        TaintPart { name: 0, value: add_bal },
                                    ] + tb0);
                                    lemma_sum_append(
                                        seq![TaintPart { name: 0, value: add_bal }],
                                        tb0,
                                    );
                                    lemma_sum_one(TaintPart { name: 0, value: add_bal });
                                }
                            }
                            proof {
                                q_m = tainted_balance@;
                                addb_m = add_bal;
                            }
                        },
                    }
                },
                None => {
                    proof {
                        assert(!l_h.dom().contains(hul@[hi as int].1.key()));
                    }
                    match p {
                        Some(mut x) => {
                            if tainted_balance.len() > MAX_COMBINE_LEN || x.len()
                                > MAX_COMBINE_LEN {
                                proof {
                                    assert(rep_dist(hm, hi as int, nn, p_h, b_h, l_h, c_h,
                                        r_h, t_h, tx.txid@, ts) == rep_dist_err(
                                        TaintError::ValueOverflow,
                                    ));
                                }
                                return Err(TaintError::ValueOverflow);
                            }
                            let ghost lv = tainted_balance@;
                            let ghost rv = x@;
                            let c = combine_taints(
                                &mut tainted_balance,
                                &mut x,
                                &mut self.overlap_log,
                                tag_hex.as_str(),
                            );
                            proof {
                                lemma_cm_result_sum(lv, rv);
                            }
                            if self.taint_collisions > u64::MAX - c as u64 {
                                proof {
                                    assert(rep_dist(hm, hi as int, nn, p_h, b_h, l_h, c_h,
                                        r_h, t_h, tx.txid@, ts) == rep_dist_err(
                                        TaintError::ValueOverflow,
                                    ));
                                }
                                return Err(TaintError::ValueOverflow);
                            }
                            self.taint_collisions = self.taint_collisions + c as u64;
                            proof {
                                q_m = cm_result(lv, rv);
                                addb_m = add_bal;
                                assert(self.taint_collisions as int == c_h + cm_count(lv, rv));
                                assert(log_view(self.overlap_log@) =~= r_h + rep_tag_rows(
                                    cm_rows(lv, rv, 0),
                                    tx.txid@,
                                ));
                            }
                        },
                        None => {
                            proof {
                                q_m = tainted_balance@;
                                addb_m = 0;
                            }
                        },
                    }
                },
            }
            let ghost red0 = tainted_balance@;
            reduce_taint(&mut tainted_balance);
            proof {
                lemma_runs_nz_sum(red0);
                lemma_runs_nz_compacted(red0);
            }
            if taint_offset == 0 {
                let nw = non_white_taint_to_sum(&tainted_balance);
                if (*tx_out) > u64::MAX - nw {
                    proof {
                        assert(rep_dist(hm, hi as int, nn, p_h, b_h, l_h, c_h, r_h, t_h,
                            tx.txid@, ts) == rep_dist_err(TaintError::ValueOverflow));
                    }
                    return Err(TaintError::ValueOverflow);
                }
                (*tx_out) = (*tx_out) + nw;
            }
            let is_clean = tainted_balance.len() == 0 || (tainted_balance.len() == 1
                && tainted_balance[0].name == 0);
            let new_balance = out_value + add_bal;
            let info = AddressInfo {
                timestamp: timestamp_to_date(ts),
                current_balance: new_balance,
                tainted_balance: if !is_clean {
                    Some(tainted_balance)
                } else {
                    None
                },
            };
            proof {
                lemma_entries_wf_insert(
                    self.address_mapping@,
                    hul@[hi as int].1.key(),
                    info,
                );
            }
            let ghost l_mid = ledger_view(self.address_mapping@);
            self.address_mapping.insert(hul[hi].1.dup(), info);
            proof {
                let k = hul@[hi as int].1.key();
                let im = InfoModel {
                    stamp: date_string_of(ts),
                    balance: (out_value + addb_m) as u64,
                    taint: if !(runs_nz(q_m).len() == 0 || (runs_nz(q_m).len() == 1 && runs_nz(
                        q_m,
                    )[0].name == 0)) {
                        Some(runs_nz(q_m))
                    } else {
                        None
                    },
                };
                assert(info_view(info) == im);
                assert(ledger_view(self.address_mapping@) =~= l_h.insert(k, im));
                assert(rep_dist(hm, hi as int, nn, p_h, b_h, l_h, c_h, r_h, t_h, tx.txid@,
                    ts) == rep_dist_finish(
                    hm,
                    hi as int,
                    nn,
                    pending_view(pending@),
                    self.total_taint_for_tx@,
                    l_h,
                    self.taint_collisions as int,
                    log_view(self.overlap_log@),
                    t_h,
                    tx.txid@,
                    ts,
                    q_m,
                    out_value,
                    addb_m,
                ));
                assert(rep_dist_finish(
                    hm,
                    hi as int,
                    nn,
                    pending_view(pending@),
                    self.total_taint_for_tx@,
                    l_h,
                    self.taint_collisions as int,
                    log_view(self.overlap_log@),
                    t_h,
                    tx.txid@,
                    ts,
                    q_m,
                    out_value,
                    addb_m,
                ) == rep_dist(
                    hm,
                    hi as int + 1,
                    nn,
                    pending_view(pending@),
                    self.total_taint_for_tx@,
                    ledger_view(self.address_mapping@),
                    self.taint_collisions as int,
                    log_view(self.overlap_log@),
                    (*tx_out),
                    tx.txid@,
                    ts,
                ));
            }
            hi = hi + 1;
        }
        let ghost buf_2 = self.total_taint_for_tx@;
        let ghost led_2 = ledger_view(self.address_mapping@);
        let ghost col_2 = self.taint_collisions as int;
        let ghost rows_2 = log_view(self.overlap_log@);
        let ghost tout_1 = (*tx_out);
        proof {
            let rdist: Result<
                (Seq<TaintPart>, Map<(Seq<u8>, u32), InfoModel>, int, Seq<
                    crate::replay::RowModel,
                >, u64),
                TaintError,
            > = Ok((buf_2, led_2, col_2, rows_2, tout_1));
            assert(rep_dist(
                hm,
                0,
                nn,
                p0,
                b0,
                l0,
                c0,
                r0,
                *old(tx_out),
                tx.txid@,
                ts,
            ) == rdist);
        }
        Ok(())
    }

    /// One regular transaction of the current block, exactly as
    /// `rep_tx` describes it: the per-transaction taint flow from the
    /// drained inputs to the written outputs and fee slices.
    #[verifier::loop_isolation(false)]
    #[verifier::rlimit(100)]
    fn process_tx(
        &mut self,
        tx: &Tx,
        ts: i64,
        miner_output_queue: &mut VecDeque<(OutPoint, u64)>,
        miner_offset_collector: &mut OutMap<u64>,
        touched: &mut Vec<OutPoint>,
    ) -> (r: Result<(), TaintError>)
        requires
            maps_ok(*old(self)),
            old(miner_offset_collector).wf(),
            tx.wf(),
            !tx.is_coinbase,
            0 <= ts <= u32::MAX,
        ensures
            maps_ok(*final(self)),
            final(miner_offset_collector).wf(),
            evolves(*old(self), *final(self)),
            r is Ok ==> !final(self).bootstrap_addresses@.dom().contains(tx.txid@),
            match r {
                Ok(()) => rep_tx(
                    *tx,
                    ts,
                    abs_state(
                        *old(self),
                        old(miner_output_queue)@,
                        old(miner_offset_collector)@,
                        old(touched)@,
                    ),
                ) == Ok::<RepState, TaintError>(
                    abs_state(
                        *final(self),
                        final(miner_output_queue)@,
                        final(miner_offset_collector)@,
                        final(touched)@,
                    ),
                ),
                Err(e) => rep_tx(
                    *tx,
                    ts,
                    abs_state(
                        *old(self),
                        old(miner_output_queue)@,
                        old(miner_offset_collector)@,
                        old(touched)@,
                    ),
                ) == Err::<RepState, TaintError>(e),
            },
    {
        let ghost s_head = abs_state(
            *self,
            miner_output_queue@,
            miner_offset_collector@,
            touched@,
        );
        if self.total_taint_for_tx.len() > 0 {
            proof {
                assert(rep_tx((*tx), ts, s_head)
                    == Err::<RepState, TaintError>(TaintError::TaintBufferNotEmpty));
            }
            return Err(TaintError::TaintBufferNotEmpty);
        }
        proof {
            assert(s_head.buffer.len() == 0);
        }
        // Bootstrap injection: taint pre-assigned to this txid is
        // cut to the outputs' sizes, FIFO, before distribution.
        let mut pending: Vec<Option<VecDeque<TaintPart>>> = Vec::new();
        proof {
            assert(pending_view(pending@) =~= Seq::<Option<Seq<TaintPart>>>::empty());
        }
        match self.bootstrap_addresses.take(&tx.txid) {
            Some(mut assigned_dirt) => {
                proof {
                    assert(s_head.bootstrap.dom().contains(tx.txid@));
                    assert(s_head.bootstrap[tx.txid@] == assigned_dirt@);
                    assert(bs_view(self.bootstrap_addresses@) =~= s_head.bootstrap.remove(
                        tx.txid@,
                    ));
                }
                if assigned_dirt.len() > 0 {
                    let ghost bsnap = self.bootstrap_addresses;
                    let ghost dirt_start = assigned_dirt@;
                    let mut oi: usize = 0;
                    while oi < tx.outputs.len()
                        invariant
                            0 <= oi <= tx.outputs@.len(),
                            maps_ok(*self),
                            evolves(*old(self), *self),
                            self.bootstrap_addresses == bsnap,
                            pending@.len() == oi,
                            frags_pos(assigned_dirt@),
                            forall|i: int|
                                0 <= i < oi ==> #[trigger] pend_fact(
                                    pending@,
                                    tx.outputs@,
                                    i,
                                ),
                            ledger_view(self.address_mapping@) == s_head.ledger,
                            rep_inject(
                                tx.txid@,
                                tx.outputs@,
                                oi as int,
                                assigned_dirt@,
                                s_head.ledger,
                                pending_view(pending@),
                            ) == rep_inject(
                                tx.txid@,
                                tx.outputs@,
                                0,
                                dirt_start,
                                s_head.ledger,
                                Seq::<Option<Seq<TaintPart>>>::empty(),
                            ),
                        decreases tx.outputs@.len() - oi,
                    {
                        let op = OutPoint {
                            txid: clone_bytes(&tx.txid),
                            index: oi as u32,
                        };
                        proof {
                            assert((*tx).wf());
                            assert(op.key() == (tx.txid@, (oi as int) as u32));
                        }
                        if self.address_mapping.contains_key(&op) {
                            proof {
                                assert(rep_inject(
                                    tx.txid@,
                                    tx.outputs@,
                                    oi as int,
                                    assigned_dirt@,
                                    s_head.ledger,
                                    pending_view(pending@),
                                ) == Err::<Seq<Option<Seq<TaintPart>>>, TaintError>(
                                    TaintError::DuplicateOutpoint,
                                ));
                                assert(rep_tx(
                                    (*tx),
                                    ts,
                                    s_head,
                                ) == Err::<RepState, TaintError>(
                                    TaintError::DuplicateOutpoint,
                                ));
                            }
                            return Err(TaintError::DuplicateOutpoint);
                        }
                        let ghost dirt0 = assigned_dirt@;
                        let ghost ppre = pending@;
                        let ex = extract_taint(&mut assigned_dirt, tx.outputs[oi].value);
                        proof {
                            lemma_extract_all(dirt0, tx.outputs@[oi as int].value);
                        }
                        pending.push(Some(ex));
                        proof {
                            assert forall|i: int| 0 <= i < oi + 1 implies #[trigger] pend_fact(
                                pending@,
                                tx.outputs@,
                                i,
                            ) by {
                                if i < oi {
                                    assert(pend_fact(ppre, tx.outputs@, i));
                                    assert(pending@[i] == ppre[i]);
                                }
                            }
                            assert(pending_view(pending@) =~= pending_view(ppre).push(
                                Some(ex_taken(dirt0, tx.outputs@[oi as int].value)),
                            ));
                            assert(rep_inject(
                                tx.txid@,
                                tx.outputs@,
                                oi as int,
                                dirt0,
                                s_head.ledger,
                                pending_view(ppre),
                            ) == rep_inject(
                                tx.txid@,
                                tx.outputs@,
                                oi as int + 1,
                                assigned_dirt@,
                                s_head.ledger,
                                pending_view(pending@),
                            ));
                        }
                        oi = oi + 1;
                    }
                }
            },
            None => {
                proof {
                    assert(!s_head.bootstrap.dom().contains(tx.txid@));
                    assert(bs_view(self.bootstrap_addresses@) =~= s_head.bootstrap.remove(
                        tx.txid@,
                    ));
                }
            },
        }
        let ghost bsnap2 = self.bootstrap_addresses;
        let ghost pend_m = pending_view(pending@);
        proof {
            assert(!self.bootstrap_addresses@.dom().contains(tx.txid@));
            assert(bs_view(self.bootstrap_addresses@) == s_head.bootstrap.remove(tx.txid@));
            let dirt_m = if s_head.bootstrap.dom().contains(tx.txid@) {
                s_head.bootstrap[tx.txid@]
            } else {
                Seq::<TaintPart>::empty()
            };
            assert((if s_head.bootstrap.dom().contains(tx.txid@) && dirt_m.len() > 0 {
                rep_inject(tx.txid@, tx.outputs@, 0, dirt_m, s_head.ledger, Seq::empty())
            } else {
                Ok::<Seq<Option<Seq<TaintPart>>>, TaintError>(Seq::empty())
            }) == Ok::<Seq<Option<Seq<TaintPart>>>, TaintError>(pend_m));
        }
        // Drain inputs: balances are summed and their taint queues
        // appended, in input order, to the per-transaction buffer.
        let mut inputs_summed: u64 = 0;
        let mut ii: usize = 0;
        while ii < tx.inputs.len()
            invariant
                0 <= ii <= tx.inputs@.len(),
                maps_ok(*self),
                evolves(*old(self), *self),
                self.bootstrap_addresses == bsnap2,
                sum_frags(self.total_taint_for_tx@) == inputs_summed as int,
                frags_pos(self.total_taint_for_tx@),
                self.utxo_set@ == s_head.utxo,
                self.taint_collisions as int == s_head.collisions,
                log_view(self.overlap_log@) == s_head.rows,
                rep_drain(
                    tx.inputs@,
                    ii as int,
                    ledger_view(self.address_mapping@),
                    self.total_taint_for_tx@,
                    inputs_summed,
                ) == rep_drain(tx.inputs@, 0, s_head.ledger, s_head.buffer, 0),
            decreases tx.inputs@.len() - ii,
        {
            let ghost led_pre = ledger_view(self.address_mapping@);
            let ghost buf_pre = self.total_taint_for_tx@;
            let ghost sum_pre = inputs_summed;
            match self.address_mapping.take(&tx.inputs[ii]) {
                Some(info) => {
                    proof {
                        assert(led_pre.dom().contains(tx.inputs@[ii as int].key()));
                        assert(led_pre[tx.inputs@[ii as int].key()] == info_view(info));
                    }
                    let bal = info.current_balance;
                    if inputs_summed > u64::MAX - bal {
                        proof {
                            assert(rep_drain(
                                tx.inputs@,
                                ii as int,
                                led_pre,
                                buf_pre,
                                sum_pre,
                            ) == Err::<
                                (Map<(Seq<u8>, u32), InfoModel>, Seq<TaintPart>, u64),
                                TaintError,
                            >(TaintError::ValueOverflow));
                            assert(rep_tx((*tx), ts, s_head)
                                == Err::<RepState, TaintError>(TaintError::ValueOverflow));
                        }
                        return Err(TaintError::ValueOverflow);
                    }
                    inputs_summed = inputs_summed + bal;
                    let ghost tpre = self.total_taint_for_tx@;
                    match info.tainted_balance {
                        Some(mut x) => {
                            proof {
                                lemma_sum_append(tpre, x@);
                            }
                            self.total_taint_for_tx.append(&mut x);
                            proof {
                                assert forall|i: int|
                                    0 <= i < self.total_taint_for_tx@.len() implies (
                                #[trigger] self.total_taint_for_tx@[i]).value > 0 by {
                                    if i < tpre.len() {
                                        assert(self.total_taint_for_tx@[i] == tpre[i]);
                                    }
                                }
                            }
                        },
                        None => {
                            if bal > 0 {
                                proof {
                                    lemma_sum_append(
                                        tpre,
                                        seq![TaintPart { name: 0, value: bal }],
                                    );
                                    lemma_sum_one(TaintPart { name: 0, value: bal });
                                }
                                self.total_taint_for_tx.push_back(
                                    TaintPart { name: 0, value: bal },
                                );
                                proof {
                                    assert(self.total_taint_for_tx@ =~= tpre + seq![
                                        TaintPart { name: 0, value: bal },
                                    ]);
                                    assert forall|i: int|
                                        0 <= i < self.total_taint_for_tx@.len() implies (
                                    #[trigger] self.total_taint_for_tx@[i]).value > 0 by {
                                        if i < tpre.len() {
                                            assert(self.total_taint_for_tx@[i] == tpre[i]);
                                        }
                                    }
                                }
                            }
                        },
                    }
                    let zeroed = AddressInfo {
                        timestamp: info.timestamp,
                        current_balance: 0,
                        tainted_balance: None,
                    };
                    proof {
                        lemma_entries_wf_insert(
                            self.address_mapping@,
                            tx.inputs@[ii as int].key(),
                            zeroed,
                        );
                    }
                    self.address_mapping.insert(tx.inputs[ii].dup(), zeroed);
                    proof {
                        let k = tx.inputs@[ii as int].key();
                        assert(ledger_view(self.address_mapping@) =~= led_pre.insert(
                            k,
                            InfoModel {
                                stamp: info_view(info).stamp,
                                balance: 0,
                                taint: None,
                            },
                        ));
                        match info_view(info).taint {
                            Some(q) => {
                                assert(self.total_taint_for_tx@ == buf_pre + q);
                            },
                            None => {
                                if info_view(info).balance > 0 {
                                    assert(self.total_taint_for_tx@ =~= buf_pre.push(
                                        clean_frag(info_view(info).balance),
                                    ));
                                }
                            },
                        }
                        assert(rep_drain(tx.inputs@, ii as int, led_pre, buf_pre, sum_pre)
                            == rep_drain(
                            tx.inputs@,
                            ii as int + 1,
                            ledger_view(self.address_mapping@),
                            self.total_taint_for_tx@,
                            inputs_summed,
                        ));
                    }
                },
                None => {
                    proof {
                        assert(!led_pre.dom().contains(tx.inputs@[ii as int].key()));
                        assert(rep_drain(tx.inputs@, ii as int, led_pre, buf_pre, sum_pre)
                            == Err::<
                            (Map<(Seq<u8>, u32), InfoModel>, Seq<TaintPart>, u64),
                            TaintError,
                        >(TaintError::MissingInput));
                        assert(rep_tx((*tx), ts, s_head)
                            == Err::<RepState, TaintError>(TaintError::MissingInput));
                    }
                    return Err(TaintError::MissingInput);
                },
            }
            ii = ii + 1;
        }
        let ghost ledger_d = ledger_view(self.address_mapping@);
        let ghost buffer_d = self.total_taint_for_tx@;
        proof {
            let rd: Result<
                (Map<(Seq<u8>, u32), InfoModel>, Seq<TaintPart>, u64),
                TaintError,
            > = Ok((ledger_d, buffer_d, inputs_summed));
            assert(rep_drain(tx.inputs@, 0, s_head.ledger, s_head.buffer, 0) == rd);
        }
        // Register outputs in the UTXO set and total their value.
        let mut outputs_summed: u64 = 0;
        let mut oi2: usize = 0;
        while oi2 < tx.outputs.len()
            invariant
                0 <= oi2 <= tx.outputs@.len(),
                maps_ok(*self),
                evolves(*old(self), *self),
                self.bootstrap_addresses == bsnap2,
                frags_pos(self.total_taint_for_tx@),
                sum_frags(self.total_taint_for_tx@) == inputs_summed as int,
                self.total_taint_for_tx@ == buffer_d,
                ledger_view(self.address_mapping@) == ledger_d,
                self.taint_collisions as int == s_head.collisions,
                log_view(self.overlap_log@) == s_head.rows,
                rep_outs(tx.txid@, tx.outputs@, oi2 as int, self.utxo_set@, outputs_summed)
                    == rep_outs(tx.txid@, tx.outputs@, 0, s_head.utxo, 0),
            decreases tx.outputs@.len() - oi2,
        {
            let ghost ut_pre = self.utxo_set@;
            let ghost os_pre = outputs_summed;
            proof {
                assert((*tx).wf());
            }
            let op = OutPoint { txid: clone_bytes(&tx.txid), index: oi2 as u32 };
            proof {
                assert(op.key() == (tx.txid@, (oi2 as int) as u32));
            }
            self.utxo_set.insert(op, tx.outputs[oi2].address.clone());
            if outputs_summed > u64::MAX - tx.outputs[oi2].value {
                proof {
                    assert(rep_outs(tx.txid@, tx.outputs@, oi2 as int, ut_pre, os_pre)
                        == Err::<(Map<(Seq<u8>, u32), String>, u64), TaintError>(
                        TaintError::ValueOverflow,
                    ));
                    assert(rep_tx((*tx), ts, s_head)
                        == Err::<RepState, TaintError>(TaintError::ValueOverflow));
                }
                return Err(TaintError::ValueOverflow);
            }
            outputs_summed = outputs_summed + tx.outputs[oi2].value;
            proof {
                assert(rep_outs(tx.txid@, tx.outputs@, oi2 as int, ut_pre, os_pre)
                    == rep_outs(
                    tx.txid@,
                    tx.outputs@,
                    oi2 as int + 1,
                    self.utxo_set@,
                    outputs_summed,
                ));
            }
            oi2 = oi2 + 1;
        }
        let ghost utxo_o = self.utxo_set@;
        proof {
            let ro: Result<(Map<(Seq<u8>, u32), String>, u64), TaintError> = Ok(
                (utxo_o, outputs_summed),
            );
            assert(rep_outs(tx.txid@, tx.outputs@, 0, s_head.utxo, 0) == ro);
        }
        if inputs_summed < outputs_summed {
            proof {
                assert(rep_tx((*tx), ts, s_head)
                    == Err::<RepState, TaintError>(TaintError::NegativeFee));
            }
            return Err(TaintError::NegativeFee);
        }
        let miner_fee = inputs_summed - outputs_summed;
        let tx_inp_taint_sum = non_white_taint_to_sum(&self.total_taint_for_tx);
        proof {
            assert(tx_inp_taint_sum as int == nw_sum_frags(buffer_d));
        }
        let ghost nouts = tx.outputs@.len() as int;
        let mut tx_out_taint_sum: u64 = 0;
        // The distribution list: every regular output at offset 0,
        // then coinbase slices covering the fee, each carrying the
        // value already attributed to its outpoint as its offset.
        let mut hul: Vec<(u64, OutPoint, u64)> = Vec::new();
        let mut oi3: usize = 0;
        while oi3 < tx.outputs.len()
            invariant
                0 <= oi3 <= tx.outputs@.len(),
                hul@.len() == oi3,
                forall|i: int|
                    0 <= i < oi3 ==> (#[trigger] hul@[i]).0 == tx.outputs@[i].value
                        && hul@[i].2 == 0 && hul@[i].1.key() == (tx.txid@, i as u32),
            decreases tx.outputs@.len() - oi3,
        {
            proof {
                assert((*tx).wf());
            }
            hul.push(
                (
                    tx.outputs[oi3].value,
                    OutPoint { txid: clone_bytes(&tx.txid), index: oi3 as u32 },
                    0,
                ),
            );
            oi3 = oi3 + 1;
        }
        proof {
            assert(hul_view(hul@) =~= rep_base_hul(tx.txid@, tx.outputs@));
        }
        if miner_fee > 0 {
            let mut left_to_payoff = miner_fee;
            while left_to_payoff > 0
                invariant
                    maps_ok(*self),
                    evolves(*old(self), *self),
                    self.bootstrap_addresses == bsnap2,
                    miner_offset_collector.wf(),
                    frags_pos(self.total_taint_for_tx@),
                    hul@.len() >= tx.outputs@.len(),
                    forall|i: int|
                        0 <= i < tx.outputs@.len() ==> (#[trigger] hul@[i]).0
                            == tx.outputs@[i].value && hul@[i].2 == 0,
                    rep_fee(
                        left_to_payoff,
                        mq_view(miner_output_queue@),
                        miner_offset_collector@,
                        touched_view(touched@),
                        hul_view(hul@),
                    ) == rep_fee(
                        miner_fee,
                        s_head.minerq,
                        s_head.offsets,
                        s_head.touched,
                        rep_base_hul(tx.txid@, tx.outputs@),
                    ),
                decreases left_to_payoff, miner_output_queue@.len(),
            {
                let ghost mq_p = mq_view(miner_output_queue@);
                let ghost off_p = miner_offset_collector@;
                let ghost tch_p = touched_view(touched@);
                let ghost hul_p = hul_view(hul@);
                let ghost left_p = left_to_payoff;
                if miner_output_queue.len() == 0 {
                    proof {
                        assert(rep_fee(left_p, mq_p, off_p, tch_p, hul_p) == Err::<
                            (
                                Seq<(Seq<u8>, u32, u64)>,
                                Map<(Seq<u8>, u32), u64>,
                                Seq<(Seq<u8>, u32)>,
                                Seq<(u64, (Seq<u8>, u32), u64)>,
                            ),
                            TaintError,
                        >(TaintError::CoinbaseUnderflow));
                        assert(rep_tx(*tx, ts, s_head) == Err::<RepState, TaintError>(
                            TaintError::CoinbaseUnderflow,
                        ));
                    }
                    return Err(TaintError::CoinbaseUnderflow);
                }
                let (ctxo, val) = miner_output_queue.pop_front().unwrap();
                proof {
                    assert(mq_p[0] == (ctxo.txid@, ctxo.index, val));
                    assert(mq_view(miner_output_queue@) =~= mq_p.drop_first());
                }
                let slice_val: u64;
                if val > left_to_payoff {
                    slice_val = left_to_payoff;
                    miner_output_queue.push_front((ctxo.dup(), val - left_to_payoff));
                    proof {
                        assert(mq_view(miner_output_queue@) =~= seq![
                            (ctxo.txid@, ctxo.index, (val - left_to_payoff) as u64),
                        ] + mq_p.drop_first());
                    }
                    left_to_payoff = 0;
                } else {
                    slice_val = val;
                    left_to_payoff = left_to_payoff - val;
                }
                let offset: u64 = match miner_offset_collector.get(&ctxo) {
                    Some(v) => *v,
                    None => {
                        touched.push(ctxo.dup());
                        proof {
                            assert(touched_view(touched@) =~= tch_p.push(ctxo.key()));
                        }
                        0
                    },
                };
                if offset > u64::MAX - slice_val {
                    proof {
                        assert(rep_fee(left_p, mq_p, off_p, tch_p, hul_p) == Err::<
                            (
                                Seq<(Seq<u8>, u32, u64)>,
                                Map<(Seq<u8>, u32), u64>,
                                Seq<(Seq<u8>, u32)>,
                                Seq<(u64, (Seq<u8>, u32), u64)>,
                            ),
                            TaintError,
                        >(TaintError::ValueOverflow));
                        assert(rep_tx(*tx, ts, s_head) == Err::<RepState, TaintError>(
                            TaintError::ValueOverflow,
                        ));
                    }
                    return Err(TaintError::ValueOverflow);
                }
                hul.push((slice_val, ctxo.dup(), offset));
                proof {
                    assert forall|i: int|
                        0 <= i < tx.outputs@.len() implies (#[trigger] hul@[i]).0
                        == tx.outputs@[i].value && hul@[i].2 == 0 by {}
                    assert(hul_view(hul@) =~= hul_p.push((slice_val, ctxo.key(), offset)));
                }
                miner_offset_collector.insert(ctxo, offset + slice_val);
                proof {
                    assert(rep_fee(left_p, mq_p, off_p, tch_p, hul_p) == rep_fee(
                        left_to_payoff,
                        mq_view(miner_output_queue@),
                        miner_offset_collector@,
                        touched_view(touched@),
                        hul_view(hul@),
                    ));
                }
            }
        }
        let ghost mq_2 = mq_view(miner_output_queue@);
        let ghost off_2 = miner_offset_collector@;
        let ghost tch_2 = touched_view(touched@);
        let ghost hul_m = hul_view(hul@);
        proof {
            let rf: Result<
                (
                    Seq<(Seq<u8>, u32, u64)>,
                    Map<(Seq<u8>, u32), u64>,
                    Seq<(Seq<u8>, u32)>,
                    Seq<(u64, (Seq<u8>, u32), u64)>,
                ),
                TaintError,
            > = Ok((mq_2, off_2, tch_2, hul_m));
            assert((if miner_fee > 0 {
                rep_fee(
                    miner_fee,
                    s_head.minerq,
                    s_head.offsets,
                    s_head.touched,
                    rep_base_hul(tx.txid@, tx.outputs@),
                )
            } else {
                Ok((s_head.minerq, s_head.offsets, s_head.touched, rep_base_hul(
                    tx.txid@,
                    tx.outputs@,
                )))
            }) == rf);
        }
        // Distribute: each list entry takes exactly its value from
        // the front of the buffer and lands in the ledger.
        let tag_hex = crate::text::bytes_to_hex_swapped(&tx.txid);
        match self.distribute(tx, ts, &hul, &mut pending, &tag_hex, &mut tx_out_taint_sum) {
            Ok(()) => {},
            Err(e) => {
                proof {
                    assert(rep_tx(*tx, ts, s_head) == Err::<RepState, TaintError>(e));
                }
                return Err(e);
            },
        }
        let ghost buf_2 = self.total_taint_for_tx@;
        let ghost led_2 = ledger_view(self.address_mapping@);
        let ghost col_2 = self.taint_collisions as int;
        let ghost rows_2 = log_view(self.overlap_log@);
        let ghost tout_1 = tx_out_taint_sum;
        // Account the non-clean value now sitting in fee-attributed
        // coinbase outputs, then check color conservation.
        let mut ci: usize = 0;
        while ci < touched.len()
            invariant
                0 <= ci <= touched@.len(),
                maps_ok(*self),
                evolves(*old(self), *self),
                self.bootstrap_addresses == bsnap2,
                miner_offset_collector.wf(),
                rep_collect(tch_2, ci as int, led_2, tx_out_taint_sum) == rep_collect(
                    tch_2,
                    0,
                    led_2,
                    tout_1,
                ),
            decreases touched@.len() - ci,
        {
            let ghost t_c = tx_out_taint_sum;
            proof {
                assert(tch_2[ci as int] == touched@[ci as int].key());
            }
            match self.address_mapping.get(&touched[ci]) {
                Some(info) => {
                    proof {
                        assert(led_2.dom().contains(tch_2[ci as int]));
                        assert(led_2[tch_2[ci as int]] == info_view(*info));
                    }
                    match &info.tainted_balance {
                        Some(x) => {
                            let nw = non_white_taint_to_sum(x);
                            if tx_out_taint_sum > u64::MAX - nw {
                                proof {
                                    assert(rep_collect(tch_2, ci as int, led_2, t_c) == Err::<
                                        u64,
                                        TaintError,
                                    >(TaintError::ValueOverflow));
                                    assert(rep_tx(*tx, ts, s_head) == Err::<RepState, TaintError>(
                                        TaintError::ValueOverflow,
                                    ));
                                }
                                return Err(TaintError::ValueOverflow);
                            }
                            tx_out_taint_sum = tx_out_taint_sum + nw;
                        },
                        None => {},
                    }
                },
                None => {
                    proof {
                        assert(!led_2.dom().contains(tch_2[ci as int]));
                        assert(rep_collect(tch_2, ci as int, led_2, t_c) == Err::<u64, TaintError>(
                            TaintError::MissingInput,
                        ));
                        assert(rep_tx(*tx, ts, s_head) == Err::<RepState, TaintError>(
                            TaintError::MissingInput,
                        ));
                    }
                    return Err(TaintError::MissingInput);
                },
            }
            proof {
                assert(rep_collect(tch_2, ci as int, led_2, t_c) == rep_collect(
                    tch_2,
                    ci as int + 1,
                    led_2,
                    tx_out_taint_sum,
                ));
            }
            ci = ci + 1;
        }
        proof {
            let rc: Result<u64, TaintError> = Ok(tx_out_taint_sum);
            assert(rep_collect(tch_2, 0, led_2, tout_1) == rc);
        }
        if tx_inp_taint_sum > tx_out_taint_sum {
            proof {
                assert(rep_tx(*tx, ts, s_head) == Err::<RepState, TaintError>(
                    TaintError::TaintLost,
                ));
            }
            return Err(TaintError::TaintLost);
        }
        // Spend the inputs: they leave the ledger and the UTXO set.
        let mut si: usize = 0;
        while si < tx.inputs.len()
            invariant
                0 <= si <= tx.inputs@.len(),
                maps_ok(*self),
                evolves(*old(self), *self),
                self.bootstrap_addresses == bsnap2,
                self.total_taint_for_tx@ == buf_2,
                self.taint_collisions as int == col_2,
                log_view(self.overlap_log@) == rows_2,
                rep_spend(
                    tx.inputs@,
                    si as int,
                    self.utxo_set@,
                    ledger_view(self.address_mapping@),
                ) == rep_spend(tx.inputs@, 0, utxo_o, led_2),
            decreases tx.inputs@.len() - si,
        {
            let ghost u_p = self.utxo_set@;
            let ghost l_p = ledger_view(self.address_mapping@);
            self.utxo_set.remove(&tx.inputs[si]);
            proof {
                lemma_entries_wf_remove(self.address_mapping@, tx.inputs@[si as int].key());
            }
            self.address_mapping.remove(&tx.inputs[si]);
            proof {
                assert(ledger_view(self.address_mapping@) =~= l_p.remove(
                    tx.inputs@[si as int].key(),
                ));
                assert(rep_spend(tx.inputs@, si as int, u_p, l_p) == rep_spend(
                    tx.inputs@,
                    si as int + 1,
                    self.utxo_set@,
                    ledger_view(self.address_mapping@),
                ));
            }
            si = si + 1;
        }
        proof {
            assert(!self.bootstrap_addresses@.dom().contains(
                (*tx).txid@,
            ));
            assert(rep_spend(tx.inputs@, 0, utxo_o, led_2) == (
                self.utxo_set@,
                ledger_view(self.address_mapping@),
            ));
            let s_fin = abs_state(
                *self,
                miner_output_queue@,
                miner_offset_collector@,
                touched@,
            );
            assert(bs_view(self.bootstrap_addresses@) == s_head.bootstrap.remove(tx.txid@));
            assert(mq_view(miner_output_queue@) == mq_2);
            assert(touched_view(touched@) == tch_2);
            assert(rep_tx(*tx, ts, s_head) == Ok::<RepState, TaintError>(s_fin));
        }
        Ok(())
    }

    /// Replay one block: register coinbase outputs, then for each regular
    /// transaction drain its inputs' taint front-first, distribute it over
    /// the outputs and any coinbase slices that cover the miner fee, and
    /// finally settle the unattributed coinbase remainders as clean value.
    /// Detected inconsistencies (a missing input, a negative fee, an
    /// exhausted coinbase queue, an offset mismatch, lost color, an
    /// arithmetic overflow) abort the block with the matching error, as the
    /// replay cannot continue from a corrupt state.
    ///
    /// The contract is exact: unless the height cap skips the block, the
    /// call returns precisely what the mathematical replay `rep_block`
    /// yields — on `Ok`, the final UTXO set, ledger, bootstrap set, buffer,
    /// collision count and collision log all equal the model's; otherwise
    /// the very error the model names.
    #[verifier::loop_isolation(false)]
    #[verifier::rlimit(100)]
    pub fn on_block(&mut self, block: &Block, block_height: usize) -> (r: Result<(), TaintError>)
        requires
            old(self).wf(),
            block.wf(),
        ensures
            r is Ok ==> final(self).wf(),
            old(self).max_height > 0 && block_height >= old(self).max_height ==> r is Ok
                && *final(self) == *old(self),
            block.txs@.len() == 0 ==> r is Ok,
            final(self).start_height == old(self).start_height,
            final(self).end_height == old(self).end_height,
            final(self).max_height == old(self).max_height,
            final(self).registry == old(self).registry,
            final(self).taint_collisions >= old(self).taint_collisions,
            final(self).overlap_log@.len() >= old(self).overlap_log@.len(),
            forall|i: int|
                0 <= i < old(self).overlap_log@.len() ==> final(self).overlap_log@[i] == old(
                    self,
                ).overlap_log@[i],
            forall|k: Seq<u8>| #[trigger]
                final(self).bootstrap_addresses@.dom().contains(k) ==> old(
                    self,
                ).bootstrap_addresses@.dom().contains(k),
            !(old(self).max_height > 0 && block_height >= old(self).max_height) && r is Ok
                ==> forall|j: int|
                0 <= j < block.txs@.len() && !(#[trigger] block.txs@[j]).is_coinbase
                    ==> !final(self).bootstrap_addresses@.dom().contains(block.txs@[j].txid@),
            !(old(self).max_height > 0 && block_height >= old(self).max_height) ==> (match rep_block(
                block.txs@,
                block.timestamp,
                rep_of(*old(self)),
            ) {
                Ok(m) => {
                    &&& r is Ok
                    &&& final(self).utxo_set@ == m.utxo
                    &&& ledger_view(final(self).address_mapping@) == m.ledger
                    &&& bs_view(final(self).bootstrap_addresses@) == m.bootstrap
                    &&& final(self).total_taint_for_tx@ == m.buffer
                    &&& final(self).taint_collisions as int == m.collisions
                    &&& log_view(final(self).overlap_log@) == m.rows
                },
                Err(e) => r == Err::<(), TaintError>(e),
            }),
    {
        if self.max_height > 0 && block_height >= self.max_height {
            return Ok(());
        }
        let ghost s0 = rep_of(*old(self));
        let mut miner_output_queue: VecDeque<(OutPoint, u64)> = VecDeque::new();
        proof {
            assert(mq_view(miner_output_queue@) =~= Seq::<(Seq<u8>, u32, u64)>::empty());
            assert(touched_view(Seq::<OutPoint>::empty()) =~= Seq::<(Seq<u8>, u32)>::empty());
            assert(abs_state(
                *self,
                miner_output_queue@,
                Map::empty(),
                Seq::<OutPoint>::empty(),
            ) == s0);
        }
        let mut ti: usize = 0;
        while ti < block.txs.len()
            invariant
                0 <= ti <= block.txs@.len(),
                maps_ok(*self),
                evolves(*old(self), *self),
                self.total_taint_for_tx@.len() == 0,
                block.txs@.len() == 0 ==> miner_output_queue@.len() == 0,
                rep_pass1(
                    block.txs@,
                    ti as int,
                    abs_state(*self, miner_output_queue@, Map::empty(), Seq::<OutPoint>::empty()),
                ) == rep_pass1(block.txs@, 0, s0),
            decreases block.txs@.len() - ti,
        {
            let tx = &block.txs[ti];
            if tx.is_coinbase {
                proof {
                    let a = abs_state(
                        *self,
                        miner_output_queue@,
                        Map::empty(),
                        Seq::<OutPoint>::empty(),
                    );
                    assert(rep_pass1(block.txs@, ti as int, a) == rep_pass1(
                        block.txs@,
                        ti as int + 1,
                        rep_coinbase_outs(tx.txid@, tx.outputs@, 0, a),
                    ));
                }
                let mut oi: usize = 0;
                while oi < tx.outputs.len()
                    invariant
                        0 <= oi <= tx.outputs@.len(),
                        ti < block.txs@.len(),
                        block.txs@[ti as int].is_coinbase,
                        maps_ok(*self),
                        evolves(*old(self), *self),
                        self.total_taint_for_tx@.len() == 0,
                        rep_pass1(
                            block.txs@,
                            ti as int + 1,
                            rep_coinbase_outs(
                                tx.txid@,
                                tx.outputs@,
                                oi as int,
                                abs_state(
                                    *self,
                                    miner_output_queue@,
                                    Map::empty(),
                                    Seq::<OutPoint>::empty(),
                                ),
                            ),
                        ) == rep_pass1(block.txs@, 0, s0),
                    decreases tx.outputs@.len() - oi,
                {
                    let ghost mq_pre = miner_output_queue@;
                    let ghost a_pre = abs_state(
                        *self,
                        mq_pre,
                        Map::empty(),
                        Seq::<OutPoint>::empty(),
                    );
                    proof {
                        assert(block.txs@[ti as int].wf());
                    }
                    let op = OutPoint { txid: clone_bytes(&tx.txid), index: oi as u32 };
                    miner_output_queue.push_back((op, tx.outputs[oi].value));
                    let op2 = OutPoint { txid: clone_bytes(&tx.txid), index: oi as u32 };
                    self.utxo_set.insert(op2, tx.outputs[oi].address.clone());
                    proof {
                        let a2 = abs_state(
                            *self,
                            miner_output_queue@,
                            Map::empty(),
                            Seq::<OutPoint>::empty(),
                        );
                        assert(mq_view(miner_output_queue@) =~= mq_view(mq_pre).push(
                            (tx.txid@, oi as u32, tx.outputs@[oi as int].value),
                        ));
                        assert(a2 == (RepState {
                            utxo: a_pre.utxo.insert(
                                (tx.txid@, oi as u32),
                                tx.outputs@[oi as int].address,
                            ),
                            minerq: a_pre.minerq.push(
                                (tx.txid@, oi as u32, tx.outputs@[oi as int].value),
                            ),
                            ..a_pre
                        }));
                        assert(rep_coinbase_outs(tx.txid@, tx.outputs@, oi as int, a_pre)
                            == rep_coinbase_outs(tx.txid@, tx.outputs@, oi as int + 1, a2));
                    }
                    oi = oi + 1;
                }
                proof {
                    let a = abs_state(
                        *self,
                        miner_output_queue@,
                        Map::empty(),
                        Seq::<OutPoint>::empty(),
                    );
                    assert(rep_coinbase_outs(tx.txid@, tx.outputs@, oi as int, a) == a);
                }
            } else {
                proof {
                    let a = abs_state(
                        *self,
                        miner_output_queue@,
                        Map::empty(),
                        Seq::<OutPoint>::empty(),
                    );
                    assert(rep_pass1(block.txs@, ti as int, a) == rep_pass1(
                        block.txs@,
                        ti as int + 1,
                        a,
                    ));
                }
            }
            ti = ti + 1;
        }
        let ghost s1 = rep_pass1(block.txs@, 0, s0);
        let mut miner_offset_collector: OutMap<u64> = OutMap::new();
        let mut touched: Vec<OutPoint> = Vec::new();
        proof {
            assert(touched_view(touched@) =~= Seq::<(Seq<u8>, u32)>::empty());
            assert(abs_state(*self, miner_output_queue@, miner_offset_collector@, touched@)
                == abs_state(
                *self,
                miner_output_queue@,
                Map::empty(),
                Seq::<OutPoint>::empty(),
            ));
            assert(abs_state(*self, miner_output_queue@, miner_offset_collector@, touched@) == s1);
        }
        let mut ti2: usize = 0;
        while ti2 < block.txs.len()
            invariant
                0 <= ti2 <= block.txs@.len(),
                maps_ok(*self),
                evolves(*old(self), *self),
                miner_offset_collector.wf(),
                block.txs@.len() == 0 ==> miner_output_queue@.len() == 0,
                block.txs@.len() == 0 ==> self.total_taint_for_tx@.len() == 0,
                forall|j: int|
                    0 <= j < ti2 && !(#[trigger] block.txs@[j]).is_coinbase
                        ==> !self.bootstrap_addresses@.dom().contains(block.txs@[j].txid@),
                rep_txs(
                    block.txs@,
                    ti2 as int,
                    block.timestamp,
                    abs_state(*self, miner_output_queue@, miner_offset_collector@, touched@),
                ) == rep_txs(block.txs@, 0, block.timestamp, s1),
            decreases block.txs@.len() - ti2,
        {
            let tx = &block.txs[ti2];
            let ghost s_head = abs_state(
                *self,
                miner_output_queue@,
                miner_offset_collector@,
                touched@,
            );
            if !tx.is_coinbase {
                let ghost pre_self = *self;
                proof {
                    assert(block.txs@[ti2 as int].wf());
                }
                match self.process_tx(
                    tx,
                    block.timestamp,
                    &mut miner_output_queue,
                    &mut miner_offset_collector,
                    &mut touched,
                ) {
                    Ok(()) => {
                        proof {
                            lemma_evolves_trans(*old(self), pre_self, *self);
                            let s_next = abs_state(
                                *self,
                                miner_output_queue@,
                                miner_offset_collector@,
                                touched@,
                            );
                            assert(rep_tx(block.txs@[ti2 as int], block.timestamp, s_head)
                                == Ok::<RepState, TaintError>(s_next));
                            assert(rep_txs(block.txs@, ti2 as int, block.timestamp, s_head)
                                == rep_txs(block.txs@, ti2 as int + 1, block.timestamp, s_next));
                            assert forall|j: int|
                                0 <= j < ti2 + 1 && !(#[trigger] block.txs@[j]).is_coinbase
                                    implies !self.bootstrap_addresses@.dom().contains(
                                block.txs@[j].txid@,
                            ) by {
                                if j < ti2 {
                                    assert(!pre_self.bootstrap_addresses@.dom().contains(
                                        block.txs@[j].txid@,
                                    ));
                                }
                            }
                        }
                    },
                    Err(e) => {
                        proof {
                            lemma_evolves_trans(*old(self), pre_self, *self);
                            lemma_block_err_at_tx(
                                block.txs@,
                                ti2 as int,
                                block.timestamp,
                                s_head,
                                s0,
                                e,
                            );
                        }
                        return Err(e);
                    },
                }
            } else {
                proof {
                    assert(rep_txs(block.txs@, ti2 as int, block.timestamp, s_head) == rep_txs(
                        block.txs@,
                        ti2 as int + 1,
                        block.timestamp,
                        s_head,
                    ));
                }
            }
            ti2 = ti2 + 1;
        }
        // Settle leftover coinbase value: whatever was not attributed to
        // fees lands at the end of its output's queue as clean value.
        let ghost s2 = abs_state(*self, miner_output_queue@, miner_offset_collector@, touched@);
        proof {
            assert(rep_txs(block.txs@, 0, block.timestamp, s1) == Ok::<RepState, TaintError>(s2));
        }
        let mut mi: usize = 0;
        while mi < miner_output_queue.len()
            invariant
                0 <= mi <= miner_output_queue@.len(),
                maps_ok(*self),
                evolves(*old(self), *self),
                block.txs@.len() == 0 ==> miner_output_queue@.len() == 0,
                block.txs@.len() == 0 ==> self.total_taint_for_tx@.len() == 0,
                forall|j: int|
                    0 <= j < block.txs@.len() && !(#[trigger] block.txs@[j]).is_coinbase
                        ==> !self.bootstrap_addresses@.dom().contains(block.txs@[j].txid@),
                mq_view(miner_output_queue@) == s2.minerq,
                self.utxo_set@ == s2.utxo,
                bs_view(self.bootstrap_addresses@) == s2.bootstrap,
                self.total_taint_for_tx@ == s2.buffer,
                self.taint_collisions as int == s2.collisions,
                log_view(self.overlap_log@) == s2.rows,
                rep_settle(
                    s2.minerq,
                    mi as int,
                    ledger_view(self.address_mapping@),
                    block.timestamp,
                ) == rep_settle(s2.minerq, 0, s2.ledger, block.timestamp),
            decreases miner_output_queue@.len() - mi,
        {
            let ghost l_p = ledger_view(self.address_mapping@);
            let ghost mi_p = mi as int;
            let ctxo = miner_output_queue[mi].0.dup();
            let rew = miner_output_queue[mi].1;
            proof {
                assert(s2.minerq[mi as int] == (ctxo.txid@, ctxo.index, rew));
                assert((s2.minerq[mi as int].0, s2.minerq[mi as int].1) == ctxo.key());
            }
            mi = mi + 1;
            match self.address_mapping.take(&ctxo) {
                Some(info) => {
                    proof {
                        assert(l_p.dom().contains(ctxo.key()));
                        assert(l_p[ctxo.key()] == info_view(info));
                    }
                    if info.current_balance > u64::MAX - rew {
                        proof {
                            assert(rep_settle(s2.minerq, mi_p, l_p, block.timestamp) == Err::<
                                Map<(Seq<u8>, u32), InfoModel>,
                                TaintError,
                            >(TaintError::ValueOverflow));
                            assert(rep_block(block.txs@, block.timestamp, s0)
                                == Err::<RepState, TaintError>(TaintError::ValueOverflow));
                        }
                        return Err(TaintError::ValueOverflow);
                    }
                    let new_bal = info.current_balance + rew;
                    let new_taint: Option<VecDeque<TaintPart>> = match info.tainted_balance {
                        Some(mut x) => {
                            let ghost x0 = x@;
                            if rew > 0 {
                                x.push_back(TaintPart { name: 0, value: rew });
                                proof {
                                    assert(x@ =~= x0 + seq![TaintPart { name: 0, value: rew }]);
                                    lemma_sum_append(x0, seq![TaintPart { name: 0, value: rew }]);
                                    lemma_sum_one(TaintPart { name: 0, value: rew });
                                }
                            }
                            let ghost x1 = x@;
                            reduce_taint(&mut x);
                            proof {
                                lemma_runs_nz_sum(x1);
                                lemma_runs_nz_compacted(x1);
                            }
                            let is_clean = x.len() == 0 || (x.len() == 1 && x[0].name == 0);
                            if !is_clean {
                                Some(x)
                            } else {
                                None
                            }
                        },
                        None => None,
                    };
                    let ninfo = AddressInfo {
                        timestamp: info.timestamp,
                        current_balance: new_bal,
                        tainted_balance: new_taint,
                    };
                    proof {
                        lemma_entries_wf_insert(self.address_mapping@, ctxo.key(), ninfo);
                    }
                    let ghost k = ctxo.key();
                    let ghost nv = info_view(ninfo);
                    self.address_mapping.insert(ctxo, ninfo);
                    proof {
                        assert(ledger_view(self.address_mapping@) =~= l_p.insert(k, nv));
                        assert(rep_settle(s2.minerq, mi_p, l_p, block.timestamp) == rep_settle(
                            s2.minerq,
                            mi_p + 1,
                            ledger_view(self.address_mapping@),
                            block.timestamp,
                        ));
                    }
                },
                None => {
                    proof {
                        assert(!l_p.dom().contains(ctxo.key()));
                    }
                    let ninfo = AddressInfo {
                        timestamp: timestamp_to_date(block.timestamp),
                        current_balance: rew,
                        tainted_balance: None,
                    };
                    proof {
                        lemma_entries_wf_insert(self.address_mapping@, ctxo.key(), ninfo);
                    }
                    let ghost k = ctxo.key();
                    let ghost nv = info_view(ninfo);
                    self.address_mapping.insert(ctxo, ninfo);
                    proof {
                        assert(ledger_view(self.address_mapping@) =~= l_p.insert(k, nv));
                        assert(rep_settle(s2.minerq, mi_p, l_p, block.timestamp) == rep_settle(
                            s2.minerq,
                            mi_p + 1,
                            ledger_view(self.address_mapping@),
                            block.timestamp,
                        ));
                    }
                },
            }
        }
        proof {
            let rs: Result<Map<(Seq<u8>, u32), InfoModel>, TaintError> = Ok(
                ledger_view(self.address_mapping@),
            );
            assert(rep_settle(s2.minerq, 0, s2.ledger, block.timestamp) == rs);
        }
        if self.total_taint_for_tx.len() > 0 {
            proof {
                assert(rep_block(block.txs@, block.timestamp, s0) == Err::<RepState, TaintError>(
                    TaintError::TaintBufferNotEmpty,
                ));
            }
            return Err(TaintError::TaintBufferNotEmpty);
        }
        proof {
            assert(rep_block(block.txs@, block.timestamp, s0) == Ok::<RepState, TaintError>(
                RepState {
                    ledger: ledger_view(self.address_mapping@),
                    minerq: Seq::empty(),
                    ..s2
                },
            ));
        }
        Ok(())
    }

    /// The color-registry export: one `tag,color_id` row per tag. Every
    /// row ends in `,<id>`; for ASCII tags the whole row text is fixed.
    pub fn taint_mapping_rows(&self) -> (r: Vec<String>)
        ensures
            r@.len() == self.registry.tags@.len(),
            forall|i: int|
                0 <= i < r@.len() && crate::registry::all_ascii(self.registry.tags@[i]@)
                    ==> (#[trigger] r@[i])@ == mapping_row_text(self.registry.tags@[i]@, i),
            forall|i: int|
                0 <= i < r@.len() ==> (#[trigger] r@[i])@.len() > dec_str(i as nat).len()
                    && r@[i]@.skip(r@[i]@.len() - dec_str(i as nat).len() - 1) == seq![',']
                    + dec_str(i as nat),
    {
        let mut rows: Vec<String> = Vec::new();
        let mut i: usize = 0;
        while i < self.registry.tags.len()
            invariant
                0 <= i <= self.registry.tags@.len(),
                rows@.len() == i,
                forall|j: int|
                    0 <= j < i && crate::registry::all_ascii(self.registry.tags@[j]@)
                        ==> (#[trigger] rows@[j])@ == mapping_row_text(self.registry.tags@[j]@, j),
                forall|j: int|
                    0 <= j < i ==> (#[trigger] rows@[j])@.len() > dec_str(j as nat).len()
                        && rows@[j]@.skip(rows@[j]@.len() - dec_str(j as nat).len() - 1) == seq![
                        ',',
                    ] + dec_str(j as nat),
            decreases self.registry.tags@.len() - i,
        {
            let mut s = crate::registry::bytes_to_string(&self.registry.tags[i]);
            let ghost t0 = s@;
            s.append(",");
            s.append(u64_to_string(i as u64).as_str());
            proof {
                reveal_strlit(",");
                assert(","@ =~= seq![',']);
                assert(s@ == t0 + seq![','] + dec_str(i as nat));
                assert(s@.skip(s@.len() - dec_str(i as nat).len() - 1) =~= seq![','] + dec_str(
                    i as nat,
                ));
            }
            rows.push(s);
            i = i + 1;
        }
        rows
    }

    /// The UTXO-set export: one `txid_hex,index,address` row per live
    /// outpoint.
    pub fn utxo_rows(&self) -> (r: Vec<String>)
        ensures
            r@.len() == self.utxo_set.entries@.len(),
            forall|i: int|
                0 <= i < r@.len() ==> (#[trigger] r@[i])@ == utxo_row_text(
                    self.utxo_set.entries@[i].0.key().0,
                    self.utxo_set.entries@[i].0.key().1,
                    self.utxo_set.entries@[i].1@,
                ),
    {
        let mut rows: Vec<String> = Vec::new();
        let mut i: usize = 0;
        while i < self.utxo_set.entries.len()
            invariant
                0 <= i <= self.utxo_set.entries@.len(),
                rows@.len() == i,
                forall|j: int|
                    0 <= j < i ==> (#[trigger] rows@[j])@ == utxo_row_text(
                        self.utxo_set.entries@[j].0.key().0,
                        self.utxo_set.entries@[j].0.key().1,
                        self.utxo_set.entries@[j].1@,
                    ),
            decreases self.utxo_set.entries@.len() - i,
        {
            let e = &self.utxo_set.entries[i];
            let mut s = crate::text::bytes_to_hex_swapped(&e.0.txid);
            s.append(",");
            s.append(u64_to_string(e.0.index as u64).as_str());
            s.append(",");
            s.append(e.1.as_str());
            proof {
                reveal_strlit(",");
                assert(","@ =~= seq![',']);
            }
            rows.push(s);
            i = i + 1;
        }
        rows
    }

    /// The ledger export: one `txid_hex:index,timestamp,balance,taint` row
    /// per live ledger entry.
    pub fn address_info_rows(&self) -> (r: Vec<String>)
        ensures
            r@.len() == self.address_mapping.entries@.len(),
            forall|i: int|
                0 <= i < r@.len() ==> (#[trigger] r@[i])@ == info_row_text(
                    self.address_mapping.entries@[i].0.key().0,
                    self.address_mapping.entries@[i].0.key().1,
                    self.address_mapping.entries@[i].1,
                ),
    {
        let mut rows: Vec<String> = Vec::new();
        let mut i: usize = 0;
        while i < self.address_mapping.entries.len()
            invariant
                0 <= i <= self.address_mapping.entries@.len(),
                rows@.len() == i,
                forall|j: int|
                    0 <= j < i ==> (#[trigger] rows@[j])@ == info_row_text(
                        self.address_mapping.entries@[j].0.key().0,
                        self.address_mapping.entries@[j].0.key().1,
                        self.address_mapping.entries@[j].1,
                    ),
            decreases self.address_mapping.entries@.len() - i,
        {
            let e = &self.address_mapping.entries[i];
            let mut s = crate::text::bytes_to_hex_swapped(&e.0.txid);
            s.append(":");
            s.append(u64_to_string(e.0.index as u64).as_str());
            s.append(",");
            s.append(e.1.to_csv_string().as_str());
            proof {
                reveal_strlit(":");
                reveal_strlit(",");
                assert(":"@ =~= seq![':']);
                assert(","@ =~= seq![',']);
            }
            rows.push(s);
            i = i + 1;
        }
        rows
    }

    /// The collision-log export: one
    /// `left_color,right_color,overlap,tx_hash_hex,offset` row per event.
    pub fn overlap_rows(&self) -> (r: Vec<String>)
        ensures
            r@.len() == self.overlap_log@.len(),
            forall|i: int|
                0 <= i < r@.len() ==> (#[trigger] r@[i])@ == overlap_row_text(
                    self.overlap_log@[i],
                ),
    {
        let mut rows: Vec<String> = Vec::new();
        let mut i: usize = 0;
        while i < self.overlap_log.len()
            invariant
                0 <= i <= self.overlap_log@.len(),
                rows@.len() == i,
                forall|j: int|
                    0 <= j < i ==> (#[trigger] rows@[j])@ == overlap_row_text(
                        self.overlap_log@[j],
                    ),
            decreases self.overlap_log@.len() - i,
        {
            let e = &self.overlap_log[i];
            let mut s = u64_to_string(e.left_name as u64);
            s.append(",");
            s.append(u64_to_string(e.right_name as u64).as_str());
            s.append(",");
            s.append(u64_to_string(e.overlap).as_str());
            s.append(",");
            s.append(e.tag.as_str());
            s.append(",");
            s.append(u64_to_string(e.offset).as_str());
            proof {
                reveal_strlit(",");
                assert(","@ =~= seq![',']);
            }
            rows.push(s);
            i = i + 1;
        }
        rows
    }
}

/// One row of the color-registry export.
pub open spec fn mapping_row_text(tag: Seq<u8>, id: int) -> Seq<char> {
    crate::registry::ascii_text(tag) + seq![','] + dec_str(id as nat)
}

/// One row of the UTXO-set export.
pub open spec fn utxo_row_text(txid: Seq<u8>, index: u32, addr: Seq<char>) -> Seq<char> {
    crate::text::hex_swapped_text(txid) + seq![','] + dec_str(index as nat) + seq![','] + addr
}

/// One row of the ledger export.
pub open spec fn info_row_text(txid: Seq<u8>, index: u32, info: AddressInfo) -> Seq<char> {
    crate::text::hex_swapped_text(txid) + seq![':'] + dec_str(index as nat) + seq![',']
        + info_text(info)
}

/// One row of the collision-log export.
pub open spec fn overlap_row_text(row: CollisionRow) -> Seq<char> {
    dec_str(row.left_name as nat) + seq![','] + dec_str(row.right_name as nat) + seq![',']
        + dec_str(row.overlap as nat) + seq![','] + row.tag@ + seq![','] + dec_str(
        row.offset as nat,
    )
}

/// The replay state a fresh block starts from: the engine's current
/// ledgers and log, with the per-block structures empty.
pub open spec fn rep_of(s: TaintFifo) -> RepState {
    RepState {
        utxo: s.utxo_set@,
        ledger: ledger_view(s.address_mapping@),
        bootstrap: bs_view(s.bootstrap_addresses@),
        buffer: s.total_taint_for_tx@,
        minerq: Seq::empty(),
        offsets: Map::empty(),
        touched: Seq::empty(),
        collisions: s.taint_collisions as int,
        rows: log_view(s.overlap_log@),
    }
}

/// The replay state the engine and the per-block structures currently
/// stand for.
pub open spec fn abs_state(
    s: TaintFifo,
    mq: Seq<(OutPoint, u64)>,
    offs: Map<(Seq<u8>, u32), u64>,
    tch: Seq<OutPoint>,
) -> RepState {
    RepState {
        utxo: s.utxo_set@,
        ledger: ledger_view(s.address_mapping@),
        bootstrap: bs_view(s.bootstrap_addresses@),
        buffer: s.total_taint_for_tx@,
        minerq: mq_view(mq),
        offsets: offs,
        touched: touched_view(tch),
        collisions: s.taint_collisions as int,
        rows: log_view(s.overlap_log@),
    }
}

proof fn lemma_evolves_trans(a: TaintFifo, b: TaintFifo, c: TaintFifo)
    requires
        evolves(a, b),
        evolves(b, c),
    ensures
        evolves(a, c),
{
    assert forall|i: int| 0 <= i < a.overlap_log@.len() implies c.overlap_log@[i]
        == a.overlap_log@[i] by {
        assert(b.overlap_log@[i] == a.overlap_log@[i]);
    }
    assert forall|k: Seq<u8>| #[trigger] c.bootstrap_addresses@.dom().contains(k) implies
        a.bootstrap_addresses@.dom().contains(k) by {
        assert(b.bootstrap_addresses@.dom().contains(k));
    }
}

proof fn lemma_block_err_at_tx(
    txs: Seq<Tx>,
    ti: int,
    ts: i64,
    s_head: RepState,
    s0: RepState,
    e: TaintError,
)
    requires
        0 <= ti < txs.len(),
        !txs[ti].is_coinbase,
        rep_tx(txs[ti], ts, s_head) == Err::<RepState, TaintError>(e),
        rep_txs(txs, ti, ts, s_head) == rep_txs(txs, 0, ts, rep_pass1(txs, 0, s0)),
    ensures
        rep_block(txs, ts, s0) == Err::<RepState, TaintError>(e),
{
    assert(rep_txs(txs, ti, ts, s_head) == Err::<RepState, TaintError>(e));
}

/// The engine's map invariants, which hold at every point of a block's
/// replay: unique keys everywhere, every ledger entry well formed, every
/// waiting bootstrap queue positive.
pub open spec fn maps_ok(s: TaintFifo) -> bool {
    &&& s.utxo_set.wf()
&&& s.address_mapping.wf()
&&& s.bootstrap_addresses.wf()
&&& s.registry.wf()
&&& forall|k: (Seq<u8>, u32)| #[trigger]
    s.address_mapping@.dom().contains(k) ==> info_wf(s.address_mapping@[k])
&&& forall|k: Seq<u8>| #[trigger]
    s.bootstrap_addresses@.dom().contains(k) ==> frags_pos(s.bootstrap_addresses@[k]@)
}

/// What a block's replay never does: it leaves the heights and the
/// registry alone, only grows the collision count and log, and only
/// consumes bootstrap entries.
pub open spec fn evolves(pre: TaintFifo, post: TaintFifo) -> bool {
    &&& post.start_height == pre.start_height
&&& post.end_height == pre.end_height
&&& post.max_height == pre.max_height
&&& post.registry == pre.registry
&&& post.taint_collisions >= pre.taint_collisions
&&& post.overlap_log@.len() >= pre.overlap_log@.len()
&&& forall|i: int|
    0 <= i < pre.overlap_log@.len() ==> post.overlap_log@[i] == pre.overlap_log@[i]
&&& forall|k: Seq<u8>| #[trigger]
    post.bootstrap_addresses@.dom().contains(k) ==> pre.bootstrap_addresses@.dom().contains(k)
}

/// Facts about the pending bootstrap queue for output `i` of the current
/// transaction: it holds exactly that output's value in positive fragments.
pub open spec fn pend_fact(
    pending: Seq<Option<VecDeque<TaintPart>>>,
    outs: Seq<TxOut>,
    i: int,
) -> bool {
    match pending[i] {
        Some(q) => sum_frags(q@) == outs[i].value as int && frags_pos(q@),
        None => true,
    }
}

/// The same, for a pending list whose first entry now belongs to output
/// `base + i`.
pub open spec fn pend_fact_at(
    pending: Seq<Option<VecDeque<TaintPart>>>,
    outs: Seq<TxOut>,
    base: int,
    i: int,
) -> bool {
    match pending[i] {
        Some(q) => sum_frags(q@) == outs[base + i].value as int && frags_pos(q@),
        None => true,
    }
}

proof fn lemma_entries_wf_insert(
    m: Map<(Seq<u8>, u32), AddressInfo>,
    k: (Seq<u8>, u32),
    v: AddressInfo,
)
    requires
        forall|x: (Seq<u8>, u32)| #[trigger] m.dom().contains(x) ==> info_wf(m[x]),
        info_wf(v),
    ensures
        forall|x: (Seq<u8>, u32)| #[trigger]
            m.insert(k, v).dom().contains(x) ==> info_wf(m.insert(k, v)[x]),
{
    assert forall|x: (Seq<u8>, u32)| #[trigger] m.insert(k, v).dom().contains(x) implies info_wf(
        m.insert(k, v)[x],
    ) by {
        if x != k {
            assert(m.dom().contains(x));
        }
    }
}

proof fn lemma_entries_wf_remove(m: Map<(Seq<u8>, u32), AddressInfo>, k: (Seq<u8>, u32))
    requires
        forall|x: (Seq<u8>, u32)| #[trigger] m.dom().contains(x) ==> info_wf(m[x]),
    ensures
        forall|x: (Seq<u8>, u32)| #[trigger]
            m.remove(k).dom().contains(x) ==> info_wf(m.remove(k)[x]),
{
    assert forall|x: (Seq<u8>, u32)| #[trigger] m.remove(k).dom().contains(x) implies info_wf(
        m.remove(k)[x],
    ) by {
        assert(m.dom().contains(x));
    }
}

/// Facts about the `i`-th parsed value of a bootstrap line.
pub open spec fn val_fact(ts: Seq<Seq<u8>>, vs: Seq<u64>, i: int) -> bool {
    valid_u64_text(ts[2 * i + 2]) && vs[i] as int == dec_val(ts[2 * i + 2]) && vs[i] > 0
}

/// Facts about the `i`-th fragment built from a bootstrap line: its value
/// is the parsed value, its color names the line's tag in the registry.
pub open spec fn frag_fact(ts: Seq<Seq<u8>>, q: Seq<TaintPart>, tags: Seq<Vec<u8>>, i: int) -> bool {
    &&& q[i].value as int == dec_val(ts[2 * i + 2])
&&& q[i].value > 0
&&& (q[i].name as int) < tags.len()
&&& tags[q[i].name as int]@ == ts[2 * i + 1]
}

/// The texts of the registry's tags, in ID order.
pub open spec fn tags_view(tags: Seq<Vec<u8>>) -> Seq<Seq<u8>> {
    Seq::new(tags.len(), |i: int| tags[i]@)
}

/// One registration step: a tag joins the registry at the next free ID
/// only if no tag with its text is registered yet.
pub open spec fn reg_step(cur: Seq<Seq<u8>>, tag: Seq<u8>) -> Seq<Seq<u8>> {
    if exists|i: int| 0 <= i < cur.len() && cur[i] == tag {
        cur
    } else {
        cur.push(tag)
    }
}

/// The registry texts after registering a line's tags in listed order:
/// exactly the previously unseen tags are appended, in order of first
/// appearance.
pub open spec fn reg_model(ts: Seq<Seq<u8>>, j: int, n: int, cur: Seq<Seq<u8>>) -> Seq<Seq<u8>>
    decreases n - j,
{
    if j >= n {
        cur
    } else {
        reg_model(ts, j + 1, n, reg_step(cur, ts[2 * j + 1]))
    }
}

/// A bootstrap line has the right shape: a valid displayed txid and at
/// least one `(tag, value)` pair, every value a positive u64.
pub open spec fn line_shape_ok(ts: Seq<Seq<u8>>) -> bool {
    &&& ts.len() >= 3
&&& ts.len() % 2 == 1
&&& valid_txid_hex(ts[0])
&&& forall|j: int|
    0 <= j < (ts.len() - 1) / 2 ==> valid_u64_text(#[trigger] ts[2 * j + 2]) && dec_val(
        ts[2 * j + 2],
    ) > 0
}

} // verus!
