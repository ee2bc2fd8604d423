//! Plain chain data as the engine consumes it: outpoints, transactions and
//! blocks. The driver that parses raw blocks hands the engine these values.

use vstd::prelude::*;

verus! {

/// Byte-for-byte copy of a byte vector.
pub fn clone_bytes(a: &Vec<u8>) -> (r: Vec<u8>)
    ensures
        r@ == a@,
{
    let mut out: Vec<u8> = Vec::new();
    let mut i: usize = 0;
    while i < a.len()
        invariant
            0 <= i <= a@.len(),
            out@ == a@.take(i as int),
        decreases a@.len() - i,
    {
        out.push(a[i]);
        proof {
            assert(out@ =~= a@.take(i as int + 1));
        }
        i = i + 1;
    }
    proof {
        assert(a@.take(a@.len() as int) =~= a@);
    }
    out
}

/// Whether two byte vectors hold the same bytes.
pub fn bytes_eq(a: &Vec<u8>, b: &Vec<u8>) -> (r: bool)
    ensures
        r == (a@ == b@),
{
    if a.len() != b.len() {
        return false;
    }
    let mut i: usize = 0;
    while i < a.len()
        invariant
            0 <= i <= a@.len(),
            a@.len() == b@.len(),
            forall|j: int| 0 <= j < i ==> a@[j] == b@[j],
        decreases a@.len() - i,
    {
        if a[i] != b[i] {
            return false;
        }
        i = i + 1;
    }
    proof {
        assert(a@ =~= b@);
    }
    true
}

/// Identity of a transaction output: the owning transaction's 32-byte hash
/// (internal byte order) and the output's position in that transaction.
pub struct OutPoint {
    pub txid: Vec<u8>,
    pub index: u32,
}

impl OutPoint {
    /// The mathematical identity used as a map key.
    pub open spec fn key(&self) -> (Seq<u8>, u32) {
        (self.txid@, self.index)
    }

    /// A transaction hash is exactly 32 bytes.
    pub open spec fn wf(&self) -> bool {
        self.txid@.len() == 32
    }

    /// An owned copy with the same identity.
    pub fn dup(&self) -> (r: OutPoint)
        ensures
            r.key() == self.key(),
            r.wf() == self.wf(),
    {
        OutPoint { txid: clone_bytes(&self.txid), index: self.index }
    }
}

/// Whether two outpoints name the same output.
pub fn outpoint_eq(a: &OutPoint, b: &OutPoint) -> (r: bool)
    ensures
        r == (a.key() == b.key()),
{
    if a.index != b.index {
        return false;
    }
    bytes_eq(&a.txid, &b.txid)
}

/// One transaction output: its value in base units and the address the
/// script pays to.
pub struct TxOut {
    pub value: u64,
    pub address: String,
}

/// One transaction, already evaluated by the chain parser.
pub struct Tx {
    pub txid: Vec<u8>,
    pub is_coinbase: bool,
    pub inputs: Vec<OutPoint>,
    pub outputs: Vec<TxOut>,
}

impl Tx {
    pub open spec fn wf(&self) -> bool {
        &&& self.txid@.len() == 32
    &&& self.outputs@.len() <= u32::MAX
    &&& forall|i: int| 0 <= i < self.inputs@.len() ==> (#[trigger] self.inputs@[i]).wf()
    }
}

/// One block: the header timestamp (Unix seconds) and the transactions in
/// block order.
pub struct Block {
    pub timestamp: i64,
    pub txs: Vec<Tx>,
}

impl Block {
    pub open spec fn wf(&self) -> bool {
        &&& 0 <= self.timestamp <= u32::MAX
    &&& forall|i: int| 0 <= i < self.txs@.len() ==> (#[trigger] self.txs@[i]).wf()
    }
}

} // verus!
