//! Output references, sign requests and the byte comparisons they rest on.
use vstd::prelude::*;

verus! {

/// Mathematical identity of an output: transaction id bytes and output index.
pub type RefKey = (Seq<u8>, u32);

/// Compares two byte strings.
pub fn bytes_eq(a: &Vec<u8>, b: &Vec<u8>) -> (r: bool)
    ensures
        r == (a@ == b@),
{
    if a.len() != b.len() {
        return false;
    }
    let mut i: usize = 0;
    while i < a.len()
        invariant
            a@.len() == b@.len(),
            0 <= i <= a@.len(),
            a@.subrange(0, i as int) == b@.subrange(0, i as int),
        decreases a@.len() - i,
    {
        if a[i] != b[i] {
            assert(a@[i as int] != b@[i as int]);
            return false;
        }
        assert(a@.subrange(0, i + 1) =~= a@.subrange(0, i as int).push(a@[i as int]));
        assert(b@.subrange(0, i + 1) =~= b@.subrange(0, i as int).push(b@[i as int]));
        i = i + 1;
    }
    assert(a@ =~= a@.subrange(0, i as int));
    assert(b@ =~= b@.subrange(0, i as int));
    true
}

/// Copies a byte string.
pub fn bytes_copy(a: &Vec<u8>) -> (r: Vec<u8>)
    ensures
        r@ == a@,
{
    let mut r: Vec<u8> = Vec::new();
    let mut i: usize = 0;
    while i < a.len()
        invariant
            0 <= i <= a@.len(),
            r@ == a@.subrange(0, i as int),
        decreases a@.len() - i,
    {
        r.push(a[i]);
        assert(a@.subrange(0, i + 1) =~= a@.subrange(0, i as int).push(a@[i as int]));
        i = i + 1;
    }
    assert(a@ =~= a@.subrange(0, i as int));
    r
}

/// An on-chain output that is eligible for spending: a transaction id and the
/// index of the output within that transaction.
pub struct OutputRef {
    pub txid: Vec<u8>,
    pub vout: u32,
}

impl View for OutputRef {
    type V = RefKey;

    open spec fn view(&self) -> RefKey {
        (self.txid@, self.vout)
    }
}

impl OutputRef {
    pub fn new(txid: Vec<u8>, vout: u32) -> (r: OutputRef)
        ensures
            r@ == (txid@, vout),
    {
        OutputRef { txid, vout }
    }

    /// Whether both references name the same output.
    pub fn same_as(&self, other: &OutputRef) -> (r: bool)
        ensures
            r == (self@ == other@),
    {
        self.vout == other.vout && bytes_eq(&self.txid, &other.txid)
    }

    pub fn copy(&self) -> (r: OutputRef)
        ensures
            r@ == self@,
    {
        OutputRef { txid: bytes_copy(&self.txid), vout: self.vout }
    }
}

/// The views of a list of output references.
pub open spec fn keys_of(refs: Seq<OutputRef>) -> Seq<RefKey> {
    refs.map_values(|r: OutputRef| r@)
}

/// No output is named twice.
pub open spec fn distinct_keys(ks: Seq<RefKey>) -> bool {
    forall|i: int, j: int| 0 <= i < j < ks.len() ==> ks[i] != ks[j]
}

/// A decoded sign request: the digest of the proposed spending transaction,
/// the transaction itself in its encoded form, and the outputs it spends.
pub struct SignRequest {
    pub tx_digest: Vec<u8>,
    pub transaction: Vec<u8>,
    pub spent_outputs: Vec<OutputRef>,
}

impl SignRequest {
    pub open spec fn keys(&self) -> Seq<RefKey> {
        keys_of(self.spent_outputs@)
    }

    /// A request is well formed when it spends at least one output and names
    /// no output twice.
    pub open spec fn well_formed(&self) -> bool {
        self.spent_outputs@.len() > 0 && distinct_keys(self.keys())
    }

    pub fn new(tx_digest: Vec<u8>, transaction: Vec<u8>, spent_outputs: Vec<OutputRef>) -> (r:
        SignRequest)
        ensures
            r.tx_digest@ == tx_digest@,
            r.transaction@ == transaction@,
            r.spent_outputs@ == spent_outputs@,
    {
        SignRequest { tx_digest, transaction, spent_outputs }
    }

    /// Checks that the request spends at least one output and names none twice.
    pub fn check_well_formed(&self) -> (r: bool)
        ensures
            r == self.well_formed(),
    {
        let n = self.spent_outputs.len();
        if n == 0 {
            return false;
        }
        let mut i: usize = 0;
        while i < n
            invariant
                n == self.spent_outputs@.len(),
                0 <= i <= n,
                forall|a: int, b: int| 0 <= a < b < n && a < i ==> self.keys()[a] != self.keys()[b],
            decreases n - i,
        {
            let mut j: usize = i + 1;
            while j < n
                invariant
                    n == self.spent_outputs@.len(),
                    0 <= i < n,
                    i + 1 <= j <= n,
                    forall|a: int, b: int| 0 <= a < b < n && a < i ==> self.keys()[a] != self.keys()[b],
                    forall|b: int| i < b < j ==> self.keys()[i as int] != self.keys()[b],
                decreases n - j,
            {
                if self.spent_outputs[i].same_as(&self.spent_outputs[j]) {
                    assert(self.keys()[i as int] == self.keys()[j as int]);
                    return false;
                }
                j = j + 1;
            }
            i = i + 1;
        }
        true
    }
}

} // verus!
