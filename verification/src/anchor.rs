//! Anchoring transition receipts: each receipt is bound to its identity
//! hash and a proof over that hash, and receipts are batched under one
//! root.
use vstd::prelude::*;
use crate::hashing::{extend_bytes, sha256, sha256_spec};
use crate::kernel::types::{receipt_hash_spec, TransitionHash, TransitionReceipt};

verus! {

/// The domain tag `TSCP_ANCHOR_PROOF_V1` of anchor proofs.
pub open spec fn anchor_proof_tag() -> Seq<u8> {
    seq![84u8, 83, 67, 80, 95, 65, 78, 67, 72, 79, 82, 95, 80, 82, 79, 79, 70, 95, 86, 49]
}

/// The proof bytes bound to a receipt hash.
pub open spec fn anchor_proof_spec(receipt_hash: Seq<u8>) -> Seq<u8> {
    sha256_spec(anchor_proof_tag() + receipt_hash)
}

/// Produces the proof bytes for a receipt hash: SHA-256 over the anchor
/// proof tag and the hash.
pub fn prove_receipt(receipt_hash: &TransitionHash) -> (p: Vec<u8>)
    ensures
        p@ == anchor_proof_spec(receipt_hash@),
{
    let tag: [u8; 20] = [84, 83, 67, 80, 95, 65, 78, 67, 72, 79, 82, 95, 80, 82, 79, 79, 70, 95, 86, 49];
    let mut msg: Vec<u8> = Vec::new();
    extend_bytes(&mut msg, &tag);
    extend_bytes(&mut msg, receipt_hash);
    assert(tag@ == anchor_proof_tag());
    let d = sha256(msg.as_slice());
    let mut out: Vec<u8> = Vec::new();
    extend_bytes(&mut out, &d);
    assert(out@ =~= d@);
    out
}

/// Checks proof bytes against a receipt hash.
pub fn verify_proof(receipt_hash: &TransitionHash, proof: &[u8]) -> (ok: bool)
    ensures
        ok == (proof@ == anchor_proof_spec(receipt_hash@)),
{
    let expected = prove_receipt(receipt_hash);
    bytes_eq(expected.as_slice(), proof)
}

/// Byte-wise equality of two byte strings.
pub fn bytes_eq(a: &[u8], b: &[u8]) -> (r: bool)
    ensures
        r == (a@ == b@),
{
    if a.len() != b.len() {
        return false;
    }
    let mut i: usize = 0;
    while i < a.len()
        invariant
            i <= a@.len(),
            a@.len() == b@.len(),
            forall|j: int| 0 <= j < i ==> a@[j] == b@[j],
        decreases a@.len() - i,
    {
        if a[i] != b[i] {
            return false;
        }
        i = i + 1;
    }
    assert(a@ =~= b@);
    true
}

/// A receipt with its identity hash and the proof over that hash.
#[derive(Clone, Debug)]
pub struct AnchoredReceipt {
    pub receipt: TransitionReceipt,
    pub receipt_hash: TransitionHash,
    pub stark_proof: Vec<u8>,
}

impl AnchoredReceipt {
    /// Anchors a receipt: hashes it and proves the hash.
    pub fn new(receipt: TransitionReceipt) -> (a: Self)
        ensures
            a.receipt == receipt,
            a.receipt_hash@ == receipt_hash_spec(receipt),
            a.stark_proof@ == anchor_proof_spec(a.receipt_hash@),
    {
        let receipt_hash = receipt.hash();
        let stark_proof = prove_receipt(&receipt_hash);
        Self { receipt, receipt_hash, stark_proof }
    }

    /// Checks the proof against the recorded receipt hash.
    pub fn verify(&self) -> (ok: bool)
        ensures
            ok == anchor_verifies(*self),
    {
        verify_proof(&self.receipt_hash, self.stark_proof.as_slice())
    }
}

/// The proof of an anchored receipt matches its recorded hash.
pub open spec fn anchor_verifies(a: AnchoredReceipt) -> bool {
    a.stark_proof@ == anchor_proof_spec(a.receipt_hash@)
}

/// Every receipt anchored by `AnchoredReceipt::new` verifies, and its proof
/// is bound to the receipt's own identity hash.
pub proof fn lemma_anchored_receipt_verifies(receipt: TransitionReceipt, a: AnchoredReceipt)
    requires
        a.receipt == receipt,
        a.receipt_hash@ == receipt_hash_spec(receipt),
        a.stark_proof@ == anchor_proof_spec(a.receipt_hash@),
    ensures
        anchor_verifies(a),
        a.stark_proof@ == anchor_proof_spec(receipt_hash_spec(receipt)),
{
}

/// Anchors receipts one at a time.
pub struct Anchor;

impl Anchor {
    pub fn anchor_receipt(receipt: TransitionReceipt) -> (a: AnchoredReceipt)
        ensures
            a.receipt == receipt,
            a.receipt_hash@ == receipt_hash_spec(receipt),
            a.stark_proof@ == anchor_proof_spec(a.receipt_hash@),
    {
        AnchoredReceipt::new(receipt)
    }
}

/// A batch of anchored receipts.
pub struct BatchAnchor {
    receipts: Vec<AnchoredReceipt>,
}

/// The concatenated receipt hashes of a batch.
pub open spec fn concat_hashes(rs: Seq<AnchoredReceipt>) -> Seq<u8>
    decreases rs.len(),
{
    if rs.len() == 0 {
        Seq::empty()
    } else {
        concat_hashes(rs.drop_last()) + rs.last().receipt_hash@
    }
}

impl BatchAnchor {
    /// The receipts in the batch, in the order they were added.
    pub closed spec fn receipts_view(&self) -> Seq<AnchoredReceipt> {
        self.receipts@
    }

    pub fn new() -> (b: Self)
        ensures
            b.receipts_view().len() == 0,
    {
        Self { receipts: Vec::new() }
    }

    pub fn add(&mut self, receipt: AnchoredReceipt)
        ensures
            final(self).receipts_view() == old(self).receipts_view().push(receipt),
    {
        self.receipts.push(receipt);
    }

    /// The batch root: SHA-256 over the receipt hashes, in order.
    pub fn merkle_root(&self) -> (root: [u8; 32])
        ensures
            root@ == sha256_spec(concat_hashes(self.receipts_view())),
    {
        let mut msg: Vec<u8> = Vec::new();
        let mut i: usize = 0;
        while i < self.receipts.len()
            invariant
                i <= self.receipts@.len(),
                msg@ == concat_hashes(self.receipts@.subrange(0, i as int)),
            decreases self.receipts@.len() - i,
        {
            extend_bytes(&mut msg, &self.receipts[i].receipt_hash);
            proof {
                let sub = self.receipts@.subrange(0, i + 1);
                assert(sub.drop_last() == self.receipts@.subrange(0, i as int));
                assert(sub.last() == self.receipts@[i as int]);
            }
            i = i + 1;
        }
        assert(self.receipts@.subrange(0, self.receipts@.len() as int) == self.receipts@);
        sha256(msg.as_slice())
    }

    pub fn len(&self) -> (n: usize)
        ensures
            n == self.receipts_view().len(),
    {
        self.receipts.len()
    }
}

} // verus!
