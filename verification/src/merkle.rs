//! Vector commitments to a column of field elements, through Plonky3's
//! Merkle-tree MMCS over BabyBear (Poseidon2 sponge for leaves, truncated
//! Poseidon2 compression for nodes, fixed default round constants, the
//! cap being the root alone).
//!
//! A commitment is one digest of eight field elements; an opening proof is
//! the sequence of sibling digests on the path to the root.
use vstd::prelude::*;
use p3_baby_bear::{BabyBear, Poseidon2BabyBear, default_babybear_poseidon2_16};
use p3_commit::{BatchOpeningRef, Mmcs};
use p3_field::{Field, PrimeField32};
use p3_matrix::Dimensions;
use p3_matrix::dense::RowMajorMatrix as DenseMatrix;
use p3_merkle_tree::{MerkleCap, MerkleTreeMmcs};
use p3_symmetric::{PaddingFreeSponge, TruncatedPermutation};
use crate::field::{P, all_fe};
use crate::fft::is_pow2;

verus! {

/// A digest: eight field elements.
pub type Digest = [u32; 8];

type Packed = <BabyBear as Field>::Packing;

type Scheme = MerkleTreeMmcs<
    Packed,
    Packed,
    PaddingFreeSponge<Poseidon2BabyBear<16>, 16, 8, 8>,
    TruncatedPermutation<Poseidon2BabyBear<16>, 2, 8, 16>,
    2,
    8,
>;

/// The tree Plonky3 built over a committed column, with the scheme that
/// built it.
#[verifier::external_body]
pub struct CommittedColumn {
    scheme: Scheme,
    tree: p3_merkle_tree::MerkleTree<BabyBear, BabyBear, DenseMatrix<BabyBear>, 2, 8>,
}

/// The column a committed tree holds.
pub uninterp spec fn committed_leaves(c: CommittedColumn) -> Seq<u32>;

/// The root the scheme computes for a column.
pub uninterp spec fn merkle_root_spec(leaves: Seq<u32>) -> Seq<u32>;

/// The sibling path the scheme gives for leaf `index` of a column.
pub uninterp spec fn merkle_path_spec(leaves: Seq<u32>, index: nat) -> Seq<Seq<u32>>;

/// Whether the scheme accepts `value` at `index`, with `path`, against
/// `root` for a column of `leaf_count` entries.
pub uninterp spec fn merkle_check_spec(root: Seq<u32>, leaf_count: nat, index: nat, value: u32, path: Seq<Seq<u32>>) -> bool;

/// The digests of a path, as sequences.
pub open spec fn path_view(path: Seq<Digest>) -> Seq<Seq<u32>> {
    path.map_values(|d: Digest| d@)
}

/// `Mmcs::commit_vec` on the column: the root (the one cap entry) and the
/// tree. The root is a function of the column alone.
#[verifier::external_body]
fn mmcs_commit(leaves: &Vec<u32>) -> (r: (Digest, CommittedColumn))
    requires
        is_pow2(leaves@.len()),
        all_fe(leaves@),
    ensures
        r.0@ == merkle_root_spec(leaves@),
        forall|i: int| 0 <= i < 8 ==> #[trigger] r.0@[i] < P,
        committed_leaves(r.1) == leaves@,
{
    let perm = default_babybear_poseidon2_16();
    let scheme = Scheme::new(PaddingFreeSponge::new(perm.clone()), TruncatedPermutation::new(perm), 0);
    let (cap, tree) = scheme.commit_vec(leaves.iter().map(|&v| BabyBear::new(v)).collect());
    let root = cap.roots()[0].map(|x| x.as_canonical_u32());
    (root, CommittedColumn { scheme, tree })
}

/// `Mmcs::open_batch` at `index`: the committed value there (the one entry
/// of the opened row) and its sibling path.
#[verifier::external_body]
fn mmcs_open(c: &CommittedColumn, index: usize) -> (r: (u32, Vec<Digest>))
    requires
        index < committed_leaves(*c).len(),
    ensures
        r.0 == committed_leaves(*c)[index as int],
        path_view(r.1@) == merkle_path_spec(committed_leaves(*c), index as nat),
{
    let opening = c.scheme.open_batch(index, &c.tree);
    let value = opening.opened_values[0][0].as_canonical_u32();
    let path = opening.opening_proof.iter().map(|d| d.map(|x| x.as_canonical_u32())).collect();
    (value, path)
}

/// `value` and `path` are the honest opening of leaf `index` of the
/// power-of-two column `leaves`, whose root is `root`.
pub open spec fn opening_is_honest(leaves: Seq<u32>, root: Seq<u32>, leaf_count: nat, index: nat, value: u32, path: Seq<Seq<u32>>) -> bool {
    &&& is_pow2(leaves.len())
    &&& leaves.len() == leaf_count
    &&& index < leaf_count
    &&& root == merkle_root_spec(leaves)
    &&& value == leaves[index as int]
    &&& path == merkle_path_spec(leaves, index)
}

/// `Mmcs::verify_batch` of a one-column opening against a root. An honest
/// opening of a committed power-of-two column verifies.
#[verifier::external_body]
fn mmcs_verify(root: &Digest, leaf_count: usize, index: usize, value: u32, path: &Vec<Digest>) -> (ok: bool)
    requires
        value < P,
    ensures
        ok == merkle_check_spec(root@, leaf_count as nat, index as nat, value, path_view(path@)),
        (exists|leaves: Seq<u32>| #[trigger] opening_is_honest(leaves, root@, leaf_count as nat, index as nat, value, path_view(path@))) ==> ok,
{
    let perm = default_babybear_poseidon2_16();
    let scheme = Scheme::new(PaddingFreeSponge::new(perm.clone()), TruncatedPermutation::new(perm), 0);
    let cap = MerkleCap::new(vec![root.map(BabyBear::new)]);
    let proof: Vec<[BabyBear; 8]> = path.iter().map(|d| d.map(BabyBear::new)).collect();
    let opened = vec![vec![BabyBear::new(value)]];
    let dims = [Dimensions { width: 1, height: leaf_count }];
    scheme.verify_batch(&cap, &dims, index, BatchOpeningRef::new(&opened, &proof)).is_ok()
}

/// A Merkle commitment to a column of field elements.
pub struct MerkleTree {
    leaves: Vec<u32>,
    root: Digest,
    committed: CommittedColumn,
}

/// A leaf and the proof that it sits at `leaf_index` under a root.
#[derive(Clone, Debug)]
pub struct MerkleOpening {
    pub leaf_index: usize,
    pub leaf_value: u32,
    pub proof: Vec<Digest>,
}

impl MerkleTree {
    /// The committed column.
    pub closed spec fn contents(&self) -> Seq<u32> {
        self.leaves@
    }

    /// The tree commits to its leaves.
    pub closed spec fn wf(&self) -> bool {
        &&& committed_leaves(self.committed) == self.leaves@
        &&& self.root@ == merkle_root_spec(self.leaves@)
        &&& forall|i: int| 0 <= i < 8 ==> #[trigger] self.root@[i] < P
        &&& is_pow2(self.leaves@.len())
        &&& all_fe(self.leaves@)
    }

    /// Commit to `leaves`, a power-of-two number of field elements.
    pub fn build(leaves: Vec<u32>) -> (t: Self)
        requires
            is_pow2(leaves@.len()),
            all_fe(leaves@),
        ensures
            t.wf(),
            t.contents() == leaves@,
    {
        let (root, committed) = mmcs_commit(&leaves);
        MerkleTree { leaves, root, committed }
    }

    /// The commitment.
    pub fn root(&self) -> (r: Digest)
        requires
            self.wf(),
        ensures
            r@ == merkle_root_spec(self.contents()),
            forall|i: int| 0 <= i < 8 ==> #[trigger] r@[i] < P,
    {
        self.root
    }

    /// The opening of the leaf at `index`.
    pub fn open(&self, index: usize) -> (o: MerkleOpening)
        requires
            self.wf(),
            index < self.contents().len(),
        ensures
            o.leaf_index == index,
            o.leaf_value == self.contents()[index as int],
            path_view(o.proof@) == merkle_path_spec(self.contents(), index as nat),
            opening_is_honest(
                self.contents(),
                merkle_root_spec(self.contents()),
                self.contents().len(),
                index as nat,
                o.leaf_value,
                path_view(o.proof@),
            ),
    {
        let (leaf_value, proof) = mmcs_open(&self.committed, index);
        MerkleOpening { leaf_index: index, leaf_value, proof }
    }

    /// The number of leaves.
    pub fn leaf_count(&self) -> (n: usize)
        ensures
            n == self.contents().len(),
    {
        self.leaves.len()
    }

    /// The committed leaves.
    pub fn leaves(&self) -> (l: &Vec<u32>)
        ensures
            l@ == self.contents(),
    {
        &self.leaves
    }

    /// The tree's facts: a power-of-two column of field elements.
    pub proof fn lemma_wf(&self)
        requires
            self.wf(),
        ensures
            is_pow2(self.contents().len()),
            all_fe(self.contents()),
    {
    }
}

/// Check an opening against a commitment to `leaf_count` leaves.
pub fn verify_opening(commitment: &Digest, leaf_count: usize, opening: &MerkleOpening) -> (ok: bool)
    requires
        opening.leaf_value < P,
    ensures
        ok == merkle_check_spec(commitment@, leaf_count as nat, opening.leaf_index as nat, opening.leaf_value, path_view(opening.proof@)),
        (exists|leaves: Seq<u32>| #[trigger] opening_is_honest(
            leaves,
            commitment@,
            leaf_count as nat,
            opening.leaf_index as nat,
            opening.leaf_value,
            path_view(opening.proof@),
        )) ==> ok,
{
    mmcs_verify(commitment, leaf_count, opening.leaf_index, opening.leaf_value, &opening.proof)
}


} // verus!
