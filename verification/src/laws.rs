//! The laws the library guarantees, stated over the model and proved once
//! and for all: sum conservation lives in `crate::model`
//! (`lemma_sum_conservation`); this module states determinism of the build,
//! correctness of every generated proof, and rejection of amount tampering.

use vstd::prelude::*;

use crate::merkle::{levels_view, MyExclusiveAllotmentProof, MyMerkleTree};
use crate::model::{
    fold_path, leaves_of, lemma_fold_amount_shift, lemma_fold_levels, path_from, root_of,
    tree_levels, NodeModel,
};

verus! {

/// Determinism: two well-formed trees built from the same balance list store
/// identical levels and commit to the same root, in amount and digest alike.
pub proof fn lemma_build_deterministic(t1: MyMerkleTree, t2: MyMerkleTree)
    requires
        t1.wf(),
        t2.wf(),
        t1.balances@ == t2.balances@,
    ensures
        levels_view(t1.levels@) == levels_view(t2.levels@),
        root_of(t1.balances@) == root_of(t2.balances@),
{
}

/// Proof correctness: for every position of a nonempty balance list, folding
/// the sibling path drawn from the tree's levels, starting at that leaf,
/// reproduces the tree's root exactly.
pub proof fn lemma_proof_roundtrip(balances: Seq<u64>, position: int)
    requires
        balances.len() >= 1,
        0 <= position < balances.len(),
    ensures
        fold_path(
            leaves_of(balances)[position],
            position,
            path_from(tree_levels(balances), position),
        ) == root_of(balances),
{
    lemma_fold_levels(leaves_of(balances), position);
}

/// Proof correctness at the library surface: a proof carrying exactly what
/// `prove_at` ensures for its position verifies against the root that
/// `commit` returns for the same tree.
pub proof fn lemma_prove_verifies(t: MyMerkleTree, p: MyExclusiveAllotmentProof, position: int)
    requires
        t.wf(),
        0 <= position < t.balances@.len(),
        p.position_spec() == position,
        p.leaf_spec() == leaves_of(t.balances@)[position],
        p.path_spec() == path_from(tree_levels(t.balances@), position),
    ensures
        p.verifies(root_of(t.balances@)),
{
    lemma_proof_roundtrip(t.balances@, position);
}

/// Tamper sensitivity: raising the claimed leaf amount by one, digests left
/// untouched, makes any previously verifying proof fail against the same
/// root, because the folded amount rises by exactly one while the folded
/// digest stays the same.
pub proof fn lemma_amount_tamper_rejected(
    leaf: NodeModel,
    pos: int,
    path: Seq<Option<NodeModel>>,
    root: NodeModel,
)
    requires
        fold_path(leaf, pos, path) == root,
    ensures
        fold_path((leaf.0 + 1, leaf.1), pos, path) != root,
{
    lemma_fold_amount_shift(leaf, 1, pos, path);
    assert(fold_path((leaf.0 + 1, leaf.1), pos, path).0 == root.0 + 1);
}

} // verus!
