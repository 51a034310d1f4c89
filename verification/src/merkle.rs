//! The executable Merkle sum tree: commitments, the tree builder, the proof
//! generator and the proof verifier, each verified against the model in
//! `crate::model`.

use vstd::prelude::*;

use crate::hashing::{sha256, u64_to_be_bytes};
use crate::model::{
    combine_node, is_chain, leaf_node, leaves_of, lemma_fold_amount_lower,
    lemma_levels_from_chain, lemma_levels_from_last, lemma_pair_bound, lemma_path_from_len,
    lemma_path_step, lemma_sum_balances_take_le, lemma_sum_balances_take_succ,
    lemma_sum_conservation, lemma_sum_leaves, lemma_sum_next_level, levels_from, next_level,
    nonneg_nodes, nonneg_path, fold_path, fold_step, path_from, root_of, sibling_in, sum_balances,
    sum_nodes, tree_levels, NodeModel, MAX_SUPPLY,
};

verus! {

/// A value that carries a balance total and a binding digest over the
/// subtree it summarizes.
pub trait SumCommitment: Sized {
    /// The amount the commitment carries, as an unbounded integer.
    spec fn amount_spec(&self) -> int;

    /// The digest the commitment carries, as a byte sequence.
    spec fn digest_spec(&self) -> Seq<u8>;

    /// The balance total committed to.
    fn amount(&self) -> (r: u64)
        ensures
            r as int == self.amount_spec(),
    ;

    /// The binding digest committed to.
    fn digest(&self) -> (r: [u8; 32])
        ensures
            r@ == self.digest_spec(),
    ;
}

/// A proof that one leaf balance was counted exactly once toward a published
/// root commitment.
pub trait ExclusiveAllotmentProof<C: SumCommitment>: Sized {
    /// How many path entries the proof carries: one per tree level below the
    /// root of the tree it was drawn from.
    spec fn path_len(&self) -> nat;

    /// What it means for this proof to check out against a root commitment.
    spec fn verify_spec(&self, root: C) -> bool;

    /// The leaf position the proof speaks for.
    fn position(&self) -> usize;

    /// The sibling disclosed at the given height, `None` where the node on
    /// the path was promoted without a partner.
    fn sibling(&self, height: u8) -> (r: Option<C>)
        requires
            (height as nat) < self.path_len(),
    ;

    /// Whether the proof reproduces the given root commitment exactly, in
    /// both amount and digest.
    fn verify(&self, root_commitment: &C) -> (r: bool)
        ensures
            r == self.verify_spec(*root_commitment),
    ;
}

/// A tree of sum commitments built once from a fixed list of balances.
pub trait MerkleTree<C: SumCommitment, P: ExclusiveAllotmentProof<C>>: Sized {
    /// Whether the tree is a well-formed result of a build.
    spec fn wf_spec(&self) -> bool;

    /// Whether a balance list can be built into a tree: nonempty, with a
    /// total within the supply bound.
    spec fn can_build(values: Seq<u64>) -> bool;

    /// How many leaves the tree holds.
    spec fn leaf_count(&self) -> int;

    /// Build the tree from the balances, in input order.
    fn new(values: Vec<u64>) -> (t: Self)
        requires
            Self::can_build(values@),
        ensures
            t.wf_spec(),
    ;

    /// The root commitment, the one artifact meant to be published.
    fn commit(&self) -> (r: C)
        requires
            self.wf_spec(),
    ;

    /// The allotment proof for the leaf at the given position.
    fn prove(&self, position: usize) -> (p: P)
        requires
            self.wf_spec(),
            (position as int) < self.leaf_count(),
    ;
}

/// Why a build or a proof request was rejected.
#[derive(Clone, Copy, Debug, PartialEq, Eq, Structural)]
pub enum MerkleError {
    /// The balance list was empty, or its total exceeds `MAX_SUPPLY`.
    InvalidInput,
    /// A proof was requested for a leaf index the tree does not have.
    PositionOutOfRange,
    /// A proof's path length does not match the height it is checked against.
    MalformedProof,
}

/// An amount paired with the digest that binds it; immutable, copied by
/// value, so a sibling extracted for a proof can never be altered after
/// the fact.
#[derive(Clone, Copy, Debug)]
pub struct MySumCommitment {
    /// The balance total committed to.
    pub amount: u64,
    /// The binding digest committed to.
    pub digest: [u8; 32],
}

impl View for MySumCommitment {
    type V = NodeModel;

    open spec fn view(&self) -> NodeModel {
        (self.amount as int, self.digest@)
    }
}

impl MySumCommitment {
    /// Assemble a commitment from its two fields.
    pub fn new(amount: u64, digest: [u8; 32]) -> (c: Self)
        ensures
            c@ == (amount as int, digest@),
    {
        MySumCommitment { amount, digest }
    }

    /// Whether two commitments agree in both amount and digest.
    pub fn equals(&self, other: &Self) -> (r: bool)
        ensures
            r == (self@ == other@),
    {
        if self.amount != other.amount {
            return false;
        }
        let mut i: usize = 0;
        while i < 32
            invariant
                0 <= i <= 32,
                forall|j: int| 0 <= j < i ==> self.digest@[j] == other.digest@[j],
            decreases 32 - i,
        {
            if self.digest[i] != other.digest[i] {
                return false;
            }
            i += 1;
        }
        proof {
            assert(self.digest@ =~= other.digest@);
        }
        true
    }
}

impl SumCommitment for MySumCommitment {
    open spec fn amount_spec(&self) -> int {
        self.amount as int
    }

    open spec fn digest_spec(&self) -> Seq<u8> {
        self.digest@
    }

    fn amount(&self) -> (r: u64) {
        self.amount
    }

    fn digest(&self) -> (r: [u8; 32]) {
        self.digest
    }
}

/// The leaf commitment for one balance: the balance itself under the digest
/// of its fixed-width big-endian encoding.
pub fn leaf_commitment(value: u64) -> (c: MySumCommitment)
    ensures
        c@ == leaf_node(value),
{
    let bytes = u64_to_be_bytes(value);
    let digest = sha256(bytes.as_slice());
    MySumCommitment { amount: value, digest }
}

/// The digest over two child digests, concatenated left then right.
fn hash_pair(l: &[u8; 32], r: &[u8; 32]) -> (d: [u8; 32])
    ensures
        d@ == crate::hashing::sha256_of(l@ + r@),
{
    let mut bytes: Vec<u8> = Vec::new();
    let mut i: usize = 0;
    while i < 32
        invariant
            0 <= i <= 32,
            bytes@ =~= l@.take(i as int),
        decreases 32 - i,
    {
        bytes.push(l[i]);
        i += 1;
    }
    proof {
        assert(bytes@ =~= l@);
    }
    let mut j: usize = 0;
    while j < 32
        invariant
            0 <= j <= 32,
            bytes@ =~= l@ + r@.take(j as int),
        decreases 32 - j,
    {
        bytes.push(r[j]);
        j += 1;
    }
    proof {
        assert(bytes@ =~= l@ + r@);
    }
    sha256(bytes.as_slice())
}

/// The internal commitment over two genuinely distinct children: amounts
/// add, digests bind in left-then-right order.
fn combine(left: &MySumCommitment, right: &MySumCommitment) -> (c: MySumCommitment)
    requires
        left@.0 + right@.0 <= MAX_SUPPLY,
    ensures
        c@ == combine_node(left@, right@),
{
    let amount = left.amount + right.amount;
    let digest = hash_pair(&left.digest, &right.digest);
    MySumCommitment { amount, digest }
}

/// The models of a level of commitments, in order.
pub open spec fn nodes_of(s: Seq<MySumCommitment>) -> Seq<NodeModel> {
    s.map(|i: int, c: MySumCommitment| c@)
}

/// The models of all stored levels, leaves first.
pub open spec fn levels_view(ls: Seq<Vec<MySumCommitment>>) -> Seq<Seq<NodeModel>> {
    ls.map(|i: int, lv: Vec<MySumCommitment>| nodes_of(lv@))
}

/// The model of one optional sibling entry.
pub open spec fn opt_node_of(o: Option<MySumCommitment>) -> Option<NodeModel> {
    match o {
        Option::Some(c) => Option::Some(c@),
        Option::None => Option::None,
    }
}

/// The models of a sibling path, in leaf-to-root order.
pub open spec fn opt_nodes_of(s: Seq<Option<MySumCommitment>>) -> Seq<Option<NodeModel>> {
    s.map(|i: int, o: Option<MySumCommitment>| opt_node_of(o))
}

/// Every amount a stored sibling path carries is nonnegative.
proof fn lemma_path_view_nonneg(p: Seq<Option<MySumCommitment>>)
    ensures
        nonneg_path(opt_nodes_of(p)),
{
    assert forall|i: int| 0 <= i < opt_nodes_of(p).len() implies (match #[trigger] opt_nodes_of(
        p,
    )[i] {
        Option::Some(sib) => sib.0 >= 0,
        Option::None => true,
    }) by {
        assert(opt_nodes_of(p)[i] == opt_node_of(p[i]));
    }
}

/// Every amount a stored level carries is nonnegative.
proof fn lemma_level_view_nonneg(s: Seq<MySumCommitment>)
    ensures
        nonneg_nodes(nodes_of(s)),
{
    assert forall|i: int| 0 <= i < nodes_of(s).len() implies #[trigger] nodes_of(s)[i].0 >= 0 by {
        assert(nodes_of(s)[i] == s[i]@);
    }
}

/// An exclusive allotment proof: the prover's own leaf commitment, its leaf
/// position, and the ordered sibling path up to the root, `None` standing
/// where the node on the path was promoted without a partner.
pub struct MyExclusiveAllotmentProof {
    /// The leaf commitment being proven, carried so the verifier need not
    /// separately trust it.
    pub commitment_to_proof: MySumCommitment,
    /// The leaf position, fixed at construction time.
    pub position: usize,
    /// One optional sibling per tree level below the root, leaf level first.
    pub path: Vec<Option<MySumCommitment>>,
}

impl MyExclusiveAllotmentProof {
    /// The leaf position in the model.
    pub open spec fn position_spec(self) -> int {
        self.position as int
    }

    /// The model of the leaf commitment carried by the proof.
    pub open spec fn leaf_spec(self) -> NodeModel {
        self.commitment_to_proof@
    }

    /// The model of the sibling path carried by the proof.
    pub open spec fn path_spec(self) -> Seq<Option<NodeModel>> {
        opt_nodes_of(self.path@)
    }

    /// Whether recomputing the root from the carried leaf along the carried
    /// path reproduces the given root node exactly.
    pub open spec fn verifies(self, root: NodeModel) -> bool {
        fold_path(self.leaf_spec(), self.position_spec(), self.path_spec()) == root
    }

    /// Assemble a proof from its three fields.
    pub fn new(
        commitment_to_proof: MySumCommitment,
        position: usize,
        path: Vec<Option<MySumCommitment>>,
    ) -> (p: Self)
        ensures
            p.commitment_to_proof == commitment_to_proof,
            p.position == position,
            p.path == path,
    {
        MyExclusiveAllotmentProof { commitment_to_proof, position, path }
    }

    /// The leaf commitment the proof speaks for.
    pub fn leaf_commitment(&self) -> (c: MySumCommitment)
        ensures
            c@ == self.leaf_spec(),
    {
        self.commitment_to_proof
    }

    /// Check the proof against a root commitment, first rejecting a path
    /// whose length cannot have come from a tree of the given height.
    pub fn verify_for_height(&self, root_commitment: &MySumCommitment, height: usize) -> (r:
        Result<bool, MerkleError>)
        ensures
            match r {
                Ok(b) => self.path_spec().len() + 1 == height && b == self.verifies(
                    root_commitment@,
                ),
                Err(e) => e == MerkleError::MalformedProof && self.path_spec().len() + 1 != height,
            },
    {
        if height == 0 || self.path.len() != height - 1 {
            Err(MerkleError::MalformedProof)
        } else {
            Ok(self.verify(root_commitment))
        }
    }
}

impl ExclusiveAllotmentProof<MySumCommitment> for MyExclusiveAllotmentProof {
    open spec fn path_len(&self) -> nat {
        self.path@.len()
    }

    open spec fn verify_spec(&self, root: MySumCommitment) -> bool {
        self.verifies(root@)
    }

    fn position(&self) -> (r: usize)
        ensures
            r as int == self.position_spec(),
    {
        self.position
    }

    fn sibling(&self, height: u8) -> (r: Option<MySumCommitment>)
        ensures
            r == self.path@[height as int],
    {
        self.path[height as usize]
    }

    fn verify(&self, root_commitment: &MySumCommitment) -> (r: bool)
        ensures
            r == self.verifies(root_commitment@),
    {
        let ghost full = self.path_spec();
        proof {
            assert(full.skip(0) =~= full);
        }
        let mut current: MySumCommitment = self.commitment_to_proof;
        let mut pos: usize = self.position;
        let mut i: usize = 0;
        let n = self.path.len();
        while i < n
            invariant
                0 <= i <= n,
                n == self.path@.len(),
                full == self.path_spec(),
                fold_path(self.leaf_spec(), self.position_spec(), full) == fold_path(
                    current@,
                    pos as int,
                    full.skip(i as int),
                ),
            decreases n - i,
        {
            let ghost suffix = full.skip(i as int);
            proof {
                assert(suffix.len() > 0);
                assert(suffix.first() == full[i as int]);
                assert(suffix.drop_first() =~= full.skip(i as int + 1));
                assert(full[i as int] == opt_node_of(self.path@[i as int]));
            }
            let entry = self.path[i];
            match entry {
                Option::None => {
                    proof {
                        assert(fold_step(current@, pos as int, full[i as int]) == current@);
                    }
                },
                Option::Some(sib) => {
                    let ghost step = fold_step(current@, pos as int, full[i as int]);
                    proof {
                        assert(step == if pos as int % 2 == 0 {
                            combine_node(current@, sib@)
                        } else {
                            combine_node(sib@, current@)
                        });
                    }
                    match current.amount.checked_add(sib.amount) {
                        Option::None => {
                            proof {
                                assert(step.0 > u64::MAX);
                                lemma_path_view_nonneg(self.path@);
                                assert forall|m: int|
                                    0 <= m < suffix.drop_first().len() implies (
                                match #[trigger] suffix.drop_first()[m] {
                                    Option::Some(s) => s.0 >= 0,
                                    Option::None => true,
                                }) by {
                                    assert(suffix.drop_first()[m] == full[i as int + 1 + m]);
                                }
                                lemma_fold_amount_lower(
                                    step,
                                    pos as int / 2,
                                    suffix.drop_first(),
                                );
                                assert(fold_path(
                                    self.leaf_spec(),
                                    self.position_spec(),
                                    full,
                                ).0 > u64::MAX);
                                assert(root_commitment@.0 <= u64::MAX);
                            }
                            return false;
                        },
                        Option::Some(a) => {
                            let digest = if pos % 2 == 0 {
                                hash_pair(&current.digest, &sib.digest)
                            } else {
                                hash_pair(&sib.digest, &current.digest)
                            };
                            current = MySumCommitment { amount: a, digest };
                            proof {
                                assert(current@ == step);
                            }
                        },
                    }
                },
            }
            pos = pos / 2;
            i += 1;
        }
        proof {
            assert(full.skip(n as int).len() == 0);
        }
        current.equals(root_commitment)
    }
}

/// A Merkle sum tree: every level of commitments, leaves first, ending with
/// the level that holds the single root. Built once from a balance list and
/// read-only thereafter.
pub struct MyMerkleTree {
    /// All levels of the tree; `levels[0]` are the leaf commitments in input
    /// order, the last level holds the root alone.
    pub levels: Vec<Vec<MySumCommitment>>,
    /// The balance list the tree was built from.
    pub balances: Ghost<Seq<u64>>,
}

impl MyMerkleTree {
    /// The balance list the tree commits to.
    pub open spec fn balances_spec(self) -> Seq<u64> {
        self.balances@
    }

    /// Well-formedness: the stored levels are exactly the model tree of a
    /// nonempty balance list whose total fits the supply bound.
    pub open spec fn wf(self) -> bool {
        &&& self.balances@.len() >= 1
        &&& sum_balances(self.balances@) <= MAX_SUPPLY
        &&& levels_view(self.levels@) == tree_levels(self.balances@)
    }

    /// The number of levels, leaves and root included.
    pub fn height(&self) -> (h: usize)
        requires
            self.wf(),
        ensures
            h == tree_levels(self.balances@).len(),
    {
        self.levels.len()
    }

    /// The number of leaves: one per balance the tree was built from.
    pub fn num_leaves(&self) -> (n: usize)
        requires
            self.wf(),
        ensures
            n == self.balances@.len(),
    {
        proof {
            lemma_levels_from_chain(leaves_of(self.balances@));
            assert(levels_view(self.levels@)[0] == tree_levels(self.balances@)[0]);
            assert(nodes_of(self.levels@[0]@).len() == self.levels@[0]@.len());
        }
        let first: &Vec<MySumCommitment> = &self.levels[0];
        first.len()
    }

    /// Build a tree from a balance list, leaf order preserved. Rejects an
    /// empty list and a list whose exact total exceeds `MAX_SUPPLY`, and
    /// succeeds on every other input.
    pub fn build(values: Vec<u64>) -> (r: Result<MyMerkleTree, MerkleError>)
        ensures
            match r {
                Ok(t) => t.wf() && t.balances@ == values@,
                Err(e) => e == MerkleError::InvalidInput && (values@.len() == 0 || sum_balances(
                    values@,
                ) > MAX_SUPPLY),
            },
    {
        let ghost bal = values@;
        if values.len() == 0 {
            return Err(MerkleError::InvalidInput);
        }
        let mut total: u64 = 0;
        let mut i: usize = 0;
        while i < values.len()
            invariant
                bal == values@,
                0 <= i <= bal.len(),
                total as int == sum_balances(bal.take(i as int)),
            decreases bal.len() - i,
        {
            proof {
                lemma_sum_balances_take_succ(bal, i as int);
            }
            total = match total.checked_add(values[i]) {
                Option::Some(t) => t,
                Option::None => {
                    proof {
                        lemma_sum_balances_take_le(bal, i as int + 1);
                    }
                    return Err(MerkleError::InvalidInput);
                },
            };
            i += 1;
        }
        proof {
            assert(bal.take(bal.len() as int) =~= bal);
        }
        let mut current: Vec<MySumCommitment> = Vec::new();
        let mut j: usize = 0;
        while j < values.len()
            invariant
                bal == values@,
                0 <= j <= bal.len(),
                current@.len() == j,
                forall|m: int| 0 <= m < j ==> (#[trigger] current@[m])@ == leaf_node(bal[m]),
            decreases bal.len() - j,
        {
            let c = leaf_commitment(values[j]);
            current.push(c);
            j += 1;
        }
        proof {
            assert(nodes_of(current@) =~= leaves_of(bal));
            lemma_sum_leaves(bal);
            assert(levels_view(Seq::<Vec<MySumCommitment>>::empty()) + levels_from(
                nodes_of(current@),
            ) =~= tree_levels(bal));
        }
        let mut levels: Vec<Vec<MySumCommitment>> = Vec::new();
        while current.len() > 1
            invariant
                bal.len() >= 1,
                sum_balances(bal) <= MAX_SUPPLY,
                current@.len() >= 1,
                sum_nodes(nodes_of(current@)) == sum_balances(bal),
                levels_view(levels@) + levels_from(nodes_of(current@)) == tree_levels(bal),
            decreases current@.len(),
        {
            let ghost cur_model = nodes_of(current@);
            let next = build_next_level(&current);
            proof {
                lemma_sum_next_level(cur_model);
                assert(levels_view(levels@.push(current)) =~= levels_view(levels@) + seq![
                    cur_model,
                ]);
                assert(levels_from(cur_model) == seq![cur_model] + levels_from(
                    next_level(cur_model),
                ));
                assert((levels_view(levels@) + seq![cur_model]) + levels_from(
                    next_level(cur_model),
                ) =~= levels_view(levels@) + levels_from(cur_model));
            }
            levels.push(current);
            current = next;
        }
        proof {
            let cur_model = nodes_of(current@);
            assert(levels_from(cur_model) == seq![cur_model]);
            assert(levels_view(levels@.push(current)) =~= levels_view(levels@) + seq![cur_model]);
        }
        levels.push(current);
        Ok(MyMerkleTree { levels, balances: Ghost(bal) })
    }

    /// The allotment proof for a leaf position, or `PositionOutOfRange` for
    /// an index the tree does not have.
    #[verifier::rlimit(60)]
    pub fn prove_at(&self, position: usize) -> (r: Result<
        MyExclusiveAllotmentProof,
        MerkleError,
    >)
        requires
            self.wf(),
        ensures
            match r {
                Ok(p) => {
                    &&& (position as int) < self.balances@.len()
                    &&& p.position_spec() == position as int
                    &&& p.leaf_spec() == leaves_of(self.balances@)[position as int]
                    &&& p.path_spec() == path_from(tree_levels(self.balances@), position as int)
                    &&& p.path_len() == tree_levels(self.balances@).len() - 1
                },
                Err(e) => e == MerkleError::PositionOutOfRange && (position as int)
                    >= self.balances@.len(),
            },
    {
        let ghost bal = self.balances@;
        let ghost lvls = tree_levels(bal);
        proof {
            lemma_levels_from_chain(leaves_of(bal));
            assert(levels_view(self.levels@)[0] == lvls[0]);
            assert(nodes_of(self.levels@[0]@).len() == self.levels@[0]@.len());
        }
        let first_level_len = {
            let first: &Vec<MySumCommitment> = &self.levels[0];
            first.len()
        };
        if position >= first_level_len {
            return Err(MerkleError::PositionOutOfRange);
        }
        proof {
            lemma_path_from_len(lvls, position as int);
            assert(lvls.skip(0) =~= lvls);
            assert(opt_nodes_of(Seq::<Option<MySumCommitment>>::empty()).len() == 0);
            assert(opt_nodes_of(Seq::<Option<MySumCommitment>>::empty()) + path_from(
                lvls,
                position as int,
            ) =~= path_from(lvls, position as int));
        }
        let height = self.levels.len();
        let mut path: Vec<Option<MySumCommitment>> = Vec::new();
        let mut cur: usize = position;
        let mut i: usize = 0;
        while i < height - 1
            invariant
                self.wf(),
                bal == self.balances@,
                lvls == tree_levels(bal),
                is_chain(lvls),
                height == self.levels@.len(),
                height == lvls.len(),
                height >= 1,
                0 <= i <= height - 1,
                0 <= cur < lvls[i as int].len(),
                path@.len() == i,
                opt_nodes_of(path@) + path_from(lvls.skip(i as int), cur as int) == path_from(
                    lvls,
                    position as int,
                ),
            decreases height - i,
        {
            proof {
                assert(levels_view(self.levels@)[i as int] == lvls[i as int]);
                assert(nodes_of(self.levels@[i as int]@).len() == self.levels@[i as int]@.len());
            }
            let level: &Vec<MySumCommitment> = &self.levels[i];
            let sib_index = if cur % 2 == 0 {
                cur + 1
            } else {
                cur - 1
            };
            let entry = if sib_index < level.len() {
                Some(level[sib_index])
            } else {
                None
            };
            proof {
                if sib_index < level@.len() {
                    assert(nodes_of(level@)[sib_index as int] == level@[sib_index as int]@);
                }
                assert(opt_node_of(entry) == sibling_in(lvls[i as int], cur as int));
                lemma_path_step(lvls, i as int, position as int, cur as int, opt_nodes_of(path@));
                assert(opt_nodes_of(path@.push(entry)) =~= opt_nodes_of(path@) + seq![
                    opt_node_of(entry),
                ]);
            }
            path.push(entry);
            cur = cur / 2;
            i += 1;
        }
        proof {
            assert(lvls.skip(height - 1 as int).len() == 1);
            assert(path_from(lvls.skip(height - 1 as int), cur as int).len() == 0);
            assert(opt_nodes_of(path@) + path_from(lvls.skip(height - 1 as int), cur as int)
                =~= opt_nodes_of(path@));
            assert(levels_view(self.levels@)[0] == lvls[0]);
            assert(nodes_of(self.levels@[0]@)[position as int] == self.levels@[0]@[position as int]@);
        }
        let leaf = {
            let first: &Vec<MySumCommitment> = &self.levels[0];
            first[position]
        };
        Ok(MyExclusiveAllotmentProof { commitment_to_proof: leaf, position, path })
    }
}

/// One level up from a level of two or more commitments: consecutive pairs
/// are combined; the last commitment of an odd-sized level is promoted
/// unchanged, its amount counted once.
fn build_next_level(current: &Vec<MySumCommitment>) -> (next: Vec<MySumCommitment>)
    requires
        current@.len() >= 2,
        sum_nodes(nodes_of(current@)) <= MAX_SUPPLY,
    ensures
        nodes_of(next@) == next_level(nodes_of(current@)),
{
    let ghost model = nodes_of(current@);
    proof {
        lemma_level_view_nonneg(current@);
    }
    let n = current.len();
    let mut next: Vec<MySumCommitment> = Vec::new();
    let mut k: usize = 0;
    while k < n / 2
        invariant
            model == nodes_of(current@),
            current@.len() == n,
            n >= 2,
            nonneg_nodes(model),
            sum_nodes(model) <= MAX_SUPPLY,
            0 <= k <= n / 2,
            next@.len() == k,
            forall|j: int| 0 <= j < k ==> (#[trigger] next@[j])@ == next_level(model)[j],
        decreases n / 2 - k,
    {
        proof {
            lemma_pair_bound(model, k as int);
            assert(model[2 * (k as int)] == current@[2 * (k as int)]@);
            assert(model[2 * (k as int) + 1] == current@[2 * (k as int) + 1]@);
        }
        let left = current[2 * k];
        let right = current[2 * k + 1];
        let c = combine(&left, &right);
        proof {
            assert(next_level(model)[k as int] == combine_node(
                model[2 * (k as int)],
                model[2 * (k as int) + 1],
            ));
        }
        next.push(c);
        k += 1;
    }
    if n % 2 == 1 {
        let last = current[n - 1];
        proof {
            assert(2 * ((n / 2) as int) == n - 1);
            assert(next_level(model)[(n / 2) as int] == model[n - 1]);
            assert(model[n - 1] == current@[n - 1]@);
        }
        next.push(last);
    }
    proof {
        assert(nodes_of(next@) =~= next_level(model));
    }
    next
}

impl MerkleTree<MySumCommitment, MyExclusiveAllotmentProof> for MyMerkleTree {
    open spec fn wf_spec(&self) -> bool {
        self.wf()
    }

    open spec fn can_build(values: Seq<u64>) -> bool {
        values.len() >= 1 && sum_balances(values) <= MAX_SUPPLY
    }

    open spec fn leaf_count(&self) -> int {
        self.balances@.len() as int
    }

    fn new(values: Vec<u64>) -> (t: Self)
        ensures
            t.balances@ == values@,
    {
        match Self::build(values) {
            Ok(t) => t,
            Err(_) => vstd::pervasive::unreached(),
        }
    }

    fn commit(&self) -> (r: MySumCommitment)
        ensures
            r@ == root_of(self.balances@),
            r.amount as int == sum_balances(self.balances@),
    {
        proof {
            lemma_levels_from_last(leaves_of(self.balances@));
            lemma_sum_leaves(self.balances@);
            lemma_sum_conservation(self.balances@);
            assert(levels_view(self.levels@).len() == self.levels@.len());
        }
        let n = self.levels.len();
        proof {
            assert(levels_view(self.levels@)[n - 1] == tree_levels(self.balances@).last());
            assert(nodes_of(self.levels@[n - 1 as int]@).len() == self.levels@[n - 1 as int]@.len());
            assert(nodes_of(self.levels@[n - 1 as int]@)[0] == self.levels@[n - 1 as int]@[0]@);
        }
        let last: &Vec<MySumCommitment> = &self.levels[n - 1];
        last[0]
    }

    fn prove(&self, position: usize) -> (p: MyExclusiveAllotmentProof)
        ensures
            p.position_spec() == position as int,
            p.leaf_spec() == leaves_of(self.balances@)[position as int],
            p.path_spec() == path_from(tree_levels(self.balances@), position as int),
            p.path_len() == tree_levels(self.balances@).len() - 1,
    {
        match self.prove_at(position) {
            Ok(p) => p,
            Err(_) => vstd::pervasive::unreached(),
        }
    }
}

} // verus!
