//! The mathematical model of the Merkle sum tree.
//!
//! A node is modelled as a pair of its amount (an unbounded integer) and its
//! digest (a byte sequence). The tree is the sequence of its levels, leaves
//! first; each level pairs consecutive nodes of the level below, and the last
//! node of an odd-sized level is promoted unchanged. Every contract of the
//! executable code is stated over these functions.

use vstd::prelude::*;

use crate::hashing::{sha256_of, u64_be_bytes};

verus! {

/// A tree node in the model: `(amount, digest)`.
pub type NodeModel = (int, Seq<u8>);

/// The largest total the tree accepts; a build whose balances sum to more
/// than this is rejected, so every amount stored in a node fits in a `u64`.
pub const MAX_SUPPLY: u64 = u64::MAX;

/// The leaf node for a single balance: the balance itself, and the SHA-256
/// digest of its fixed-width big-endian encoding.
pub open spec fn leaf_node(v: u64) -> NodeModel {
    (v as int, sha256_of(u64_be_bytes(v)))
}

/// The internal node over two children: amounts add, and the digest is the
/// SHA-256 digest of the two child digests concatenated left-then-right.
pub open spec fn combine_node(l: NodeModel, r: NodeModel) -> NodeModel {
    (l.0 + r.0, sha256_of(l.1 + r.1))
}

/// One level up: consecutive nodes `2k, 2k+1` are combined; the last node of
/// an odd-sized level has no partner and is promoted unchanged, so its
/// balance is counted exactly once.
pub open spec fn next_level(level: Seq<NodeModel>) -> Seq<NodeModel> {
    Seq::new(((level.len() + 1) / 2) as nat, |k: int|
        if 2 * k + 1 < level.len() {
            combine_node(level[2 * k], level[2 * k + 1])
        } else {
            level[2 * k]
        })
}

/// All levels of the tree grown from a starting level, that level first,
/// ending with the first level of size one.
pub open spec fn levels_from(level: Seq<NodeModel>) -> Seq<Seq<NodeModel>>
    decreases level.len(),
{
    if level.len() <= 1 {
        seq![level]
    } else {
        seq![level] + levels_from(next_level(level))
    }
}

/// The leaf level of a balance list, in input order.
pub open spec fn leaves_of(balances: Seq<u64>) -> Seq<NodeModel> {
    balances.map(|i: int, v: u64| leaf_node(v))
}

/// All levels of the tree built from a balance list.
pub open spec fn tree_levels(balances: Seq<u64>) -> Seq<Seq<NodeModel>> {
    levels_from(leaves_of(balances))
}

/// The root node of the tree built from a balance list.
pub open spec fn root_of(balances: Seq<u64>) -> NodeModel {
    tree_levels(balances).last()[0]
}

/// The exact sum of a balance list.
pub open spec fn sum_balances(s: Seq<u64>) -> int
    decreases s.len(),
{
    if s.len() == 0 {
        0
    } else {
        sum_balances(s.drop_last()) + s.last()
    }
}

/// The sum of the amounts of a level.
pub open spec fn sum_nodes(l: Seq<NodeModel>) -> int
    decreases l.len(),
{
    if l.len() == 0 {
        0
    } else {
        sum_nodes(l.drop_last()) + l.last().0
    }
}

/// Every amount of the level is nonnegative.
pub open spec fn nonneg_nodes(l: Seq<NodeModel>) -> bool {
    forall|i: int| 0 <= i < l.len() ==> l[i].0 >= 0
}

/// The sibling disclosed for position `pos` of a level: the partner it was
/// paired with, or `None` when `pos` is the promoted last node of an
/// odd-sized level.
pub open spec fn sibling_in(level: Seq<NodeModel>, pos: int) -> Option<NodeModel> {
    let sib = if pos % 2 == 0 { pos + 1 } else { pos - 1 };
    if 0 <= sib < level.len() {
        Some(level[sib])
    } else {
        None
    }
}

/// The sibling path for a leaf position: one entry per level below the root,
/// leaf level first, halving the position at each step.
pub open spec fn path_from(levels: Seq<Seq<NodeModel>>, pos: int) -> Seq<Option<NodeModel>>
    decreases levels.len(),
{
    if levels.len() <= 1 {
        Seq::<Option<NodeModel>>::empty()
    } else {
        seq![sibling_in(levels[0], pos)] + path_from(levels.drop_first(), pos / 2)
    }
}

/// One verification step: a `None` entry carries the node up unchanged; a
/// disclosed sibling is combined on the side given by the position's parity.
pub open spec fn fold_step(current: NodeModel, pos: int, entry: Option<NodeModel>) -> NodeModel {
    match entry {
        Option::None => current,
        Option::Some(sib) => if pos % 2 == 0 {
            combine_node(current, sib)
        } else {
            combine_node(sib, current)
        },
    }
}

/// The node a verifier recomputes from a starting node, its position, and a
/// sibling path, consuming the path in order and halving the position.
pub open spec fn fold_path(current: NodeModel, pos: int, path: Seq<Option<NodeModel>>) -> NodeModel
    decreases path.len(),
{
    if path.len() == 0 {
        current
    } else {
        fold_path(fold_step(current, pos, path.first()), pos / 2, path.drop_first())
    }
}

/// Every disclosed sibling of the path has a nonnegative amount.
pub open spec fn nonneg_path(path: Seq<Option<NodeModel>>) -> bool {
    forall|i: int| 0 <= i < path.len() ==> (match #[trigger] path[i] {
        Option::Some(sib) => sib.0 >= 0,
        Option::None => true,
    })
}

/// Sums distribute over concatenation of levels.
pub proof fn lemma_sum_nodes_concat(a: Seq<NodeModel>, b: Seq<NodeModel>)
    ensures
        sum_nodes(a + b) == sum_nodes(a) + sum_nodes(b),
    decreases b.len(),
{
    if b.len() == 0 {
        assert(a + b =~= a);
    } else {
        assert((a + b).drop_last() =~= a + b.drop_last());
        lemma_sum_nodes_concat(a, b.drop_last());
        assert((a + b).last() == b.last());
    }
}

/// Extending a prefix of a balance list by one element adds that element to
/// the prefix sum.
pub proof fn lemma_sum_balances_take_succ(s: Seq<u64>, i: int)
    requires
        0 <= i < s.len(),
    ensures
        sum_balances(s.take(i + 1)) == sum_balances(s.take(i)) + s[i],
{
    assert(s.take(i + 1).drop_last() =~= s.take(i));
    assert(s.take(i + 1).last() == s[i]);
}

/// A prefix of a balance list never sums to more than the whole list.
pub proof fn lemma_sum_balances_take_le(s: Seq<u64>, j: int)
    requires
        0 <= j <= s.len(),
    ensures
        sum_balances(s.take(j)) <= sum_balances(s),
    decreases s.len() - j,
{
    if j == s.len() {
        assert(s.take(j) =~= s);
    } else {
        lemma_sum_balances_take_succ(s, j);
        lemma_sum_balances_take_le(s, j + 1);
    }
}

/// A level of nonnegative amounts has a nonnegative sum.
pub proof fn lemma_sum_nodes_nonneg(l: Seq<NodeModel>)
    requires
        nonneg_nodes(l),
    ensures
        sum_nodes(l) >= 0,
    decreases l.len(),
{
    if l.len() > 0 {
        assert forall|i: int| 0 <= i < l.drop_last().len() implies l.drop_last()[i].0 >= 0 by {
            assert(l.drop_last()[i] == l[i]);
        }
        lemma_sum_nodes_nonneg(l.drop_last());
        assert(l.last() == l[l.len() - 1]);
    }
}

/// No adjacent pair of a level with nonnegative amounts sums to more than the
/// whole level.
pub proof fn lemma_pair_bound(l: Seq<NodeModel>, k: int)
    requires
        nonneg_nodes(l),
        0 <= k,
        2 * k + 1 < l.len(),
    ensures
        l[2 * k].0 + l[2 * k + 1].0 <= sum_nodes(l),
{
    let a = l.take(2 * k);
    let mid = l.subrange(2 * k, 2 * k + 2);
    let b = l.skip(2 * k + 2);
    assert(l =~= (a + mid) + b);
    lemma_sum_nodes_concat(a + mid, b);
    lemma_sum_nodes_concat(a, mid);
    assert forall|i: int| 0 <= i < a.len() implies a[i].0 >= 0 by {
        assert(a[i] == l[i]);
    }
    assert forall|i: int| 0 <= i < b.len() implies b[i].0 >= 0 by {
        assert(b[i] == l[2 * k + 2 + i]);
    }
    lemma_sum_nodes_nonneg(a);
    lemma_sum_nodes_nonneg(b);
    let m1 = mid.drop_last();
    assert(sum_nodes(m1.drop_last()) == 0);
    assert(m1.last() == l[2 * k]);
    assert(sum_nodes(m1) == l[2 * k].0);
    assert(mid.last() == l[2 * k + 1]);
    assert(sum_nodes(mid) == l[2 * k].0 + l[2 * k + 1].0);
}

/// The level above a level of two or more nodes is its first pair combined,
/// followed by the level above the rest.
pub proof fn lemma_next_level_unfold(l: Seq<NodeModel>)
    requires
        l.len() >= 2,
    ensures
        next_level(l) == seq![combine_node(l[0], l[1])] + next_level(l.skip(2)),
{
    let lhs = next_level(l);
    let rhs = seq![combine_node(l[0], l[1])] + next_level(l.skip(2));
    assert(lhs.len() == rhs.len());
    assert forall|k: int| 0 <= k < lhs.len() implies lhs[k] == rhs[k] by {
        if k > 0 {
            assert(rhs[k] == next_level(l.skip(2))[k - 1]);
            assert(l.skip(2)[2 * (k - 1)] == l[2 * k]);
            if 2 * (k - 1) + 1 < l.skip(2).len() {
                assert(l.skip(2)[2 * (k - 1) + 1] == l[2 * k + 1]);
            }
        }
    }
    assert(lhs =~= rhs);
}

/// Promotion counts no balance twice: a level and the level above it carry
/// the same total.
pub proof fn lemma_sum_next_level(l: Seq<NodeModel>)
    ensures
        sum_nodes(next_level(l)) == sum_nodes(l),
    decreases l.len(),
{
    if l.len() == 0 {
        assert(next_level(l).len() == 0);
        assert(sum_nodes(next_level(l)) == 0);
        assert(sum_nodes(l) == 0);
    } else if l.len() == 1 {
        let nl = next_level(l);
        assert(nl.len() == 1);
        assert(nl.last() == l[0]);
        assert(sum_nodes(nl.drop_last()) == 0);
        assert(sum_nodes(nl) == l[0].0);
        assert(l.last() == l[0]);
        assert(sum_nodes(l.drop_last()) == 0);
        assert(sum_nodes(l) == l[0].0);
    } else {
        let rest = l.skip(2);
        lemma_next_level_unfold(l);
        lemma_sum_next_level(rest);
        let head = seq![combine_node(l[0], l[1])];
        lemma_sum_nodes_concat(head, next_level(rest));
        assert(sum_nodes(head.drop_last()) == 0);
        assert(head.last() == combine_node(l[0], l[1]));
        assert(sum_nodes(head) == l[0].0 + l[1].0);
        assert(l =~= l.take(2) + rest);
        lemma_sum_nodes_concat(l.take(2), rest);
        assert(l.take(2).drop_last() =~= l.take(1));
        assert(l.take(2).last() == l[1]);
        assert(sum_nodes(l.take(1).drop_last()) == 0);
        assert(l.take(1).last() == l[0]);
        assert(sum_nodes(l.take(1)) == l[0].0);
        assert(sum_nodes(l.take(2)) == l[0].0 + l[1].0);
    }
}

/// The leaf level of a balance list carries exactly the sum of the list.
pub proof fn lemma_sum_leaves(b: Seq<u64>)
    ensures
        sum_nodes(leaves_of(b)) == sum_balances(b),
    decreases b.len(),
{
    if b.len() > 0 {
        assert(leaves_of(b).drop_last() =~= leaves_of(b.drop_last()));
        lemma_sum_leaves(b.drop_last());
        assert(leaves_of(b).last() == leaf_node(b.last()));
    }
}

/// Growing levels from a nonempty level ends in a single root node whose
/// amount is the sum of the level it grew from.
pub proof fn lemma_levels_from_last(l: Seq<NodeModel>)
    requires
        l.len() >= 1,
    ensures
        levels_from(l).len() >= 1,
        levels_from(l).last().len() == 1,
        levels_from(l).last()[0].0 == sum_nodes(l),
    decreases l.len(),
{
    if l.len() == 1 {
        assert(levels_from(l).last() == l);
        assert(sum_nodes(l.drop_last()) == 0);
        assert(l.last() == l[0]);
        assert(levels_from(l).last()[0] == l[0]);
    } else {
        let nl = next_level(l);
        assert(nl.len() == (l.len() + 1) / 2);
        lemma_levels_from_last(nl);
        lemma_sum_next_level(l);
        assert((seq![l] + levels_from(nl)).last() == levels_from(nl).last());
    }
}

/// Sum conservation: the root of a tree built from a nonempty balance list
/// carries exactly the sum of the balances — none dropped, none counted
/// twice, whatever the list's length at any level.
pub proof fn lemma_sum_conservation(balances: Seq<u64>)
    requires
        balances.len() >= 1,
    ensures
        root_of(balances).0 == sum_balances(balances),
{
    lemma_sum_leaves(balances);
    lemma_levels_from_last(leaves_of(balances));
}

/// A sequence of levels is a chain when each level above the first is the
/// level below it paired up, and the last level holds the single root.
pub open spec fn is_chain(lvls: Seq<Seq<NodeModel>>) -> bool {
    &&& lvls.len() >= 1
    &&& lvls.last().len() == 1
    &&& forall|i: int| 0 <= i < lvls.len() - 1
        ==> (#[trigger] lvls[i]).len() >= 2 && lvls[i + 1] == next_level(lvls[i])
}

/// The levels grown from a nonempty level form a chain starting at it.
pub proof fn lemma_levels_from_chain(l: Seq<NodeModel>)
    requires
        l.len() >= 1,
    ensures
        is_chain(levels_from(l)),
        levels_from(l)[0] == l,
    decreases l.len(),
{
    if l.len() == 1 {
        assert(levels_from(l).last() == l);
    } else {
        let nl = next_level(l);
        assert(nl.len() == (l.len() + 1) / 2);
        lemma_levels_from_chain(nl);
        let rest = levels_from(nl);
        let lvls = seq![l] + rest;
        assert(lvls.last() == rest.last());
        assert forall|i: int| 0 <= i < lvls.len() - 1 implies (#[trigger] lvls[i]).len() >= 2
            && lvls[i + 1] == next_level(lvls[i]) by {
            if i == 0 {
                assert(lvls[0] == l);
                assert(lvls[1] == rest[0]);
            } else {
                assert(lvls[i] == rest[i - 1]);
                assert(lvls[i + 1] == rest[i]);
                assert(rest[i - 1].len() >= 2 && rest[i] == next_level(rest[i - 1]));
            }
        }
    }
}

/// A position within a level lands within the level above after halving.
pub proof fn lemma_pos_in_next(l: Seq<NodeModel>, pos: int)
    requires
        0 <= pos < l.len(),
    ensures
        0 <= pos / 2 < next_level(l).len(),
{
    assert(next_level(l).len() == (l.len() + 1) / 2);
}

/// One step of collecting a sibling path: extending the collected prefix by
/// the sibling at the current level keeps it a prefix of the full path, and
/// the halved position lands within the level above.
pub proof fn lemma_path_step(
    lvls: Seq<Seq<NodeModel>>,
    i: int,
    pos0: int,
    cur: int,
    acc: Seq<Option<NodeModel>>,
)
    requires
        is_chain(lvls),
        0 <= i < lvls.len() - 1,
        0 <= cur < lvls[i].len(),
        acc + path_from(lvls.skip(i), cur) == path_from(lvls, pos0),
    ensures
        (acc + seq![sibling_in(lvls[i], cur)]) + path_from(lvls.skip(i + 1), cur / 2) == path_from(
            lvls,
            pos0,
        ),
        0 <= cur / 2 < lvls[i + 1].len(),
{
    let suffix = lvls.skip(i);
    assert(suffix.len() == lvls.len() - i >= 2);
    assert(suffix[0] == lvls[i]);
    assert(suffix.drop_first() =~= lvls.skip(i + 1));
    assert(path_from(suffix, cur) == seq![sibling_in(lvls[i], cur)] + path_from(
        lvls.skip(i + 1),
        cur / 2,
    ));
    assert((acc + seq![sibling_in(lvls[i], cur)]) + path_from(lvls.skip(i + 1), cur / 2) =~= acc
        + path_from(suffix, cur));
    lemma_pos_in_next(lvls[i], cur);
    assert(lvls[i + 1] == next_level(lvls[i]));
}

/// A sibling path holds one entry per level below the root.
pub proof fn lemma_path_from_len(levels: Seq<Seq<NodeModel>>, pos: int)
    requires
        levels.len() >= 1,
    ensures
        path_from(levels, pos).len() == levels.len() - 1,
    decreases levels.len(),
{
    if levels.len() > 1 {
        lemma_path_from_len(levels.drop_first(), pos / 2);
    }
}

/// Folding the sibling path drawn from grown levels reproduces their root:
/// the heart of proof correctness.
pub proof fn lemma_fold_levels(level: Seq<NodeModel>, pos: int)
    requires
        level.len() >= 1,
        0 <= pos < level.len(),
    ensures
        fold_path(level[pos], pos, path_from(levels_from(level), pos)) == levels_from(level).last()[0],
    decreases level.len(),
{
    if level.len() == 1 {
        assert(levels_from(level).last() == level);
        assert(path_from(levels_from(level), pos).len() == 0);
    } else {
        let nl = next_level(level);
        let rest = levels_from(nl);
        let lvls = seq![level] + rest;
        assert(lvls.len() >= 2);
        assert(lvls[0] == level);
        assert(lvls.drop_first() =~= rest);
        let sib = sibling_in(level, pos);
        let tail = path_from(rest, pos / 2);
        assert(path_from(lvls, pos) == seq![sib] + tail);
        assert((seq![sib] + tail).first() == sib);
        assert((seq![sib] + tail).drop_first() =~= tail);
        let k = pos / 2;
        let step = fold_step(level[pos], pos, sib);
        lemma_pos_in_next(level, pos);
        assert(pos == 2 * (pos / 2) + pos % 2);
        if pos % 2 == 0 {
            if pos + 1 < level.len() {
                assert(sib == Some(level[pos + 1]));
                assert(nl[k] == combine_node(level[2 * k], level[2 * k + 1]));
                assert(step == nl[k]);
            } else {
                assert(sib is None);
                assert(nl[k] == level[2 * k]);
                assert(step == nl[k]);
            }
        } else {
            assert(sib == Some(level[pos - 1]));
            assert(2 * k + 1 == pos);
            assert(nl[k] == combine_node(level[2 * k], level[2 * k + 1]));
            assert(step == nl[k]);
        }
        assert(nl.len() >= 1);
        lemma_fold_levels(nl, k);
        assert(fold_path(level[pos], pos, path_from(lvls, pos))
            == fold_path(step, k, tail));
        assert(lvls.last() == rest.last());
    }
}

/// Folding a path of nonnegative siblings never shrinks the amount.
pub proof fn lemma_fold_amount_lower(start: NodeModel, pos: int, path: Seq<Option<NodeModel>>)
    requires
        nonneg_path(path),
    ensures
        fold_path(start, pos, path).0 >= start.0,
    decreases path.len(),
{
    if path.len() > 0 {
        let step = fold_step(start, pos, path.first());
        assert(path.first() == path[0]);
        assert(step.0 >= start.0);
        assert forall|i: int| 0 <= i < path.drop_first().len() implies (match #[trigger] path.drop_first()[i] {
            Option::Some(sib) => sib.0 >= 0,
            Option::None => true,
        }) by {
            assert(path.drop_first()[i] == path[i + 1]);
        }
        lemma_fold_amount_lower(step, pos / 2, path.drop_first());
    }
}

/// Shifting the starting amount shifts the folded amount by the same offset
/// and leaves every digest along the path unchanged.
pub proof fn lemma_fold_amount_shift(start: NodeModel, delta: int, pos: int, path: Seq<Option<NodeModel>>)
    ensures
        fold_path((start.0 + delta, start.1), pos, path)
            == (fold_path(start, pos, path).0 + delta, fold_path(start, pos, path).1),
    decreases path.len(),
{
    if path.len() > 0 {
        let step = fold_step(start, pos, path.first());
        let tampered = fold_step((start.0 + delta, start.1), pos, path.first());
        assert(tampered == (step.0 + delta, step.1));
        lemma_fold_amount_shift(step, delta, pos / 2, path.drop_first());
    }
}

} // verus!
