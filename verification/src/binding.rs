//! What a root commits to: every row of a tree opens to its root, and a root
//! opens to something else only where the hasher collides on the way.

use vstd::prelude::*;
use crate::errors::Error;
use crate::constant::limbs_value;
use crate::linearhash_bn128::LinearHashBN128;
use crate::traits::{digest_collision, lemma_digests_denote_apart, spec_to_bn128};
use crate::digest_bn128::ElementDigest;
use crate::merklehash_bn128::{
    chained, digests_view, height, lemma_climb, lemma_leaves, lemma_top_level, linked, path_from,
    right_of, sibling, spec_fold, spec_leaves, spec_path, spec_verify, MerkleTree,
};

verus! {

/// Two different pairs of digests merge to the same digest.
pub open spec fn merge_collision(
    h: LinearHashBN128,
    a1: Seq<u64>,
    b1: Seq<u64>,
    a2: Seq<u64>,
    b2: Seq<u64>,
) -> bool {
    &&& a1.len() == 4 && b1.len() == 4 && a2.len() == 4 && b2.len() == 4
    &&& a1 != a2 || b1 != b2
    &&& h.spec_merge(a1, b1) is Ok
    &&& h.spec_merge(a1, b1) == h.spec_merge(a2, b2)
}

/// The sponge gives the same state for two different sequences of inputs,
/// absorbed into the zero state.
pub open spec fn sponge_collision(h: LinearHashBN128, in1: Seq<nat>, in2: Seq<nat>) -> bool {
    &&& in1 != in2
    &&& h.sponge().hash_spec(in1, 0) is Some
    &&& h.sponge().hash_spec(in1, 0) == h.sponge().hash_spec(in2, 0)
}

/// The values that a pair of digests hands to the sponge.
pub open spec fn merge_inputs(a: Seq<u64>, b: Seq<u64>) -> Seq<nat> {
    seq![limbs_value(a), limbs_value(b)]
}

/// Where a collision of merges comes from: the two pairs hand different
/// values to the sponge, and either the sponge gives one state for both, or
/// it gives two states that share a digest.
pub proof fn lemma_merge_collision_cause(
    h: LinearHashBN128,
    a1: Seq<u64>,
    b1: Seq<u64>,
    a2: Seq<u64>,
    b2: Seq<u64>,
)
    requires
        merge_collision(h, a1, b1, a2, b2),
    ensures
        sponge_collision(h, merge_inputs(a1, b1), merge_inputs(a2, b2)) || digest_collision(
            h.sponge().hash_spec(merge_inputs(a1, b1), 0).unwrap(),
            h.sponge().hash_spec(merge_inputs(a2, b2), 0).unwrap(),
        ),
{
    let in1 = merge_inputs(a1, b1);
    let in2 = merge_inputs(a2, b2);
    if a1 != a2 {
        lemma_digests_denote_apart(a1, a2);
        assert(in1[0] != in2[0]);
    } else {
        lemma_digests_denote_apart(b1, b2);
        assert(in1[1] != in2[1]);
    }
}

/// Two different pairs of digests merge to different digests, unless the
/// sponge gives one state for both or gives two states that share a digest.
/// So a changed sibling changes the merged digest, and so does swapping a
/// node with a sibling that differs from it.
pub proof fn lemma_merges_differ(
    h: LinearHashBN128,
    a1: Seq<u64>,
    b1: Seq<u64>,
    a2: Seq<u64>,
    b2: Seq<u64>,
)
    requires
        a1.len() == 4 && b1.len() == 4 && a2.len() == 4 && b2.len() == 4,
        a1 != a2 || b1 != b2,
        h.spec_merge(a1, b1) is Ok,
        h.spec_merge(a2, b2) is Ok,
        !sponge_collision(h, merge_inputs(a1, b1), merge_inputs(a2, b2)),
        !digest_collision(
            h.sponge().hash_spec(merge_inputs(a1, b1), 0).unwrap(),
            h.sponge().hash_spec(merge_inputs(a2, b2), 0).unwrap(),
        ),
    ensures
        h.spec_merge(a1, b1) != h.spec_merge(a2, b2),
{
    if h.spec_merge(a1, b1) == h.spec_merge(a2, b2) {
        lemma_merge_collision_cause(h, a1, b1, a2, b2);
    }
}

/// Two different rows of one length have the same digest.
pub open spec fn leaf_collision(h: LinearHashBN128, r1: Seq<u64>, r2: Seq<u64>) -> bool {
    &&& r1.len() == r2.len()
    &&& r1 != r2
    &&& h.spec_leaf(r1) is Ok
    &&& h.spec_leaf(r1) == h.spec_leaf(r2)
}

/// A node and its sibling in the order in which they are merged: the node
/// first where its index is even.
pub open spec fn ordered(cur: Seq<u64>, sib: Seq<u64>, idx: nat) -> (Seq<u64>, Seq<u64>) {
    if idx % 2 == 0 {
        (cur, sib)
    } else {
        (sib, cur)
    }
}

/// The two folds meet in a collision: at some level they merge different
/// pairs of digests to the same digest.
pub open spec fn fold_collision(
    h: LinearHashBN128,
    c1: Seq<u64>,
    p1: Seq<Seq<u64>>,
    idx1: nat,
    c2: Seq<u64>,
    p2: Seq<Seq<u64>>,
    idx2: nat,
) -> bool
    decreases p1.len(),
{
    if p1.len() == 0 || p2.len() == 0 {
        false
    } else {
        let (a1, b1) = ordered(c1, p1[0], idx1);
        let (a2, b2) = ordered(c2, p2[0], idx2);
        match (h.spec_merge(a1, b1), h.spec_merge(a2, b2)) {
            (Ok(m1), Ok(m2)) => merge_collision(h, a1, b1, a2, b2) || fold_collision(
                h,
                m1,
                p1.skip(1),
                idx1 / 2,
                m2,
                p2.skip(1),
                idx2 / 2,
            ),
            _ => false,
        }
    }
}

/// The two openings meet in a collision: the rows are different and have the
/// same digest, or the folds of their digests meet in one.
pub open spec fn opening_collision(
    h: LinearHashBN128,
    row1: Seq<u64>,
    path1: Seq<Seq<u64>>,
    idx1: nat,
    row2: Seq<u64>,
    path2: Seq<Seq<u64>>,
    idx2: nat,
) -> bool {
    leaf_collision(h, row1, row2) || match (h.spec_leaf(row1), h.spec_leaf(row2)) {
        (Ok(l1), Ok(l2)) => fold_collision(h, l1, path1, idx1, l2, path2, idx2),
        _ => false,
    }
}

/// Every digest of the sequence has four elements.
pub open spec fn all_digests(path: Seq<Seq<u64>>) -> bool {
    forall|k: int| 0 <= k < path.len() ==> (#[trigger] path[k]).len() == 4
}

/// Some level tells the indices `idx1` and `idx2` apart: they have different
/// parity there, and the node that `cur` has folded to is not its own sibling.
pub open spec fn separates(
    h: LinearHashBN128,
    cur: Seq<u64>,
    path: Seq<Seq<u64>>,
    idx1: nat,
    idx2: nat,
) -> bool
    decreases path.len(),
{
    if path.len() == 0 {
        false
    } else if idx1 % 2 != idx2 % 2 && cur != path[0] {
        true
    } else {
        let merged = if idx1 % 2 == 0 {
            h.spec_merge(cur, path[0])
        } else {
            h.spec_merge(path[0], cur)
        };
        match merged {
            Err(_) => false,
            Ok(up) => separates(h, up, path.skip(1), idx1 / 2, idx2 / 2),
        }
    }
}

/// A fold does not meet itself in a collision.
pub proof fn lemma_no_collision_with_itself(
    h: LinearHashBN128,
    cur: Seq<u64>,
    path: Seq<Seq<u64>>,
    idx: nat,
)
    ensures
        !fold_collision(h, cur, path, idx, cur, path, idx),
    decreases path.len(),
{
    if path.len() > 0 {
        let (a, b) = ordered(cur, path[0], idx);
        if let Ok(up) = h.spec_merge(a, b) {
            lemma_no_collision_with_itself(h, up, path.skip(1), idx / 2);
        }
    }
}

/// The digests of a proof have four elements each.
pub proof fn lemma_digests_view(s: Seq<ElementDigest>)
    ensures
        all_digests(digests_view(s)),
        digests_view(s).len() == s.len(),
{
}

/// In a chain of levels whose top has one node, node `i` of level `k` folds
/// along its sibling path to that node.
pub proof fn lemma_fold_to_top(h: LinearHashBN128, levels: Seq<Seq<Seq<u64>>>, k: nat, i: nat)
    requires
        chained(h, levels),
        k < levels.len(),
        i < levels[k as int].len(),
        levels.last().len() == 1,
    ensures
        spec_fold(h, levels[k as int][i as int], path_from(levels, k, i), i) == Ok::<
            Seq<u64>,
            Error,
        >(levels.last()[0]),
    decreases levels.len() - k,
{
    if k + 1 < levels.len() {
        let lower = levels[k as int];
        let upper = levels[(k + 1) as int];
        assert(linked(h, lower, upper));
        let j = (i / 2) as int;
        assert(0 <= j < upper.len());
        let cur = lower[i as int];
        let sib = lower[sibling(lower.len(), i) as int];
        let path = path_from(levels, k, i);
        let rest = path_from(levels, k + 1, i / 2);
        let merged = if i % 2 == 0 {
            h.spec_merge(cur, sib)
        } else {
            h.spec_merge(sib, cur)
        };
        assert(merged == Ok::<Seq<u64>, Error>(upper[j])) by {
            assert(h.spec_merge(lower[2 * j], lower[right_of(lower.len(), j)]) == Ok::<
                Seq<u64>,
                Error,
            >(upper[j]));
            if i % 2 == 0 {
                assert(2 * j == i);
                assert(right_of(lower.len(), j) == sibling(lower.len(), i));
            } else {
                assert(2 * j + 1 == i);
                assert(right_of(lower.len(), j) == i);
                assert(sibling(lower.len(), i) == 2 * j);
            }
        }
        assert(path.len() > 0 && path[0] == sib);
        assert(path.skip(1) =~= rest);
        assert(spec_fold(h, cur, path, i) == spec_fold(h, upper[j], rest, i / 2));
        lemma_fold_to_top(h, levels, k + 1, i / 2);
    } else {
        assert(levels.last() == levels[k as int]);
        assert(path_from(levels, k, i).len() == 0);
    }
}

/// Round trip: in a tree, every row with its own sibling path and index folds
/// to the root.
pub proof fn lemma_round_trip(tree: MerkleTree, idx: nat)
    requires
        tree.wf(),
        idx < tree.spec_n(),
    ensures
        spec_verify(
            tree.spec_hasher(),
            tree.spec_root(),
            spec_path(tree.spec_levels(), idx),
            idx,
            tree.spec_row(idx),
        ),
{
    let h = tree.spec_hasher();
    let n = tree.spec_n();
    lemma_leaves(h, tree.spec_elements(), tree.spec_n_pols(), n, n);
    let leaves = spec_leaves(h, tree.spec_elements(), tree.spec_n_pols(), n, n).unwrap();
    lemma_climb(h, leaves, height(n));
    lemma_top_level(h, leaves);
    let levels = tree.spec_levels();
    assert(levels[0][idx as int] == leaves[idx as int]);
    lemma_fold_to_top(h, levels, 0, idx);
}

/// Two trees over one matrix, built with one hasher, have the same levels and
/// the same root.
pub proof fn lemma_same_build_same_root(first: MerkleTree, second: MerkleTree)
    requires
        first.wf(),
        second.wf(),
        first.spec_hasher() == second.spec_hasher(),
        first.spec_elements() == second.spec_elements(),
        first.spec_n_pols() == second.spec_n_pols(),
        first.spec_n() == second.spec_n(),
    ensures
        first.spec_levels() == second.spec_levels(),
        first.spec_root() == second.spec_root(),
{
}

/// Two nodes with one index that fold to the same digest along paths of one
/// length are the same node with the same path, or the folds meet in a
/// collision.
pub proof fn lemma_fold_binds(
    h: LinearHashBN128,
    c1: Seq<u64>,
    p1: Seq<Seq<u64>>,
    c2: Seq<u64>,
    p2: Seq<Seq<u64>>,
    idx: nat,
)
    requires
        c1.len() == 4,
        c2.len() == 4,
        all_digests(p1),
        all_digests(p2),
        p1.len() == p2.len(),
        spec_fold(h, c1, p1, idx) is Ok,
        spec_fold(h, c1, p1, idx) == spec_fold(h, c2, p2, idx),
        c1 != c2 || p1 != p2,
    ensures
        fold_collision(h, c1, p1, idx, c2, p2, idx),
    decreases p1.len(),
{
    if p1.len() == 0 {
        assert(p1 =~= p2);
    } else {
        let (a1, b1) = ordered(c1, p1[0], idx);
        let (a2, b2) = ordered(c2, p2[0], idx);
        let m1 = h.spec_merge(a1, b1);
        let m2 = h.spec_merge(a2, b2);
        h.lemma_merge(a1, b1);
        h.lemma_merge(a2, b2);
        assert(all_digests(p1.skip(1)));
        assert(all_digests(p2.skip(1)));
        if m1 == m2 && (a1 != a2 || b1 != b2) {
            assert(merge_collision(h, a1, b1, a2, b2));
        } else {
            if m1 == m2 && p1.skip(1) == p2.skip(1) {
                assert(p1 =~= p2) by {
                    assert forall|k: int| 0 <= k < p1.len() implies p1[k] == p2[k] by {
                        if k > 0 {
                            assert(p1.skip(1)[k - 1] == p1[k]);
                            assert(p2.skip(1)[k - 1] == p2[k]);
                        }
                    }
                }
            }
            lemma_fold_binds(h, m1.unwrap(), p1.skip(1), m2.unwrap(), p2.skip(1), idx / 2);
        }
    }
}

/// Two different nodes that fold to the same digest along one path, each
/// with an index of its own: the folds meet in a collision.
pub proof fn lemma_fold_binds_any_index(
    h: LinearHashBN128,
    c1: Seq<u64>,
    c2: Seq<u64>,
    path: Seq<Seq<u64>>,
    idx1: nat,
    idx2: nat,
)
    requires
        c1.len() == 4,
        c2.len() == 4,
        all_digests(path),
        spec_fold(h, c1, path, idx1) is Ok,
        spec_fold(h, c1, path, idx1) == spec_fold(h, c2, path, idx2),
        c1 != c2,
    ensures
        fold_collision(h, c1, path, idx1, c2, path, idx2),
    decreases path.len(),
{
    if path.len() > 0 {
        let (a1, b1) = ordered(c1, path[0], idx1);
        let (a2, b2) = ordered(c2, path[0], idx2);
        let m1 = h.spec_merge(a1, b1);
        let m2 = h.spec_merge(a2, b2);
        h.lemma_merge(a1, b1);
        h.lemma_merge(a2, b2);
        assert(all_digests(path.skip(1)));
        if m1 == m2 {
            assert(merge_collision(h, a1, b1, a2, b2));
        } else {
            lemma_fold_binds_any_index(h, m1.unwrap(), m2.unwrap(), path.skip(1), idx1 / 2, idx2 / 2);
        }
    }
}

/// One node that folds to the same digest along one path with two indices
/// that some level tells apart: the folds meet in a collision.
pub proof fn lemma_fold_binds_index(
    h: LinearHashBN128,
    cur: Seq<u64>,
    path: Seq<Seq<u64>>,
    idx1: nat,
    idx2: nat,
)
    requires
        cur.len() == 4,
        all_digests(path),
        spec_fold(h, cur, path, idx1) is Ok,
        spec_fold(h, cur, path, idx1) == spec_fold(h, cur, path, idx2),
        separates(h, cur, path, idx1, idx2),
    ensures
        fold_collision(h, cur, path, idx1, cur, path, idx2),
    decreases path.len(),
{
    if path.len() > 0 {
        let (a1, b1) = ordered(cur, path[0], idx1);
        let (a2, b2) = ordered(cur, path[0], idx2);
        let m1 = h.spec_merge(a1, b1);
        let m2 = h.spec_merge(a2, b2);
        h.lemma_merge(a1, b1);
        h.lemma_merge(a2, b2);
        assert(all_digests(path.skip(1)));
        if idx1 % 2 != idx2 % 2 && cur != path[0] {
            if m1 == m2 {
                assert(merge_collision(h, a1, b1, a2, b2));
            } else {
                lemma_fold_binds_any_index(
                    h,
                    m1.unwrap(),
                    m2.unwrap(),
                    path.skip(1),
                    idx1 / 2,
                    idx2 / 2,
                );
            }
        } else {
            assert(m1 == m2);
            lemma_fold_binds_index(h, m1.unwrap(), path.skip(1), idx1 / 2, idx2 / 2);
        }
    }
}

/// No level tells an index apart from itself.
pub proof fn lemma_same_index_not_separated(
    h: LinearHashBN128,
    cur: Seq<u64>,
    path: Seq<Seq<u64>>,
    idx: nat,
)
    ensures
        !separates(h, cur, path, idx, idx),
    decreases path.len(),
{
    if path.len() > 0 {
        let merged = if idx % 2 == 0 {
            h.spec_merge(cur, path[0])
        } else {
            h.spec_merge(path[0], cur)
        };
        if let Ok(up) = merged {
            lemma_same_index_not_separated(h, up, path.skip(1), idx / 2);
        }
    }
}

/// Tamper detection: where a row with its path and index opens a root, no
/// other row of that length, no other path of that length and no index that
/// some level tells apart from the right one opens it too, unless the two
/// openings meet in a collision of the hasher.
pub proof fn lemma_tamper_detection(
    h: LinearHashBN128,
    root: Seq<u64>,
    path: Seq<Seq<u64>>,
    idx: nat,
    row: Seq<u64>,
    path2: Seq<Seq<u64>>,
    idx2: nat,
    row2: Seq<u64>,
)
    requires
        all_digests(path),
        all_digests(path2),
        path2.len() == path.len(),
        row2.len() == row.len(),
        spec_verify(h, root, path, idx, row),
        (idx2 == idx && (row2 != row || path2 != path)) || (row2 == row && path2 == path
            && separates(h, h.spec_leaf(row).unwrap(), path, idx, idx2)),
    ensures
        spec_verify(h, root, path2, idx2, row2) ==> opening_collision(
            h,
            row,
            path,
            idx,
            row2,
            path2,
            idx2,
        ),
{
    if spec_verify(h, root, path2, idx2, row2) {
        let leaf = h.spec_leaf(row).unwrap();
        let leaf2 = h.spec_leaf(row2).unwrap();
        h.lemma_leaf(row);
        h.lemma_leaf(row2);
        if idx2 == idx {
            if leaf != leaf2 {
                lemma_fold_binds(h, leaf, path, leaf2, path2, idx);
            } else if row != row2 {
                assert(leaf_collision(h, row, row2));
            } else {
                lemma_same_index_not_separated(h, leaf, path, idx);
                lemma_fold_binds(h, leaf, path, leaf2, path2, idx);
            }
        } else {
            lemma_fold_binds_index(h, leaf, path, idx, idx2);
        }
    }
}

/// The sibling path of a row of a tree holds digests, one for each level
/// below the top.
pub proof fn lemma_path_shape(tree: MerkleTree, idx: nat)
    requires
        tree.wf(),
        idx < tree.spec_n(),
    ensures
        all_digests(spec_path(tree.spec_levels(), idx)),
        spec_path(tree.spec_levels(), idx).len() == height(tree.spec_n()),
{
    let h = tree.spec_hasher();
    let n = tree.spec_n();
    lemma_leaves(h, tree.spec_elements(), tree.spec_n_pols(), n, n);
    let leaves = spec_leaves(h, tree.spec_elements(), tree.spec_n_pols(), n, n).unwrap();
    lemma_climb(h, leaves, height(n));
    let levels = tree.spec_levels();
    assert forall|i: int| 0 <= i < leaves.len() implies (#[trigger] leaves[i]).len() == 4 by {
        h.lemma_leaf(tree.spec_row(i as nat));
    }
    lemma_levels_hold_digests(h, levels, 0);
    lemma_path_from_shape(h, levels, 0, idx);
}

/// In a chain of levels over a level of digests, every node is a digest.
pub proof fn lemma_levels_hold_digests(h: LinearHashBN128, levels: Seq<Seq<Seq<u64>>>, k: nat)
    requires
        chained(h, levels),
        k < levels.len(),
        all_digests(levels[k as int]),
    ensures
        forall|m: int| k <= m < levels.len() ==> all_digests(#[trigger] levels[m]),
    decreases levels.len() - k,
{
    if k + 1 < levels.len() {
        let lower = levels[k as int];
        let upper = levels[(k + 1) as int];
        assert(linked(h, lower, upper));
        assert forall|j: int| 0 <= j < upper.len() implies (#[trigger] upper[j]).len() == 4 by {
            h.lemma_merge(lower[2 * j], lower[right_of(lower.len(), j)]);
        }
        lemma_levels_hold_digests(h, levels, k + 1);
    }
}

/// The sibling path from level `k` has one digest for each level above it.
pub proof fn lemma_path_from_shape(h: LinearHashBN128, levels: Seq<Seq<Seq<u64>>>, k: nat, i: nat)
    requires
        chained(h, levels),
        k < levels.len(),
        i < levels[k as int].len(),
        forall|m: int| k <= m < levels.len() ==> all_digests(#[trigger] levels[m]),
    ensures
        all_digests(path_from(levels, k, i)),
        path_from(levels, k, i).len() == levels.len() - 1 - k,
    decreases levels.len() - k,
{
    if k + 1 < levels.len() {
        let lower = levels[k as int];
        assert(linked(h, lower, levels[(k + 1) as int]));
        assert(all_digests(lower));
        lemma_path_from_shape(h, levels, k + 1, i / 2);
        let head = lower[sibling(lower.len(), i) as int];
        let rest = path_from(levels, k + 1, i / 2);
        assert(head.len() == 4);
        assert forall|m: int| 0 <= m < (seq![head] + rest).len() implies (#[trigger] (seq![head]
            + rest)[m]).len() == 4 by {
            if m > 0 {
                assert((seq![head] + rest)[m] == rest[m - 1]);
            }
        }
    }
}

/// A changed row element is detected: the row of a tree with one element
/// replaced by another value does not open the root with the sibling path
/// and index of that row, unless the two openings meet in a collision of the
/// hasher.
pub proof fn lemma_changed_element_detected(tree: MerkleTree, idx: nat, column: int, value: u64)
    requires
        tree.wf(),
        idx < tree.spec_n(),
        0 <= column < tree.spec_n_pols(),
        value != tree.spec_row(idx)[column],
    ensures
        spec_verify(
            tree.spec_hasher(),
            tree.spec_root(),
            spec_path(tree.spec_levels(), idx),
            idx,
            tree.spec_row(idx).update(column, value),
        ) ==> opening_collision(
            tree.spec_hasher(),
            tree.spec_row(idx),
            spec_path(tree.spec_levels(), idx),
            idx,
            tree.spec_row(idx).update(column, value),
            spec_path(tree.spec_levels(), idx),
            idx,
        ),
{
    let row = tree.spec_row(idx);
    let path = spec_path(tree.spec_levels(), idx);
    lemma_round_trip(tree, idx);
    lemma_path_shape(tree, idx);
    assert(row.update(column, value)[column] != row[column]);
    lemma_tamper_detection(
        tree.spec_hasher(),
        tree.spec_root(),
        path,
        idx,
        row,
        path,
        idx,
        row.update(column, value),
    );
}

/// A changed sibling is detected: the sibling path of a row of a tree with
/// one digest replaced by another does not open the root with that row and
/// its index, unless the two openings meet in a collision of the hasher.
pub proof fn lemma_changed_sibling_detected(tree: MerkleTree, idx: nat, level: int, digest: Seq<u64>)
    requires
        tree.wf(),
        idx < tree.spec_n(),
        0 <= level < height(tree.spec_n()),
        digest.len() == 4,
        digest != spec_path(tree.spec_levels(), idx)[level],
    ensures
        spec_verify(
            tree.spec_hasher(),
            tree.spec_root(),
            spec_path(tree.spec_levels(), idx).update(level, digest),
            idx,
            tree.spec_row(idx),
        ) ==> opening_collision(
            tree.spec_hasher(),
            tree.spec_row(idx),
            spec_path(tree.spec_levels(), idx),
            idx,
            tree.spec_row(idx),
            spec_path(tree.spec_levels(), idx).update(level, digest),
            idx,
        ),
{
    let row = tree.spec_row(idx);
    let path = spec_path(tree.spec_levels(), idx);
    lemma_round_trip(tree, idx);
    lemma_path_shape(tree, idx);
    assert(path.update(level, digest)[level] != path[level]);
    lemma_tamper_detection(
        tree.spec_hasher(),
        tree.spec_root(),
        path,
        idx,
        row,
        path.update(level, digest),
        idx,
        row,
    );
}

/// A wrong index is detected: a row of a tree with its sibling path does not
/// open the root under another index that some level tells apart from its
/// own, unless the two openings meet in a collision of the hasher.
pub proof fn lemma_wrong_index_detected(tree: MerkleTree, idx: nat, wrong: nat)
    requires
        tree.wf(),
        idx < tree.spec_n(),
        separates(
            tree.spec_hasher(),
            tree.spec_hasher().spec_leaf(tree.spec_row(idx)).unwrap(),
            spec_path(tree.spec_levels(), idx),
            idx,
            wrong,
        ),
    ensures
        spec_verify(
            tree.spec_hasher(),
            tree.spec_root(),
            spec_path(tree.spec_levels(), idx),
            wrong,
            tree.spec_row(idx),
        ) ==> opening_collision(
            tree.spec_hasher(),
            tree.spec_row(idx),
            spec_path(tree.spec_levels(), idx),
            idx,
            tree.spec_row(idx),
            spec_path(tree.spec_levels(), idx),
            wrong,
        ),
{
    let row = tree.spec_row(idx);
    let path = spec_path(tree.spec_levels(), idx);
    lemma_round_trip(tree, idx);
    lemma_path_shape(tree, idx);
    lemma_same_index_not_separated(
        tree.spec_hasher(),
        tree.spec_hasher().spec_leaf(row).unwrap(),
        path,
        idx,
    );
    lemma_tamper_detection(tree.spec_hasher(), tree.spec_root(), path, idx, row, path, wrong, row);
}

} // verus!
