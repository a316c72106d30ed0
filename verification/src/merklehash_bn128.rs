//! The Merkle tree over the rows of an evaluation matrix.
//!
//! A level of odd length pairs its last node with itself, when the tree is
//! built and when a proof is checked.

use vstd::prelude::*;
use crate::digest_bn128::ElementDigest;
use crate::errors::Error;
use crate::linearhash_bn128::LinearHashBN128;
use crate::traits::spec_to_bn128;

verus! {

/// The elements of a sequence of digests.
pub open spec fn digests_view(s: Seq<ElementDigest>) -> Seq<Seq<u64>> {
    s.map_values(|d: ElementDigest| d@)
}

/// The elements of the digests of every level.
pub open spec fn levels_view(s: Seq<Vec<ElementDigest>>) -> Seq<Seq<Seq<u64>>> {
    s.map_values(|level: Vec<ElementDigest>| digests_view(level@))
}

/// Row `i` of a matrix of `n` rows that is stored column after column.
pub open spec fn row_at(values: Seq<u64>, n_pols: nat, n: nat, i: nat) -> Seq<u64> {
    Seq::new(n_pols, |c: int| values[c * n + i])
}

/// The number of levels above a level of `n` nodes: the least `k` with
/// `n <= 2^k`.
pub open spec fn height(n: nat) -> nat
    decreases n,
{
    if n <= 1 {
        0
    } else {
        1 + height((n + 1) / 2)
    }
}

/// The height of a tree of `n` leaves is the logarithm of `n` to the base 2,
/// rounded up: `2^height` reaches `n`, and no smaller power of 2 does.
pub proof fn lemma_height(n: nat)
    ensures
        n <= vstd::arithmetic::power2::pow2(height(n)),
        n > 1 ==> vstd::arithmetic::power2::pow2((height(n) - 1) as nat) < n,
    decreases n,
{
    vstd::arithmetic::power2::lemma2_to64();
    if n > 1 {
        let half = (n + 1) / 2;
        lemma_height(half);
        vstd::arithmetic::power2::lemma_pow2_unfold(height(n));
        if half > 1 {
            vstd::arithmetic::power2::lemma_pow2_unfold(height(half));
        }
    }
}

/// The index of the right child of node `j` under a level of `len` nodes: the
/// last node of a level of odd length is its own right neighbour.
pub open spec fn right_of(len: nat, j: int) -> int {
    if 2 * j + 1 < len {
        2 * j + 1
    } else {
        2 * j
    }
}

/// The index of the node that node `i` of a level of `len` nodes is merged with.
pub open spec fn sibling(len: nat, i: nat) -> nat {
    if i % 2 == 1 {
        (i - 1) as nat
    } else if i + 1 < len {
        i + 1
    } else {
        i
    }
}

/// The digests of the first `count` rows, or the failure of the first row
/// that has none.
pub open spec fn spec_leaves(
    h: LinearHashBN128,
    values: Seq<u64>,
    n_pols: nat,
    n: nat,
    count: nat,
) -> Result<Seq<Seq<u64>>, Error>
    decreases count,
{
    if count == 0 {
        Ok(Seq::empty())
    } else {
        match spec_leaves(h, values, n_pols, n, (count - 1) as nat) {
            Err(e) => Err(e),
            Ok(done) => match h.spec_leaf(row_at(values, n_pols, n, (count - 1) as nat)) {
                Err(e) => Err(e),
                Ok(d) => Ok(done.push(d)),
            },
        }
    }
}

/// The first `count` nodes of the level above `lower`, or the failure of the
/// first pair that cannot be merged.
pub open spec fn spec_pairs(h: LinearHashBN128, lower: Seq<Seq<u64>>, count: nat) -> Result<
    Seq<Seq<u64>>,
    Error,
>
    decreases count,
{
    if count == 0 {
        Ok(Seq::empty())
    } else {
        match spec_pairs(h, lower, (count - 1) as nat) {
            Err(e) => Err(e),
            Ok(done) => match h.spec_merge(
                lower[2 * (count - 1)],
                lower[right_of(lower.len(), count - 1)],
            ) {
                Err(e) => Err(e),
                Ok(d) => Ok(done.push(d)),
            },
        }
    }
}

/// The level above `lower`: half as many nodes, rounded up.
pub open spec fn spec_next_level(h: LinearHashBN128, lower: Seq<Seq<u64>>) -> Result<
    Seq<Seq<u64>>,
    Error,
> {
    spec_pairs(h, lower, (lower.len() + 1) / 2)
}

/// The level `level` and the `steps` levels above it, lowest first.
pub open spec fn spec_climb(h: LinearHashBN128, level: Seq<Seq<u64>>, steps: nat) -> Result<
    Seq<Seq<Seq<u64>>>,
    Error,
>
    decreases steps,
{
    if steps == 0 {
        Ok(seq![level])
    } else {
        match spec_next_level(h, level) {
            Err(e) => Err(e),
            Ok(up) => match spec_climb(h, up, (steps - 1) as nat) {
                Err(e) => Err(e),
                Ok(rest) => Ok(seq![level] + rest),
            },
        }
    }
}

/// All levels of the tree over a matrix, from the leaves to the root.
pub open spec fn spec_tree(h: LinearHashBN128, values: Seq<u64>, n_pols: nat, n: nat) -> Result<
    Seq<Seq<Seq<u64>>>,
    Error,
> {
    match spec_leaves(h, values, n_pols, n, n) {
        Err(e) => Err(e),
        Ok(leaves) => spec_climb(h, leaves, height(n)),
    }
}

/// The siblings of node `i` of level `k` and of its ancestors below the top
/// level, lowest first.
pub open spec fn path_from(levels: Seq<Seq<Seq<u64>>>, k: nat, i: nat) -> Seq<Seq<u64>>
    decreases levels.len() - k,
{
    if k + 1 >= levels.len() {
        Seq::empty()
    } else {
        seq![levels[k as int][sibling(levels[k as int].len(), i) as int]] + path_from(
            levels,
            k + 1,
            i / 2,
        )
    }
}

/// The sibling path of leaf `idx`.
pub open spec fn spec_path(levels: Seq<Seq<Seq<u64>>>, idx: nat) -> Seq<Seq<u64>> {
    path_from(levels, 0, idx)
}

/// The digest that the node `cur` with index `idx` folds to along `path`: at
/// each level it is merged with its sibling, on the left where its index is
/// even and on the right where it is odd, and the index is halved.
pub open spec fn spec_fold(h: LinearHashBN128, cur: Seq<u64>, path: Seq<Seq<u64>>, idx: nat) -> Result<
    Seq<u64>,
    Error,
>
    decreases path.len(),
{
    if path.len() == 0 {
        Ok(cur)
    } else {
        let merged = if idx % 2 == 0 {
            h.spec_merge(cur, path[0])
        } else {
            h.spec_merge(path[0], cur)
        };
        match merged {
            Err(e) => Err(e),
            Ok(up) => spec_fold(h, up, path.skip(1), idx / 2),
        }
    }
}

/// Whether the row `row` with index `idx` and the sibling path `path` fold to
/// `root`.
pub open spec fn spec_verify(
    h: LinearHashBN128,
    root: Seq<u64>,
    path: Seq<Seq<u64>>,
    idx: nat,
    row: Seq<u64>,
) -> bool {
    match h.spec_leaf(row) {
        Err(_) => false,
        Ok(leaf) => spec_fold(h, leaf, path, idx) == Ok::<Seq<u64>, Error>(root),
    }
}

/// Where the first `count` rows have digests, there are `count` of them, one
/// for each row; and where one has none, no greater count has.
pub proof fn lemma_leaves(
    h: LinearHashBN128,
    values: Seq<u64>,
    n_pols: nat,
    n: nat,
    count: nat,
)
    ensures
        match spec_leaves(h, values, n_pols, n, count) {
            Ok(leaves) => leaves.len() == count && forall|i: int|
                0 <= i < count ==> h.spec_leaf(row_at(values, n_pols, n, i as nat)) == Ok::<
                    Seq<u64>,
                    Error,
                >(#[trigger] leaves[i]),
            Err(e) => forall|more: nat|
                more >= count ==> #[trigger] spec_leaves(h, values, n_pols, n, more) == Err::<
                    Seq<Seq<u64>>,
                    Error,
                >(e),
        },
    decreases count,
{
    if count > 0 {
        lemma_leaves(h, values, n_pols, n, (count - 1) as nat);
    }
    if let Err(e) = spec_leaves(h, values, n_pols, n, count) {
        assert forall|more: nat| more >= count implies #[trigger] spec_leaves(
            h,
            values,
            n_pols,
            n,
            more,
        ) == Err::<Seq<Seq<u64>>, Error>(e) by {
            lemma_leaves_fail(h, values, n_pols, n, count, more);
        }
    }
}

/// A failure among the first `count` rows is the failure of every greater count.
pub proof fn lemma_leaves_fail(
    h: LinearHashBN128,
    values: Seq<u64>,
    n_pols: nat,
    n: nat,
    count: nat,
    more: nat,
)
    requires
        more >= count,
        spec_leaves(h, values, n_pols, n, count) is Err,
    ensures
        spec_leaves(h, values, n_pols, n, more) == spec_leaves(h, values, n_pols, n, count),
    decreases more,
{
    if more > count {
        lemma_leaves_fail(h, values, n_pols, n, count, (more - 1) as nat);
    }
}

/// `upper` is the level above `lower`: half as long, rounded up, and each of
/// its nodes the merge of the two below it.
pub open spec fn linked(h: LinearHashBN128, lower: Seq<Seq<u64>>, upper: Seq<Seq<u64>>) -> bool {
    &&& upper.len() == (lower.len() + 1) / 2
    &&& forall|j: int|
        0 <= j < upper.len() ==> h.spec_merge(lower[2 * j], lower[right_of(lower.len(), j)])
            == Ok::<Seq<u64>, Error>(#[trigger] upper[j])
}

/// Every level but the first is the level above the one before it.
pub open spec fn chained(h: LinearHashBN128, levels: Seq<Seq<Seq<u64>>>) -> bool {
    forall|k: int| 0 <= k < levels.len() - 1 ==> linked(h, #[trigger] levels[k], levels[k + 1])
}

/// Where the first `count` pairs merge, there are `count` nodes, each the
/// merge of its pair.
pub proof fn lemma_pairs(h: LinearHashBN128, lower: Seq<Seq<u64>>, count: nat)
    ensures
        match spec_pairs(h, lower, count) {
            Ok(up) => up.len() == count && forall|j: int|
                0 <= j < count ==> h.spec_merge(lower[2 * j], lower[right_of(lower.len(), j)])
                    == Ok::<Seq<u64>, Error>(#[trigger] up[j]),
            Err(_) => true,
        },
    decreases count,
{
    if count > 0 {
        lemma_pairs(h, lower, (count - 1) as nat);
    }
}

/// A failure among the first `count` pairs is the failure of every greater count.
pub proof fn lemma_pairs_fail(h: LinearHashBN128, lower: Seq<Seq<u64>>, count: nat, more: nat)
    requires
        more >= count,
        spec_pairs(h, lower, count) is Err,
    ensures
        spec_pairs(h, lower, more) == spec_pairs(h, lower, count),
    decreases more,
{
    if more > count {
        lemma_pairs_fail(h, lower, count, (more - 1) as nat);
    }
}

/// The level that `spec_next_level` gives is the level above.
pub proof fn lemma_next_level(h: LinearHashBN128, lower: Seq<Seq<u64>>)
    ensures
        match spec_next_level(h, lower) {
            Ok(up) => linked(h, lower, up),
            Err(_) => true,
        },
{
    lemma_pairs(h, lower, (lower.len() + 1) / 2);
}

/// The shape of the levels that a climb gives: one more than the steps, the
/// first the level it started from, and each next one the level above.
pub proof fn lemma_climb(h: LinearHashBN128, level: Seq<Seq<u64>>, steps: nat)
    ensures
        match spec_climb(h, level, steps) {
            Ok(levels) => levels.len() == steps + 1 && levels[0] == level && chained(h, levels),
            Err(_) => true,
        },
    decreases steps,
{
    if steps > 0 {
        lemma_next_level(h, level);
        if let Ok(up) = spec_next_level(h, level) {
            lemma_climb(h, up, (steps - 1) as nat);
            if let Ok(rest) = spec_climb(h, up, (steps - 1) as nat) {
                let levels = seq![level] + rest;
                assert forall|k: int| 0 <= k < levels.len() - 1 implies linked(
                    h,
                    #[trigger] levels[k],
                    levels[k + 1],
                ) by {
                    if k == 0 {
                        assert(levels[1] == rest[0]);
                    } else {
                        assert(levels[k] == rest[k - 1]);
                        assert(levels[k + 1] == rest[k]);
                        assert(linked(h, rest[k - 1], rest[k - 1 + 1]));
                    }
                }
            }
        }
    } else {
        assert(chained(h, seq![level]));
    }
}

/// After `height(n)` halvings a level of `n` nodes has come down to one node,
/// or to none where it had none.
pub proof fn lemma_top_level(h: LinearHashBN128, level: Seq<Seq<u64>>)
    ensures
        match spec_climb(h, level, height(level.len())) {
            Ok(levels) => levels.last().len() == if level.len() == 0 {
                0nat
            } else {
                1nat
            },
            Err(_) => true,
        },
    decreases level.len(),
{
    if level.len() > 1 {
        lemma_next_level(h, level);
        if let Ok(up) = spec_next_level(h, level) {
            lemma_top_level(h, up);
            if let Ok(rest) = spec_climb(h, up, height(up.len())) {
                lemma_climb(h, up, height(up.len()));
                let levels = seq![level] + rest;
                assert(levels.last() == rest.last());
            }
        }
    }
}

/// Every digest of the level denotes a value of the outer field.
pub open spec fn in_field(level: Seq<Seq<u64>>) -> bool {
    forall|i: int| 0 <= i < level.len() ==> spec_to_bn128(#[trigger] level[i]) is Ok
}

/// The rows have digests unless the sponge fails, which a complete sponge
/// never does, and their digests denote values of the outer field.
pub proof fn lemma_leaves_errors(
    h: LinearHashBN128,
    values: Seq<u64>,
    n_pols: nat,
    n: nat,
    count: nat,
)
    ensures
        match spec_leaves(h, values, n_pols, n, count) {
            Ok(leaves) => in_field(leaves),
            Err(e) => e == Error::HashAbsorption && !h.complete(),
        },
    decreases count,
{
    if count > 0 {
        lemma_leaves_errors(h, values, n_pols, n, (count - 1) as nat);
        h.lemma_leaf(row_at(values, n_pols, n, (count - 1) as nat));
    }
}

/// Over a level of digests that denote values of the outer field, the pairs
/// merge unless the sponge fails, which a complete sponge never does, and to
/// digests that denote such values.
pub proof fn lemma_pairs_errors(h: LinearHashBN128, lower: Seq<Seq<u64>>, count: nat)
    requires
        in_field(lower),
        count <= (lower.len() + 1) / 2,
    ensures
        match spec_pairs(h, lower, count) {
            Ok(up) => in_field(up),
            Err(e) => e == Error::HashAbsorption && !h.complete(),
        },
    decreases count,
{
    if count > 0 {
        lemma_pairs_errors(h, lower, (count - 1) as nat);
        h.lemma_merge(lower[2 * (count - 1)], lower[right_of(lower.len(), count - 1)]);
    }
}

/// Over a level of digests that denote values of the outer field, a climb
/// fails only where the sponge does, which a complete sponge never does.
pub proof fn lemma_climb_errors(h: LinearHashBN128, level: Seq<Seq<u64>>, steps: nat)
    requires
        in_field(level),
    ensures
        spec_climb(h, level, steps) matches Err(e) ==> e == Error::HashAbsorption && !h.complete(),
    decreases steps,
{
    if steps > 0 {
        lemma_pairs_errors(h, level, (level.len() + 1) / 2);
        if let Ok(up) = spec_next_level(h, level) {
            lemma_climb_errors(h, up, (steps - 1) as nat);
        }
    }
}

/// A tree that cannot be built fails in the sponge: never for its shape, and
/// never for a digest that denotes no field value. With a complete sponge
/// every tree can be built.
pub proof fn lemma_tree_errors(h: LinearHashBN128, values: Seq<u64>, n_pols: nat, n: nat)
    ensures
        spec_tree(h, values, n_pols, n) matches Err(e) ==> e == Error::HashAbsorption && !h.complete(),
{
    lemma_leaves_errors(h, values, n_pols, n, n);
    if let Ok(leaves) = spec_leaves(h, values, n_pols, n, n) {
        lemma_climb_errors(h, leaves, height(n));
    }
}

/// The root of a tree with the given levels: the one node of the top level,
/// or the zero digest where the tree has no node.
pub open spec fn root_of(levels: Seq<Seq<Seq<u64>>>) -> Seq<u64> {
    if levels.last().len() == 0 {
        seq![0u64, 0u64, 0u64, 0u64]
    } else {
        levels.last()[0]
    }
}

/// The levels `done`, followed by the levels of `rest` where there are any.
pub open spec fn prepend(done: Seq<Seq<Seq<u64>>>, rest: Result<Seq<Seq<Seq<u64>>>, Error>) -> Result<
    Seq<Seq<Seq<u64>>>,
    Error,
> {
    match rest {
        Ok(more) => Ok(done + more),
        Err(e) => Err(e),
    }
}

/// Row `i` of the matrix, gathered from its columns.
fn gather_row(values: &Vec<u64>, n_pols: usize, n: usize, i: usize) -> (row: Vec<u64>)
    requires
        values.len() == n_pols * n,
        i < n,
    ensures
        row@ == row_at(values@, n_pols as nat, n as nat, i as nat),
{
    let mut row: Vec<u64> = Vec::new();
    let mut c: usize = 0;
    let ghost want = row_at(values@, n_pols as nat, n as nat, i as nat);
    while c < n_pols
        invariant
            values.len() == n_pols * n,
            i < n,
            c <= n_pols,
            want == row_at(values@, n_pols as nat, n as nat, i as nat),
            row@ == want.take(c as int),
        decreases n_pols - c,
    {
        assert(c * n + i < n_pols * n) by (nonlinear_arith)
            requires
                c < n_pols,
                i < n,
        ;
        row.push(values[c * n + i]);
        assert(want.take(c + 1) == want.take(c as int).push(want[c as int]));
        c += 1;
    }
    assert(want.take(n_pols as int) == want);
    row
}

/// The digests of all rows of the matrix, in the order of the rows.
fn leaf_digests(hasher: &LinearHashBN128, values: &Vec<u64>, n_pols: usize, n: usize) -> (r: Result<
    Vec<ElementDigest>,
    Error,
>)
    requires
        hasher.wf(),
        values.len() == n_pols * n,
    ensures
        match spec_leaves(*hasher, values@, n_pols as nat, n as nat, n as nat) {
            Ok(leaves) => r.is_ok() && digests_view(r.unwrap()@) == leaves,
            Err(e) => r == Err::<Vec<ElementDigest>, Error>(e),
        },
{
    let mut leaves: Vec<ElementDigest> = Vec::new();
    let mut i: usize = 0;
    assert(digests_view(leaves@) =~= Seq::<Seq<u64>>::empty());
    while i < n
        invariant
            hasher.wf(),
            values.len() == n_pols * n,
            i <= n,
            spec_leaves(*hasher, values@, n_pols as nat, n as nat, i as nat) == Ok::<
                Seq<Seq<u64>>,
                Error,
            >(digests_view(leaves@)),
        decreases n - i,
    {
        let row = gather_row(values, n_pols, n, i);
        let ghost before = digests_view(leaves@);
        match hasher.hash_row(row.as_slice()) {
            Ok(d) => {
                leaves.push(d);
                assert(digests_view(leaves@) =~= before.push(d@));
            },
            Err(e) => {
                proof {
                    lemma_leaves_fail(
                        *hasher,
                        values@,
                        n_pols as nat,
                        n as nat,
                        (i + 1) as nat,
                        n as nat,
                    );
                }
                return Err(e);
            },
        }
        i += 1;
    }
    Ok(leaves)
}

/// The level above `lower`: each node the merge of two neighbours, the last
/// node of a level of odd length merged with itself.
fn next_level(hasher: &LinearHashBN128, lower: &Vec<ElementDigest>) -> (r: Result<
    Vec<ElementDigest>,
    Error,
>)
    requires
        hasher.wf(),
    ensures
        match spec_next_level(*hasher, digests_view(lower@)) {
            Ok(up) => r.is_ok() && digests_view(r.unwrap()@) == up,
            Err(e) => r == Err::<Vec<ElementDigest>, Error>(e),
        },
{
    let len: usize = lower.len();
    let count: usize = len / 2 + len % 2;
    let ghost low = digests_view(lower@);
    let mut upper: Vec<ElementDigest> = Vec::new();
    let mut j: usize = 0;
    assert(digests_view(upper@) =~= Seq::<Seq<u64>>::empty());
    while j < count
        invariant
            hasher.wf(),
            len == lower.len(),
            count == (len + 1) / 2,
            low == digests_view(lower@),
            j <= count,
            spec_pairs(*hasher, low, j as nat) == Ok::<Seq<Seq<u64>>, Error>(
                digests_view(upper@),
            ),
        decreases count - j,
    {
        let left: usize = 2 * j;
        let right: usize = if left + 1 < len {
            left + 1
        } else {
            left
        };
        let pair = [lower[left], lower[right]];
        let ghost before = digests_view(upper@);
        match hasher.merge(&pair) {
            Ok(d) => {
                upper.push(d);
                assert(digests_view(upper@) =~= before.push(d@));
            },
            Err(e) => {
                proof {
                    lemma_pairs_fail(*hasher, low, (j + 1) as nat, count as nat);
                }
                return Err(e);
            },
        }
        j += 1;
    }
    Ok(upper)
}

/// `r` is what building the tree over the matrix with the hasher `h` gives:
/// `ShapeMismatch` where the matrix does not hold `n_pols * n` elements, else
/// the failure of the first row or pair of nodes without a digest, and else
/// the tree with that hasher, that matrix and its levels.
pub open spec fn built_with(
    h: LinearHashBN128,
    values: Seq<u64>,
    n_pols: nat,
    n: nat,
    r: Result<MerkleTree, Error>,
) -> bool {
    if values.len() != n_pols * n {
        r matches Err(e) && e == Error::ShapeMismatch
    } else {
        match spec_tree(h, values, n_pols, n) {
            Ok(levels) => {
                &&& r matches Ok(tree)
                &&& r->Ok_0.wf()
                &&& r->Ok_0.spec_hasher() == h
                &&& r->Ok_0.spec_elements() == values
                &&& r->Ok_0.spec_n_pols() == n_pols
                &&& r->Ok_0.spec_n() == n
                &&& r->Ok_0.spec_levels() == levels
            },
            Err(e) => r matches Err(x) && x == e,
        }
    }
}

/// The hasher of a tree: one of its own, or one that it has on loan and may
/// share with other trees.
pub enum TreeHasher<'a> {
    /// A hasher that belongs to the tree.
    Own(LinearHashBN128),
    /// A hasher that the tree has on loan.
    Lent(&'a LinearHashBN128),
}

impl<'a> TreeHasher<'a> {
    /// The hasher, whoever owns it.
    pub open spec fn hasher(&self) -> LinearHashBN128 {
        match self {
            TreeHasher::Own(h) => *h,
            TreeHasher::Lent(h) => **h,
        }
    }

    /// The hasher, whoever owns it.
    pub fn get(&self) -> (r: &LinearHashBN128)
        ensures
            *r == self.hasher(),
    {
        match self {
            TreeHasher::Own(h) => h,
            TreeHasher::Lent(h) => *h,
        }
    }
}

/// Builds the levels and the root of the tree over a matrix.
fn build_levels(hasher: &LinearHashBN128, values: &Vec<u64>, n_pols: usize, n: usize) -> (r: Result<
    (Vec<Vec<ElementDigest>>, ElementDigest),
    Error,
>)
    requires
        hasher.wf(),
    ensures
        values.len() != n_pols * n ==> (r matches Err(e) && e == Error::ShapeMismatch),
        values.len() == n_pols * n ==> match spec_tree(*hasher, values@, n_pols as nat, n as nat) {
            Ok(levels) => r matches Ok(built) && levels_view(built.0@) == levels && built.1@
                == root_of(levels),
            Err(e) => (r matches Err(x) && x == e),
        },
{
    let len: usize = values.len();
    match n_pols.checked_mul(n) {
        Some(total) => {
            if total != len {
                return Err(Error::ShapeMismatch);
            }
        },
        None => {
            return Err(Error::ShapeMismatch);
        },
    }
    let leaves = match leaf_digests(hasher, values, n_pols, n) {
        Ok(x) => x,
        Err(e) => {
            return Err(e);
        },
    };
    let ghost bottom = digests_view(leaves@);
    proof {
        lemma_leaves(*hasher, values@, n_pols as nat, n as nat, n as nat);
    }
    let mut levels: Vec<Vec<ElementDigest>> = Vec::new();
    let mut cur: Vec<ElementDigest> = leaves;
    assert(levels_view(levels@) =~= Seq::<Seq<Seq<u64>>>::empty());
    assert(prepend(
        levels_view(levels@),
        spec_climb(*hasher, bottom, height(bottom.len())),
    ) == spec_climb(*hasher, bottom, height(bottom.len()))) by {
        if let Ok(more) = spec_climb(*hasher, bottom, height(bottom.len())) {
            assert(levels_view(levels@) + more =~= more);
        }
    }
    while cur.len() > 1
        invariant
            hasher.wf(),
            values.len() == n_pols * n,
            bottom.len() == n,
            spec_leaves(*hasher, values@, n_pols as nat, n as nat, n as nat) == Ok::<
                Seq<Seq<u64>>,
                Error,
            >(bottom),
            spec_climb(*hasher, bottom, height(bottom.len())) == prepend(
                levels_view(levels@),
                spec_climb(*hasher, digests_view(cur@), height(cur.len() as nat)),
            ),
        decreases cur.len(),
    {
        let ghost low = digests_view(cur@);
        let ghost done = levels_view(levels@);
        proof {
            lemma_next_level(*hasher, low);
        }
        let next = match next_level(hasher, &cur) {
            Ok(x) => x,
            Err(e) => {
                return Err(e);
            },
        };
        levels.push(cur);
        cur = next;
        proof {
            let up = digests_view(cur@);
            assert(levels_view(levels@) =~= done.push(low));
            if let Ok(more) = spec_climb(*hasher, up, height(up.len())) {
                assert(done + (seq![low] + more) =~= done.push(low) + more);
            }
        }
    }
    let root = if cur.len() == 0 {
        ElementDigest([0, 0, 0, 0])
    } else {
        cur[0]
    };
    proof {
        let top = digests_view(cur@);
        let done = levels_view(levels@);
        assert(done + seq![top] =~= done.push(top));
        assert(done.push(top).last() == top);
        if cur.len() == 0 {
            assert(root@ =~= seq![0u64, 0u64, 0u64, 0u64]);
        }
    }
    let ghost top = digests_view(cur@);
    let ghost done = levels_view(levels@);
    levels.push(cur);
    assert(levels_view(levels@) =~= done.push(top));
    Ok((levels, root))
}

/// The Merkle tree over the rows of an evaluation matrix, with the matrix
/// itself and the hasher that its nodes were made with, its own or one on
/// loan.
pub struct MerkleTree<'a> {
    hasher: TreeHasher<'a>,
    elements: Vec<u64>,
    n_pols: usize,
    n: usize,
    levels: Vec<Vec<ElementDigest>>,
    root: ElementDigest,
}

impl<'a> MerkleTree<'a> {
    /// The hasher that the nodes were made with.
    pub closed spec fn spec_hasher(&self) -> LinearHashBN128 {
        self.hasher.hasher()
    }

    /// The matrix, column after column.
    pub closed spec fn spec_elements(&self) -> Seq<u64> {
        self.elements@
    }

    /// The number of columns.
    pub closed spec fn spec_n_pols(&self) -> nat {
        self.n_pols as nat
    }

    /// The number of rows.
    pub closed spec fn spec_n(&self) -> nat {
        self.n as nat
    }

    /// The digests of every level, from the leaves to the root.
    pub closed spec fn spec_levels(&self) -> Seq<Seq<Seq<u64>>> {
        levels_view(self.levels@)
    }

    /// The root digest.
    pub closed spec fn spec_root(&self) -> Seq<u64> {
        self.root@
    }

    /// Row `idx` of the matrix.
    pub open spec fn spec_row(&self, idx: nat) -> Seq<u64> {
        row_at(self.spec_elements(), self.spec_n_pols(), self.spec_n(), idx)
    }

    /// The tree is the tree over its matrix: the matrix has `n_pols * n`
    /// elements, the levels are those that the hasher gives for it, and the
    /// root is the node of the top level.
    pub open spec fn wf(&self) -> bool {
        &&& self.spec_hasher().wf()
        &&& self.spec_elements().len() == self.spec_n_pols() * self.spec_n()
        &&& spec_tree(self.spec_hasher(), self.spec_elements(), self.spec_n_pols(), self.spec_n())
            == Ok::<Seq<Seq<Seq<u64>>>, Error>(self.spec_levels())
        &&& self.spec_root() == root_of(self.spec_levels())
    }

    /// Builds the tree over a matrix of `n_pols` columns and `n` rows, stored
    /// column after column, with a hasher on loan, which other trees can be
    /// built with too. Fails with `ShapeMismatch` where the matrix does not
    /// hold `n_pols * n` elements, and else only where a row or a pair of
    /// nodes has no digest, which does not happen with a complete hasher.
    pub fn merkelize_with(
        hasher: &'a LinearHashBN128,
        values: Vec<u64>,
        n_pols: usize,
        n: usize,
    ) -> (r: Result<MerkleTree<'a>, Error>)
        requires
            hasher.wf(),
        ensures
            built_with(*hasher, values@, n_pols as nat, n as nat, r),
            hasher.complete() ==> (r is Ok <==> values.len() == n_pols * n),
    {
        proof {
            lemma_tree_errors(*hasher, values@, n_pols as nat, n as nat);
        }
        match build_levels(hasher, &values, n_pols, n) {
            Ok((levels, root)) => Ok(
                MerkleTree {
                    hasher: TreeHasher::Lent(hasher),
                    elements: values,
                    n_pols,
                    n,
                    levels,
                    root,
                },
            ),
            Err(e) => Err(e),
        }
    }

    /// Builds the tree over a matrix of `n_pols` columns and `n` rows, stored
    /// column after column, with a complete hasher of its own. There is a
    /// tree exactly where the matrix holds `n_pols * n` elements, and
    /// `ShapeMismatch` else.
    pub fn merkelize(values: Vec<u64>, n_pols: usize, n: usize) -> (r: Result<
        MerkleTree<'static>,
        Error,
    >)
        ensures
            exists|h: LinearHashBN128|
                h.wf() && h.complete() && #[trigger] built_with(
                    h,
                    values@,
                    n_pols as nat,
                    n as nat,
                    r,
                ),
            values.len() != n_pols * n ==> (r matches Err(e) && e == Error::ShapeMismatch),
            values.len() == n_pols * n ==> {
                &&& r matches Ok(tree)
                &&& r->Ok_0.wf()
                &&& r->Ok_0.spec_hasher().complete()
                &&& r->Ok_0.spec_elements() == values@
                &&& r->Ok_0.spec_n_pols() == n_pols
                &&& r->Ok_0.spec_n() == n
            },
    {
        let hasher = LinearHashBN128::new();
        proof {
            lemma_tree_errors(hasher, values@, n_pols as nat, n as nat);
        }
        match build_levels(&hasher, &values, n_pols, n) {
            Ok((levels, root)) => {
                let tree = MerkleTree {
                    hasher: TreeHasher::Own(hasher),
                    elements: values,
                    n_pols,
                    n,
                    levels,
                    root,
                };
                let r = Ok(tree);
                assert(built_with(hasher, values@, n_pols as nat, n as nat, r));
                r
            },
            Err(e) => {
                let r = Err(e);
                assert(built_with(hasher, values@, n_pols as nat, n as nat, r));
                r
            },
        }
    }

    /// The root digest.
    pub fn root(&self) -> (r: ElementDigest)
        ensures
            r@ == self.spec_root(),
    {
        self.root
    }

    /// The number of rows.
    pub fn n(&self) -> (r: usize)
        ensures
            r == self.spec_n(),
    {
        self.n
    }

    /// The number of columns.
    pub fn n_pols(&self) -> (r: usize)
        ensures
            r == self.spec_n_pols(),
    {
        self.n_pols
    }

    /// The hasher that the nodes were made with.
    pub fn hasher(&self) -> (r: &LinearHashBN128)
        ensures
            *r == self.spec_hasher(),
    {
        self.hasher.get()
    }

    /// The elements of row `idx` and the siblings of its leaf and of the
    /// ancestors of its leaf, from the leaf level upwards: they open the
    /// root under `idx`. Fails with `IndexOutOfRange` exactly where `idx` is
    /// not below the number of rows.
    pub fn get_group_proof(&self, idx: usize) -> (r: Result<(Vec<u64>, Vec<ElementDigest>), Error>)
        requires
            self.wf(),
        ensures
            idx >= self.spec_n() ==> r == Err::<(Vec<u64>, Vec<ElementDigest>), Error>(
                Error::IndexOutOfRange,
            ),
            idx < self.spec_n() ==> r.is_ok() && r.unwrap().0@ == self.spec_row(idx as nat)
                && digests_view(r.unwrap().1@) == spec_path(self.spec_levels(), idx as nat),
            idx < self.spec_n() ==> spec_verify(
                self.spec_hasher(),
                self.spec_root(),
                digests_view(r.unwrap().1@),
                idx as nat,
                r.unwrap().0@,
            ),
    {
        if idx >= self.n {
            return Err(Error::IndexOutOfRange);
        }
        proof {
            crate::binding::lemma_round_trip(*self, idx as nat);
        }
        let row = gather_row(&self.elements, self.n_pols, self.n, idx);
        let ghost lv = levels_view(self.levels@);
        proof {
            let h = self.spec_hasher();
            lemma_leaves(h, self.elements@, self.n_pols as nat, self.n as nat, self.n as nat);
            let leaves = spec_leaves(
                h,
                self.elements@,
                self.n_pols as nat,
                self.n as nat,
                self.n as nat,
            ).unwrap();
            lemma_climb(h, leaves, height(self.n as nat));
        }
        let mut path: Vec<ElementDigest> = Vec::new();
        let mut i: usize = idx;
        let mut k: usize = 0;
        assert(digests_view(path@) + path_from(lv, 0, idx as nat) =~= path_from(lv, 0, idx as nat));
        while k + 1 < self.levels.len()
            invariant
                lv == levels_view(self.levels@),
                chained(self.spec_hasher(), lv),
                k < self.levels.len(),
                i < self.levels[k as int].len(),
                spec_path(lv, idx as nat) == digests_view(path@) + path_from(lv, k as nat, i as nat),
            decreases self.levels.len() - k,
        {
            let level = &self.levels[k];
            assert(lv[k as int] == digests_view(level@));
            assert(lv[k + 1] == digests_view(self.levels[k + 1]@));
            assert(linked(self.spec_hasher(), lv[k as int], lv[k + 1]));
            let sib: usize = if i % 2 == 1 {
                i - 1
            } else if i + 1 < level.len() {
                i + 1
            } else {
                i
            };
            let ghost before = digests_view(path@);
            path.push(level[sib]);
            proof {
                let rest = path_from(lv, (k + 1) as nat, (i / 2) as nat);
                assert(digests_view(path@) =~= before.push(level[sib as int]@));
                assert(before + (seq![level[sib as int]@] + rest) =~= before.push(
                    level[sib as int]@,
                ) + rest);
            }
            i = i / 2;
            k += 1;
        }
        assert(path_from(lv, k as nat, i as nat) =~= Seq::<Seq<u64>>::empty());
        assert(digests_view(path@) + Seq::<Seq<u64>>::empty() =~= digests_view(path@));
        Ok((row, path))
    }

    /// Whether the row `group_elements` with index `idx` and the sibling path
    /// `mp` fold to `root` under the given hasher.
    pub fn verify(
        hasher: &LinearHashBN128,
        root: &ElementDigest,
        mp: &Vec<ElementDigest>,
        idx: usize,
        group_elements: &Vec<u64>,
    ) -> (ok: bool)
        requires
            hasher.wf(),
        ensures
            ok == spec_verify(*hasher, root@, digests_view(mp@), idx as nat, group_elements@),
    {
        let mut cur = match hasher.hash_row(group_elements.as_slice()) {
            Ok(d) => d,
            Err(_) => {
                return false;
            },
        };
        let ghost leaf = cur@;
        let ghost path = digests_view(mp@);
        let mut i: usize = idx;
        let mut k: usize = 0;
        assert(path.skip(0) =~= path);
        while k < mp.len()
            invariant
                hasher.wf(),
                k <= mp.len(),
                path == digests_view(mp@),
                hasher.spec_leaf(group_elements@) == Ok::<Seq<u64>, Error>(leaf),
                spec_fold(*hasher, leaf, path, idx as nat) == spec_fold(
                    *hasher,
                    cur@,
                    path.skip(k as int),
                    i as nat,
                ),
            decreases mp.len() - k,
        {
            let pair = if i % 2 == 0 {
                [cur, mp[k]]
            } else {
                [mp[k], cur]
            };
            assert(path.skip(k as int)[0] == mp[k as int]@);
            assert(path.skip(k as int).skip(1) =~= path.skip(k + 1));
            match hasher.merge(&pair) {
                Ok(d) => {
                    cur = d;
                },
                Err(_) => {
                    return false;
                },
            }
            i = i / 2;
            k += 1;
        }
        cur == *root
    }

    /// Whether the row `group_elements` with index `idx` and the sibling path
    /// `mp` fold to `root` under the hasher of this tree. Nothing else of the
    /// tree is read.
    pub fn verify_group_proof(
        &self,
        root: &ElementDigest,
        mp: &Vec<ElementDigest>,
        idx: usize,
        group_elements: &Vec<u64>,
    ) -> (ok: bool)
        requires
            self.wf(),
        ensures
            ok == spec_verify(
                self.spec_hasher(),
                root@,
                digests_view(mp@),
                idx as nat,
                group_elements@,
            ),
    {
        Self::verify(self.hasher.get(), root, mp, idx, group_elements)
    }
}

} // verus!
