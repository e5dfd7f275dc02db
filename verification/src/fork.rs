//! Branches of the block tree: ancestors, cumulative work, where two branches part,
//! and what moving from one to the other does.

use crate::block::BlockView;
use crate::error::ChainError;
use crate::primitives::Hash256;
use crate::state::{lists_keys, ChainState, StateView};
use vstd::prelude::*;

verus! {

pub open spec fn height_of(blocks: Map<Hash256, BlockView>, h: Hash256) -> u64 {
    blocks[h].header.height
}

pub open spec fn parent_of(blocks: Map<Hash256, BlockView>, h: Hash256) -> Hash256 {
    blocks[h].header.prev_hash
}

/// The block `n` steps back from `h` along the parents.
pub open spec fn ancestor(blocks: Map<Hash256, BlockView>, h: Hash256, n: nat) -> Hash256
    decreases n,
{
    if n == 0 {
        h
    } else {
        ancestor(blocks, parent_of(blocks, h), (n - 1) as nat)
    }
}

/// The block at height `at` on the branch that ends in `h`.
pub open spec fn at_height(blocks: Map<Hash256, BlockView>, h: Hash256, at: int) -> Hash256 {
    ancestor(blocks, h, (height_of(blocks, h) - at) as nat)
}

/// The last `n` blocks of the branch that ends in `h`, from `h` down.
pub open spec fn path_back(blocks: Map<Hash256, BlockView>, h: Hash256, n: nat) -> Seq<Hash256> {
    Seq::new(n, |i: int| ancestor(blocks, h, i as nat))
}

/// The index by height of the branch that ends in `h`.
pub open spec fn index_of(blocks: Map<Hash256, BlockView>, h: Hash256) -> Map<u64, Hash256> {
    Map::new(|at: u64| at <= height_of(blocks, h), |at: u64| at_height(blocks, h, at as int))
}

/// A block of height zero is the root; any other follows a stored parent.
pub open spec fn linked_at(blocks: Map<Hash256, BlockView>, root: Hash256, h: Hash256) -> bool {
    if height_of(blocks, h) == 0 {
        h == root
    } else {
        &&& blocks.contains_key(parent_of(blocks, h))
        &&& height_of(blocks, parent_of(blocks, h)) + 1 == height_of(blocks, h)
    }
}

/// The blocks form one tree.
pub open spec fn linked(blocks: Map<Hash256, BlockView>, root: Hash256) -> bool {
    &&& blocks.contains_key(root)
    &&& height_of(blocks, root) == 0
    &&& forall|h: Hash256| blocks.contains_key(h) ==> #[trigger] linked_at(blocks, root, h)
}

/// The sum of the difficulties of a block and its `n` next ancestors.
pub open spec fn work_back(blocks: Map<Hash256, BlockView>, h: Hash256, n: nat) -> nat
    decreases n,
{
    if n == 0 {
        blocks[h].header.difficulty as nat
    } else {
        blocks[h].header.difficulty as nat + work_back(blocks, parent_of(blocks, h), (n - 1) as nat)
    }
}

/// The cumulative work of a block: the sum of the difficulties back to the root.
pub open spec fn chain_work(blocks: Map<Hash256, BlockView>, h: Hash256) -> nat {
    work_back(blocks, h, height_of(blocks, h) as nat)
}

/// A block's cumulative work is on record.
pub open spec fn weighed_at(blocks: Map<Hash256, BlockView>, work: Map<Hash256, u128>, h: Hash256) -> bool {
    work.contains_key(h) && work[h] == chain_work(blocks, h)
}

/// Every block's cumulative work is on record.
pub open spec fn weighed(blocks: Map<Hash256, BlockView>, work: Map<Hash256, u128>) -> bool {
    forall|h: Hash256| blocks.contains_key(h) ==> #[trigger] weighed_at(blocks, work, h)
}

/// There are finitely many blocks, they form one tree, each with its work, and the index
/// holds the branch that ends in the tip.
pub open spec fn consistent(s: StateView) -> bool {
    match s.tip {
        Some((height, tip)) => {
            &&& s.blocks.dom().finite()
            &&& linked(s.blocks, s.heights[0])
            &&& weighed(s.blocks, s.work)
            &&& s.blocks.contains_key(tip)
            &&& height_of(s.blocks, tip) == height
            &&& s.heights == index_of(s.blocks, tip)
        },
        None => false,
    }
}

// ---- ancestors ----

pub proof fn lemma_ancestor_known(blocks: Map<Hash256, BlockView>, root: Hash256, h: Hash256, n: nat)
    requires
        linked(blocks, root),
        blocks.contains_key(h),
        n <= height_of(blocks, h),
    ensures
        blocks.contains_key(ancestor(blocks, h, n)),
        height_of(blocks, ancestor(blocks, h, n)) == height_of(blocks, h) - n,
    decreases n,
{
    assert(linked_at(blocks, root, h));
    if n > 0 {
        lemma_ancestor_known(blocks, root, parent_of(blocks, h), (n - 1) as nat);
    }
}

pub proof fn lemma_ancestor_of_ancestor(blocks: Map<Hash256, BlockView>, h: Hash256, m: nat, n: nat)
    ensures
        ancestor(blocks, ancestor(blocks, h, m), n) == ancestor(blocks, h, m + n),
    decreases m,
{
    if m > 0 {
        lemma_ancestor_of_ancestor(blocks, parent_of(blocks, h), (m - 1) as nat, n);
    }
}

pub proof fn lemma_ancestor_parent(blocks: Map<Hash256, BlockView>, h: Hash256, n: nat)
    ensures
        parent_of(blocks, ancestor(blocks, h, n)) == ancestor(blocks, h, n + 1),
{
    lemma_ancestor_of_ancestor(blocks, h, n, 1);
    assert(ancestor(blocks, ancestor(blocks, h, n), 1) == ancestor(
        blocks,
        parent_of(blocks, ancestor(blocks, h, n)),
        0,
    ));
}

/// Storing a block does not change the branches of the blocks before it.
pub proof fn lemma_ancestor_stays(
    blocks: Map<Hash256, BlockView>,
    root: Hash256,
    new: Hash256,
    block: BlockView,
    h: Hash256,
    n: nat,
)
    requires
        linked(blocks, root),
        !blocks.contains_key(new),
        blocks.contains_key(h),
        n <= height_of(blocks, h),
    ensures
        ancestor(blocks.insert(new, block), h, n) == ancestor(blocks, h, n),
        work_back(blocks.insert(new, block), h, n) == work_back(blocks, h, n),
    decreases n,
{
    assert(linked_at(blocks, root, h));
    if n > 0 {
        lemma_ancestor_stays(blocks, root, new, block, parent_of(blocks, h), (n - 1) as nat);
    }
}

/// A block's work is its parent's and its own difficulty.
pub proof fn lemma_work_step(blocks: Map<Hash256, BlockView>, root: Hash256, h: Hash256)
    requires
        linked(blocks, root),
        blocks.contains_key(h),
    ensures
        height_of(blocks, h) > 0 ==> chain_work(blocks, h) == chain_work(blocks, parent_of(blocks, h))
            + blocks[h].header.difficulty,
        height_of(blocks, h) == 0 ==> chain_work(blocks, h) == blocks[h].header.difficulty,
{
    assert(linked_at(blocks, root, h));
}

pub proof fn lemma_work_bound(blocks: Map<Hash256, BlockView>, h: Hash256, n: nat)
    ensures
        work_back(blocks, h, n) <= (n + 1) * u64::MAX,
    decreases n,
{
    if n > 0 {
        lemma_work_bound(blocks, parent_of(blocks, h), (n - 1) as nat);
        assert((n + 1) * u64::MAX == n * u64::MAX + u64::MAX) by (nonlinear_arith);
    }
}

/// A block outweighs its ancestors where difficulties are positive.
pub proof fn work_grows_along_a_branch(blocks: Map<Hash256, BlockView>, root: Hash256, h: Hash256, n: nat)
    requires
        linked(blocks, root),
        blocks.contains_key(h),
        0 < n <= height_of(blocks, h),
        forall|x: Hash256| blocks.contains_key(x) ==> (#[trigger] blocks[x]).header.difficulty > 0,
    ensures
        chain_work(blocks, ancestor(blocks, h, n)) < chain_work(blocks, h),
    decreases n,
{
    assert(linked_at(blocks, root, h));
    lemma_work_step(blocks, root, h);
    if n > 1 {
        work_grows_along_a_branch(blocks, root, parent_of(blocks, h), (n - 1) as nat);
    } else {
        assert(ancestor(blocks, h, 1) == ancestor(blocks, parent_of(blocks, h), 0));
    }
}

// ---- where two branches part ----

/// `at` is the highest height at which the branches of `a` and `b` have the same
/// block.
pub open spec fn parts_at(blocks: Map<Hash256, BlockView>, a: Hash256, b: Hash256, at: int) -> bool {
    &&& 0 <= at <= height_of(blocks, a)
    &&& at <= height_of(blocks, b)
    &&& at_height(blocks, a, at) == at_height(blocks, b, at)
    &&& forall|d: int|
        at < d <= height_of(blocks, a) && d <= height_of(blocks, b) ==> #[trigger] at_height(blocks, a, d)
            != at_height(blocks, b, d)
}

/// The height of the last block that two branches share.
pub open spec fn fork_height(blocks: Map<Hash256, BlockView>, a: Hash256, b: Hash256) -> int {
    choose|at: int| parts_at(blocks, a, b, at)
}

pub proof fn lemma_fork_height(blocks: Map<Hash256, BlockView>, a: Hash256, b: Hash256, at: int)
    requires
        parts_at(blocks, a, b, at),
    ensures
        fork_height(blocks, a, b) == at,
{
    let other = fork_height(blocks, a, b);
    assert(parts_at(blocks, a, b, other));
    if at < other {
        assert(at_height(blocks, a, other) != at_height(blocks, b, other));
    } else if other < at {
        assert(at_height(blocks, a, at) != at_height(blocks, b, at));
    }
}

/// Below the fork two branches are the same.
pub proof fn lemma_shared_below(blocks: Map<Hash256, BlockView>, root: Hash256, a: Hash256, b: Hash256, fork: int, at: int)
    requires
        linked(blocks, root),
        blocks.contains_key(a),
        blocks.contains_key(b),
        parts_at(blocks, a, b, fork),
        0 <= at <= fork,
    ensures
        at_height(blocks, a, at) == at_height(blocks, b, at),
{
    let back = (fork - at) as nat;
    lemma_ancestor_of_ancestor(blocks, a, (height_of(blocks, a) - fork) as nat, back);
    lemma_ancestor_of_ancestor(blocks, b, (height_of(blocks, b) - fork) as nat, back);
}

// ---- walking back to where two branches meet ----

/// A count of steps with `n` more of them.
pub open spec fn with_steps(r: Result<nat, ChainError>, n: nat) -> Result<nat, ChainError> {
    match r {
        Ok(steps) => Ok(steps + n),
        Err(e) => Err(e),
    }
}

/// How many steps back along its parents it takes from `h` to a block no higher than
/// `floor`, where a walk of more than `most` steps has no end.
pub open spec fn steps_down(blocks: Map<Hash256, BlockView>, h: Hash256, floor: u64, most: nat) -> Result<nat, ChainError>
    decreases most,
{
    let parent = parent_of(blocks, h);
    if height_of(blocks, h) <= floor {
        Ok(0)
    } else if most == 0 {
        Err(ChainError::EndlessBranch)
    } else if !blocks.contains_key(parent) {
        Err(ChainError::MissingAncestor { hash: parent })
    } else {
        with_steps(steps_down(blocks, parent, floor, (most - 1) as nat), 1)
    }
}

/// How many steps back, taken from `a` and `b` at once, it takes to the same block.
pub open spec fn steps_together(blocks: Map<Hash256, BlockView>, a: Hash256, b: Hash256, most: nat) -> Result<
    nat,
    ChainError,
>
    decreases most,
{
    let (p, q) = (parent_of(blocks, a), parent_of(blocks, b));
    if a == b {
        Ok(0)
    } else if most == 0 {
        Err(ChainError::EndlessBranch)
    } else if !blocks.contains_key(p) {
        Err(ChainError::MissingAncestor { hash: p })
    } else if !blocks.contains_key(q) {
        Err(ChainError::MissingAncestor { hash: q })
    } else {
        with_steps(steps_together(blocks, p, q, (most - 1) as nat), 1)
    }
}

/// How many steps back it takes from `old` and from `new` to a block that both
/// branches have. The higher of the two is walked down to the other's height first,
/// and then both are walked back together. A walk of more steps than there are blocks
/// runs in circles.
pub open spec fn fork_steps(blocks: Map<Hash256, BlockView>, old: Hash256, new: Hash256) -> Result<
    (nat, nat),
    ChainError,
> {
    let most = blocks.dom().len();
    if !blocks.contains_key(old) {
        Err(ChainError::UnknownBlock { hash: old })
    } else if !blocks.contains_key(new) {
        Err(ChainError::UnknownBlock { hash: new })
    } else {
        match steps_down(blocks, old, height_of(blocks, new), most) {
            Err(e) => Err(e),
            Ok(m) => {
                let a = ancestor(blocks, old, m);
                match steps_down(blocks, new, height_of(blocks, a), most) {
                    Err(e) => Err(e),
                    Ok(n) => match steps_together(blocks, a, ancestor(blocks, new, n), most) {
                        Err(e) => Err(e),
                        Ok(both) => Ok((m + both, n + both)),
                    },
                }
            },
        }
    }
}

/// The blocks to undo to leave the branch of `old` for that of `new`, tip first.
pub open spec fn undo_path(blocks: Map<Hash256, BlockView>, old: Hash256, new: Hash256) -> Seq<Hash256> {
    match fork_steps(blocks, old, new) {
        Ok((m, _)) => path_back(blocks, old, m),
        Err(_) => Seq::empty(),
    }
}

/// The blocks to apply, from just above the fork up to `new`.
pub open spec fn apply_path(blocks: Map<Hash256, BlockView>, old: Hash256, new: Hash256) -> Seq<Hash256> {
    match fork_steps(blocks, old, new) {
        Ok((_, n)) => path_back(blocks, new, n).reverse(),
        Err(_) => Seq::empty(),
    }
}

/// Every block of a list is stored.
pub open spec fn all_known(blocks: Map<Hash256, BlockView>, path: Seq<Hash256>) -> bool {
    forall|i: int| 0 <= i < path.len() ==> blocks.contains_key(#[trigger] path[i])
}

/// A block is lower in its tree than there are blocks.
proof fn lemma_height_below_count(blocks: Map<Hash256, BlockView>, root: Hash256, h: Hash256)
    requires
        linked(blocks, root),
        blocks.dom().finite(),
        blocks.contains_key(h),
    ensures
        height_of(blocks, h) < blocks.dom().len(),
{
    let n = (height_of(blocks, h) + 1) as nat;
    let path = path_back(blocks, h, n);
    assert forall|i: int| 0 <= i < n implies blocks.contains_key(#[trigger] path[i]) && height_of(blocks, path[i])
        == height_of(blocks, h) - i by {
        lemma_ancestor_known(blocks, root, h, i as nat);
    }
    assert(path.no_duplicates()) by {
        assert forall|i: int, j: int| 0 <= i < n && 0 <= j < n && i != j implies path[i] != path[j] by {
            assert(height_of(blocks, path[i]) != height_of(blocks, path[j]));
        }
    }
    path.unique_seq_to_set();
    assert(path.to_set().subset_of(blocks.dom()));
    vstd::set_lib::lemma_len_subset(path.to_set(), blocks.dom());
}

proof fn lemma_steps_down(blocks: Map<Hash256, BlockView>, root: Hash256, h: Hash256, floor: u64, most: nat)
    requires
        linked(blocks, root),
        blocks.contains_key(h),
        height_of(blocks, h) <= floor + most,
    ensures
        steps_down(blocks, h, floor, most) == Ok::<nat, ChainError>(
            if height_of(blocks, h) <= floor {
                0
            } else {
                (height_of(blocks, h) - floor) as nat
            },
        ),
    decreases most,
{
    assert(linked_at(blocks, root, h));
    if height_of(blocks, h) > floor {
        lemma_steps_down(blocks, root, parent_of(blocks, h), floor, (most - 1) as nat);
    }
}

proof fn lemma_steps_together(blocks: Map<Hash256, BlockView>, root: Hash256, a: Hash256, b: Hash256, at: int, most: nat)
    requires
        linked(blocks, root),
        blocks.contains_key(a),
        blocks.contains_key(b),
        height_of(blocks, a) == height_of(blocks, b),
        parts_at(blocks, a, b, at),
        height_of(blocks, a) <= at + most,
    ensures
        steps_together(blocks, a, b, most) == Ok::<nat, ChainError>((height_of(blocks, a) - at) as nat),
    decreases most,
{
    let top = height_of(blocks, a) as int;
    assert(linked_at(blocks, root, a) && linked_at(blocks, root, b));
    assert(at_height(blocks, a, top) == a && at_height(blocks, b, top) == b);
    if a == b {
        assert(at == top);
    } else {
        let (p, q) = (parent_of(blocks, a), parent_of(blocks, b));
        assert(at < top);
        assert forall|d: int| 0 <= d < top implies #[trigger] at_height(blocks, p, d) == at_height(blocks, a, d) && at_height(
            blocks,
            q,
            d,
        ) == at_height(blocks, b, d) by {}
        assert(parts_at(blocks, p, q, at));
        lemma_steps_together(blocks, root, p, q, at, (most - 1) as nat);
    }
}

/// Any two stored blocks have branches that part somewhere.
proof fn lemma_branches_part(blocks: Map<Hash256, BlockView>, root: Hash256, a: Hash256, b: Hash256, from: int)
    requires
        linked(blocks, root),
        blocks.contains_key(a),
        blocks.contains_key(b),
        0 <= from <= height_of(blocks, a),
        from <= height_of(blocks, b),
        forall|d: int|
            from < d <= height_of(blocks, a) && d <= height_of(blocks, b) ==> #[trigger] at_height(blocks, a, d)
                != at_height(blocks, b, d),
    ensures
        parts_at(blocks, a, b, fork_height(blocks, a, b)),
    decreases from,
{
    if at_height(blocks, a, from) == at_height(blocks, b, from) {
        assert(parts_at(blocks, a, b, from));
    } else {
        if from == 0 {
            let (m, n) = (height_of(blocks, a) as nat, height_of(blocks, b) as nat);
            lemma_ancestor_known(blocks, root, a, m);
            lemma_ancestor_known(blocks, root, b, n);
            assert(linked_at(blocks, root, ancestor(blocks, a, m)));
            assert(linked_at(blocks, root, ancestor(blocks, b, n)));
        } else {
            lemma_branches_part(blocks, root, a, b, from - 1);
        }
    }
}

/// In one tree of blocks the walk ends, and it ends in the highest block that both
/// branches have, whichever of the two is named first.
pub proof fn branches_meet_at_the_fork(blocks: Map<Hash256, BlockView>, root: Hash256, a: Hash256, b: Hash256)
    requires
        linked(blocks, root),
        blocks.dom().finite(),
        blocks.contains_key(a),
        blocks.contains_key(b),
    ensures
        parts_at(blocks, a, b, fork_height(blocks, a, b)),
        fork_height(blocks, b, a) == fork_height(blocks, a, b),
        fork_steps(blocks, a, b) == Ok::<(nat, nat), ChainError>(
            (
                (height_of(blocks, a) - fork_height(blocks, a, b)) as nat,
                (height_of(blocks, b) - fork_height(blocks, a, b)) as nat,
            ),
        ),
{
    let (m, n) = (height_of(blocks, a) as int, height_of(blocks, b) as int);
    let low = if m < n { m } else { n };
    lemma_branches_part(blocks, root, a, b, low);
    let at = fork_height(blocks, a, b);
    assert forall|d: int| at < d <= n && d <= m implies #[trigger] at_height(blocks, b, d) != at_height(blocks, a, d) by {
        assert(at_height(blocks, a, d) != at_height(blocks, b, d));
    }
    assert(parts_at(blocks, b, a, at));
    lemma_fork_height(blocks, b, a, at);
    let most = blocks.dom().len();
    lemma_height_below_count(blocks, root, a);
    lemma_height_below_count(blocks, root, b);
    lemma_steps_down(blocks, root, a, n as u64, most);
    let x = ancestor(blocks, a, (m - low) as nat);
    let y = ancestor(blocks, b, (n - low) as nat);
    lemma_ancestor_known(blocks, root, a, (m - low) as nat);
    lemma_ancestor_known(blocks, root, b, (n - low) as nat);
    lemma_steps_down(blocks, root, b, low as u64, most);
    assert forall|d: int| 0 <= d <= low implies #[trigger] at_height(blocks, x, d) == at_height(blocks, a, d) && at_height(
        blocks,
        y,
        d,
    ) == at_height(blocks, b, d) by {
        lemma_ancestor_of_ancestor(blocks, a, (m - low) as nat, (low - d) as nat);
        lemma_ancestor_of_ancestor(blocks, b, (n - low) as nat, (low - d) as nat);
    }
    assert(parts_at(blocks, x, y, at));
    lemma_steps_together(blocks, root, x, y, at, most);
}

/// Walks back from `from` to a block no higher than `floor`: the blocks passed, and
/// that block.
fn walk_down(state: &ChainState, from: Hash256, floor: u64, most: usize) -> (r: Result<
    (Vec<Hash256>, Hash256),
    ChainError,
>)
    requires
        state@.blocks.contains_key(from),
    ensures
        match r {
            Ok((path, end)) => {
                &&& steps_down(state@.blocks, from, floor, most as nat) == Ok::<nat, ChainError>(path@.len())
                &&& path@ == path_back(state@.blocks, from, path@.len())
                &&& end == ancestor(state@.blocks, from, path@.len())
                &&& all_known(state@.blocks, path@)
                &&& state@.blocks.contains_key(end)
            },
            Err(e) => steps_down(state@.blocks, from, floor, most as nat) == Err::<nat, ChainError>(e),
        },
{
    let ghost blocks = state@.blocks;
    let mut path: Vec<Hash256> = Vec::new();
    let mut left: usize = most;
    let mut h = from;
    let (mut height, mut parent): (u64, Hash256) = step(state, &h);
    while height > floor
        invariant
            blocks == state@.blocks,
            left + path@.len() == most,
            blocks.contains_key(h),
            h == ancestor(blocks, from, path@.len()),
            height == height_of(blocks, h),
            parent == parent_of(blocks, h),
            path@ == path_back(blocks, from, path@.len()),
            all_known(blocks, path@),
            steps_down(blocks, from, floor, most as nat) == with_steps(
                steps_down(blocks, h, floor, left as nat),
                path@.len(),
            ),
        decreases left,
    {
        if left == 0 {
            return Err(ChainError::EndlessBranch);
        }
        if !state.has_block(&parent) {
            return Err(ChainError::MissingAncestor { hash: parent });
        }
        proof {
            lemma_ancestor_parent(blocks, from, path@.len());
        }
        path.push(h);
        assert(path@ =~= path_back(blocks, from, path@.len()));
        h = parent;
        left -= 1;
        let (next_height, next_parent): (u64, Hash256) = step(state, &h);
        height = next_height;
        parent = next_parent;
    }
    Ok((path, h))
}

/// Walks back from `a` and `b` at once until both are at the same block: the blocks
/// passed on either side.
fn walk_together(state: &ChainState, a: Hash256, b: Hash256, most: usize) -> (r: Result<
    (Vec<Hash256>, Vec<Hash256>),
    ChainError,
>)
    requires
        state@.blocks.contains_key(a),
        state@.blocks.contains_key(b),
    ensures
        match r {
            Ok((path, other)) => {
                &&& steps_together(state@.blocks, a, b, most as nat) == Ok::<nat, ChainError>(path@.len())
                &&& other@.len() == path@.len()
                &&& path@ == path_back(state@.blocks, a, path@.len())
                &&& other@ == path_back(state@.blocks, b, path@.len())
                &&& all_known(state@.blocks, path@)
                &&& all_known(state@.blocks, other@)
            },
            Err(e) => steps_together(state@.blocks, a, b, most as nat) == Err::<nat, ChainError>(e),
        },
{
    let ghost blocks = state@.blocks;
    let mut path: Vec<Hash256> = Vec::new();
    let mut other: Vec<Hash256> = Vec::new();
    let mut left: usize = most;
    let mut x = a;
    let mut y = b;
    while x != y
        invariant
            blocks == state@.blocks,
            left + path@.len() == most,
            other@.len() == path@.len(),
            blocks.contains_key(x),
            blocks.contains_key(y),
            x == ancestor(blocks, a, path@.len()),
            y == ancestor(blocks, b, path@.len()),
            path@ == path_back(blocks, a, path@.len()),
            other@ == path_back(blocks, b, path@.len()),
            all_known(blocks, path@),
            all_known(blocks, other@),
            steps_together(blocks, a, b, most as nat) == with_steps(
                steps_together(blocks, x, y, left as nat),
                path@.len(),
            ),
        decreases left,
    {
        if left == 0 {
            return Err(ChainError::EndlessBranch);
        }
        let (_, p): (u64, Hash256) = step(state, &x);
        if !state.has_block(&p) {
            return Err(ChainError::MissingAncestor { hash: p });
        }
        let (_, q): (u64, Hash256) = step(state, &y);
        if !state.has_block(&q) {
            return Err(ChainError::MissingAncestor { hash: q });
        }
        proof {
            lemma_ancestor_parent(blocks, a, path@.len());
            lemma_ancestor_parent(blocks, b, path@.len());
        }
        path.push(x);
        other.push(y);
        assert(path@ =~= path_back(blocks, a, path@.len()));
        assert(other@ =~= path_back(blocks, b, path@.len()));
        x = p;
        y = q;
        left -= 1;
    }
    Ok((path, other))
}

/// A walk that goes on from where another ended.
proof fn lemma_path_goes_on(blocks: Map<Hash256, BlockView>, h: Hash256, m: nat, n: nat)
    ensures
        path_back(blocks, h, m) + path_back(blocks, ancestor(blocks, h, m), n) == path_back(blocks, h, m + n),
{
    let whole = path_back(blocks, h, m) + path_back(blocks, ancestor(blocks, h, m), n);
    assert forall|i: int| 0 <= i < m + n implies #[trigger] whole[i] == path_back(blocks, h, m + n)[i] by {
        if i >= m {
            lemma_ancestor_of_ancestor(blocks, h, m, (i - m) as nat);
        }
    }
    assert(whole =~= path_back(blocks, h, m + n));
}

/// Splits two chain tips into the blocks to undo (from the old tip down to, but not
/// with, the last shared block) and the blocks to apply (from just above that block
/// up to the new tip).
pub fn fork_paths(state: &ChainState, old_tip: Hash256, new_tip: Hash256) -> (r: Result<
    (Vec<Hash256>, Vec<Hash256>),
    ChainError,
>)
    ensures
        match r {
            Ok((undo, apply)) => {
                &&& fork_steps(state@.blocks, old_tip, new_tip) is Ok
                &&& undo@ == undo_path(state@.blocks, old_tip, new_tip)
                &&& apply@ == apply_path(state@.blocks, old_tip, new_tip)
                &&& all_known(state@.blocks, undo@)
                &&& all_known(state@.blocks, apply@)
            },
            Err(e) => fork_steps(state@.blocks, old_tip, new_tip) == Err::<(nat, nat), ChainError>(e),
        },
{
    let ghost blocks = state@.blocks;
    if !state.has_block(&old_tip) {
        return Err(ChainError::UnknownBlock { hash: old_tip });
    }
    if !state.has_block(&new_tip) {
        return Err(ChainError::UnknownBlock { hash: new_tip });
    }
    let most: usize = state.block_count();
    let (new_height, _): (u64, Hash256) = step(state, &new_tip);
    let (mut undo, old_end) = match walk_down(state, old_tip, new_height, most) {
        Ok(walked) => walked,
        Err(e) => {
            return Err(e);
        },
    };
    let (old_height, _): (u64, Hash256) = step(state, &old_end);
    let (mut apply, new_end) = match walk_down(state, new_tip, old_height, most) {
        Ok(walked) => walked,
        Err(e) => {
            return Err(e);
        },
    };
    let (mut undo_rest, mut apply_rest) = match walk_together(state, old_end, new_end, most) {
        Ok(walked) => walked,
        Err(e) => {
            return Err(e);
        },
    };
    proof {
        lemma_path_goes_on(blocks, old_tip, undo@.len(), undo_rest@.len());
        lemma_path_goes_on(blocks, new_tip, apply@.len(), apply_rest@.len());
    }
    undo.append(&mut undo_rest);
    apply.append(&mut apply_rest);
    let apply = reversed(&apply);
    Ok((undo, apply))
}

/// The height and the parent of a stored block.
pub(crate) fn step(state: &ChainState, h: &Hash256) -> (r: (u64, Hash256))
    requires
        state@.blocks.contains_key(*h),
    ensures
        r.0 == height_of(state@.blocks, *h),
        r.1 == parent_of(state@.blocks, *h),
{
    let block = state.block(h).unwrap();
    (block.header.height, block.header.prev_hash)
}

/// Each block's recorded work is its parent's and its own difficulty; the root's is
/// its own.
spec fn adds_up_at(blocks: Map<Hash256, BlockView>, work: Map<Hash256, u128>, h: Hash256) -> bool {
    &&& work.contains_key(h)
    &&& work[h] == blocks[h].header.difficulty + if height_of(blocks, h) == 0 {
        0
    } else {
        work[parent_of(blocks, h)] as int
    }
}

proof fn lemma_weighed_from_steps(blocks: Map<Hash256, BlockView>, work: Map<Hash256, u128>, root: Hash256, h: Hash256)
    requires
        linked(blocks, root),
        forall|x: Hash256| blocks.contains_key(x) ==> #[trigger] adds_up_at(blocks, work, x),
        blocks.contains_key(h),
    ensures
        weighed_at(blocks, work, h),
    decreases height_of(blocks, h),
{
    assert(adds_up_at(blocks, work, h));
    assert(linked_at(blocks, root, h));
    lemma_work_step(blocks, root, h);
    if height_of(blocks, h) > 0 {
        lemma_weighed_from_steps(blocks, work, root, parent_of(blocks, h));
    }
}

/// Whether the stored blocks form one tree rooted in `root`.
fn check_links(state: &ChainState, root: &Hash256) -> (r: bool)
    ensures
        r == linked(state@.blocks, *root),
        r ==> state@.blocks.dom().finite(),
{
    let ghost blocks = state@.blocks;
    match state.block(root) {
        Some(block) => {
            if block.header.height != 0 {
                return false;
            }
        },
        None => {
            return false;
        },
    }
    let n: usize = state.block_count();
    let mut i: usize = 0;
    while i < n
        invariant
            i <= n == state.block_keys().len(),
            blocks == state@.blocks,
            forall|j: int| 0 <= j < i ==> linked_at(blocks, *root, #[trigger] state.block_keys()[j]),
        decreases n - i,
    {
        let (h, block) = state.block_at(i);
        let good = if block.header.height == 0 {
            *h == *root
        } else {
            match state.block(&block.header.prev_hash) {
                Some(parent) => parent.header.height == block.header.height - 1,
                None => false,
            }
        };
        if !good {
            assert(!linked_at(blocks, *root, *h));
            return false;
        }
        i += 1;
    }
    assert forall|h: Hash256| blocks.contains_key(h) implies #[trigger] linked_at(blocks, *root, h) by {
        let j = choose|j: int| 0 <= j < n && state.block_keys()[j] == h;
        assert(linked_at(blocks, *root, state.block_keys()[j]));
    }
    true
}

/// Whether each block's recorded work is right.
fn check_work(state: &ChainState, root: &Hash256) -> (r: bool)
    requires
        linked(state@.blocks, *root),
    ensures
        r == weighed(state@.blocks, state@.work),
{
    let ghost blocks = state@.blocks;
    let ghost work = state@.work;
    let n: usize = state.block_count();
    let mut i: usize = 0;
    while i < n
        invariant
            i <= n == state.block_keys().len(),
            blocks == state@.blocks,
            work == state@.work,
            linked(blocks, *root),
            forall|j: int| 0 <= j < i ==> adds_up_at(blocks, work, #[trigger] state.block_keys()[j]),
        decreases n - i,
    {
        let (h, block) = state.block_at(i);
        proof {
            assert(linked_at(blocks, *root, *h));
            lemma_work_step(blocks, *root, *h);
            if weighed(blocks, work) {
                assert(weighed_at(blocks, work, *h));
                if height_of(blocks, *h) > 0 {
                    assert(weighed_at(blocks, work, parent_of(blocks, *h)));
                }
            }
        }
        let before: Option<u128> = if block.header.height == 0 {
            Some(0)
        } else {
            state.get_chainwork(&block.header.prev_hash)
        };
        let own: u128 = block.header.difficulty as u128;
        let good = match (before, state.get_chainwork(h)) {
            (Some(before), Some(total)) => total >= own && total - own == before,
            _ => false,
        };
        if !good {
            return false;
        }
        assert(adds_up_at(blocks, work, *h));
        i += 1;
    }
    assert forall|h: Hash256| blocks.contains_key(h) implies #[trigger] adds_up_at(blocks, work, h) by {
        let j = choose|j: int| 0 <= j < n && state.block_keys()[j] == h;
        assert(adds_up_at(blocks, work, state.block_keys()[j]));
    }
    assert forall|h: Hash256| blocks.contains_key(h) implies #[trigger] weighed_at(blocks, work, h) by {
        lemma_weighed_from_steps(blocks, work, *root, h);
    }
    true
}

/// The index holds the block at height `at` on the branch of `tip`.
spec fn indexed_at(heights: Map<u64, Hash256>, blocks: Map<Hash256, BlockView>, tip: Hash256, at: u64) -> bool {
    heights.contains_key(at) && heights[at] == at_height(blocks, tip, at as int)
}

/// Whether the index holds the branch that ends in `tip`, and nothing else.
fn check_index(state: &ChainState, root: &Hash256, tip: &Hash256) -> (r: bool)
    requires
        linked(state@.blocks, *root),
        state@.blocks.contains_key(*tip),
    ensures
        r == (state@.heights == index_of(state@.blocks, *tip)),
{
    let ghost blocks = state@.blocks;
    let ghost heights = state@.heights;
    let ghost wanted = index_of(blocks, *tip);
    let (top, mut parent): (u64, Hash256) = step(state, tip);
    let n: usize = state.height_count();
    let mut i: usize = 0;
    while i < n
        invariant
            i <= n == state.height_keys().len(),
            lists_keys(state.height_keys(), state@.heights),
            blocks == state@.blocks,
            heights == state@.heights,
            wanted == index_of(blocks, *tip),
            top == height_of(blocks, *tip),
            forall|j: int| 0 <= j < i ==> #[trigger] state.height_keys()[j] <= top,
        decreases n - i,
    {
        let at: u64 = state.height_at(i);
        if at > top {
            assert(heights.contains_key(at) && !wanted.contains_key(at));
            return false;
        }
        i += 1;
    }
    let mut at: u64 = top;
    let mut h = *tip;
    assert(at_height(blocks, *tip, at as int) == h);
    while at > 0
        invariant
            at <= top == height_of(blocks, *tip),
            blocks == state@.blocks,
            heights == state@.heights,
            wanted == index_of(blocks, *tip),
            linked(blocks, *root),
            blocks.contains_key(*tip),
            h == at_height(blocks, *tip, at as int),
            blocks.contains_key(h),
            parent == parent_of(blocks, h),
            forall|x: u64| at < x <= top ==> #[trigger] indexed_at(heights, blocks, *tip, x),
        decreases at,
    {
        let good = match state.get_hash_by_height(at) {
            Some(indexed) => indexed == h,
            None => false,
        };
        if !good {
            assert(wanted.contains_key(at) && wanted[at] == h);
            return false;
        }
        assert(indexed_at(heights, blocks, *tip, at));
        proof {
            lemma_ancestor_parent(blocks, *tip, (top - at) as nat);
            lemma_ancestor_known(blocks, *root, *tip, (top - at + 1) as nat);
        }
        at -= 1;
        h = parent;
        let (_, next): (u64, Hash256) = step(state, &h);
        parent = next;
    }
    let good = match state.get_hash_by_height(0) {
        Some(indexed) => indexed == h,
        None => false,
    };
    if !good {
        assert(wanted.contains_key(0) && wanted[0] == h);
        return false;
    }
    assert(indexed_at(heights, blocks, *tip, 0));
    assert forall|x: u64| heights.contains_key(x) == wanted.contains_key(x) by {
        if heights.contains_key(x) {
            let j = choose|j: int| 0 <= j < n && state.height_keys()[j] == x;
            assert(state.height_keys()[j] <= top);
        }
        if x <= top {
            assert(indexed_at(heights, blocks, *tip, x));
        }
    }
    assert forall|x: u64| heights.contains_key(x) implies heights[x] == wanted[x] by {
        assert(indexed_at(heights, blocks, *tip, x));
    }
    assert(heights =~= wanted);
    true
}

/// Whether the state is consistent.
pub fn is_consistent(state: &ChainState) -> (r: bool)
    ensures
        r == consistent(state@),
{
    let (height, tip): (u64, Hash256) = match state.tip() {
        Some(tip) => tip,
        None => {
            return false;
        },
    };
    let root = match state.get_hash_by_height(0) {
        Some(root) => root,
        None => {
            assert(index_of(state@.blocks, tip).contains_key(0));
            return false;
        },
    };
    if !check_links(state, &root) || !check_work(state, &root) {
        return false;
    }
    match state.block(&tip) {
        Some(block) => {
            if block.header.height != height {
                return false;
            }
        },
        None => {
            return false;
        },
    }
    check_index(state, &root, &tip)
}

fn reversed(hashes: &Vec<Hash256>) -> (r: Vec<Hash256>)
    ensures
        r@ == hashes@.reverse(),
{
    let mut out: Vec<Hash256> = Vec::with_capacity(hashes.len());
    let mut i: usize = hashes.len();
    while i > 0
        invariant
            i <= hashes@.len(),
            out@.len() == hashes@.len() - i,
            forall|j: int| 0 <= j < out@.len() ==> out@[j] == hashes@[hashes@.len() - 1 - j],
        decreases i,
    {
        i -= 1;
        out.push(hashes[i]);
    }
    assert(out@ =~= hashes@.reverse());
    out
}

} // verus!
