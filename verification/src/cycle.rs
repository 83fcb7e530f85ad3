//! Paths along successor edges, and whether a block lies on a cycle.

use vstd::prelude::*;
use crate::body::Body;

verus! {

/// Each block of `walk` has a successor edge to the next one.
pub open spec fn is_walk(body: &Body, walk: Seq<int>) -> bool {
    forall|i: int| #![trigger walk[i]] 0 <= i < walk.len() - 1 ==> body.has_edge(walk[i], walk[i + 1])
}

/// There is a path of at least one successor edge from `from` to `to`.
pub open spec fn reaches(body: &Body, from: int, to: int) -> bool {
    exists|walk: Seq<int>|
        walk.len() >= 2 && walk[0] == from && walk.last() == to && #[trigger] is_walk(body, walk)
}

/// `block` lies on a cycle: a path of at least one edge leads from it back
/// to it.
pub open spec fn in_cycle(body: &Body, block: int) -> bool {
    reaches(body, block, block)
}

/// The number of blocks not yet seen.
pub open spec fn unseen(seen: Seq<bool>) -> nat
    decreases seen.len(),
{
    if seen.len() == 0 {
        0
    } else {
        unseen(seen.drop_last()) + if seen.last() {
            0nat
        } else {
            1nat
        }
    }
}

/// Marking an unseen block leaves one block fewer unseen.
pub proof fn lemma_unseen_mark(seen: Seq<bool>, i: int)
    requires
        0 <= i < seen.len(),
        !seen[i],
    ensures
        unseen(seen.update(i, true)) + 1 == unseen(seen),
    decreases seen.len(),
{
    let marked = seen.update(i, true);
    if i == seen.len() - 1 {
        assert(marked.drop_last() == seen.drop_last());
    } else {
        lemma_unseen_mark(seen.drop_last(), i);
        assert(marked.drop_last() == seen.drop_last().update(i, true));
    }
}

/// An edge is a path.
pub proof fn lemma_edge_reaches(body: &Body, from: int, to: int)
    requires
        body.has_edge(from, to),
    ensures
        reaches(body, from, to),
{
    let walk = seq![from, to];
    assert(is_walk(body, walk));
}

/// A path followed by an edge is a path.
pub proof fn lemma_reaches_then_edge(body: &Body, from: int, mid: int, to: int)
    requires
        reaches(body, from, mid),
        body.has_edge(mid, to),
    ensures
        reaches(body, from, to),
{
    let walk = choose|walk: Seq<int>|
        walk.len() >= 2 && walk[0] == from && walk.last() == mid && #[trigger] is_walk(body, walk);
    let longer = walk.push(to);
    assert forall|i: int| #![trigger longer[i]] 0 <= i < longer.len() - 1 implies body.has_edge(
        longer[i],
        longer[i + 1],
    ) by {
        if i < walk.len() - 1 {
            assert(body.has_edge(walk[i], walk[i + 1]));
        }
    }
    assert(is_walk(body, longer));
}

/// The first `upto` successors of `x` are seen, and none of them is `block`.
spec fn successors_done(body: &Body, block: int, seen: Seq<bool>, x: int, upto: int) -> bool {
    forall|i: int|
        0 <= i < upto ==> seen[(#[trigger] body.successors(x)[i]) as int] && body.successors(x)[i]
            != block
}

/// `x` waits on the work stack.
spec fn pending(to_visit: Seq<usize>, x: int) -> bool {
    exists|j: int| 0 <= j < to_visit.len() && #[trigger] to_visit[j] == x
}

/// What the search knows between two steps: every seen block is `block` or
/// reached from it, and every seen block that is neither the current one nor
/// on the stack has been searched without finding an edge back to `block`.
spec fn search_state(
    body: &Body,
    block: int,
    seen: Seq<bool>,
    to_visit: Seq<usize>,
    current: int,
) -> bool {
    &&& body.well_formed()
    &&& seen.len() == body.block_count()
    &&& 0 <= block < seen.len()
    &&& 0 <= current < seen.len()
    &&& seen[current]
    &&& seen[block]
    &&& forall|j: int|
        0 <= j < to_visit.len() ==> (#[trigger] to_visit[j]) < seen.len() && seen[to_visit[j] as int]
    &&& forall|x: int|
        0 <= x < seen.len() && #[trigger] seen[x] ==> x == block || reaches(body, block, x)
    &&& forall|x: int|
        0 <= x < seen.len() && #[trigger] seen[x] && x != current && !pending(to_visit, x)
            ==> successors_done(body, block, seen, x, body.successors(x).len() as int)
}

proof fn lemma_search_mark(
    body: &Body,
    block: int,
    seen: Seq<bool>,
    to_visit: Seq<usize>,
    current: int,
    i: int,
)
    requires
        search_state(body, block, seen, to_visit, current),
        successors_done(body, block, seen, current, i),
        0 <= i < body.successors(current).len(),
        !seen[body.successors(current)[i] as int],
    ensures
        search_state(
            body,
            block,
            seen.update(body.successors(current)[i] as int, true),
            to_visit.push(body.successors(current)[i]),
            current,
        ),
        successors_done(
            body,
            block,
            seen.update(body.successors(current)[i] as int, true),
            current,
            i + 1,
        ),
{
    let succ = body.successors(current)[i];
    let seen2 = seen.update(succ as int, true);
    let stack2 = to_visit.push(succ);
    assert(body.has_edge(current, succ as int));
    assert(seen[current]);
    if current == block {
        lemma_edge_reaches(body, block, succ as int);
    } else {
        lemma_reaches_then_edge(body, block, current, succ as int);
    }
    assert forall|j: int| 0 <= j < stack2.len() implies (#[trigger] stack2[j]) < seen2.len()
        && seen2[stack2[j] as int] by {
        if j < to_visit.len() {
            assert(stack2[j] == to_visit[j]);
        }
    }
    assert forall|x: int| 0 <= x < seen2.len() && #[trigger] seen2[x] implies x == block
        || reaches(body, block, x) by {
        if x != succ {
            assert(seen[x]);
        }
    }
    assert forall|x: int|
        0 <= x < seen2.len() && #[trigger] seen2[x] && x != current && !pending(
            stack2,
            x,
        ) implies successors_done(body, block, seen2, x, body.successors(x).len() as int) by {
        assert(stack2[to_visit.len() as int] == succ);
        assert(x != succ);
        assert(seen[x]);
        if pending(to_visit, x) {
            let j = choose|j: int| 0 <= j < to_visit.len() && #[trigger] to_visit[j] == x;
            assert(stack2[j] == x);
        }
        assert(successors_done(body, block, seen, x, body.successors(x).len() as int));
    }
}

proof fn lemma_search_advance(
    body: &Body,
    block: int,
    seen: Seq<bool>,
    to_visit: Seq<usize>,
    current: int,
)
    requires
        search_state(body, block, seen, to_visit, current),
        successors_done(body, block, seen, current, body.successors(current).len() as int),
        to_visit.len() > 0,
    ensures
        search_state(body, block, seen, to_visit.drop_last(), to_visit.last() as int),
{
    let rest = to_visit.drop_last();
    let top = to_visit.last() as int;
    assert(to_visit[to_visit.len() - 1] < seen.len());
    assert forall|x: int|
        0 <= x < seen.len() && #[trigger] seen[x] && x != top && !pending(
            rest,
            x,
        ) implies successors_done(body, block, seen, x, body.successors(x).len() as int) by {
        if pending(to_visit, x) {
            let j = choose|j: int| 0 <= j < to_visit.len() && #[trigger] to_visit[j] == x;
            assert(rest[j] == x);
        }
    }
}

/// A walk that starts in a set of blocks closed under successor edges stays
/// in it, and no edge of it leads to a block that no edge from the set enters.
proof fn lemma_walk_stays_seen(body: &Body, block: int, seen: Seq<bool>, walk: Seq<int>, k: int)
    requires
        body.well_formed(),
        seen.len() == body.block_count(),
        forall|x: int|
            0 <= x < seen.len() && #[trigger] seen[x] ==> successors_done(
                body,
                block,
                seen,
                x,
                body.successors(x).len() as int,
            ),
        is_walk(body, walk),
        0 <= k < walk.len(),
        0 <= walk[0] < seen.len(),
        seen[walk[0]],
    ensures
        0 <= walk[k] < seen.len(),
        seen[walk[k]],
        k > 0 ==> walk[k] != block,
    decreases k,
{
    if k > 0 {
        lemma_walk_stays_seen(body, block, seen, walk, k - 1);
        let x = walk[k - 1];
        assert(body.has_edge(x, walk[k - 1 + 1]));
        let i = choose|i: int|
            0 <= i < body.successors(x).len() && #[trigger] body.successors(x)[i] == walk[k];
        assert(seen[x]);
        assert(successors_done(body, block, seen, x, body.successors(x).len() as int));
        assert(seen[body.successors(x)[i] as int]);
    }
}

proof fn lemma_search_exhausted(body: &Body, block: int, seen: Seq<bool>, current: int)
    requires
        search_state(body, block, seen, Seq::<usize>::empty(), current),
        successors_done(body, block, seen, current, body.successors(current).len() as int),
    ensures
        !in_cycle(body, block),
{
    if in_cycle(body, block) {
        let walk = choose|walk: Seq<int>|
            walk.len() >= 2 && walk[0] == block && walk.last() == block && #[trigger] is_walk(
                body,
                walk,
            );
        assert forall|x: int| 0 <= x < seen.len() && #[trigger] seen[x] implies successors_done(
            body,
            block,
            seen,
            x,
            body.successors(x).len() as int,
        ) by {
            assert(!pending(Seq::<usize>::empty(), x));
        }
        lemma_walk_stays_seen(body, block, seen, walk, walk.len() - 1);
    }
}

proof fn lemma_search_found(
    body: &Body,
    block: int,
    seen: Seq<bool>,
    to_visit: Seq<usize>,
    current: int,
    i: int,
)
    requires
        search_state(body, block, seen, to_visit, current),
        0 <= i < body.successors(current).len(),
        body.successors(current)[i] == block,
    ensures
        in_cycle(body, block),
{
    assert(body.has_edge(current, block));
    assert(seen[current]);
    if current == block {
        lemma_edge_reaches(body, block, block);
    } else {
        lemma_reaches_then_edge(body, block, current, block);
    }
}

/// Tells whether `block` lies on a cycle of successor edges.
pub fn block_in_cycle(body: &Body, block: usize) -> (cyclic: bool)
    requires
        body.well_formed(),
        block < body.block_count(),
    ensures
        cyclic == in_cycle(body, block as int),
{
    let block_count: usize = body.basic_blocks.len();
    let mut seen: Vec<bool> = Vec::new();
    while seen.len() < block_count
        invariant
            seen@.len() <= block_count,
            forall|x: int| 0 <= x < seen@.len() ==> !seen@[x],
        decreases block_count - seen@.len(),
    {
        seen.push(false);
    }
    let mut to_visit: Vec<usize> = Vec::new();
    seen.set(block, true);
    let mut next: usize = block;
    proof {
        assert forall|x: int|
            0 <= x < seen@.len() && #[trigger] seen@[x] && x != next && !pending(
                to_visit@,
                x,
            ) implies successors_done(
            body,
            block as int,
            seen@,
            x,
            body.successors(x).len() as int,
        ) by {}
    }
    loop
        invariant
            block_count == body.basic_blocks@.len(),
            search_state(body, block as int, seen@, to_visit@, next as int),
        decreases unseen(seen@) + to_visit@.len(),
    {
        let successors = &body.basic_blocks[next].terminator.successors;
        let ghost measure = unseen(seen@) + to_visit@.len();
        let mut i: usize = 0;
        while i < successors.len()
            invariant
                block_count == body.basic_blocks@.len(),
                next < block_count,
                successors@ == body.successors(next as int),
                i <= successors@.len(),
                search_state(body, block as int, seen@, to_visit@, next as int),
                successors_done(body, block as int, seen@, next as int, i as int),
                unseen(seen@) + to_visit@.len() == measure,
            decreases successors@.len() - i,
        {
            let succ: usize = successors[i];
            if !seen[succ] {
                proof {
                    lemma_search_mark(body, block as int, seen@, to_visit@, next as int, i as int);
                    lemma_unseen_mark(seen@, succ as int);
                }
                seen.set(succ, true);
                to_visit.push(succ);
            } else if succ == block {
                proof {
                    lemma_search_found(body, block as int, seen@, to_visit@, next as int, i as int);
                }
                return true;
            }
            i = i + 1;
        }
        let ghost stack = to_visit@;
        match to_visit.pop() {
            Some(x) => {
                proof {
                    lemma_search_advance(
                        body,
                        block as int,
                        seen@,
                        stack,
                        next as int,
                    );
                }
                next = x;
            },
            None => {
                proof {
                    assert(to_visit@ == Seq::<usize>::empty());
                    lemma_search_exhausted(body, block as int, seen@, next as int);
                }
                return false;
            },
        }
    }
}

} // verus!
