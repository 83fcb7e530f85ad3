//! Depth-first postorder over successor edges, and its reverse.
//!
//! The reverse of a postorder lists a block before the blocks that the walk
//! first reached through it. It is a topological order where the blocks
//! reached from the start form no cycle, and only there.

use vstd::prelude::*;
use crate::body::Body;
use crate::cycle::{is_walk, lemma_edge_reaches, lemma_unseen_mark, reaches, unseen};

verus! {

/// The depth-first walk from `node` that skips the blocks marked in
/// `visited`: the blocks it finishes, in the order in which it finishes them,
/// and the marks afterwards. A block is marked when the walk enters it and
/// finished when the walks from all its successors are.
pub open spec fn postorder_from(body: &Body, node: int, visited: Seq<bool>) -> (Seq<usize>, Seq<bool>)
    decreases unseen(visited), 0int, 0int,
{
    if 0 <= node < visited.len() && !visited[node] {
        proof {
            lemma_unseen_mark(visited, node);
        }
        let below = postorder_below(body, node, 0, visited.update(node, true));
        (below.0.push(node as usize), below.1)
    } else {
        (Seq::empty(), visited)
    }
}

/// The walks from the successors of `node`, from its `next`-th successor on,
/// one after the other. (A walk never removes a mark; the test on the number
/// of unmarked blocks only makes that plain where the function is defined.)
pub open spec fn postorder_below(body: &Body, node: int, next: int, visited: Seq<bool>) -> (
    Seq<usize>,
    Seq<bool>,
)
    decreases unseen(visited), 1int, body.successors(node).len() - next,
{
    if 0 <= next < body.successors(node).len() {
        let first = postorder_from(body, body.successors(node)[next] as int, visited);
        if unseen(first.1) <= unseen(visited) {
            let rest = postorder_below(body, node, next + 1, first.1);
            (first.0 + rest.0, rest.1)
        } else {
            first
        }
    } else {
        (Seq::empty(), visited)
    }
}

/// The blocks reached from `start`, in depth-first postorder.
pub open spec fn postorder(body: &Body, start: int) -> Seq<usize> {
    postorder_from(body, start, Seq::new(body.block_count() as nat, |i: int| false)).0
}

/// A walk leaves the number of marks as it is and never removes one.
pub proof fn lemma_postorder_marks(body: &Body, node: int, next: int, visited: Seq<bool>)
    ensures
        postorder_from(body, node, visited).1.len() == visited.len(),
        postorder_below(body, node, next, visited).1.len() == visited.len(),
        unseen(postorder_from(body, node, visited).1) <= unseen(visited),
        unseen(postorder_below(body, node, next, visited).1) <= unseen(visited),
    decreases unseen(visited), 1int, body.successors(node).len() - next,
{
    if 0 <= node < visited.len() && !visited[node] {
        lemma_unseen_mark(visited, node);
        lemma_postorder_marks(body, node, 0, visited.update(node, true));
    }
    if 0 <= next < body.successors(node).len() {
        let succ = body.successors(node)[next] as int;
        if 0 <= succ < visited.len() && !visited[succ] {
            lemma_unseen_mark(visited, succ);
            lemma_postorder_marks(body, succ, 0, visited.update(succ, true));
        }
        let first = postorder_from(body, succ, visited);
        lemma_postorder_marks(body, node, next + 1, first.1);
    }
}

/// Every block of `blocks` is a block of `body`.
pub open spec fn blocks_in_range(body: &Body, blocks: Seq<usize>) -> bool {
    forall|k: int| 0 <= k < blocks.len() ==> (#[trigger] blocks[k]) < body.block_count()
}

/// A walk finishes blocks of the body only.
pub proof fn lemma_postorder_from_in_range(body: &Body, node: int, visited: Seq<bool>)
    requires
        visited.len() == body.block_count(),
    ensures
        blocks_in_range(body, postorder_from(body, node, visited).0),
    decreases unseen(visited), 0int, 0int,
{
    if 0 <= node < visited.len() && !visited[node] {
        lemma_unseen_mark(visited, node);
        lemma_postorder_below_in_range(body, node, 0, visited.update(node, true));
    }
}

/// The walks from the successors of a block finish blocks of the body only.
pub proof fn lemma_postorder_below_in_range(body: &Body, node: int, next: int, visited: Seq<bool>)
    requires
        visited.len() == body.block_count(),
    ensures
        blocks_in_range(body, postorder_below(body, node, next, visited).0),
    decreases unseen(visited), 1int, body.successors(node).len() - next,
{
    if 0 <= next < body.successors(node).len() {
        let succ = body.successors(node)[next] as int;
        let first = postorder_from(body, succ, visited);
        lemma_postorder_from_in_range(body, succ, visited);
        lemma_postorder_marks(body, succ, 0, visited);
        lemma_postorder_below_in_range(body, node, next + 1, first.1);
    }
}

/// The postorder from `start`, and its reverse, list blocks of the body only.
pub proof fn lemma_postorder_in_range(body: &Body, start: int)
    ensures
        blocks_in_range(body, postorder(body, start)),
        blocks_in_range(body, postorder(body, start).reverse()),
{
    lemma_postorder_from_in_range(body, start, Seq::new(body.block_count() as nat, |i: int| false));
}

/// An edge followed by a path is a path.
pub proof fn lemma_edge_then_reaches(body: &Body, from: int, mid: int, to: int)
    requires
        body.has_edge(from, mid),
        mid == to || reaches(body, mid, to),
    ensures
        reaches(body, from, to),
{
    if mid == to {
        lemma_edge_reaches(body, from, to);
    } else {
        let walk = choose|walk: Seq<int>|
            walk.len() >= 2 && walk[0] == mid && walk.last() == to && #[trigger] is_walk(body, walk);
        let longer = seq![from] + walk;
        assert forall|i: int| #![trigger longer[i]] 0 <= i < longer.len() - 1 implies body.has_edge(
            longer[i],
            longer[i + 1],
        ) by {
            if i > 0 {
                assert(longer[i] == walk[i - 1]);
                assert(longer[i + 1] == walk[i - 1 + 1]);
                assert(body.has_edge(walk[i - 1], walk[i - 1 + 1]));
            } else {
                assert(longer[1] == walk[0]);
            }
        }
        assert(is_walk(body, longer));
    }
}

/// Block `x` is marked in `after` and was not in `before`.
pub open spec fn newly_marked(before: Seq<bool>, after: Seq<bool>, x: int) -> bool {
    0 <= x < after.len() && after[x] && !before[x]
}

/// What a walk does to the marks, and what it lists: no mark is removed;
/// the blocks listed are those newly marked, each once; each of them is
/// reached from `root` (or is `root`, unless `below`); and all successors of
/// each are marked afterwards.
pub open spec fn walked(
    body: &Body,
    root: int,
    below: bool,
    before: Seq<bool>,
    after: Seq<bool>,
    listed: Seq<usize>,
) -> bool {
    &&& after.len() == before.len()
    &&& forall|x: int| 0 <= x < before.len() && before[x] ==> #[trigger] after[x]
    &&& forall|b: usize| #[trigger] listed.contains(b) <==> newly_marked(before, after, b as int)
    &&& listed.no_duplicates()
    &&& forall|x: int| #[trigger]
        newly_marked(before, after, x) ==> (!below && x == root) || reaches(body, root, x)
    &&& forall|x: int, i: int|
        newly_marked(before, after, x) && 0 <= i < body.successors(x).len() ==> after[(
        #[trigger] body.successors(x)[i]) as int]
}

/// The walk from a block does what [`walked`] says, and marks the block.
pub proof fn lemma_postorder_from_walked(body: &Body, node: int, visited: Seq<bool>)
    requires
        body.well_formed(),
        visited.len() == body.block_count(),
        0 <= node < body.block_count(),
    ensures
        walked(
            body,
            node,
            false,
            visited,
            postorder_from(body, node, visited).1,
            postorder_from(body, node, visited).0,
        ),
        postorder_from(body, node, visited).1[node],
    decreases unseen(visited), 0int, 0int,
{
    let result = postorder_from(body, node, visited);
    assert(body.basic_blocks.len() == body.block_count());
    if !visited[node] {
        let marked = visited.update(node, true);
        lemma_unseen_mark(visited, node);
        lemma_postorder_below_walked(body, node, 0, marked);
        let inner = postorder_below(body, node, 0, marked);
        assert(result.0 == inner.0.push(node as usize) && result.1 == inner.1);
        assert(marked[node]);
        assert(inner.1[node]);
        assert(!inner.0.contains(node as usize)) by {
            if inner.0.contains(node as usize) {
                assert(newly_marked(marked, inner.1, (node as usize) as int));
            }
        }
        assert forall|b: usize| #[trigger] result.0.contains(b) <==> newly_marked(
            visited,
            result.1,
            b as int,
        ) by {
            if result.0.contains(b) {
                let k = choose|k: int| 0 <= k < result.0.len() && result.0[k] == b;
                if k < inner.0.len() {
                    assert(inner.0[k] == b);
                    assert(inner.0.contains(b));
                    assert(newly_marked(marked, inner.1, b as int));
                }
            }
            if newly_marked(visited, result.1, b as int) {
                if b == node {
                    assert(result.0[inner.0.len() as int] == b);
                } else {
                    assert(newly_marked(marked, inner.1, b as int));
                    assert(inner.0.contains(b));
                    let k = choose|k: int| 0 <= k < inner.0.len() && inner.0[k] == b;
                    assert(result.0[k] == b);
                }
            }
        }
        assert forall|x: int| #[trigger] newly_marked(visited, result.1, x) implies x == node
            || reaches(body, node, x) by {
            if x != node {
                assert(newly_marked(marked, inner.1, x));
            }
        }
        assert forall|x: int, i: int|
            newly_marked(visited, result.1, x) && 0 <= i < body.successors(x).len()
                implies result.1[(#[trigger] body.successors(x)[i]) as int] by {
            if x != node {
                assert(newly_marked(marked, inner.1, x));
            }
        }
    } else {
        assert forall|b: usize| #[trigger] result.0.contains(b) <==> newly_marked(
            visited,
            result.1,
            b as int,
        ) by {}
    }
}

/// The walks from the successors of a block, from the `next`-th on, do what
/// [`walked`] says, and mark those successors.
pub proof fn lemma_postorder_below_walked(body: &Body, node: int, next: int, visited: Seq<bool>)
    requires
        body.well_formed(),
        visited.len() == body.block_count(),
        0 <= node < body.block_count(),
        0 <= next,
    ensures
        walked(
            body,
            node,
            true,
            visited,
            postorder_below(body, node, next, visited).1,
            postorder_below(body, node, next, visited).0,
        ),
        forall|i: int|
            next <= i < body.successors(node).len() ==> postorder_below(
                body,
                node,
                next,
                visited,
            ).1[(#[trigger] body.successors(node)[i]) as int],
    decreases unseen(visited), 1int, body.successors(node).len() - next,
{
    let result = postorder_below(body, node, next, visited);
    if next < body.successors(node).len() {
        let succ = body.successors(node)[next];
        assert(body.has_edge(node, succ as int));
        let first = postorder_from(body, succ as int, visited);
        lemma_postorder_from_walked(body, succ as int, visited);
        lemma_postorder_marks(body, succ as int, 0, visited);
        let rest = postorder_below(body, node, next + 1, first.1);
        lemma_postorder_below_walked(body, node, next + 1, first.1);
        assert(result.0 == first.0 + rest.0 && result.1 == rest.1);
        assert forall|b: usize| #[trigger] result.0.contains(b) <==> newly_marked(
            visited,
            result.1,
            b as int,
        ) by {
            if result.0.contains(b) {
                let k = choose|k: int| 0 <= k < result.0.len() && result.0[k] == b;
                if k < first.0.len() {
                    assert(first.0[k] == b);
                    assert(first.0.contains(b));
                    assert(newly_marked(visited, first.1, b as int));
                } else {
                    assert(rest.0[k - first.0.len()] == b);
                    assert(rest.0.contains(b));
                    assert(newly_marked(first.1, rest.1, b as int));
                }
            }
            if newly_marked(visited, result.1, b as int) {
                if first.1[b as int] {
                    assert(newly_marked(visited, first.1, b as int));
                    assert(first.0.contains(b));
                    let k = choose|k: int| 0 <= k < first.0.len() && first.0[k] == b;
                    assert(result.0[k] == b);
                } else {
                    assert(newly_marked(first.1, rest.1, b as int));
                    assert(rest.0.contains(b));
                    let k = choose|k: int| 0 <= k < rest.0.len() && rest.0[k] == b;
                    assert(result.0[first.0.len() + k] == b);
                }
            }
        }
        assert forall|i: int, j: int|
            0 <= i < result.0.len() && 0 <= j < result.0.len() && i != j implies result.0[i]
            != result.0[j] by {
            if i < first.0.len() && j >= first.0.len() {
                assert(first.0.contains(result.0[i]));
                assert(rest.0.contains(rest.0[j - first.0.len()]));
                assert(newly_marked(visited, first.1, result.0[i] as int));
                assert(newly_marked(first.1, rest.1, result.0[j] as int));
            } else if j < first.0.len() && i >= first.0.len() {
                assert(first.0.contains(result.0[j]));
                assert(rest.0.contains(rest.0[i - first.0.len()]));
                assert(newly_marked(visited, first.1, result.0[j] as int));
                assert(newly_marked(first.1, rest.1, result.0[i] as int));
            } else if i < first.0.len() {
                assert(first.0[i] != first.0[j]);
            } else {
                assert(rest.0[i - first.0.len()] != rest.0[j - first.0.len()]);
            }
        }
        assert forall|x: int| #[trigger] newly_marked(visited, result.1, x) implies reaches(
            body,
            node,
            x,
        ) by {
            if first.1[x] {
                assert(newly_marked(visited, first.1, x));
                lemma_edge_then_reaches(body, node, succ as int, x);
            } else {
                assert(newly_marked(first.1, rest.1, x));
            }
        }
        assert forall|x: int, i: int|
            newly_marked(visited, result.1, x) && 0 <= i < body.successors(x).len()
                implies result.1[(#[trigger] body.successors(x)[i]) as int] by {
            if first.1[x] {
                assert(newly_marked(visited, first.1, x));
                assert(first.1[body.successors(x)[i] as int]);
            } else {
                assert(newly_marked(first.1, rest.1, x));
            }
        }
        assert forall|i: int| next <= i < body.successors(node).len() implies result.1[(
        #[trigger] body.successors(node)[i]) as int] by {
            if i == next {
                assert(first.1[succ as int]);
            }
        }
    } else {
        assert forall|b: usize| #[trigger] result.0.contains(b) <==> newly_marked(
            visited,
            result.1,
            b as int,
        ) by {}
    }
}

/// Where the successor `succ` of the `k`-th listed block stands: it was
/// marked before the walk, or it is listed earlier, or it is listed later (or
/// is that block itself) and leads back to that block.
pub open spec fn successor_placed(
    body: &Body,
    before: Seq<bool>,
    listed: Seq<usize>,
    k: int,
    succ: usize,
) -> bool {
    ||| before[succ as int]
    ||| exists|j: int|
        0 <= j < listed.len() && #[trigger] listed[j] == succ && (j < k || succ == listed[k]
            || reaches(body, succ as int, listed[k] as int))
}

/// Every successor of every listed block stands as [`successor_placed`] says.
pub open spec fn successors_placed(body: &Body, before: Seq<bool>, listed: Seq<usize>) -> bool {
    forall|k: int, i: int|
        0 <= k < listed.len() && 0 <= i < body.successors(listed[k] as int).len()
            ==> successor_placed(
            body,
            before,
            listed,
            k,
            #[trigger] body.successors(listed[k] as int)[i],
        )
}

/// The walk from a block finishes a block after its successors, but for
/// those that lead back to it.
pub proof fn lemma_postorder_from_placed(body: &Body, node: int, visited: Seq<bool>)
    requires
        body.well_formed(),
        visited.len() == body.block_count(),
        0 <= node < body.block_count(),
    ensures
        successors_placed(body, visited, postorder_from(body, node, visited).0),
    decreases unseen(visited), 0int, 0int,
{
    let result = postorder_from(body, node, visited);
    assert(body.basic_blocks.len() == body.block_count());
    if !visited[node] {
        let marked = visited.update(node, true);
        lemma_unseen_mark(visited, node);
        lemma_postorder_below_walked(body, node, 0, marked);
        lemma_postorder_below_placed(body, node, 0, marked);
        let inner = postorder_below(body, node, 0, marked);
        let last = inner.0.len() as int;
        assert(result.0 == inner.0.push(node as usize));
        assert(result.0[last] == node);
        assert forall|k: int, i: int|
            0 <= k < result.0.len() && 0 <= i < body.successors(
                result.0[k] as int,
            ).len() implies successor_placed(
            body,
            visited,
            result.0,
            k,
            #[trigger] body.successors(result.0[k] as int)[i],
        ) by {
            let succ = body.successors(result.0[k] as int)[i];
            if k < last {
                let x = inner.0[k];
                assert(result.0[k] == x);
                assert(inner.0.contains(x));
                assert(newly_marked(marked, inner.1, x as int));
                assert(successor_placed(body, marked, inner.0, k, succ));
                if marked[succ as int] {
                    if succ == node {
                        assert(reaches(body, node, x as int));
                        assert(result.0[last] == succ);
                    }
                } else {
                    let j = choose|j: int|
                        0 <= j < inner.0.len() && #[trigger] inner.0[j] == succ && (j < k || succ
                            == inner.0[k] || reaches(body, succ as int, inner.0[k] as int));
                    assert(result.0[j] == succ);
                }
            } else {
                assert(inner.1[succ as int]);
                if !visited[succ as int] {
                    if succ == node {
                        assert(result.0[k] == succ);
                    } else {
                        assert(newly_marked(marked, inner.1, succ as int));
                        assert(inner.0.contains(succ));
                        let j = choose|j: int| 0 <= j < inner.0.len() && inner.0[j] == succ;
                        assert(result.0[j] == succ);
                    }
                }
            }
        }
    }
}

/// The walks from the successors of a block finish a block after its
/// successors, but for those that lead back to it.
pub proof fn lemma_postorder_below_placed(body: &Body, node: int, next: int, visited: Seq<bool>)
    requires
        body.well_formed(),
        visited.len() == body.block_count(),
        0 <= node < body.block_count(),
        0 <= next,
    ensures
        successors_placed(body, visited, postorder_below(body, node, next, visited).0),
    decreases unseen(visited), 1int, body.successors(node).len() - next,
{
    let result = postorder_below(body, node, next, visited);
    if next < body.successors(node).len() {
        let succ_node = body.successors(node)[next];
        let first = postorder_from(body, succ_node as int, visited);
        lemma_postorder_from_walked(body, succ_node as int, visited);
        lemma_postorder_from_placed(body, succ_node as int, visited);
        lemma_postorder_marks(body, succ_node as int, 0, visited);
        let rest = postorder_below(body, node, next + 1, first.1);
        lemma_postorder_below_walked(body, node, next + 1, first.1);
        lemma_postorder_below_placed(body, node, next + 1, first.1);
        let split = first.0.len() as int;
        assert(result.0 == first.0 + rest.0);
        assert forall|k: int, i: int|
            0 <= k < result.0.len() && 0 <= i < body.successors(
                result.0[k] as int,
            ).len() implies successor_placed(
            body,
            visited,
            result.0,
            k,
            #[trigger] body.successors(result.0[k] as int)[i],
        ) by {
            let succ = body.successors(result.0[k] as int)[i];
            if k < split {
                assert(result.0[k] == first.0[k]);
                assert(first.0.contains(first.0[k]));
                assert(newly_marked(visited, first.1, first.0[k] as int));
                assert(successor_placed(body, visited, first.0, k, succ));
                if !visited[succ as int] {
                    let j = choose|j: int|
                        0 <= j < first.0.len() && #[trigger] first.0[j] == succ && (j < k || succ
                            == first.0[k] || reaches(body, succ as int, first.0[k] as int));
                    assert(result.0[j] == succ);
                }
            } else {
                let inner_k = k - split;
                assert(result.0[k] == rest.0[inner_k]);
                assert(rest.0.contains(rest.0[inner_k]));
                assert(newly_marked(first.1, rest.1, rest.0[inner_k] as int));
                assert(successor_placed(body, first.1, rest.0, inner_k, succ));
                if first.1[succ as int] {
                    if !visited[succ as int] {
                        assert(newly_marked(visited, first.1, succ as int));
                        assert(first.0.contains(succ));
                        let j = choose|j: int| 0 <= j < first.0.len() && first.0[j] == succ;
                        assert(result.0[j] == succ);
                    }
                } else {
                    let j = choose|j: int|
                        0 <= j < rest.0.len() && #[trigger] rest.0[j] == succ && (j < inner_k
                            || succ == rest.0[inner_k] || reaches(
                            body,
                            succ as int,
                            rest.0[inner_k] as int,
                        ));
                    assert(result.0[split + j] == succ);
                }
            }
        }
    }
}

/// The reverse postorder is a topological order but for edges on cycles: a
/// block comes before each of its successors, unless the successor is the
/// block itself or leads back to it.
pub proof fn lemma_reverse_postorder_is_topological(
    body: &Body,
    start: int,
    from: int,
    to: int,
)
    requires
        body.well_formed(),
        0 <= start < body.block_count(),
        0 <= from < postorder(body, start).len(),
        0 <= to < postorder(body, start).len(),
        body.has_edge(
            postorder(body, start).reverse()[from] as int,
            postorder(body, start).reverse()[to] as int,
        ),
        postorder(body, start).reverse()[from] != postorder(body, start).reverse()[to],
        !reaches(
            body,
            postorder(body, start).reverse()[to] as int,
            postorder(body, start).reverse()[from] as int,
        ),
    ensures
        from < to,
{
    let unmarked = Seq::new(body.block_count() as nat, |i: int| false);
    let listed = postorder(body, start);
    lemma_postorder_from_walked(body, start, unmarked);
    lemma_postorder_from_placed(body, start, unmarked);
    let k = listed.len() - 1 - from;
    let x = listed[k];
    let succ = listed[listed.len() - 1 - to];
    let i = choose|i: int|
        0 <= i < body.successors(x as int).len() && #[trigger] body.successors(x as int)[i] == succ;
    assert(successor_placed(body, unmarked, listed, k, body.successors(listed[k] as int)[i]));
    let j = choose|j: int|
        0 <= j < listed.len() && #[trigger] listed[j] == succ && (j < k || succ == listed[k]
            || reaches(body, succ as int, listed[k] as int));
    assert(j == listed.len() - 1 - to);
}

/// The postorder from `start` ends with `start`: the reverse begins with it.
pub proof fn lemma_postorder_ends_at_start(body: &Body, start: int)
    requires
        0 <= start < body.block_count(),
    ensures
        postorder(body, start).len() > 0,
        postorder(body, start).last() == start,
        postorder(body, start).reverse()[0] == start,
{
    assert(body.basic_blocks.len() == body.block_count());
}

/// A walk along edges that starts at a marked block stays among the marked
/// blocks, where all successors of every marked block are marked.
proof fn lemma_walk_stays_marked(body: &Body, marks: Seq<bool>, walk: Seq<int>, k: int)
    requires
        body.well_formed(),
        marks.len() == body.block_count(),
        forall|x: int, i: int|
            0 <= x < marks.len() && marks[x] && 0 <= i < body.successors(x).len() ==> marks[(
            #[trigger] body.successors(x)[i]) as int],
        is_walk(body, walk),
        0 <= k < walk.len(),
        0 <= walk[0] < marks.len(),
        marks[walk[0]],
    ensures
        0 <= walk[k] < marks.len(),
        marks[walk[k]],
    decreases k,
{
    if k > 0 {
        lemma_walk_stays_marked(body, marks, walk, k - 1);
        let x = walk[k - 1];
        assert(body.has_edge(x, walk[k - 1 + 1]));
        let i = choose|i: int|
            0 <= i < body.successors(x).len() && #[trigger] body.successors(x)[i] == walk[k];
        assert(marks[body.successors(x)[i] as int]);
    }
}

/// The postorder from `start` lists `start` and the blocks reached from it
/// along successor edges, and no others.
pub proof fn lemma_postorder_lists_reached(body: &Body, start: int, block: usize)
    requires
        body.well_formed(),
        0 <= start < body.block_count(),
    ensures
        postorder(body, start).contains(block) <==> block == start || reaches(
            body,
            start,
            block as int,
        ),
{
    let unmarked = Seq::new(body.block_count() as nat, |i: int| false);
    let result = postorder_from(body, start, unmarked);
    lemma_postorder_from_walked(body, start, unmarked);
    if block == start {
        assert(newly_marked(unmarked, result.1, block as int));
    }
    if reaches(body, start, block as int) {
        let walk = choose|walk: Seq<int>|
            walk.len() >= 2 && walk[0] == start && walk.last() == block && #[trigger] is_walk(
                body,
                walk,
            );
        assert forall|x: int, i: int|
            0 <= x < result.1.len() && result.1[x] && 0 <= i < body.successors(x).len()
                implies result.1[(#[trigger] body.successors(x)[i]) as int] by {
            assert(newly_marked(unmarked, result.1, x));
        }
        lemma_walk_stays_marked(body, result.1, walk, walk.len() - 1);
        assert(newly_marked(unmarked, result.1, block as int));
    }
    if postorder(body, start).contains(block) {
        assert(newly_marked(unmarked, result.1, block as int));
    }
}

/// The postorder from `start` lists no block twice.
pub proof fn lemma_postorder_lists_once(body: &Body, start: int)
    requires
        body.well_formed(),
        0 <= start < body.block_count(),
    ensures
        postorder(body, start).no_duplicates(),
{
    lemma_postorder_from_walked(
        body,
        start,
        Seq::new(body.block_count() as nat, |i: int| false),
    );
}

/// What is left to finish when the walk stands at the top of `stack`: each
/// entry is a block that was entered and the number of its successors that
/// were looked at.
spec fn remaining(body: &Body, stack: Seq<(usize, usize)>, visited: Seq<bool>) -> Seq<usize>
    decreases stack.len(),
{
    if stack.len() == 0 {
        Seq::empty()
    } else {
        let top = stack.last();
        let below = postorder_below(body, top.0 as int, top.1 as int, visited);
        below.0.push(top.0) + remaining(body, stack.drop_last(), below.1)
    }
}

/// The successors still to look at, over all entries of `stack`, and one more
/// for each entry.
spec fn stack_work(body: &Body, stack: Seq<(usize, usize)>) -> int
    decreases stack.len(),
{
    if stack.len() == 0 {
        0
    } else {
        stack_work(body, stack.drop_last()) + 1 + body.successors(stack.last().0 as int).len()
            - stack.last().1
    }
}

spec fn stack_in_range(body: &Body, stack: Seq<(usize, usize)>) -> bool {
    forall|k: int|
        0 <= k < stack.len() ==> (#[trigger] stack[k]).0 < body.block_count() && stack[k].1
            <= body.successors(stack[k].0 as int).len()
}

proof fn lemma_stack_work_bounded(body: &Body, stack: Seq<(usize, usize)>)
    requires
        stack_in_range(body, stack),
    ensures
        stack_work(body, stack) >= 0,
    decreases stack.len(),
{
    if stack.len() > 0 {
        assert(stack_in_range(body, stack.drop_last())) by {
            assert forall|k: int| 0 <= k < stack.drop_last().len() implies (
            #[trigger] stack.drop_last()[k]).0 < body.block_count() && stack.drop_last()[k].1
                <= body.successors(stack.drop_last()[k].0 as int).len() by {
                assert(stack.drop_last()[k] == stack[k]);
            }
        }
        lemma_stack_work_bounded(body, stack.drop_last());
        assert(stack.last() == stack[stack.len() - 1]);
    }
}

proof fn lemma_step_finish(body: &Body, stack: Seq<(usize, usize)>, visited: Seq<bool>, out: Seq<usize>)
    requires
        stack.len() > 0,
        stack.last().1 == body.successors(stack.last().0 as int).len(),
    ensures
        out.push(stack.last().0) + remaining(body, stack.drop_last(), visited) == out + remaining(
            body,
            stack,
            visited,
        ),
        stack_work(body, stack.drop_last()) < stack_work(body, stack),
{
    let rest = remaining(body, stack.drop_last(), visited);
    assert(Seq::<usize>::empty().push(stack.last().0) + rest == seq![stack.last().0] + rest);
    assert(out.push(stack.last().0) + rest == out + (seq![stack.last().0] + rest));
}

/// `moved` is `stack` with one more successor of its top entry looked at.
spec fn top_advanced(stack: Seq<(usize, usize)>, moved: Seq<(usize, usize)>) -> bool {
    &&& stack.len() > 0
    &&& moved.len() == stack.len()
    &&& moved.drop_last() == stack.drop_last()
    &&& moved.last().0 == stack.last().0
    &&& moved.last().1 == stack.last().1 + 1
}

proof fn lemma_step_skip(
    body: &Body,
    stack: Seq<(usize, usize)>,
    moved: Seq<(usize, usize)>,
    visited: Seq<bool>,
)
    requires
        top_advanced(stack, moved),
        stack.last().1 < body.successors(stack.last().0 as int).len(),
        body.successors(stack.last().0 as int)[stack.last().1 as int] < visited.len(),
        visited[body.successors(stack.last().0 as int)[stack.last().1 as int] as int],
    ensures
        remaining(body, moved, visited) == remaining(body, stack, visited),
        stack_work(body, moved) < stack_work(body, stack),
{
    let top = stack.last();
    let succ = body.successors(top.0 as int)[top.1 as int];
    let first = postorder_from(body, succ as int, visited);
    assert(first.0 == Seq::<usize>::empty() && first.1 == visited);
    let rest = postorder_below(body, top.0 as int, top.1 + 1, visited);
    let below = postorder_below(body, top.0 as int, top.1 as int, visited);
    assert(below.0 == first.0 + rest.0 && below.1 == rest.1);
    assert(Seq::<usize>::empty() + rest.0 == rest.0);
    assert(below == postorder_below(body, moved.last().0 as int, moved.last().1 as int, visited));
}

proof fn lemma_step_enter(
    body: &Body,
    stack: Seq<(usize, usize)>,
    moved: Seq<(usize, usize)>,
    visited: Seq<bool>,
)
    requires
        top_advanced(stack, moved),
        stack.last().1 < body.successors(stack.last().0 as int).len(),
        body.successors(stack.last().0 as int)[stack.last().1 as int] < visited.len(),
        !visited[body.successors(stack.last().0 as int)[stack.last().1 as int] as int],
    ensures
        remaining(
            body,
            moved.push((body.successors(stack.last().0 as int)[stack.last().1 as int], 0usize)),
            visited.update(
                body.successors(stack.last().0 as int)[stack.last().1 as int] as int,
                true,
            ),
        ) == remaining(body, stack, visited),
{
    let top = stack.last();
    let succ = body.successors(top.0 as int)[top.1 as int];
    let entered = moved.push((succ, 0usize));
    let marked = visited.update(succ as int, true);
    assert(entered.drop_last() == moved);
    lemma_postorder_marks(body, succ as int, 0, visited);
    let first = postorder_from(body, succ as int, visited);
    let inner = postorder_below(body, succ as int, 0, marked);
    assert(first.0 == inner.0.push(succ) && first.1 == inner.1);
    let rest = postorder_below(body, top.0 as int, top.1 + 1, first.1);
    let tail = remaining(body, stack.drop_last(), rest.1);
    assert(remaining(body, moved, first.1) == rest.0.push(top.0) + tail);
    assert(remaining(body, entered, marked) == first.0 + (rest.0.push(top.0) + tail));
    assert(remaining(body, stack, visited) == (first.0 + rest.0).push(top.0) + tail);
    assert((first.0 + rest.0).push(top.0) + tail == first.0 + (rest.0.push(top.0) + tail));
}

/// Lists the blocks reached from `start` in depth-first postorder: a block
/// comes after every block that the walk first reached through it, and
/// `start` comes last.
pub fn postorder_blocks(body: &Body, start: usize) -> (order: Vec<usize>)
    requires
        body.well_formed(),
        start < body.block_count(),
    ensures
        order@ == postorder(body, start as int),
{
    let block_count: usize = body.basic_blocks.len();
    let mut visited: Vec<bool> = Vec::new();
    while visited.len() < block_count
        invariant
            visited@.len() <= block_count,
            forall|x: int| 0 <= x < visited@.len() ==> !visited@[x],
        decreases block_count - visited@.len(),
    {
        visited.push(false);
    }
    let ghost unmarked = visited@;
    assert(unmarked == Seq::new(body.block_count() as nat, |i: int| false));
    visited.set(start, true);
    let mut stack: Vec<(usize, usize)> = Vec::new();
    stack.push((start, 0usize));
    let mut order: Vec<usize> = Vec::new();
    proof {
        assert(stack@.drop_last() == Seq::<(usize, usize)>::empty());
        let below = postorder_below(body, start as int, 0, visited@);
        assert(remaining(body, Seq::<(usize, usize)>::empty(), below.1) == Seq::<usize>::empty());
        assert(below.0.push(start) + Seq::<usize>::empty() == below.0.push(start));
        assert(visited@ == unmarked.update(start as int, true));
        assert(order@ + remaining(body, stack@, visited@) == postorder(body, start as int));
    }
    while stack.len() > 0
        invariant
            body.well_formed(),
            block_count == body.basic_blocks@.len(),
            visited@.len() == block_count,
            stack_in_range(body, stack@),
            order@ + remaining(body, stack@, visited@) == postorder(body, start as int),
        decreases unseen(visited@), stack_work(body, stack@),
    {
        let top: usize = stack.len() - 1;
        let node: usize = stack[top].0;
        let next: usize = stack[top].1;
        let successors = &body.basic_blocks[node].terminator.successors;
        if next < successors.len() {
            let succ: usize = successors[next];
            assert(succ == body.successors(node as int)[next as int]);
            let ghost before = stack@;
            stack.set(top, (node, next + 1));
            proof {
                assert(stack@.drop_last() == before.drop_last());
                if visited@[succ as int] {
                    lemma_step_skip(body, before, stack@, visited@);
                } else {
                    lemma_step_enter(body, before, stack@, visited@);
                    lemma_unseen_mark(visited@, succ as int);
                }
            }
            if !visited[succ] {
                visited.set(succ, true);
                stack.push((succ, 0usize));
            }
        } else {
            let ghost before = stack@;
            proof {
                lemma_step_finish(body, stack@, visited@, order@);
            }
            stack.pop();
            order.push(node);
            assert(stack@ == before.drop_last());
        }
        proof {
            lemma_stack_work_bounded(body, stack@);
        }
    }
    proof {
        assert(order@ + Seq::<usize>::empty() == order@);
    }
    order
}

/// Lists the blocks reached from `start` in reverse postorder: `start`
/// first, and a block before every block that the walk first reached through
/// it.
pub fn reverse_postorder(body: &Body, start: usize) -> (order: Vec<usize>)
    requires
        body.well_formed(),
        start < body.block_count(),
    ensures
        order@ == postorder(body, start as int).reverse(),
{
    let forward = postorder_blocks(body, start);
    let mut order: Vec<usize> = Vec::new();
    let mut left: usize = forward.len();
    while left > 0
        invariant
            left <= forward@.len(),
            order@.len() == forward@.len() - left,
            forall|i: int| 0 <= i < order@.len() ==> order@[i] == forward@[forward@.len() - 1 - i],
        decreases left,
    {
        left = left - 1;
        order.push(forward[left]);
    }
    assert(order@ == forward@.reverse());
    order
}

} // verus!
