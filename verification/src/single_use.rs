//! Whether a local is used exactly once.

use vstd::prelude::*;
use crate::assignments::{is_assignment_at, is_local_assignment};
use crate::body::{Body, Local, Location};
use crate::cycle::{block_in_cycle, in_cycle};
use crate::traversal::lemma_postorder_in_range;
use crate::usage::{loops_back, order_usage, scan_order, visit_local_usage};
use crate::usage_laws::{
    all_in_scan, in_scan, lemma_scan_gives_up_on_cycle, lemma_unmentioned_has_no_usage,
    lemma_usage_in_scan, mentioned_at,
};

verus! {

/// The locations of `uses` at which `local` is not assigned, in order.
pub open spec fn non_assignment_uses(body: &Body, local: Local, uses: Seq<Location>) -> Seq<
    Location,
>
    decreases uses.len(),
{
    if uses.len() == 0 {
        Seq::empty()
    } else {
        let before = non_assignment_uses(body, local, uses.drop_last());
        if is_assignment_at(
            body,
            local,
            uses.last().block as int,
            uses.last().statement_index as int,
        ) {
            before
        } else {
            before.push(uses.last())
        }
    }
}

/// The first location of the entry block.
pub open spec fn entry() -> Location {
    Location { block: 0, statement_index: 0 }
}

/// Whether `local` is used exactly once: unknown where a scan from the entry
/// gives up; else whether, the locations that assign `local` set aside, one
/// use is left and its block lies on no cycle.
pub open spec fn exactly_once(body: &Body, local: Local) -> Option<bool> {
    if loops_back(body, scan_order(body, entry()), 0) {
        None
    } else {
        let uses = non_assignment_uses(
            body,
            local,
            order_usage(body, scan_order(body, entry()), local, false, entry()),
        );
        Some(uses.len() == 1 && !in_cycle(body, uses[0].block as int))
    }
}

/// A local that no statement and no terminator mentions is not used exactly
/// once, where the entry block lies on no cycle: it is not used at all.
pub proof fn lemma_unmentioned_is_not_used_once(body: &Body, local: Local)
    requires
        body.well_formed(),
        body.block_count() > 0,
        !in_cycle(body, 0),
        forall|at: Location| body.has_location(at) ==> !#[trigger] mentioned_at(
            body,
            local,
            at.block as int,
            at.statement_index as int,
        ),
    ensures
        exactly_once(body, local) == Some(false),
{
    let order = scan_order(body, entry());
    lemma_scan_gives_up_on_cycle(body, entry());
    lemma_postorder_in_range(body, 0);
    assert forall|k: int, offset: int|
        0 <= k < order.len() && 0 <= offset <= body.statement_count(
            order[k] as int,
        ) implies !#[trigger] mentioned_at(body, local, order[k] as int, offset) by {
        assert(body.basic_blocks@[order[k] as int].statements.len() <= usize::MAX);
        let at = Location { block: order[k], statement_index: offset as usize };
        assert(body.has_location(at));
        assert(!mentioned_at(body, local, at.block as int, at.statement_index as int));
    }
    lemma_unmentioned_has_no_usage(body, order, local, false, entry());
}

/// Setting the assignments aside removes nothing where `local` is assigned
/// at none of the locations.
proof fn lemma_nothing_set_aside(body: &Body, local: Local, uses: Seq<Location>)
    requires
        forall|k: int|
            0 <= k < uses.len() ==> !is_assignment_at(
                body,
                local,
                (#[trigger] uses[k]).block as int,
                uses[k].statement_index as int,
            ),
    ensures
        non_assignment_uses(body, local, uses) == uses,
    decreases uses.len(),
{
    if uses.len() > 0 {
        assert forall|k: int| 0 <= k < uses.drop_last().len() implies !is_assignment_at(
            body,
            local,
            (#[trigger] uses.drop_last()[k]).block as int,
            uses.drop_last()[k].statement_index as int,
        ) by {
            assert(uses.drop_last()[k] == uses[k]);
        }
        lemma_nothing_set_aside(body, local, uses.drop_last());
        assert(uses.last() == uses[uses.len() - 1]);
        assert(uses.drop_last().push(uses.last()) == uses);
    }
}

/// For a local that no statement and no terminator assigns, every use
/// recorded from the entry counts: it is used exactly once where one use is
/// recorded and the block of that use lies on no cycle. With no use recorded
/// it is not.
pub proof fn lemma_never_assigned_counts_every_use(body: &Body, local: Local)
    requires
        body.well_formed(),
        body.block_count() > 0,
        !in_cycle(body, 0),
        forall|at: Location|
            body.has_location(at) ==> !#[trigger] is_assignment_at(
                body,
                local,
                at.block as int,
                at.statement_index as int,
            ),
    ensures
        exactly_once(body, local) == Some(
            order_usage(body, scan_order(body, entry()), local, false, entry()).len() == 1
                && !in_cycle(
                body,
                order_usage(body, scan_order(body, entry()), local, false, entry())[0].block as int,
            ),
        ),
        order_usage(body, scan_order(body, entry()), local, false, entry()).len() == 0
            ==> exactly_once(body, local) == Some(false),
{
    let order = scan_order(body, entry());
    let uses = order_usage(body, order, local, false, entry());
    lemma_scan_gives_up_on_cycle(body, entry());
    lemma_postorder_in_range(body, 0);
    lemma_usage_in_scan(body, order, local, false, entry());
    assert forall|k: int| 0 <= k < uses.len() implies !is_assignment_at(
        body,
        local,
        (#[trigger] uses[k]).block as int,
        uses[k].statement_index as int,
    ) by {
        assert(in_scan(body, order, entry(), uses[k]));
        let j = choose|j: int| 0 <= j < order.len() && order[j] == uses[k].block;
        assert(body.has_location(uses[k]));
    }
    lemma_nothing_set_aside(body, local, uses);
}

/// The entry block on a cycle is the one case in which nothing is said.
pub proof fn lemma_exactly_once_unknown_on_cycle(body: &Body, local: Local)
    requires
        body.well_formed(),
        body.block_count() > 0,
    ensures
        exactly_once(body, local) is None <==> in_cycle(body, 0),
{
    lemma_scan_gives_up_on_cycle(body, entry());
}

/// Tells whether `local` is used exactly once after the entry, outside any
/// cycle, not counting the locations that assign it. `None` where the entry
/// block lies on a loop and nothing can be said.
pub fn used_exactly_once(mir: &Body, local: Local) -> (once: Option<bool>)
    requires
        mir.well_formed(),
        mir.block_count() > 0,
    ensures
        once == exactly_once(mir, local),
        once is None <==> in_cycle(mir, 0),
{
    proof {
        lemma_exactly_once_unknown_on_cycle(mir, local);
    }
    let start = Location { block: 0, statement_index: 0 };
    let mut locals: Vec<Local> = Vec::new();
    locals.push(local);
    match visit_local_usage(locals.as_slice(), mir, start) {
        None => None,
        Some(found) => {
            let uses = &found[0].local_use_locs;
            let ghost recorded_uses = order_usage(mir, scan_order(mir, start), local, false, start);
            proof {
                lemma_postorder_in_range(mir, 0);
                assert(all_in_scan(mir, scan_order(mir, start), start, uses@));
            }
            let mut kept: usize = 0;
            let mut first: Location = start;
            let mut k: usize = 0;
            while k < uses.len()
                invariant
                    k <= uses@.len(),
                    uses@ == recorded_uses,
                    forall|j: int| 0 <= j < uses@.len() ==> (#[trigger] uses@[j]).block < mir.block_count(),
                    first.block < mir.block_count(),
                    kept <= 2,
                    kept < 2 ==> kept == non_assignment_uses(mir, local, uses@.take(k as int)).len(),
                    kept == 2 ==> non_assignment_uses(mir, local, uses@.take(k as int)).len() >= 2,
                    kept >= 1 ==> first == non_assignment_uses(mir, local, uses@.take(k as int))[0],
                decreases uses@.len() - k,
            {
                let at: Location = uses[k];
                proof {
                    assert(uses@.take(k + 1).drop_last() == uses@.take(k as int));
                }
                if !is_local_assignment(mir, local, at) {
                    if kept == 0 {
                        first = at;
                    }
                    if kept < 2 {
                        kept = kept + 1;
                    }
                }
                k = k + 1;
            }
            proof {
                assert(uses@.take(k as int) == uses@);
            }
            if kept == 1 {
                Some(!block_in_cycle(mir, first.block))
            } else {
                Some(false)
            }
        },
    }
}

} // verus!
