//! Where a local is assigned.

use vstd::prelude::*;
use crate::body::{Body, Local, Location, Place, StatementKind, TerminatorKind};

verus! {

/// Whether one of `outputs` is exactly `local`.
pub open spec fn some_output_is(outputs: Seq<Place>, local: Local) -> bool {
    exists|i: int| 0 <= i < outputs.len() && (#[trigger] outputs[i]).is_exactly(local)
}

/// Whether `local` itself, with no projection, is assigned at offset `offset`
/// of block `block`: by an assignment statement, or at the terminator by a
/// call's destination or one of an inline effect's outputs.
pub open spec fn is_assignment_at(body: &Body, local: Local, block: int, offset: int) -> bool {
    let data = body.basic_blocks@[block];
    if 0 <= offset < data.statements@.len() {
        match data.statements@[offset].kind {
            StatementKind::Assign(place) => place.is_exactly(local),
            StatementKind::Other => false,
        }
    } else {
        match data.terminator.kind {
            TerminatorKind::Call { destination } => destination is Some
                && destination->0.is_exactly(local),
            TerminatorKind::InlineAsm { outputs } => some_output_is(outputs@, local),
            TerminatorKind::Other => false,
        }
    }
}

/// The assignments to `local` at the offsets below `upto` of `block`, in order.
pub open spec fn block_assignments(body: &Body, local: Local, block: int, upto: int) -> Seq<
    Location,
>
    decreases upto,
{
    if upto <= 0 {
        Seq::empty()
    } else {
        let before = block_assignments(body, local, block, upto - 1);
        if is_assignment_at(body, local, block, upto - 1) {
            before.push(Location { block: block as usize, statement_index: (upto - 1) as usize })
        } else {
            before
        }
    }
}

/// The assignments to `local` in the first `blocks` blocks, block by block.
pub open spec fn assignments_in_blocks(body: &Body, local: Local, blocks: int) -> Seq<Location>
    decreases blocks,
{
    if blocks <= 0 {
        Seq::empty()
    } else {
        assignments_in_blocks(body, local, blocks - 1) + block_assignments(
            body,
            local,
            blocks - 1,
            body.statement_count(blocks - 1) + 1,
        )
    }
}

/// Every location of `body` at which `local` is assigned, by block and then
/// by offset.
pub open spec fn assignment_locations(body: &Body, local: Local) -> Seq<Location> {
    assignments_in_blocks(body, local, body.block_count())
}

/// Whether `earlier` comes before `later`: in a lower block, or in the same
/// block at a lower offset.
pub open spec fn location_precedes(earlier: Location, later: Location) -> bool {
    earlier.block < later.block || (earlier.block == later.block && earlier.statement_index
        < later.statement_index)
}

/// `locations` holds exactly the assignments to `local` at the offsets below
/// `upto` of `block`, by rising offset.
spec fn lists_block_assignments(
    body: &Body,
    local: Local,
    block: int,
    upto: int,
    locations: Seq<Location>,
) -> bool {
    &&& forall|k: int|
        0 <= k < locations.len() ==> (#[trigger] locations[k]).block == block
            && locations[k].statement_index < upto && is_assignment_at(
            body,
            local,
            block,
            locations[k].statement_index as int,
        )
    &&& forall|i: int, j: int|
        0 <= i < j < locations.len() ==> (#[trigger] locations[i]).statement_index < (
        #[trigger] locations[j]).statement_index
    &&& forall|offset: int|
        0 <= offset < upto && #[trigger] is_assignment_at(body, local, block, offset)
            ==> locations.contains(
            Location { block: block as usize, statement_index: offset as usize },
        )
}

proof fn lemma_block_assignments(body: &Body, local: Local, block: int, upto: int)
    requires
        0 <= block <= usize::MAX,
        upto <= usize::MAX + 1,
    ensures
        lists_block_assignments(
            body,
            local,
            block,
            upto,
            block_assignments(body, local, block, upto),
        ),
    decreases upto,
{
    if upto > 0 {
        lemma_block_assignments(body, local, block, upto - 1);
        let before = block_assignments(body, local, block, upto - 1);
        let all = block_assignments(body, local, block, upto);
        let here = Location { block: block as usize, statement_index: (upto - 1) as usize };
        assert forall|offset: int|
            0 <= offset < upto && #[trigger] is_assignment_at(
                body,
                local,
                block,
                offset,
            ) implies all.contains(
            Location { block: block as usize, statement_index: offset as usize },
        ) by {
            if offset < upto - 1 {
                let at = Location { block: block as usize, statement_index: offset as usize };
                assert(before.contains(at));
                let k = choose|k: int| 0 <= k < before.len() && before[k] == at;
                assert(all[k] == at);
            } else {
                assert(all[before.len() as int] == here);
            }
        }
    }
}

/// `locations` holds exactly the assignments to `local` in the first `blocks`
/// blocks, each once, by rising block and offset.
spec fn lists_assignments(body: &Body, local: Local, blocks: int, locations: Seq<Location>) -> bool {
    &&& forall|k: int|
        0 <= k < locations.len() ==> (#[trigger] locations[k]).block < blocks
            && locations[k].statement_index <= body.statement_count(locations[k].block as int)
            && is_assignment_at(
            body,
            local,
            locations[k].block as int,
            locations[k].statement_index as int,
        )
    &&& forall|i: int, j: int|
        0 <= i < j < locations.len() ==> location_precedes(
            #[trigger] locations[i],
            #[trigger] locations[j],
        )
    &&& forall|at: Location|
        at.block < blocks && at.statement_index <= body.statement_count(at.block as int)
            && #[trigger] is_assignment_at(
            body,
            local,
            at.block as int,
            at.statement_index as int,
        ) ==> locations.contains(at)
}

proof fn lemma_assignments_in_blocks(body: &Body, local: Local, blocks: int)
    requires
        blocks <= body.block_count(),
    ensures
        lists_assignments(body, local, blocks, assignments_in_blocks(body, local, blocks)),
    decreases blocks,
{
    if blocks > 0 {
        let block = blocks - 1;
        let count = body.statement_count(block);
        assert(body.basic_blocks.len() <= usize::MAX);
        assert(body.basic_blocks@[block].statements.len() <= usize::MAX);
        lemma_assignments_in_blocks(body, local, block);
        lemma_block_assignments(body, local, block, count + 1);
        let before = assignments_in_blocks(body, local, block);
        let last = block_assignments(body, local, block, count + 1);
        let all = before + last;
        assert forall|at: Location|
            at.block < blocks && at.statement_index <= body.statement_count(at.block as int)
                && #[trigger] is_assignment_at(
                body,
                local,
                at.block as int,
                at.statement_index as int,
            ) implies all.contains(at) by {
            if at.block < block {
                assert(before.contains(at));
                let k = choose|k: int| 0 <= k < before.len() && before[k] == at;
                assert(all[k] == at);
            } else {
                assert(at == Location {
                    block: block as usize,
                    statement_index: (at.statement_index as int) as usize,
                });
                assert(last.contains(at));
                let k = choose|k: int| 0 <= k < last.len() && last[k] == at;
                assert(all[before.len() + k] == at);
            }
        }
    }
}

/// A location is listed among the assignments to `local` exactly if it is a
/// location of the body at which `local` is assigned.
pub proof fn lemma_assignment_locations_exact(body: &Body, local: Local, at: Location)
    ensures
        assignment_locations(body, local).contains(at) <==> body.has_location(at)
            && is_assignment_at(body, local, at.block as int, at.statement_index as int),
{
    lemma_assignments_in_blocks(body, local, body.block_count());
}

/// The assignments to a local are listed in rising order of block and offset,
/// so none is listed twice.
pub proof fn lemma_assignment_locations_ascending(body: &Body, local: Local, i: int, j: int)
    requires
        0 <= i < j < assignment_locations(body, local).len(),
    ensures
        location_precedes(
            assignment_locations(body, local)[i],
            assignment_locations(body, local)[j],
        ),
{
    lemma_assignments_in_blocks(body, local, body.block_count());
}

/// Listing the assignments to a local is repeatable: two listings for one
/// body and one local hold the same locations in the same order.
pub proof fn lemma_local_assignments_repeatable(
    body: &Body,
    local: Local,
    first: Seq<Location>,
    second: Seq<Location>,
)
    requires
        first == assignment_locations(body, local),
        second == assignment_locations(body, local),
    ensures
        first == second,
        first.len() == second.len(),
        forall|k: int| 0 <= k < first.len() ==> first[k] == second[k],
{
}

/// A local that no statement and no terminator assigns has no assignment
/// locations.
pub proof fn lemma_never_assigned_is_empty(body: &Body, local: Local)
    requires
        forall|at: Location|
            body.has_location(at) ==> !#[trigger] is_assignment_at(
                body,
                local,
                at.block as int,
                at.statement_index as int,
            ),
    ensures
        assignment_locations(body, local) == Seq::<Location>::empty(),
{
    lemma_assignments_in_blocks(body, local, body.block_count());
    let locations = assignment_locations(body, local);
    if locations.len() > 0 {
        assert(body.has_location(locations[0]));
    }
}

/// Tells whether one of `outputs` is exactly `local`.
fn any_output_is(outputs: &Vec<Place>, local: Local) -> (found: bool)
    ensures
        found == some_output_is(outputs@, local),
{
    let mut i: usize = 0;
    while i < outputs.len()
        invariant
            i <= outputs@.len(),
            forall|j: int| 0 <= j < i ==> !(#[trigger] outputs@[j]).is_exactly(local),
        decreases outputs@.len() - i,
    {
        if outputs[i].is_local(local) {
            return true;
        }
        i = i + 1;
    }
    false
}

/// Tells whether `local` is assigned at `location`.
pub fn is_local_assignment(mir: &Body, local: Local, location: Location) -> (assigned: bool)
    requires
        location.block < mir.block_count(),
    ensures
        assigned == is_assignment_at(
            mir,
            local,
            location.block as int,
            location.statement_index as int,
        ),
{
    let basic_block = &mir.basic_blocks[location.block];
    if location.statement_index < basic_block.statements.len() {
        match basic_block.statements[location.statement_index].kind {
            StatementKind::Assign(place) => place.is_local(local),
            StatementKind::Other => false,
        }
    } else {
        match &basic_block.terminator.kind {
            TerminatorKind::Call { destination } => match destination {
                Some(place) => place.is_local(local),
                None => false,
            },
            TerminatorKind::InlineAsm { outputs } => any_output_is(outputs, local),
            TerminatorKind::Other => false,
        }
    }
}

/// Lists every location at which `local` is assigned, by block and then by
/// offset.
pub fn local_assignments(mir: &Body, local: Local) -> (locations: Vec<Location>)
    ensures
        locations@ == assignment_locations(mir, local),
{
    let mut locations: Vec<Location> = Vec::new();
    let block_count: usize = mir.basic_blocks.len();
    let mut block: usize = 0;
    while block < block_count
        invariant
            block_count == mir.basic_blocks@.len(),
            block <= block_count,
            locations@ == assignments_in_blocks(mir, local, block as int),
        decreases block_count - block,
    {
        let statement_count: usize = mir.basic_blocks[block].statements.len();
        let ghost before = locations@;
        let mut statement_index: usize = 0;
        while statement_index < statement_count
            invariant
                block < block_count,
                block_count == mir.basic_blocks@.len(),
                statement_count == mir.statement_count(block as int),
                statement_index <= statement_count,
                locations@ == before + block_assignments(
                    mir,
                    local,
                    block as int,
                    statement_index as int,
                ),
            decreases statement_count - statement_index,
        {
            let location = Location { block, statement_index };
            if is_local_assignment(mir, local, location) {
                locations.push(location);
            }
            statement_index = statement_index + 1;
        }
        let location = Location { block, statement_index: statement_count };
        if is_local_assignment(mir, local, location) {
            locations.push(location);
        }
        block = block + 1;
    }
    locations
}

} // verus!
