//! What holds of the records of a scan: where the recorded locations lie,
//! when a scan gives up, and what is recorded for a local that occurs nowhere.

use vstd::prelude::*;
use crate::body::{
    Body, Local, Location, Occurrence, Place, PlaceContext, StatementKind, TerminatorKind,
};
use crate::cycle::{in_cycle, is_walk, lemma_edge_reaches, lemma_reaches_then_edge, reaches};
use crate::traversal::{lemma_postorder_lists_reached, postorder};
use crate::usage::{
    at_or_before, block_usage, loops_back, operand_usage, order_usage, output_usage, place_usage,
    position_usage, scan_order,
};

verus! {

/// `at` lies after `start`: in another block, or at a higher offset of the
/// same block.
pub open spec fn after_start(start: Location, at: Location) -> bool {
    !(at.block == start.block && at.statement_index <= start.statement_index)
}

/// `at` is a location of a block of `order` and lies after `start`.
pub open spec fn in_scan(body: &Body, order: Seq<usize>, start: Location, at: Location) -> bool {
    &&& order.contains(at.block)
    &&& at.statement_index <= body.statement_count(at.block as int)
    &&& after_start(start, at)
}

/// Every location of `locations` is `at`.
spec fn all_at(locations: Seq<Location>, at: Location) -> bool {
    forall|k: int| 0 <= k < locations.len() ==> #[trigger] locations[k] == at
}

proof fn lemma_all_at_joined(first: Seq<Location>, second: Seq<Location>, at: Location)
    requires
        all_at(first, at),
        all_at(second, at),
    ensures
        all_at(first + second, at),
{
    let all = first + second;
    assert forall|k: int| 0 <= k < all.len() implies #[trigger] all[k] == at by {
        if k < first.len() {
            assert(all[k] == first[k]);
        } else {
            assert(all[k] == second[k - first.len()]);
        }
    }
}

/// Every location of `locations` is a location of a block of `order` and
/// lies after `start`.
pub open spec fn all_in_scan(
    body: &Body,
    order: Seq<usize>,
    start: Location,
    locations: Seq<Location>,
) -> bool {
    forall|k: int| 0 <= k < locations.len() ==> in_scan(body, order, start, #[trigger] locations[k])
}

proof fn lemma_operand_usage_at(
    operands: Seq<Occurrence>,
    local: Local,
    consuming: bool,
    at: Location,
)
    ensures
        all_at(operand_usage(operands, local, consuming, at), at),
    decreases operands.len(),
{
    if operands.len() > 0 {
        lemma_operand_usage_at(operands.drop_last(), local, consuming, at);
        lemma_all_at_joined(
            operand_usage(operands.drop_last(), local, consuming, at),
            place_usage(operands.last().place, operands.last().context, local, consuming, at),
            at,
        );
    }
}

proof fn lemma_output_usage_at(outputs: Seq<Place>, local: Local, consuming: bool, at: Location)
    ensures
        all_at(output_usage(outputs, local, consuming, at), at),
    decreases outputs.len(),
{
    if outputs.len() > 0 {
        lemma_output_usage_at(outputs.drop_last(), local, consuming, at);
        lemma_all_at_joined(
            output_usage(outputs.drop_last(), local, consuming, at),
            place_usage(outputs.last(), PlaceContext::AsmOutput, local, consuming, at),
            at,
        );
    }
}

proof fn lemma_position_usage_at(
    body: &Body,
    block: int,
    offset: int,
    local: Local,
    consuming: bool,
    start: Location,
)
    ensures
        all_at(
            position_usage(body, block, offset, local, consuming, start),
            Location { block: block as usize, statement_index: offset as usize },
        ),
        at_or_before(start, block, offset) ==> position_usage(
            body,
            block,
            offset,
            local,
            consuming,
            start,
        ).len() == 0,
{
    let at = Location { block: block as usize, statement_index: offset as usize };
    let data = body.basic_blocks@[block];
    if at_or_before(start, block, offset) {
    } else if offset < data.statements@.len() {
        let statement = data.statements@[offset];
        lemma_operand_usage_at(statement.operands@, local, consuming, at);
        let stored = match statement.kind {
            StatementKind::Assign(place) => place_usage(
                place,
                PlaceContext::Store,
                local,
                consuming,
                at,
            ),
            StatementKind::Other => Seq::empty(),
        };
        lemma_all_at_joined(stored, operand_usage(statement.operands@, local, consuming, at), at);
    } else {
        let terminator = data.terminator;
        lemma_operand_usage_at(terminator.operands@, local, consuming, at);
        let written = match terminator.kind {
            TerminatorKind::Call { destination: Some(place) } => place_usage(
                place,
                PlaceContext::CallResult,
                local,
                consuming,
                at,
            ),
            TerminatorKind::Call { destination: None } => Seq::empty(),
            TerminatorKind::InlineAsm { outputs } => output_usage(outputs@, local, consuming, at),
            TerminatorKind::Other => Seq::empty(),
        };
        match terminator.kind {
            TerminatorKind::InlineAsm { outputs } => {
                lemma_output_usage_at(outputs@, local, consuming, at);
            },
            _ => {},
        }
        lemma_all_at_joined(operand_usage(terminator.operands@, local, consuming, at), written, at);
    }
}

/// Every location of `locations` is an offset below `upto` of `block` and
/// lies after `start`.
spec fn all_in_block(locations: Seq<Location>, block: int, upto: int, start: Location) -> bool {
    forall|k: int|
        0 <= k < locations.len() ==> (#[trigger] locations[k]).block == block
            && locations[k].statement_index < upto && after_start(start, locations[k])
}

proof fn lemma_block_usage_at(
    body: &Body,
    block: int,
    upto: int,
    local: Local,
    consuming: bool,
    start: Location,
)
    requires
        0 <= block <= usize::MAX,
        upto <= usize::MAX + 1,
    ensures
        all_in_block(block_usage(body, block, upto, local, consuming, start), block, upto, start),
    decreases upto,
{
    if upto > 0 {
        lemma_block_usage_at(body, block, upto - 1, local, consuming, start);
        lemma_position_usage_at(body, block, upto - 1, local, consuming, start);
        let before = block_usage(body, block, upto - 1, local, consuming, start);
        let here = position_usage(body, block, upto - 1, local, consuming, start);
        let all = before + here;
        assert forall|k: int| 0 <= k < all.len() implies (#[trigger] all[k]).block == block
            && all[k].statement_index < upto && after_start(start, all[k]) by {
            if k < before.len() {
                assert(all[k] == before[k]);
            } else {
                assert(all[k] == here[k - before.len()]);
            }
        }
    }
}

/// Every recorded location is a location of a visited block and lies after
/// the start: nothing at or before the start in its block is recorded.
pub proof fn lemma_usage_in_scan(
    body: &Body,
    order: Seq<usize>,
    local: Local,
    consuming: bool,
    start: Location,
)
    requires
        forall|k: int| 0 <= k < order.len() ==> (#[trigger] order[k]) < body.block_count(),
    ensures
        all_in_scan(body, order, start, order_usage(body, order, local, consuming, start)),
    decreases order.len(),
{
    if order.len() > 0 {
        let block = order.last();
        let before = order_usage(body, order.drop_last(), local, consuming, start);
        let here = block_usage(
            body,
            block as int,
            body.statement_count(block as int) + 1,
            local,
            consuming,
            start,
        );
        assert(body.basic_blocks@[block as int].statements.len() <= usize::MAX);
        lemma_usage_in_scan(body, order.drop_last(), local, consuming, start);
        lemma_block_usage_at(
            body,
            block as int,
            body.statement_count(block as int) + 1,
            local,
            consuming,
            start,
        );
        let all = order_usage(body, order, local, consuming, start);
        assert forall|k: int| 0 <= k < all.len() implies in_scan(
            body,
            order,
            start,
            #[trigger] all[k],
        ) by {
            if k < before.len() {
                assert(all[k] == before[k]);
                assert(in_scan(body, order.drop_last(), start, before[k]));
                let j = choose|j: int|
                    0 <= j < order.drop_last().len() && order.drop_last()[j] == before[k].block;
                assert(order[j] == before[k].block);
            } else {
                assert(all[k] == here[k - before.len()]);
                assert(order[order.len() - 1] == block);
            }
        }
    }
}

/// Every location of `part` is a location of `whole`.
pub open spec fn all_among(part: Seq<Location>, whole: Seq<Location>) -> bool {
    forall|k: int| 0 <= k < part.len() ==> whole.contains(#[trigger] part[k])
}

proof fn lemma_all_among_joined(
    part: Seq<Location>,
    whole: Seq<Location>,
    more_part: Seq<Location>,
    more_whole: Seq<Location>,
)
    requires
        all_among(part, whole),
        all_among(more_part, more_whole),
    ensures
        all_among(part + more_part, whole + more_whole),
{
    let joined = part + more_part;
    let all = whole + more_whole;
    assert forall|k: int| 0 <= k < joined.len() implies all.contains(#[trigger] joined[k]) by {
        if k < part.len() {
            assert(joined[k] == part[k]);
            let j = choose|j: int| 0 <= j < whole.len() && whole[j] == part[k];
            assert(all[j] == part[k]);
        } else {
            assert(joined[k] == more_part[k - part.len()]);
            let j = choose|j: int|
                0 <= j < more_whole.len() && more_whole[j] == more_part[k - part.len()];
            assert(all[whole.len() + j] == joined[k]);
        }
    }
}

proof fn lemma_place_consumed_is_used(
    place: Place,
    context: PlaceContext,
    local: Local,
    at: Location,
)
    ensures
        all_among(
            place_usage(place, context, local, true, at),
            place_usage(place, context, local, false, at),
        ),
{
    let uses = place_usage(place, context, local, false, at);
    if place_usage(place, context, local, true, at).len() > 0 {
        assert(uses[0] == at);
    }
}

proof fn lemma_operands_consumed_are_used(operands: Seq<Occurrence>, local: Local, at: Location)
    ensures
        all_among(
            operand_usage(operands, local, true, at),
            operand_usage(operands, local, false, at),
        ),
    decreases operands.len(),
{
    if operands.len() > 0 {
        let last = operands.last();
        lemma_operands_consumed_are_used(operands.drop_last(), local, at);
        lemma_place_consumed_is_used(last.place, last.context, local, at);
        lemma_all_among_joined(
            operand_usage(operands.drop_last(), local, true, at),
            operand_usage(operands.drop_last(), local, false, at),
            place_usage(last.place, last.context, local, true, at),
            place_usage(last.place, last.context, local, false, at),
        );
    }
}

proof fn lemma_outputs_are_not_consumed(outputs: Seq<Place>, local: Local, at: Location)
    ensures
        output_usage(outputs, local, true, at) == Seq::<Location>::empty(),
    decreases outputs.len(),
{
    if outputs.len() > 0 {
        lemma_outputs_are_not_consumed(outputs.drop_last(), local, at);
        assert(Seq::<Location>::empty() + Seq::<Location>::empty() == Seq::<Location>::empty());
    }
}

proof fn lemma_position_consumed_is_used(
    body: &Body,
    block: int,
    offset: int,
    local: Local,
    start: Location,
)
    ensures
        all_among(
            position_usage(body, block, offset, local, true, start),
            position_usage(body, block, offset, local, false, start),
        ),
{
    let at = Location { block: block as usize, statement_index: offset as usize };
    let data = body.basic_blocks@[block];
    let nothing = Seq::<Location>::empty();
    if at_or_before(start, block, offset) {
    } else if offset < data.statements@.len() {
        let statement = data.statements@[offset];
        lemma_operands_consumed_are_used(statement.operands@, local, at);
        let stored = match statement.kind {
            StatementKind::Assign(place) => place_usage(place, PlaceContext::Store, local, false, at),
            StatementKind::Other => Seq::empty(),
        };
        lemma_all_among_joined(
            nothing,
            stored,
            operand_usage(statement.operands@, local, true, at),
            operand_usage(statement.operands@, local, false, at),
        );
        assert(nothing + operand_usage(statement.operands@, local, true, at) == operand_usage(
            statement.operands@,
            local,
            true,
            at,
        ));
    } else {
        let terminator = data.terminator;
        lemma_operands_consumed_are_used(terminator.operands@, local, at);
        let written = match terminator.kind {
            TerminatorKind::Call { destination: Some(place) } => place_usage(
                place,
                PlaceContext::CallResult,
                local,
                false,
                at,
            ),
            TerminatorKind::Call { destination: None } => Seq::empty(),
            TerminatorKind::InlineAsm { outputs } => output_usage(outputs@, local, false, at),
            TerminatorKind::Other => Seq::empty(),
        };
        match terminator.kind {
            TerminatorKind::InlineAsm { outputs } => {
                lemma_outputs_are_not_consumed(outputs@, local, at);
            },
            _ => {},
        }
        lemma_all_among_joined(
            operand_usage(terminator.operands@, local, true, at),
            operand_usage(terminator.operands@, local, false, at),
            nothing,
            written,
        );
        assert(operand_usage(terminator.operands@, local, true, at) + nothing == operand_usage(
            terminator.operands@,
            local,
            true,
            at,
        ));
    }
}

proof fn lemma_block_consumed_is_used(
    body: &Body,
    block: int,
    upto: int,
    local: Local,
    start: Location,
)
    ensures
        all_among(
            block_usage(body, block, upto, local, true, start),
            block_usage(body, block, upto, local, false, start),
        ),
    decreases upto,
{
    if upto > 0 {
        lemma_block_consumed_is_used(body, block, upto - 1, local, start);
        lemma_position_consumed_is_used(body, block, upto - 1, local, start);
        lemma_all_among_joined(
            block_usage(body, block, upto - 1, local, true, start),
            block_usage(body, block, upto - 1, local, false, start),
            position_usage(body, block, upto - 1, local, true, start),
            position_usage(body, block, upto - 1, local, false, start),
        );
    }
}

/// A location recorded as consuming or mutating is recorded as a use too.
pub proof fn lemma_consumed_is_used(body: &Body, order: Seq<usize>, local: Local, start: Location)
    ensures
        all_among(
            order_usage(body, order, local, true, start),
            order_usage(body, order, local, false, start),
        ),
    decreases order.len(),
{
    if order.len() > 0 {
        let block = order.last() as int;
        lemma_consumed_is_used(body, order.drop_last(), local, start);
        lemma_block_consumed_is_used(body, block, body.statement_count(block) + 1, local, start);
        lemma_all_among_joined(
            order_usage(body, order.drop_last(), local, true, start),
            order_usage(body, order.drop_last(), local, false, start),
            block_usage(body, block, body.statement_count(block) + 1, local, true, start),
            block_usage(body, block, body.statement_count(block) + 1, local, false, start),
        );
    }
}

/// A scan gives up exactly where the block it starts in lies on a cycle:
/// some block reached from the start has an edge back to it.
pub proof fn lemma_scan_gives_up_on_cycle(body: &Body, start: Location)
    requires
        body.well_formed(),
        start.block < body.block_count(),
    ensures
        loops_back(body, scan_order(body, start), start.block as int) <==> in_cycle(
            body,
            start.block as int,
        ),
{
    let origin = start.block as int;
    let forward = postorder(body, origin);
    let order = scan_order(body, start);
    if loops_back(body, order, origin) {
        let k = choose|k: int| 0 <= k < order.len() && body.has_edge(#[trigger] order[k] as int, origin);
        assert(order[k] == forward[forward.len() - 1 - k]);
        assert(forward.contains(order[k]));
        lemma_postorder_lists_reached(body, origin, order[k]);
        if order[k] == origin {
            lemma_edge_reaches(body, origin, origin);
        } else {
            lemma_reaches_then_edge(body, origin, order[k] as int, origin);
        }
    }
    if in_cycle(body, origin) {
        let walk = choose|walk: Seq<int>|
            walk.len() >= 2 && walk[0] == origin && walk.last() == origin && #[trigger] is_walk(
                body,
                walk,
            );
        let before = walk[walk.len() - 2];
        assert(body.has_edge(before, walk[walk.len() - 2 + 1]));
        assert(body.basic_blocks.len() == body.block_count());
        if walk.len() > 2 {
            let shorter = walk.drop_last();
            assert forall|i: int|
                #![trigger shorter[i]]
                0 <= i < shorter.len() - 1 implies body.has_edge(shorter[i], shorter[i + 1]) by {
                assert(body.has_edge(walk[i], walk[i + 1]));
            }
            assert(is_walk(body, shorter));
            assert(reaches(body, origin, before));
        }
        lemma_postorder_lists_reached(body, origin, before as usize);
        let j = choose|j: int| 0 <= j < forward.len() && forward[j] == before as usize;
        assert(order[forward.len() - 1 - j] == before as usize);
        assert(body.has_edge(order[forward.len() - 1 - j] as int, origin));
    }
}

/// `local` is the base of some place that occurs at offset `offset` of block
/// `block`: of a destination, an output or an operand.
pub open spec fn mentioned_at(body: &Body, local: Local, block: int, offset: int) -> bool {
    let data = body.basic_blocks@[block];
    if 0 <= offset < data.statements@.len() {
        let statement = data.statements@[offset];
        ||| (statement.kind is Assign && statement.kind->Assign_0.local == local)
        ||| exists|i: int|
            0 <= i < statement.operands@.len() && (#[trigger] statement.operands@[i]).place.local
                == local
    } else {
        let terminator = data.terminator;
        ||| exists|i: int|
            0 <= i < terminator.operands@.len() && (#[trigger] terminator.operands@[i]).place.local
                == local
        ||| match terminator.kind {
            TerminatorKind::Call { destination: Some(place) } => place.local == local,
            TerminatorKind::Call { destination: None } => false,
            TerminatorKind::InlineAsm { outputs } => exists|i: int|
                0 <= i < outputs@.len() && (#[trigger] outputs@[i]).local == local,
            TerminatorKind::Other => false,
        }
    }
}

proof fn lemma_unmentioned_operands(
    operands: Seq<Occurrence>,
    local: Local,
    consuming: bool,
    at: Location,
)
    requires
        forall|i: int| 0 <= i < operands.len() ==> (#[trigger] operands[i]).place.local != local,
    ensures
        operand_usage(operands, local, consuming, at) == Seq::<Location>::empty(),
    decreases operands.len(),
{
    if operands.len() > 0 {
        assert forall|i: int| 0 <= i < operands.drop_last().len() implies (
        #[trigger] operands.drop_last()[i]).place.local != local by {
            assert(operands.drop_last()[i] == operands[i]);
        }
        lemma_unmentioned_operands(operands.drop_last(), local, consuming, at);
        assert(operands.last() == operands[operands.len() - 1]);
        assert(Seq::<Location>::empty() + Seq::<Location>::empty() == Seq::<Location>::empty());
    }
}

proof fn lemma_unmentioned_outputs(outputs: Seq<Place>, local: Local, consuming: bool, at: Location)
    requires
        forall|i: int| 0 <= i < outputs.len() ==> (#[trigger] outputs[i]).local != local,
    ensures
        output_usage(outputs, local, consuming, at) == Seq::<Location>::empty(),
    decreases outputs.len(),
{
    if outputs.len() > 0 {
        assert forall|i: int| 0 <= i < outputs.drop_last().len() implies (
        #[trigger] outputs.drop_last()[i]).local != local by {
            assert(outputs.drop_last()[i] == outputs[i]);
        }
        lemma_unmentioned_outputs(outputs.drop_last(), local, consuming, at);
        assert(outputs.last() == outputs[outputs.len() - 1]);
        assert(Seq::<Location>::empty() + Seq::<Location>::empty() == Seq::<Location>::empty());
    }
}

proof fn lemma_unmentioned_block(
    body: &Body,
    block: int,
    upto: int,
    local: Local,
    consuming: bool,
    start: Location,
)
    requires
        forall|offset: int| 0 <= offset < upto ==> !#[trigger] mentioned_at(body, local, block, offset),
    ensures
        block_usage(body, block, upto, local, consuming, start) == Seq::<Location>::empty(),
    decreases upto,
{
    if upto > 0 {
        lemma_unmentioned_block(body, block, upto - 1, local, consuming, start);
        let offset = upto - 1;
        let at = Location { block: block as usize, statement_index: offset as usize };
        let data = body.basic_blocks@[block];
        assert(!mentioned_at(body, local, block, offset));
        if offset < data.statements@.len() {
            lemma_unmentioned_operands(data.statements@[offset].operands@, local, consuming, at);
        } else {
            lemma_unmentioned_operands(data.terminator.operands@, local, consuming, at);
            match data.terminator.kind {
                TerminatorKind::InlineAsm { outputs } => {
                    lemma_unmentioned_outputs(outputs@, local, consuming, at);
                },
                _ => {},
            }
        }
        assert(Seq::<Location>::empty() + Seq::<Location>::empty() == Seq::<Location>::empty());
    }
}

/// A scan records nothing for a local that is mentioned in none of the
/// blocks it visits.
pub proof fn lemma_unmentioned_has_no_usage(
    body: &Body,
    order: Seq<usize>,
    local: Local,
    consuming: bool,
    start: Location,
)
    requires
        forall|k: int, offset: int|
            0 <= k < order.len() && 0 <= offset <= body.statement_count(order[k] as int)
                ==> !#[trigger] mentioned_at(body, local, order[k] as int, offset),
    ensures
        order_usage(body, order, local, consuming, start) == Seq::<Location>::empty(),
    decreases order.len(),
{
    if order.len() > 0 {
        assert forall|k: int, offset: int|
            0 <= k < order.drop_last().len() && 0 <= offset <= body.statement_count(
                order.drop_last()[k] as int,
            ) implies !#[trigger] mentioned_at(
            body,
            local,
            order.drop_last()[k] as int,
            offset,
        ) by {
            assert(order.drop_last()[k] == order[k]);
        }
        lemma_unmentioned_has_no_usage(body, order.drop_last(), local, consuming, start);
        let block = order.last();
        assert(order[order.len() - 1] == block);
        lemma_unmentioned_block(
            body,
            block as int,
            body.statement_count(block as int) + 1,
            local,
            consuming,
            start,
        );
        assert(Seq::<Location>::empty() + Seq::<Location>::empty() == Seq::<Location>::empty());
    }
}

} // verus!
