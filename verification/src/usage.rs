//! Where locals are used after a given point.

use vstd::prelude::*;
use crate::body::{
    Body, Local, Location, Occurrence, Place, PlaceContext, Statement, StatementKind, Terminator,
    TerminatorKind, UsageClass,
};
use crate::cycle::in_cycle;
use crate::traversal::{lemma_postorder_in_range, postorder, reverse_postorder};
use crate::usage_laws::{all_in_scan, lemma_scan_gives_up_on_cycle, lemma_usage_in_scan};

verus! {

/// Where one local is used, and where it is consumed or mutated.
#[derive(Clone, Debug, Default)]
pub struct LocalUsage {
    /// The locations where the local is used, if any.
    pub local_use_locs: Vec<Location>,
    /// The locations where the local is consumed or mutated, if any.
    pub local_consume_or_mutate_locs: Vec<Location>,
}

/// Whether an occurrence in `context` is recorded: among the consuming and
/// mutating occurrences if `consuming`, among the uses otherwise.
pub open spec fn recorded(context: PlaceContext, consuming: bool) -> bool {
    if consuming {
        context.is_consume_or_mutate()
    } else {
        context.is_use()
    }
}

/// What one occurrence of `place` at `at` adds to the record of `local`. The
/// base local decides; projections do not matter.
pub open spec fn place_usage(
    place: Place,
    context: PlaceContext,
    local: Local,
    consuming: bool,
    at: Location,
) -> Seq<Location> {
    if place.local == local && recorded(context, consuming) {
        seq![at]
    } else {
        Seq::empty()
    }
}

/// What the occurrences `operands`, all at `at`, add to the record of `local`.
pub open spec fn operand_usage(
    operands: Seq<Occurrence>,
    local: Local,
    consuming: bool,
    at: Location,
) -> Seq<Location>
    decreases operands.len(),
{
    if operands.len() == 0 {
        Seq::empty()
    } else {
        operand_usage(operands.drop_last(), local, consuming, at) + place_usage(
            operands.last().place,
            operands.last().context,
            local,
            consuming,
            at,
        )
    }
}

/// What the outputs of an inline effect at `at` add to the record of `local`.
pub open spec fn output_usage(
    outputs: Seq<Place>,
    local: Local,
    consuming: bool,
    at: Location,
) -> Seq<Location>
    decreases outputs.len(),
{
    if outputs.len() == 0 {
        Seq::empty()
    } else {
        output_usage(outputs.drop_last(), local, consuming, at) + place_usage(
            outputs.last(),
            PlaceContext::AsmOutput,
            local,
            consuming,
            at,
        )
    }
}

/// What a statement at `at` adds to the record of `local`: its destination,
/// if it assigns, then its operands.
pub open spec fn statement_usage(
    statement: Statement,
    local: Local,
    consuming: bool,
    at: Location,
) -> Seq<Location> {
    let stored = match statement.kind {
        StatementKind::Assign(place) => place_usage(
            place,
            PlaceContext::Store,
            local,
            consuming,
            at,
        ),
        StatementKind::Other => Seq::empty(),
    };
    stored + operand_usage(statement.operands@, local, consuming, at)
}

/// What a terminator at `at` adds to the record of `local`: its operands,
/// then its destination or outputs.
pub open spec fn terminator_usage(
    terminator: Terminator,
    local: Local,
    consuming: bool,
    at: Location,
) -> Seq<Location> {
    let written = match terminator.kind {
        TerminatorKind::Call { destination: Some(place) } => place_usage(
            place,
            PlaceContext::CallResult,
            local,
            consuming,
            at,
        ),
        TerminatorKind::Call { destination: None } => Seq::empty(),
        TerminatorKind::InlineAsm { outputs } => output_usage(outputs@, local, consuming, at),
        TerminatorKind::Other => Seq::empty(),
    };
    operand_usage(terminator.operands@, local, consuming, at) + written
}

/// Whether offset `offset` of block `block` lies at or before `start` in the
/// block of `start`.
pub open spec fn at_or_before(start: Location, block: int, offset: int) -> bool {
    block == start.block && offset <= start.statement_index
}

/// What offset `offset` of block `block` adds to the record of `local`:
/// nothing at or before `start`, else what the statement or terminator there
/// adds.
pub open spec fn position_usage(
    body: &Body,
    block: int,
    offset: int,
    local: Local,
    consuming: bool,
    start: Location,
) -> Seq<Location> {
    let at = Location { block: block as usize, statement_index: offset as usize };
    let data = body.basic_blocks@[block];
    if at_or_before(start, block, offset) {
        Seq::empty()
    } else if offset < data.statements@.len() {
        statement_usage(data.statements@[offset], local, consuming, at)
    } else {
        terminator_usage(data.terminator, local, consuming, at)
    }
}

/// What the offsets below `upto` of block `block` add to the record of
/// `local`, in order.
pub open spec fn block_usage(
    body: &Body,
    block: int,
    upto: int,
    local: Local,
    consuming: bool,
    start: Location,
) -> Seq<Location>
    decreases upto,
{
    if upto <= 0 {
        Seq::empty()
    } else {
        block_usage(body, block, upto - 1, local, consuming, start) + position_usage(
            body,
            block,
            upto - 1,
            local,
            consuming,
            start,
        )
    }
}

/// The record of `local` after the blocks of `order` were visited one after
/// the other, each from its first statement to its terminator.
pub open spec fn order_usage(
    body: &Body,
    order: Seq<usize>,
    local: Local,
    consuming: bool,
    start: Location,
) -> Seq<Location>
    decreases order.len(),
{
    if order.len() == 0 {
        Seq::empty()
    } else {
        order_usage(body, order.drop_last(), local, consuming, start) + block_usage(
            body,
            order.last() as int,
            body.statement_count(order.last() as int) + 1,
            local,
            consuming,
            start,
        )
    }
}

/// Some block of `order` has a successor edge to `target`.
pub open spec fn loops_back(body: &Body, order: Seq<usize>, target: int) -> bool {
    exists|k: int| 0 <= k < order.len() && body.has_edge(#[trigger] order[k] as int, target)
}

/// The blocks that a scan from `start` visits, in the order of the visit:
/// those reached from the block of `start`, in reverse postorder.
pub open spec fn scan_order(body: &Body, start: Location) -> Seq<usize> {
    postorder(body, start.block as int).reverse()
}

/// `after` is `before` with `uses` and `consumes` appended.
pub open spec fn extended(
    before: LocalUsage,
    after: LocalUsage,
    uses: Seq<Location>,
    consumes: Seq<Location>,
) -> bool {
    &&& after.local_use_locs@ == before.local_use_locs@ + uses
    &&& after.local_consume_or_mutate_locs@ == before.local_consume_or_mutate_locs@ + consumes
}

proof fn lemma_extended_twice(
    first: LocalUsage,
    second: LocalUsage,
    third: LocalUsage,
    uses: Seq<Location>,
    consumes: Seq<Location>,
    more_uses: Seq<Location>,
    more_consumes: Seq<Location>,
)
    requires
        extended(first, second, uses, consumes),
        extended(second, third, more_uses, more_consumes),
    ensures
        extended(first, third, uses + more_uses, consumes + more_consumes),
{
    assert(first.local_use_locs@ + uses + more_uses == first.local_use_locs@ + (uses + more_uses));
    assert(first.local_consume_or_mutate_locs@ + consumes + more_consumes
        == first.local_consume_or_mutate_locs@ + (consumes + more_consumes));
}

proof fn lemma_extended_by_nothing(usage: LocalUsage)
    ensures
        extended(usage, usage, Seq::empty(), Seq::empty()),
{
    assert(usage.local_use_locs@ + Seq::<Location>::empty() == usage.local_use_locs@);
    assert(usage.local_consume_or_mutate_locs@ + Seq::<Location>::empty()
        == usage.local_consume_or_mutate_locs@);
}

/// Records one occurrence of `place` at `at`, if its base is `local`: as a
/// use unless the context is no use, and as a consuming or mutating use where
/// the context is one.
fn visit_place(
    place: Place,
    context: PlaceContext,
    local: Local,
    at: Location,
    usage: &mut LocalUsage,
)
    ensures
        extended(
            *old(usage),
            *final(usage),
            place_usage(place, context, local, false, at),
            place_usage(place, context, local, true, at),
        ),
{
    proof {
        lemma_extended_by_nothing(*usage);
    }
    if place.local == local {
        let class = context.classify();
        if class != UsageClass::NonUse {
            usage.local_use_locs.push(at);
        }
        if class == UsageClass::ConsumeOrMutate {
            usage.local_consume_or_mutate_locs.push(at);
        }
        proof {
            let before = *old(usage);
            assert(before.local_use_locs@.push(at) == before.local_use_locs@ + seq![at]);
            assert(before.local_consume_or_mutate_locs@.push(at)
                == before.local_consume_or_mutate_locs@ + seq![at]);
        }
    }
}

fn visit_operands(operands: &Vec<Occurrence>, local: Local, at: Location, usage: &mut LocalUsage)
    ensures
        extended(
            *old(usage),
            *final(usage),
            operand_usage(operands@, local, false, at),
            operand_usage(operands@, local, true, at),
        ),
{
    proof {
        lemma_extended_by_nothing(*usage);
    }
    let mut i: usize = 0;
    while i < operands.len()
        invariant
            i <= operands@.len(),
            extended(
                *old(usage),
                *usage,
                operand_usage(operands@.take(i as int), local, false, at),
                operand_usage(operands@.take(i as int), local, true, at),
            ),
        decreases operands@.len() - i,
    {
        let ghost before = *usage;
        visit_place(operands[i].place, operands[i].context, local, at, usage);
        proof {
            assert(operands@.take(i + 1).drop_last() == operands@.take(i as int));
            lemma_extended_twice(
                *old(usage),
                before,
                *usage,
                operand_usage(operands@.take(i as int), local, false, at),
                operand_usage(operands@.take(i as int), local, true, at),
                place_usage(operands@[i as int].place, operands@[i as int].context, local, false, at),
                place_usage(operands@[i as int].place, operands@[i as int].context, local, true, at),
            );
        }
        i = i + 1;
    }
    assert(operands@.take(i as int) == operands@);
}

fn visit_outputs(outputs: &Vec<Place>, local: Local, at: Location, usage: &mut LocalUsage)
    ensures
        extended(
            *old(usage),
            *final(usage),
            output_usage(outputs@, local, false, at),
            output_usage(outputs@, local, true, at),
        ),
{
    proof {
        lemma_extended_by_nothing(*usage);
    }
    let mut i: usize = 0;
    while i < outputs.len()
        invariant
            i <= outputs@.len(),
            extended(
                *old(usage),
                *usage,
                output_usage(outputs@.take(i as int), local, false, at),
                output_usage(outputs@.take(i as int), local, true, at),
            ),
        decreases outputs@.len() - i,
    {
        let ghost before = *usage;
        visit_place(outputs[i], PlaceContext::AsmOutput, local, at, usage);
        proof {
            assert(outputs@.take(i + 1).drop_last() == outputs@.take(i as int));
            lemma_extended_twice(
                *old(usage),
                before,
                *usage,
                output_usage(outputs@.take(i as int), local, false, at),
                output_usage(outputs@.take(i as int), local, true, at),
                place_usage(outputs@[i as int], PlaceContext::AsmOutput, local, false, at),
                place_usage(outputs@[i as int], PlaceContext::AsmOutput, local, true, at),
            );
        }
        i = i + 1;
    }
    assert(outputs@.take(i as int) == outputs@);
}

fn visit_statement(statement: &Statement, local: Local, at: Location, usage: &mut LocalUsage)
    ensures
        extended(
            *old(usage),
            *final(usage),
            statement_usage(*statement, local, false, at),
            statement_usage(*statement, local, true, at),
        ),
{
    proof {
        lemma_extended_by_nothing(*usage);
    }
    match statement.kind {
        StatementKind::Assign(place) => {
            visit_place(place, PlaceContext::Store, local, at, usage);
        },
        StatementKind::Other => {},
    }
    let ghost stored = *usage;
    visit_operands(&statement.operands, local, at, usage);
    proof {
        let uses = if statement.kind is Assign {
            place_usage(statement.kind->Assign_0, PlaceContext::Store, local, false, at)
        } else {
            Seq::empty()
        };
        let consumes = if statement.kind is Assign {
            place_usage(statement.kind->Assign_0, PlaceContext::Store, local, true, at)
        } else {
            Seq::empty()
        };
        lemma_extended_twice(
            *old(usage),
            stored,
            *usage,
            uses,
            consumes,
            operand_usage(statement.operands@, local, false, at),
            operand_usage(statement.operands@, local, true, at),
        );
    }
}

fn visit_terminator(terminator: &Terminator, local: Local, at: Location, usage: &mut LocalUsage)
    ensures
        extended(
            *old(usage),
            *final(usage),
            terminator_usage(*terminator, local, false, at),
            terminator_usage(*terminator, local, true, at),
        ),
{
    visit_operands(&terminator.operands, local, at, usage);
    let ghost read = *usage;
    proof {
        lemma_extended_by_nothing(*usage);
    }
    match &terminator.kind {
        TerminatorKind::Call { destination } => {
            match destination {
                Some(place) => {
                    visit_place(*place, PlaceContext::CallResult, local, at, usage);
                },
                None => {},
            }
        },
        TerminatorKind::InlineAsm { outputs } => {
            visit_outputs(outputs, local, at, usage);
        },
        TerminatorKind::Other => {},
    }
    proof {
        let written = |consuming: bool|
            match terminator.kind {
                TerminatorKind::Call { destination: Some(place) } => place_usage(
                    place,
                    PlaceContext::CallResult,
                    local,
                    consuming,
                    at,
                ),
                TerminatorKind::Call { destination: None } => Seq::empty(),
                TerminatorKind::InlineAsm { outputs } => output_usage(
                    outputs@,
                    local,
                    consuming,
                    at,
                ),
                TerminatorKind::Other => Seq::empty(),
            };
        lemma_extended_twice(
            *old(usage),
            read,
            *usage,
            operand_usage(terminator.operands@, local, false, at),
            operand_usage(terminator.operands@, local, true, at),
            written(false),
            written(true),
        );
    }
}

/// Visits the statements and the terminator of block `block`, in order, and
/// records the occurrences of `local` that lie after `start`.
fn visit_basic_block_data(
    mir: &Body,
    block: usize,
    local: Local,
    start: Location,
    usage: &mut LocalUsage,
)
    requires
        block < mir.block_count(),
    ensures
        extended(
            *old(usage),
            *final(usage),
            block_usage(
                mir,
                block as int,
                mir.statement_count(block as int) + 1,
                local,
                false,
                start,
            ),
            block_usage(
                mir,
                block as int,
                mir.statement_count(block as int) + 1,
                local,
                true,
                start,
            ),
        ),
{
    let data = &mir.basic_blocks[block];
    let statement_count: usize = data.statements.len();
    proof {
        lemma_extended_by_nothing(*usage);
    }
    let mut statement_index: usize = 0;
    while statement_index < statement_count
        invariant
            block < mir.block_count(),
            *data == mir.basic_blocks@[block as int],
            statement_count == data.statements@.len(),
            statement_index <= statement_count,
            extended(
                *old(usage),
                *usage,
                block_usage(mir, block as int, statement_index as int, local, false, start),
                block_usage(mir, block as int, statement_index as int, local, true, start),
            ),
        decreases statement_count - statement_index,
    {
        let ghost before = *usage;
        proof {
            lemma_extended_by_nothing(*usage);
        }
        if !(block == start.block && statement_index <= start.statement_index) {
            let at = Location { block, statement_index };
            visit_statement(&data.statements[statement_index], local, at, usage);
        }
        proof {
            lemma_extended_twice(
                *old(usage),
                before,
                *usage,
                block_usage(mir, block as int, statement_index as int, local, false, start),
                block_usage(mir, block as int, statement_index as int, local, true, start),
                position_usage(mir, block as int, statement_index as int, local, false, start),
                position_usage(mir, block as int, statement_index as int, local, true, start),
            );
        }
        statement_index = statement_index + 1;
    }
    let ghost before = *usage;
    proof {
        lemma_extended_by_nothing(*usage);
    }
    if !(block == start.block && statement_count <= start.statement_index) {
        let at = Location { block, statement_index: statement_count };
        visit_terminator(&data.terminator, local, at, usage);
    }
    proof {
        lemma_extended_twice(
            *old(usage),
            before,
            *usage,
            block_usage(mir, block as int, statement_count as int, local, false, start),
            block_usage(mir, block as int, statement_count as int, local, true, start),
            position_usage(mir, block as int, statement_count as int, local, false, start),
            position_usage(mir, block as int, statement_count as int, local, true, start),
        );
    }
}

/// Visits the blocks of `order` one after the other and returns the record
/// of `local`.
fn usage_along(mir: &Body, order: &Vec<usize>, local: Local, start: Location) -> (usage:
    LocalUsage)
    requires
        forall|k: int| 0 <= k < order@.len() ==> (#[trigger] order@[k]) < mir.block_count(),
    ensures
        usage.local_use_locs@ == order_usage(mir, order@, local, false, start),
        usage.local_consume_or_mutate_locs@ == order_usage(mir, order@, local, true, start),
        all_in_scan(mir, order@, start, usage.local_use_locs@),
        all_in_scan(mir, order@, start, usage.local_consume_or_mutate_locs@),
{
    let mut usage = LocalUsage {
        local_use_locs: Vec::new(),
        local_consume_or_mutate_locs: Vec::new(),
    };
    let ghost empty = usage;
    proof {
        lemma_extended_by_nothing(usage);
    }
    let mut k: usize = 0;
    while k < order.len()
        invariant
            k <= order@.len(),
            forall|j: int| 0 <= j < order@.len() ==> (#[trigger] order@[j]) < mir.block_count(),
            extended(
                empty,
                usage,
                order_usage(mir, order@.take(k as int), local, false, start),
                order_usage(mir, order@.take(k as int), local, true, start),
            ),
        decreases order@.len() - k,
    {
        let ghost before = usage;
        let block: usize = order[k];
        visit_basic_block_data(mir, block, local, start, &mut usage);
        proof {
            assert(order@.take(k + 1).drop_last() == order@.take(k as int));
            lemma_extended_twice(
                empty,
                before,
                usage,
                order_usage(mir, order@.take(k as int), local, false, start),
                order_usage(mir, order@.take(k as int), local, true, start),
                block_usage(
                    mir,
                    block as int,
                    mir.statement_count(block as int) + 1,
                    local,
                    false,
                    start,
                ),
                block_usage(
                    mir,
                    block as int,
                    mir.statement_count(block as int) + 1,
                    local,
                    true,
                    start,
                ),
            );
        }
        k = k + 1;
    }
    proof {
        assert(order@.take(k as int) == order@);
        assert(Seq::<Location>::empty() + order_usage(mir, order@, local, false, start)
            == order_usage(mir, order@, local, false, start));
        assert(Seq::<Location>::empty() + order_usage(mir, order@, local, true, start)
            == order_usage(mir, order@, local, true, start));
        lemma_usage_in_scan(mir, order@, local, false, start);
        lemma_usage_in_scan(mir, order@, local, true, start);
    }
    usage
}

/// Tells whether some block of `order` has a successor edge to `target`.
fn any_loops_back(mir: &Body, order: &Vec<usize>, target: usize) -> (found: bool)
    requires
        forall|k: int| 0 <= k < order@.len() ==> (#[trigger] order@[k]) < mir.block_count(),
    ensures
        found == loops_back(mir, order@, target as int),
{
    let mut k: usize = 0;
    while k < order.len()
        invariant
            k <= order@.len(),
            forall|j: int| 0 <= j < order@.len() ==> (#[trigger] order@[j]) < mir.block_count(),
            forall|j: int| 0 <= j < k ==> !mir.has_edge(#[trigger] order@[j] as int, target as int),
        decreases order@.len() - k,
    {
        let successors = &mir.basic_blocks[order[k]].terminator.successors;
        let mut i: usize = 0;
        while i < successors.len()
            invariant
                i <= successors@.len(),
                k < order@.len(),
                order@[k as int] < mir.block_count(),
                successors@ == mir.successors(order@[k as int] as int),
                forall|j: int| 0 <= j < i ==> #[trigger] successors@[j] != target,
            decreases successors@.len() - i,
        {
            if successors[i] == target {
                assert(mir.has_edge(order@[k as int] as int, target as int));
                return true;
            }
            i = i + 1;
        }
        assert(!mir.has_edge(order@[k as int] as int, target as int));
        k = k + 1;
    }
    false
}

/// Scans forward from `location` and records, for each of `locals`, where
/// it is used and where it is consumed or mutated after `location`. Gives up
/// with `None` where a block of the scan leads back to the block of
/// `location`: then what lies before `location` may run again, and nothing
/// can be said.
pub fn visit_local_usage(locals: &[Local], mir: &Body, location: Location) -> (usage: Option<
    Vec<LocalUsage>,
>)
    requires
        mir.well_formed(),
        location.block < mir.block_count(),
    ensures
        usage is None <==> loops_back(mir, scan_order(mir, location), location.block as int),
        usage is None <==> in_cycle(mir, location.block as int),
        usage is Some ==> usage->0@.len() == locals@.len(),
        usage is Some ==> forall|i: int|
            #![trigger usage->0@[i]]
            0 <= i < locals@.len() ==> usage->0@[i].local_use_locs@ == order_usage(
                mir,
                scan_order(mir, location),
                locals@[i],
                false,
                location,
            ) && usage->0@[i].local_consume_or_mutate_locs@ == order_usage(
                mir,
                scan_order(mir, location),
                locals@[i],
                true,
                location,
            ),
        usage is Some ==> forall|i: int|
            #![trigger usage->0@[i]]
            0 <= i < locals@.len() ==> all_in_scan(
                mir,
                scan_order(mir, location),
                location,
                usage->0@[i].local_use_locs@,
            ) && all_in_scan(
                mir,
                scan_order(mir, location),
                location,
                usage->0@[i].local_consume_or_mutate_locs@,
            ),
{
    let order = reverse_postorder(mir, location.block);
    proof {
        lemma_postorder_in_range(mir, location.block as int);
        lemma_scan_gives_up_on_cycle(mir, location);
    }
    if any_loops_back(mir, &order, location.block) {
        return None;
    }
    let mut results: Vec<LocalUsage> = Vec::new();
    let mut i: usize = 0;
    while i < locals.len()
        invariant
            i <= locals@.len(),
            results@.len() == i,
            order@ == scan_order(mir, location),
            forall|k: int| 0 <= k < order@.len() ==> (#[trigger] order@[k]) < mir.block_count(),
            forall|j: int|
                #![trigger results@[j]]
                0 <= j < i ==> results@[j].local_use_locs@ == order_usage(
                    mir,
                    order@,
                    locals@[j],
                    false,
                    location,
                ) && results@[j].local_consume_or_mutate_locs@ == order_usage(
                    mir,
                    order@,
                    locals@[j],
                    true,
                    location,
                ),
            forall|j: int|
                #![trigger results@[j]]
                0 <= j < i ==> all_in_scan(mir, order@, location, results@[j].local_use_locs@)
                    && all_in_scan(
                    mir,
                    order@,
                    location,
                    results@[j].local_consume_or_mutate_locs@,
                ),
        decreases locals@.len() - i,
    {
        let usage = usage_along(mir, &order, locals[i], location);
        results.push(usage);
        i = i + 1;
    }
    Some(results)
}

} // verus!
