use local_usage::{
    block_in_cycle, is_local_assignment, local_assignments, reverse_postorder, used_exactly_once,
    visit_local_usage, BasicBlockData, Body, Local, Location, Occurrence, Place, PlaceContext,
    Statement, StatementKind, Terminator, TerminatorKind, UsageClass,
};

const X: Local = Local(1);
const Y: Local = Local(2);
const Z: Local = Local(3);

fn plain(local: Local) -> Place {
    Place { local, projected: false }
}

fn field_of(local: Local) -> Place {
    Place { local, projected: true }
}

fn occ(local: Local, context: PlaceContext) -> Occurrence {
    Occurrence { place: plain(local), context }
}

fn assign(destination: Place, operands: Vec<Occurrence>) -> Statement {
    Statement { kind: StatementKind::Assign(destination), operands }
}

fn read(local: Local) -> Statement {
    Statement { kind: StatementKind::Other, operands: vec![occ(local, PlaceContext::Inspect)] }
}

fn goto(successors: Vec<usize>) -> Terminator {
    Terminator { kind: TerminatorKind::Other, operands: vec![], successors }
}

fn block(statements: Vec<Statement>, terminator: Terminator) -> BasicBlockData {
    BasicBlockData { statements, terminator }
}

fn at(block: usize, statement_index: usize) -> Location {
    Location { block, statement_index }
}

/// `x := 1; y := x; read y`
fn straight_line_statements() -> Vec<Statement> {
    vec![
        assign(plain(X), vec![]),
        assign(plain(Y), vec![occ(X, PlaceContext::CopyValue)]),
        read(Y),
    ]
}

fn graph(edges: Vec<Vec<usize>>) -> Body {
    Body { basic_blocks: edges.into_iter().map(|s| block(vec![], goto(s))).collect() }
}

#[test]
fn three_blocks_without_back_edge_have_no_cycle() {
    let body = graph(vec![vec![1], vec![2], vec![]]);
    assert!(body.is_well_formed());
    assert!(!block_in_cycle(&body, 0));
    assert!(!block_in_cycle(&body, 1));
    assert!(!block_in_cycle(&body, 2));
}

#[test]
fn three_blocks_with_back_edge_are_all_in_the_cycle() {
    let body = graph(vec![vec![1], vec![2], vec![0]]);
    assert!(block_in_cycle(&body, 0));
    assert!(block_in_cycle(&body, 1));
    assert!(block_in_cycle(&body, 2));
}

#[test]
fn block_before_a_cycle_is_not_in_it() {
    let body = graph(vec![vec![1], vec![2], vec![1]]);
    assert!(!block_in_cycle(&body, 0));
    assert!(block_in_cycle(&body, 1));
    assert!(block_in_cycle(&body, 2));
}

#[test]
fn self_loop_is_a_cycle() {
    let body = graph(vec![vec![0, 1], vec![]]);
    assert!(block_in_cycle(&body, 0));
    assert!(!block_in_cycle(&body, 1));
}

#[test]
fn block_without_successors_is_in_no_cycle() {
    let body = graph(vec![vec![]]);
    assert!(!block_in_cycle(&body, 0));
}

#[test]
fn dangling_successor_is_not_well_formed() {
    let body = graph(vec![vec![1], vec![2]]);
    assert!(!body.is_well_formed());
    assert!(graph(vec![]).is_well_formed());
}

#[test]
fn reverse_postorder_of_a_diamond() {
    let body = graph(vec![vec![1, 2], vec![3], vec![3], vec![]]);
    assert_eq!(reverse_postorder(&body, 0), vec![0, 2, 1, 3]);
    assert_eq!(reverse_postorder(&body, 1), vec![1, 3]);
    assert_eq!(reverse_postorder(&body, 3), vec![3]);
}

#[test]
fn reverse_postorder_lists_each_block_of_a_loop_once() {
    let body = graph(vec![vec![1], vec![2, 3], vec![1], vec![]]);
    assert_eq!(reverse_postorder(&body, 0), vec![0, 1, 3, 2]);
    assert_eq!(reverse_postorder(&body, 2), vec![2, 1, 3]);
}

#[test]
fn local_assignments_are_listed_by_block_and_offset() {
    let body = Body {
        basic_blocks: vec![
            block(vec![read(X), assign(plain(X), vec![])], goto(vec![1])),
            block(
                vec![assign(plain(Y), vec![]), assign(plain(X), vec![])],
                Terminator {
                    kind: TerminatorKind::Call { destination: Some(plain(X)) },
                    operands: vec![],
                    successors: vec![],
                },
            ),
        ],
    };
    let first = local_assignments(&body, X);
    assert_eq!(first, vec![at(0, 1), at(1, 1), at(1, 2)]);
    assert_eq!(local_assignments(&body, X), first);
    assert_eq!(local_assignments(&body, Y), vec![at(1, 0)]);
}

#[test]
fn assignment_through_a_projection_does_not_count() {
    let body = Body {
        basic_blocks: vec![block(
            vec![assign(field_of(X), vec![])],
            Terminator {
                kind: TerminatorKind::Call { destination: Some(field_of(X)) },
                operands: vec![],
                successors: vec![],
            },
        )],
    };
    assert_eq!(local_assignments(&body, X), vec![]);
    assert!(!is_local_assignment(&body, X, at(0, 0)));
    assert!(!is_local_assignment(&body, X, at(0, 1)));
}

#[test]
fn inline_effect_output_is_an_assignment() {
    let body = Body {
        basic_blocks: vec![block(
            vec![read(X)],
            Terminator {
                kind: TerminatorKind::InlineAsm { outputs: vec![field_of(Y), plain(Y)] },
                operands: vec![],
                successors: vec![],
            },
        )],
    };
    assert_eq!(local_assignments(&body, Y), vec![at(0, 1)]);
    assert_eq!(local_assignments(&body, X), vec![]);
    assert!(is_local_assignment(&body, Y, at(0, 1)));
    assert!(!is_local_assignment(&body, Y, at(0, 0)));
}

#[test]
fn call_without_destination_assigns_nothing() {
    let body = Body {
        basic_blocks: vec![block(
            vec![],
            Terminator {
                kind: TerminatorKind::Call { destination: None },
                operands: vec![occ(X, PlaceContext::MoveValue)],
                successors: vec![],
            },
        )],
    };
    assert_eq!(local_assignments(&body, X), vec![]);
}

#[test]
fn call_destination_is_the_only_assignment() {
    let body = Body {
        basic_blocks: vec![block(
            vec![read(X), read(X)],
            Terminator {
                kind: TerminatorKind::Call { destination: Some(plain(Y)) },
                operands: vec![],
                successors: vec![],
            },
        )],
    };
    assert_eq!(local_assignments(&body, Y), vec![at(0, 2)]);
}

#[test]
fn unused_local_has_no_assignment_and_is_not_used_once() {
    let body = Body { basic_blocks: vec![block(straight_line_statements(), goto(vec![]))] };
    assert_eq!(local_assignments(&body, Z), vec![]);
    assert_eq!(used_exactly_once(&body, Z), Some(false));
}

#[test]
fn straight_line_single_use() {
    let body = Body { basic_blocks: vec![block(straight_line_statements(), goto(vec![]))] };
    assert_eq!(used_exactly_once(&body, X), Some(true));
    assert_eq!(used_exactly_once(&body, Y), Some(true));
}

#[test]
fn loop_back_to_the_start_block_is_unknown() {
    let body = Body {
        basic_blocks: vec![
            block(straight_line_statements(), goto(vec![1])),
            block(vec![], goto(vec![0])),
        ],
    };
    assert!(visit_local_usage(&[X], &body, at(0, 0)).is_none());
    assert_eq!(used_exactly_once(&body, X), None);
    assert_eq!(used_exactly_once(&body, Z), None);
}

#[test]
fn scan_from_inside_a_loop_is_unknown_and_from_behind_it_is_not() {
    let body = Body {
        basic_blocks: vec![
            block(vec![], goto(vec![1])),
            block(vec![read(X)], goto(vec![1, 2])),
            block(vec![read(X)], goto(vec![])),
        ],
    };
    assert!(visit_local_usage(&[X], &body, at(1, 0)).is_none());
    let after = visit_local_usage(&[X], &body, at(2, 0)).unwrap();
    assert_eq!(after[0].local_use_locs, vec![]);
    let whole = visit_local_usage(&[X], &body, at(0, 0)).unwrap();
    assert_eq!(whole[0].local_use_locs, vec![at(1, 0), at(2, 0)]);
}

#[test]
fn two_uses_are_not_exactly_one() {
    let body = Body {
        basic_blocks: vec![block(
            vec![assign(plain(X), vec![]), read(X), read(X)],
            goto(vec![]),
        )],
    };
    assert_eq!(used_exactly_once(&body, X), Some(false));
}

#[test]
fn single_use_inside_a_loop_is_not_exactly_once() {
    let body = Body {
        basic_blocks: vec![
            block(vec![assign(plain(X), vec![])], goto(vec![1])),
            block(vec![read(X)], goto(vec![1, 2])),
            block(vec![], goto(vec![])),
        ],
    };
    assert_eq!(used_exactly_once(&body, X), Some(false));
}

#[test]
fn single_use_behind_a_loop_is_exactly_once() {
    let body = Body {
        basic_blocks: vec![
            block(vec![assign(plain(X), vec![])], goto(vec![1])),
            block(vec![], goto(vec![1, 2])),
            block(vec![read(X)], goto(vec![])),
        ],
    };
    assert_eq!(used_exactly_once(&body, X), Some(true));
}

#[test]
fn reassignment_is_not_counted_as_a_use() {
    let body = Body {
        basic_blocks: vec![block(
            vec![assign(plain(X), vec![]), assign(plain(X), vec![]), read(X)],
            goto(vec![]),
        )],
    };
    let usage = visit_local_usage(&[X], &body, at(0, 0)).unwrap();
    assert_eq!(usage[0].local_use_locs, vec![at(0, 1), at(0, 2)]);
    assert_eq!(used_exactly_once(&body, X), Some(true));
}

#[test]
fn compound_update_counts_only_once_removed() {
    // `x := x + 1` at offset 1 reads and assigns `x` at one location: both
    // records of that location are set aside.
    let body = Body {
        basic_blocks: vec![block(
            vec![
                assign(plain(X), vec![]),
                assign(plain(X), vec![occ(X, PlaceContext::CopyValue)]),
                read(X),
            ],
            goto(vec![]),
        )],
    };
    let usage = visit_local_usage(&[X], &body, at(0, 0)).unwrap();
    assert_eq!(usage[0].local_use_locs, vec![at(0, 1), at(0, 1), at(0, 2)]);
    assert_eq!(used_exactly_once(&body, X), Some(true));
}

#[test]
fn occurrences_at_or_before_the_start_are_left_out() {
    let body = Body {
        basic_blocks: vec![block(vec![read(X), read(X), read(X)], goto(vec![]))],
    };
    let from_0 = visit_local_usage(&[X], &body, at(0, 0)).unwrap();
    assert_eq!(from_0[0].local_use_locs, vec![at(0, 1), at(0, 2)]);
    let from_1 = visit_local_usage(&[X], &body, at(0, 1)).unwrap();
    assert_eq!(from_1[0].local_use_locs, vec![at(0, 2)]);
    let from_2 = visit_local_usage(&[X], &body, at(0, 2)).unwrap();
    assert_eq!(from_2[0].local_use_locs, vec![]);
}

#[test]
fn start_at_the_terminator_leaves_the_terminator_out() {
    let body = Body {
        basic_blocks: vec![
            block(
                vec![read(X)],
                Terminator {
                    kind: TerminatorKind::Call { destination: Some(plain(X)) },
                    operands: vec![occ(X, PlaceContext::MoveValue)],
                    successors: vec![1],
                },
            ),
            block(vec![read(X)], goto(vec![])),
        ],
    };
    let usage = visit_local_usage(&[X], &body, at(0, 1)).unwrap();
    assert_eq!(usage[0].local_use_locs, vec![at(1, 0)]);
    assert_eq!(usage[0].local_consume_or_mutate_locs, vec![]);
    let earlier = visit_local_usage(&[X], &body, at(0, 0)).unwrap();
    assert_eq!(earlier[0].local_use_locs, vec![at(0, 1), at(0, 1), at(1, 0)]);
    assert_eq!(earlier[0].local_consume_or_mutate_locs, vec![at(0, 1)]);
}

#[test]
fn uses_follow_the_reverse_postorder_of_the_blocks() {
    let body = Body {
        basic_blocks: vec![
            block(vec![], goto(vec![1, 2])),
            block(vec![read(X)], goto(vec![3])),
            block(vec![read(Y), read(X)], goto(vec![3])),
            block(vec![read(X)], goto(vec![])),
        ],
    };
    let usage = visit_local_usage(&[X, Y], &body, at(0, 0)).unwrap();
    assert_eq!(usage.len(), 2);
    assert_eq!(usage[0].local_use_locs, vec![at(2, 1), at(1, 0), at(3, 0)]);
    assert_eq!(usage[1].local_use_locs, vec![at(2, 0)]);
    assert_eq!(used_exactly_once(&body, X), Some(false));
    assert_eq!(used_exactly_once(&body, Y), Some(true));
}

#[test]
fn unreachable_blocks_are_not_scanned() {
    let body = Body {
        basic_blocks: vec![
            block(vec![], goto(vec![2])),
            block(vec![read(X)], goto(vec![0])),
            block(vec![read(X)], goto(vec![])),
        ],
    };
    let usage = visit_local_usage(&[X], &body, at(0, 0)).unwrap();
    assert_eq!(usage[0].local_use_locs, vec![at(2, 0)]);
    assert_eq!(used_exactly_once(&body, X), Some(true));
}

#[test]
fn moves_and_mutable_borrows_are_consuming_uses() {
    let body = Body {
        basic_blocks: vec![block(
            vec![
                read(Z),
                Statement {
                    kind: StatementKind::Other,
                    operands: vec![
                        occ(X, PlaceContext::MoveValue),
                        occ(Y, PlaceContext::SharedBorrow),
                    ],
                },
                Statement {
                    kind: StatementKind::Other,
                    operands: vec![
                        Occurrence { place: field_of(Y), context: PlaceContext::MutableBorrow },
                        occ(X, PlaceContext::Drop),
                        occ(X, PlaceContext::Marker),
                    ],
                },
            ],
            Terminator {
                kind: TerminatorKind::InlineAsm { outputs: vec![plain(X), field_of(X)] },
                operands: vec![],
                successors: vec![],
            },
        )],
    };
    let usage = visit_local_usage(&[X, Y], &body, at(0, 0)).unwrap();
    assert_eq!(usage[0].local_use_locs, vec![at(0, 1), at(0, 3), at(0, 3)]);
    assert_eq!(usage[0].local_consume_or_mutate_locs, vec![at(0, 1)]);
    assert_eq!(usage[1].local_use_locs, vec![at(0, 1), at(0, 2)]);
    assert_eq!(usage[1].local_consume_or_mutate_locs, vec![at(0, 2)]);
}

#[test]
fn no_locals_give_an_empty_record() {
    let body = graph(vec![vec![]]);
    let usage = visit_local_usage(&[], &body, at(0, 0)).unwrap();
    assert!(usage.is_empty());
}

#[test]
fn every_context_falls_into_one_bucket() {
    assert_eq!(PlaceContext::Inspect.classify(), UsageClass::Use);
    assert_eq!(PlaceContext::CopyValue.classify(), UsageClass::Use);
    assert_eq!(PlaceContext::SharedBorrow.classify(), UsageClass::Use);
    assert_eq!(PlaceContext::Store.classify(), UsageClass::Use);
    assert_eq!(PlaceContext::CallResult.classify(), UsageClass::Use);
    assert_eq!(PlaceContext::AsmOutput.classify(), UsageClass::Use);
    assert_eq!(PlaceContext::MoveValue.classify(), UsageClass::ConsumeOrMutate);
    assert_eq!(PlaceContext::MutableBorrow.classify(), UsageClass::ConsumeOrMutate);
    assert_eq!(PlaceContext::Drop.classify(), UsageClass::NonUse);
    assert_eq!(PlaceContext::Marker.classify(), UsageClass::NonUse);
}

#[test]
fn place_is_a_local_only_without_projection() {
    assert!(plain(X).is_local(X));
    assert!(!plain(X).is_local(Y));
    assert!(!field_of(X).is_local(X));
}
