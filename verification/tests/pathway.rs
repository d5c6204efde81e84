use cheffu::parallel::flow::{Flow, FlowItem, Split, SplitSet};
use cheffu::parallel::gate::{Gate, Slot};
use cheffu::parallel::pathway::Procedure;
use cheffu::parallel::scope::Scope;
use cheffu::processor::Operatable;
use cheffu::token::Token;
use cheffu::types::{Portion, Quantity};
use cheffu::variant::{GateOpError, WalkItem, WalkItemSeq};

fn allow(slots: &[Slot]) -> Gate {
    Gate::allow(slots.to_vec())
}

fn block(slots: &[Slot]) -> Gate {
    Gate::block(slots.to_vec())
}

fn flow(items: Vec<FlowItem>) -> Flow {
    Flow::new(items)
}

fn token() -> FlowItem {
    FlowItem::Token(Token::Place)
}

fn set(splits: Vec<Split>) -> SplitSet {
    SplitSet::new(splits)
}

fn normal(splits: Vec<Split>) -> SplitSet {
    SplitSet::normalize_splits(splits)
}

fn sets_and_their_normal_forms() -> Vec<(SplitSet, SplitSet)> {
    vec![
        (
            set(vec![Split::new(flow(vec![]), allow(&[0, 1, 2]))]),
            set(vec![Split::new(flow(vec![]), block(&[]))]),
        ),
        (
            set(vec![
                Split::new(flow(vec![token()]), allow(&[0, 1, 2])),
                Split::new(flow(vec![token()]), allow(&[2, 3, 4])),
            ]),
            set(vec![
                Split::new(flow(vec![]), block(&[0, 1, 2, 3, 4])),
                Split::new(flow(vec![token()]), allow(&[0, 1, 2, 3, 4])),
            ]),
        ),
        (
            set(vec![
                Split::new(flow(vec![token()]), allow(&[])),
                Split::new(flow(vec![token(), token()]), allow(&[0, 1, 2])),
            ]),
            set(vec![
                Split::new(flow(vec![]), block(&[0, 1, 2])),
                Split::new(flow(vec![token(), token()]), allow(&[0, 1, 2])),
            ]),
        ),
        (
            set(vec![
                Split::new(flow(vec![token()]), block(&[])),
                Split::new(flow(vec![token(), token()]), allow(&[0, 1, 2])),
            ]),
            set(vec![
                Split::new(flow(vec![token()]), block(&[])),
                Split::new(flow(vec![token(), token()]), allow(&[0, 1, 2])),
            ]),
        ),
        (
            set(vec![]),
            set(vec![Split::new(flow(vec![]), block(&[]))]),
        ),
        (
            set(vec![
                Split::new(flow(vec![token()]), allow(&[7])),
                Split::new(
                    flow(vec![
                        FlowItem::Split(set(vec![
                            Split::new(flow(vec![token()]), block(&[])),
                            Split::new(flow(vec![]), allow(&[5])),
                        ])),
                        token(),
                    ]),
                    allow(&[0, 1, 2]),
                ),
            ]),
            set(vec![
                Split::new(flow(vec![token()]), allow(&[7])),
                Split::new(
                    flow(vec![
                        FlowItem::Split(set(vec![
                            Split::new(flow(vec![token()]), block(&[])),
                            Split::new(flow(vec![]), allow(&[5])),
                        ])),
                        token(),
                    ]),
                    allow(&[0, 1, 2]),
                ),
                Split::new(flow(vec![]), block(&[0, 1, 2, 7])),
            ]),
        ),
        (
            set(vec![
                Split::new(flow(vec![token()]), allow(&[7])),
                Split::new(
                    flow(vec![
                        FlowItem::Split(set(vec![
                            Split::new(flow(vec![token()]), block(&[0, 1, 2])),
                            Split::new(flow(vec![token(), token()]), allow(&[5])),
                        ])),
                        token(),
                    ]),
                    allow(&[0, 1, 2]),
                ),
            ]),
            set(vec![
                Split::new(flow(vec![token()]), allow(&[7])),
                Split::new(
                    flow(vec![
                        FlowItem::Split(set(vec![
                            Split::new(flow(vec![token()]), block(&[0, 1, 2])),
                            Split::new(flow(vec![token(), token()]), allow(&[5])),
                            Split::new(flow(vec![]), allow(&[0, 1, 2])),
                        ])),
                        token(),
                    ]),
                    allow(&[0, 1, 2]),
                ),
                Split::new(flow(vec![]), block(&[0, 1, 2, 7])),
            ]),
        ),
    ]
}

#[test]
fn pathway_test_normalize_splits() {
    let inputs_and_expected = sets_and_their_normal_forms();

    for (input, expected) in inputs_and_expected {
        let produced = Procedure::normalize_splits(&input);
        assert_eq!(expected, produced);
    }
}

#[test]
fn test_normalize_alt_choices() {
    let inputs_and_expected = sets_and_their_normal_forms();

    for (input, expected) in inputs_and_expected {
        let produced = Procedure::normalize_splits(&input);
        assert_eq!(expected, produced);
    }
}

#[test]
fn split_test_normalize_splits() {
    let inputs_and_expected = vec![
        (
            normal(vec![Split::new(flow(vec![]), allow(&[0, 1, 2]))]),
            normal(vec![Split::new(flow(vec![]), block(&[]))]),
        ),
        (
            normal(vec![
                Split::new(flow(vec![token()]), allow(&[0, 1, 2])),
                Split::new(flow(vec![token()]), allow(&[2, 3, 4])),
            ]),
            normal(vec![
                Split::new(flow(vec![]), block(&[0, 1, 2, 3, 4])),
                Split::new(flow(vec![token()]), allow(&[0, 1, 2, 3, 4])),
            ]),
        ),
        (
            normal(vec![
                Split::new(flow(vec![token()]), allow(&[])),
                Split::new(flow(vec![token(), token()]), allow(&[0, 1, 2])),
            ]),
            normal(vec![
                Split::new(flow(vec![]), block(&[0, 1, 2])),
                Split::new(flow(vec![token(), token()]), allow(&[0, 1, 2])),
            ]),
        ),
        (
            normal(vec![
                Split::new(flow(vec![token()]), block(&[])),
                Split::new(flow(vec![token(), token()]), allow(&[0, 1, 2])),
            ]),
            normal(vec![
                Split::new(flow(vec![token()]), block(&[])),
                Split::new(flow(vec![token(), token()]), allow(&[0, 1, 2])),
            ]),
        ),
        (
            normal(vec![]),
            normal(vec![Split::new(flow(vec![]), block(&[]))]),
        ),
        (
            normal(vec![
                Split::new(flow(vec![token()]), allow(&[7])),
                Split::new(
                    flow(vec![
                        FlowItem::Split(normal(vec![
                            Split::new(flow(vec![token()]), block(&[])),
                            Split::new(flow(vec![]), allow(&[5])),
                        ])),
                        token(),
                    ]),
                    allow(&[0, 1, 2]),
                ),
            ]),
            normal(vec![
                Split::new(flow(vec![token()]), allow(&[7])),
                Split::new(
                    flow(vec![
                        FlowItem::Split(normal(vec![
                            Split::new(flow(vec![token()]), block(&[])),
                            Split::new(flow(vec![]), allow(&[5])),
                        ])),
                        token(),
                    ]),
                    allow(&[0, 1, 2]),
                ),
                Split::new(flow(vec![]), block(&[0, 1, 2, 7])),
            ]),
        ),
    ];

    for (input, expected) in inputs_and_expected {
        let produced = SplitSet::normalize_splits(input.into_splits());
        assert_eq!(expected, produced);
    }
}

#[test]
fn procedure_brings_every_branch_point_into_normal_form() {
    let inner = set(vec![
        Split::new(flow(vec![token()]), block(&[0, 1, 2])),
        Split::new(flow(vec![token(), token()]), allow(&[5])),
    ]);
    let outer = set(vec![Split::new(
        flow(vec![FlowItem::Split(inner), token()]),
        allow(&[0, 1, 2]),
    )]);
    let procedure = Procedure::new(vec![token(), FlowItem::Split(outer)]);

    let inner_normal = set(vec![
        Split::new(flow(vec![token()]), block(&[0, 1, 2])),
        Split::new(flow(vec![token(), token()]), allow(&[5])),
        Split::new(flow(vec![]), allow(&[0, 1, 2])),
    ]);
    let outer_normal = set(vec![
        Split::new(flow(vec![]), block(&[0, 1, 2])),
        Split::new(
            flow(vec![FlowItem::Split(inner_normal), token()]),
            allow(&[0, 1, 2]),
        ),
    ]);
    let expected = flow(vec![token(), FlowItem::Split(outer_normal)]);
    assert_eq!(procedure.flow(), &expected);

    let again = Procedure::new(expected.clone().into_items());
    assert_eq!(again.flow(), &expected);
    assert_eq!(again, procedure);
    assert_eq!(expected.clone().normalize_tree(), expected);
}

#[test]
fn procedure_makes_flows_one_that_become_equal() {
    let left = set(vec![Split::new(flow(vec![token()]), allow(&[1]))]);
    let right = set(vec![
        Split::new(flow(vec![token()]), allow(&[1])),
        Split::new(flow(vec![]), block(&[1])),
    ]);
    let input = set(vec![
        Split::new(flow(vec![FlowItem::Split(left)]), allow(&[0])),
        Split::new(flow(vec![FlowItem::Split(right.clone())]), allow(&[3])),
    ]);
    let produced = Procedure::normalize_splits(&input);
    let expected = set(vec![
        Split::new(flow(vec![]), block(&[0, 3])),
        Split::new(flow(vec![FlowItem::Split(right)]), allow(&[0, 3])),
    ]);
    assert_eq!(produced, expected);
}

#[test]
fn operatable_stack_has_a_place_for_each_token() {
    let tokens = vec![
        Token::Ingredient("apple".to_string()),
        Token::Measure(Quantity),
        Token::Take(Portion::Fraction(1, 2)),
        Token::Discard,
    ];
    let stack = Operatable::create_operatable_stack(tokens);
    assert_eq!(stack.len(), 4);
    for entry in &stack {
        assert!(matches!(entry, Operatable::Place));
    }
    assert!(Operatable::create_operatable_stack(vec![]).is_empty());
}

#[test]
fn scope_keeps_its_gate_and_sub_scopes() {
    let leaf = Scope::new(allow(&[1]), vec![]);
    let scope = Scope::new(block(&[2]), vec![leaf.clone(), leaf.clone()]);
    assert!(scope == scope.clone());
    assert!(scope != leaf);
    assert!(scope != Scope::new(block(&[2]), vec![leaf.clone()]));
    assert!(scope != Scope::new(block(&[3]), vec![leaf.clone(), leaf]));
}

#[test]
fn walk_items_give_their_tokens_where_the_marks_nest() {
    let token = Token::Place;
    let other = Token::Discard;
    let gate_a = allow(&[0, 1, 2]);
    let gate_b = allow(&[3, 4, 5]);

    let inputs_and_expected: Vec<(Vec<WalkItem>, Result<Vec<&Token>, GateOpError>)> = vec![
        (vec![], Ok(vec![])),
        (vec![WalkItem::Token(&token)], Ok(vec![&token])),
        (
            vec![
                WalkItem::Token(&token),
                WalkItem::Token(&other),
                WalkItem::Token(&token),
            ],
            Ok(vec![&token, &other, &token]),
        ),
        (
            vec![
                WalkItem::Push(&gate_a),
                WalkItem::Token(&token),
                WalkItem::Pop(&gate_a),
            ],
            Ok(vec![&token]),
        ),
        (
            vec![WalkItem::Push(&gate_a), WalkItem::Pop(&gate_a)],
            Ok(vec![]),
        ),
        (
            vec![
                WalkItem::Push(&gate_a),
                WalkItem::Push(&gate_b),
                WalkItem::Token(&other),
                WalkItem::Pop(&gate_b),
                WalkItem::Token(&token),
                WalkItem::Pop(&gate_a),
            ],
            Ok(vec![&other, &token]),
        ),
        (
            vec![WalkItem::Push(&gate_a)],
            Err(GateOpError::StackLeftover { leftover: vec![gate_a.clone()] }),
        ),
        (
            vec![
                WalkItem::Push(&gate_a),
                WalkItem::Push(&gate_b),
                WalkItem::Push(&gate_a),
                WalkItem::Pop(&gate_a),
            ],
            Err(GateOpError::StackLeftover {
                leftover: vec![gate_a.clone(), gate_b.clone()],
            }),
        ),
        (vec![WalkItem::Pop(&gate_a)], Err(GateOpError::EmptyStack)),
        (
            vec![WalkItem::Push(&gate_a), WalkItem::Pop(&gate_b)],
            Err(GateOpError::StackMismatch {
                expected: gate_b.clone(),
                produced: gate_a.clone(),
            }),
        ),
        (
            vec![WalkItem::Pop(&gate_a), WalkItem::Push(&gate_a)],
            Err(GateOpError::EmptyStack),
        ),
        (
            vec![
                WalkItem::Push(&gate_a),
                WalkItem::Push(&gate_b),
                WalkItem::Pop(&gate_a),
            ],
            Err(GateOpError::StackMismatch {
                expected: gate_a.clone(),
                produced: gate_b.clone(),
            }),
        ),
        (
            vec![
                WalkItem::Push(&gate_a),
                WalkItem::Push(&gate_b),
                WalkItem::Pop(&gate_a),
                WalkItem::Pop(&gate_b),
            ],
            Err(GateOpError::StackMismatch {
                expected: gate_a.clone(),
                produced: gate_b.clone(),
            }),
        ),
    ];

    for (input, expected) in inputs_and_expected {
        let produced = WalkItemSeq(input).process();
        assert_eq!(expected, produced);
    }
}
