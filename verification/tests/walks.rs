use cheffu::parallel::flow::{
    CowFlow, CowFlowItem, CowSplit, CowSplitSet, Flow, FlowItem, SlotStackError, Split, SplitSet,
};
use cheffu::parallel::gate::{Gate, Slot};
use cheffu::token::Token;

fn allow(slots: &[Slot]) -> Gate {
    Gate::allow(slots.to_vec())
}

fn block(slots: &[Slot]) -> Gate {
    Gate::block(slots.to_vec())
}

fn ingredient(name: &str) -> Token {
    Token::Ingredient(name.to_string())
}

fn one_split(tokens: Vec<Token>, gate: Gate) -> FlowItem {
    let items = tokens.into_iter().map(FlowItem::Token).collect();
    FlowItem::Split(SplitSet::new(vec![Split::new(Flow::new(items), gate)]))
}

#[test]
fn flow_test_find_walks() {
    let token_a = Token::Ingredient("apple".to_string());
    let token_b = Token::Ingredient("banana".to_string());
    let token_c = Token::Ingredient("cherry".to_string());
    let token_d = Token::Ingredient("date".to_string());

    let inputs_and_expected: Vec<((Flow, Vec<Slot>), Vec<Vec<&Token>>)> = vec![
        (
            (Flow::new(vec![FlowItem::Token(token_a.clone())]), vec![0]),
            vec![vec![&token_a]],
        ),
        (
            (
                Flow::new(vec![
                    FlowItem::Token(token_a.clone()),
                    FlowItem::Token(token_b.clone()),
                ]),
                vec![0],
            ),
            vec![vec![&token_a, &token_b]],
        ),
        (
            (
                Flow::new(vec![
                    FlowItem::Token(token_a.clone()),
                    FlowItem::Split(SplitSet::new(vec![Split::new(
                        Flow::new(vec![FlowItem::Token(token_b.clone())]),
                        allow(&[0]),
                    )])),
                    FlowItem::Token(token_c.clone()),
                ]),
                vec![0],
            ),
            vec![vec![&token_a, &token_b, &token_c]],
        ),
        (
            (
                Flow::new(vec![
                    FlowItem::Token(token_a.clone()),
                    FlowItem::Split(SplitSet::new(vec![Split::new(
                        Flow::new(vec![FlowItem::Token(token_b.clone())]),
                        allow(&[0]),
                    )])),
                    FlowItem::Token(token_c.clone()),
                ]),
                vec![1],
            ),
            vec![vec![&token_a, &token_c]],
        ),
        (
            (
                Flow::new(vec![
                    FlowItem::Token(token_a.clone()),
                    FlowItem::Split(SplitSet::new(vec![Split::new(
                        Flow::new(vec![FlowItem::Token(token_b.clone())]),
                        allow(&[0]),
                    )])),
                    FlowItem::Token(token_c.clone()),
                    FlowItem::Split(SplitSet::new(vec![Split::new(
                        Flow::new(vec![
                            FlowItem::Token(token_d.clone()),
                            FlowItem::Token(token_a.clone()),
                        ]),
                        allow(&[1]),
                    )])),
                ]),
                vec![1],
            ),
            vec![vec![&token_a, &token_c, &token_d, &token_a]],
        ),
        (
            (
                Flow::new(vec![
                    FlowItem::Token(token_a.clone()),
                    FlowItem::Split(SplitSet::new(vec![Split::new(
                        Flow::new(vec![FlowItem::Token(token_b.clone())]),
                        allow(&[0]),
                    )])),
                    FlowItem::Token(token_c.clone()),
                    FlowItem::Split(SplitSet::new(vec![Split::new(
                        Flow::new(vec![
                            FlowItem::Token(token_d.clone()),
                            FlowItem::Token(token_a.clone()),
                        ]),
                        allow(&[1]),
                    )])),
                ]),
                vec![0],
            ),
            vec![vec![&token_a, &token_b, &token_c]],
        ),
        (
            (
                Flow::new(vec![
                    FlowItem::Token(token_a.clone()),
                    FlowItem::Split(SplitSet::new(vec![Split::new(
                        Flow::new(vec![FlowItem::Token(token_b.clone())]),
                        allow(&[0]),
                    )])),
                    FlowItem::Token(token_c.clone()),
                    FlowItem::Split(SplitSet::new(vec![Split::new(
                        Flow::new(vec![
                            FlowItem::Token(token_d.clone()),
                            FlowItem::Token(token_a.clone()),
                        ]),
                        allow(&[1]),
                    )])),
                ]),
                vec![2],
            ),
            vec![vec![&token_a, &token_c]],
        ),
    ];

    for ((flow, slot_stack), expected) in &inputs_and_expected {
        let produced = flow
            .find_walks(&mut slot_stack.clone())
            .expect("Unable to find walks");
        assert_eq!(expected, &produced);
    }
}

#[test]
fn cow_flow_test_find_walks() {
    let token_a = Token::Ingredient("apple".to_string());
    let token_b = Token::Ingredient("banana".to_string());
    let token_c = Token::Ingredient("cherry".to_string());
    let token_d = Token::Ingredient("date".to_string());

    let inputs_and_expected: Vec<((CowFlow, Vec<Slot>), Vec<Vec<&Token>>)> = vec![
        (
            (CowFlow::new(vec![CowFlowItem::Token(token_a.clone())]), vec![0]),
            vec![vec![&token_a]],
        ),
        (
            (
                CowFlow::new(vec![
                    CowFlowItem::Token(token_a.clone()),
                    CowFlowItem::Token(token_b.clone()),
                ]),
                vec![0],
            ),
            vec![vec![&token_a, &token_b]],
        ),
        (
            (
                CowFlow::new(vec![
                    CowFlowItem::Token(token_a.clone()),
                    CowFlowItem::Split(CowSplitSet::new(vec![CowSplit::new(
                        CowFlow::new(vec![CowFlowItem::Token(token_b.clone())]),
                        allow(&[0]),
                    )])),
                    CowFlowItem::Token(token_c.clone()),
                ]),
                vec![0],
            ),
            vec![vec![&token_a, &token_b, &token_c]],
        ),
        (
            (
                CowFlow::new(vec![
                    CowFlowItem::Token(token_a.clone()),
                    CowFlowItem::Split(CowSplitSet::new(vec![CowSplit::new(
                        CowFlow::new(vec![CowFlowItem::Token(token_b.clone())]),
                        allow(&[0]),
                    )])),
                    CowFlowItem::Token(token_c.clone()),
                ]),
                vec![1],
            ),
            vec![vec![&token_a, &token_c]],
        ),
        (
            (
                CowFlow::new(vec![
                    CowFlowItem::Token(token_a.clone()),
                    CowFlowItem::Split(CowSplitSet::new(vec![CowSplit::new(
                        CowFlow::new(vec![CowFlowItem::Token(token_b.clone())]),
                        allow(&[0]),
                    )])),
                    CowFlowItem::Token(token_c.clone()),
                    CowFlowItem::Split(CowSplitSet::new(vec![CowSplit::new(
                        CowFlow::new(vec![
                            CowFlowItem::Token(token_d.clone()),
                            CowFlowItem::Token(token_a.clone()),
                        ]),
                        allow(&[1]),
                    )])),
                ]),
                vec![1],
            ),
            vec![vec![&token_a, &token_c, &token_d, &token_a]],
        ),
        (
            (
                CowFlow::new(vec![
                    CowFlowItem::Token(token_a.clone()),
                    CowFlowItem::Split(CowSplitSet::new(vec![CowSplit::new(
                        CowFlow::new(vec![CowFlowItem::Token(token_b.clone())]),
                        allow(&[0]),
                    )])),
                    CowFlowItem::Token(token_c.clone()),
                    CowFlowItem::Split(CowSplitSet::new(vec![CowSplit::new(
                        CowFlow::new(vec![
                            CowFlowItem::Token(token_d.clone()),
                            CowFlowItem::Token(token_a.clone()),
                        ]),
                        allow(&[1]),
                    )])),
                ]),
                vec![0],
            ),
            vec![vec![&token_a, &token_b, &token_c]],
        ),
        (
            (
                CowFlow::new(vec![
                    CowFlowItem::Token(token_a.clone()),
                    CowFlowItem::Split(CowSplitSet::new(vec![CowSplit::new(
                        CowFlow::new(vec![CowFlowItem::Token(token_b.clone())]),
                        allow(&[0]),
                    )])),
                    CowFlowItem::Token(token_c.clone()),
                    CowFlowItem::Split(CowSplitSet::new(vec![CowSplit::new(
                        CowFlow::new(vec![
                            CowFlowItem::Token(token_d.clone()),
                            CowFlowItem::Token(token_a.clone()),
                        ]),
                        allow(&[1]),
                    )])),
                ]),
                vec![2],
            ),
            vec![vec![&token_a, &token_c]],
        ),
    ];

    for ((flow, slot_stack), expected) in &inputs_and_expected {
        let produced = flow
            .find_walks(&mut slot_stack.clone())
            .expect("Unable to find walks");
        assert_eq!(expected, &produced);
    }
}

#[test]
fn walk_takes_the_allowed_alternative() {
    let (a, b, c) = (ingredient("A"), ingredient("B"), ingredient("C"));
    let flow = Flow::new(vec![
        FlowItem::Token(a.clone()),
        one_split(vec![b.clone()], allow(&[0])),
        FlowItem::Token(c.clone()),
    ]);
    assert_eq!(flow.walks(vec![0]), Ok(vec![vec![&a, &b, &c]]));
    assert_eq!(flow.walks(vec![1]), Ok(vec![vec![&a, &c]]));
}

#[test]
fn splits_of_one_level_share_one_slot() {
    let (a, b, c, d) = (
        ingredient("A"),
        ingredient("B"),
        ingredient("C"),
        ingredient("D"),
    );
    let flow = Flow::new(vec![
        FlowItem::Token(a.clone()),
        one_split(vec![b.clone()], allow(&[1])),
        FlowItem::Token(c.clone()),
        one_split(vec![d.clone()], block(&[0])),
    ]);
    let mut stack: Vec<Slot> = vec![7, 1];
    let produced = flow.find_walks(&mut stack);
    assert_eq!(produced, Ok(vec![vec![&a, &b, &c, &d]]));
    assert_eq!(stack, vec![7]);

    assert_eq!(flow.walks(vec![1]), Ok(vec![vec![&a, &b, &c, &d]]));
    assert_eq!(flow.walks(vec![0]), Ok(vec![vec![&a, &c]]));
    assert_eq!(flow.walks(vec![2]), Ok(vec![vec![&a, &c, &d]]));
}

#[test]
fn walk_without_slots_stops_at_a_split() {
    let (a, b) = (ingredient("A"), ingredient("B"));
    let flow = Flow::new(vec![
        FlowItem::Token(a.clone()),
        one_split(vec![b.clone()], allow(&[0])),
    ]);
    assert_eq!(flow.walks(vec![]), Err(SlotStackError::Empty));
    let mut stack: Vec<Slot> = vec![];
    assert_eq!(flow.find_walks(&mut stack), Err(SlotStackError::Empty));
    assert!(stack.is_empty());
}

#[test]
fn walk_reports_the_slots_it_did_not_use() {
    let (a, b) = (ingredient("A"), ingredient("B"));
    let flat = Flow::new(vec![FlowItem::Token(a.clone())]);
    assert_eq!(flat.walks(vec![]), Ok(vec![vec![&a]]));
    assert_eq!(
        flat.walks(vec![4]),
        Err(SlotStackError::Leftover { leftover: vec![4] })
    );
    assert_eq!(
        flat.walks(vec![4, 5]),
        Err(SlotStackError::Leftover { leftover: vec![4, 5] })
    );

    let one_level = Flow::new(vec![
        FlowItem::Token(a.clone()),
        one_split(vec![b.clone()], allow(&[0])),
    ]);
    assert_eq!(one_level.walks(vec![0]), Ok(vec![vec![&a, &b]]));
    assert_eq!(
        one_level.walks(vec![9, 0]),
        Err(SlotStackError::Leftover { leftover: vec![9] })
    );
    assert_eq!(
        one_level.walks(vec![8, 9, 0]),
        Err(SlotStackError::Leftover { leftover: vec![8, 9] })
    );
}

#[test]
fn walk_of_the_empty_flow_is_one_empty_walk() {
    let flow = Flow::new(vec![]);
    let expected: Vec<Vec<&Token>> = vec![vec![]];
    assert_eq!(flow.walks(vec![]), Ok(expected));
}

#[test]
fn walk_goes_through_every_alternative_in_order() {
    let (a, b, c) = (ingredient("A"), ingredient("B"), ingredient("C"));
    let set = SplitSet::new(vec![
        Split::new(Flow::new(vec![FlowItem::Token(c.clone())]), allow(&[0, 1])),
        Split::new(Flow::new(vec![FlowItem::Token(b.clone())]), allow(&[0])),
        Split::new(Flow::new(vec![]), block(&[0])),
    ]);
    let flow = Flow::new(vec![
        FlowItem::Token(a.clone()),
        FlowItem::Split(set),
        FlowItem::Token(a.clone()),
    ]);
    assert_eq!(
        flow.walks(vec![0]),
        Ok(vec![vec![&a, &a], vec![&a, &b, &a], vec![&a, &c, &a]])
    );
    assert_eq!(
        flow.walks(vec![1]),
        Ok(vec![vec![&a, &a], vec![&a, &a], vec![&a, &c, &a]])
    );
}

#[test]
fn walk_crosses_the_walks_of_two_splits() {
    let (a, b, c, d) = (
        ingredient("A"),
        ingredient("B"),
        ingredient("C"),
        ingredient("D"),
    );
    let first = SplitSet::new(vec![
        Split::new(Flow::new(vec![FlowItem::Token(a.clone())]), block(&[])),
        Split::new(Flow::new(vec![FlowItem::Token(b.clone())]), block(&[])),
    ]);
    let second = SplitSet::new(vec![
        Split::new(Flow::new(vec![FlowItem::Token(c.clone())]), block(&[])),
        Split::new(Flow::new(vec![FlowItem::Token(d.clone())]), block(&[])),
    ]);
    let flow = Flow::new(vec![FlowItem::Split(first), FlowItem::Split(second)]);
    assert_eq!(
        flow.walks(vec![3]),
        Ok(vec![
            vec![&a, &c],
            vec![&a, &d],
            vec![&b, &c],
            vec![&b, &d],
        ])
    );
}

#[test]
fn nested_split_takes_its_slot_from_a_copy() {
    let (a, b) = (ingredient("A"), ingredient("B"));
    let inner = one_split(vec![b.clone()], allow(&[5]));
    let outer = FlowItem::Split(SplitSet::new(vec![Split::new(
        Flow::new(vec![FlowItem::Token(a.clone()), inner]),
        allow(&[1]),
    )]));
    let flow = Flow::new(vec![outer]);

    let mut stack: Vec<Slot> = vec![5, 1];
    assert_eq!(flow.find_walks(&mut stack), Ok(vec![vec![&a, &b]]));
    assert_eq!(stack, vec![5]);

    assert_eq!(
        flow.walks(vec![5, 1]),
        Err(SlotStackError::Leftover { leftover: vec![5] })
    );
    assert_eq!(flow.walks(vec![1]), Err(SlotStackError::Empty));
    let blocked: Vec<Vec<&Token>> = vec![vec![]];
    assert_eq!(flow.walks(vec![2]), Ok(blocked));
}

#[test]
fn walk_is_the_same_each_time() {
    let (a, b) = (ingredient("A"), ingredient("B"));
    let flow = Flow::new(vec![
        one_split(vec![a.clone()], allow(&[0])),
        one_split(vec![b.clone()], block(&[0])),
    ]);
    for slot in 0u8..4 {
        let first = flow.find_walks(&mut vec![slot]);
        let second = flow.find_walks(&mut vec![slot]);
        assert_eq!(first, second);
    }
}

#[test]
fn stack_error_says_what_went_wrong() {
    assert_eq!(SlotStackError::Empty.to_string(), "stack is empty");
    assert_eq!(
        SlotStackError::Leftover { leftover: vec![1, 20, 255] }.to_string(),
        "leftover items in stack; found: [1, 20, 255]"
    );
    assert_eq!(
        SlotStackError::Leftover { leftover: vec![] }.to_string(),
        "leftover items in stack; found: []"
    );
    let leftover: Vec<Slot> = vec![4, 0];
    assert_eq!(
        SlotStackError::Leftover { leftover: leftover.clone() }.to_string(),
        format!("leftover items in stack; found: {:?}", leftover)
    );
}
