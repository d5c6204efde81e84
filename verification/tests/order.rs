use cheffu::order::{compare_bytes, compare_text, Order};
use cheffu::parallel::flow::{Flow, FlowItem, Split, SplitSet};
use cheffu::parallel::gate::{Gate, Slot};
use cheffu::token::Token;
use cheffu::types::{Portion, Quantity};

fn allow(slots: &[Slot]) -> Gate {
    Gate::allow(slots.to_vec())
}

fn block(slots: &[Slot]) -> Gate {
    Gate::block(slots.to_vec())
}

fn expected(i: usize, j: usize) -> Order {
    if i < j {
        Order::Less
    } else if i == j {
        Order::Equal
    } else {
        Order::Greater
    }
}

fn tokens_in_order() -> Vec<Token> {
    vec![
        Token::Ingredient("".to_string()),
        Token::Ingredient("Apple".to_string()),
        Token::Ingredient("apple".to_string()),
        Token::Ingredient("apple pie".to_string()),
        Token::Ingredient("apples".to_string()),
        Token::Ingredient("zest".to_string()),
        Token::Ingredient("\u{e9}clair".to_string()),
        Token::Ingredient("\u{4e2d}".to_string()),
        Token::Ingredient("\u{1f600}".to_string()),
        Token::Tool("apple".to_string()),
        Token::Container("bowl".to_string()),
        Token::Appliance("oven".to_string()),
        Token::Verb("bake".to_string()),
        Token::Combine("mix".to_string()),
        Token::Transfer("pour".to_string()),
        Token::Measure(Quantity),
        Token::Take(Portion::Pseudo("a".to_string())),
        Token::Take(Portion::Pseudo("b".to_string())),
        Token::Take(Portion::Quantity(Quantity)),
        Token::Take(Portion::Fraction(0, 9)),
        Token::Take(Portion::Fraction(1, 2)),
        Token::Take(Portion::Fraction(1, 3)),
        Token::Take(Portion::Fraction(2, 0)),
        Token::Leave(Portion::Pseudo("a".to_string())),
        Token::Leave(Portion::Fraction(1, 2)),
        Token::Place,
        Token::Remove,
        Token::Configure("high".to_string()),
        Token::Meld("long".to_string()),
        Token::Discard,
        Token::Empty,
        Token::TagSet("x".to_string()),
        Token::TagGet("x".to_string()),
        Token::Modifier("large".to_string()),
        Token::Annotation("gently".to_string()),
    ]
}

#[test]
fn tokens_are_ordered_by_variant_and_content() {
    let tokens = tokens_in_order();
    for (i, a) in tokens.iter().enumerate() {
        for (j, b) in tokens.iter().enumerate() {
            assert_eq!(a.compare(b), expected(i, j));
            assert_eq!(a.cmp(b) as i8, i.cmp(&j) as i8);
            assert_eq!(a.clone().compare(b), expected(i, j));
        }
    }
}

#[test]
fn texts_and_bytes_are_ordered_as_in_a_dictionary() {
    let texts = vec!["", "A", "B", "a", "ab", "abc", "b", "\u{e9}", "\u{4e2d}", "\u{1f600}"];
    for (i, a) in texts.iter().enumerate() {
        for (j, b) in texts.iter().enumerate() {
            assert_eq!(compare_text(a, b), expected(i, j));
            assert_eq!(a.cmp(b) as i8, i.cmp(&j) as i8);
        }
    }
    let bytes: Vec<Vec<u8>> = vec![
        vec![],
        vec![0],
        vec![0, 0],
        vec![0, 255],
        vec![1],
        vec![1, 0],
        vec![255],
    ];
    for (i, a) in bytes.iter().enumerate() {
        for (j, b) in bytes.iter().enumerate() {
            assert_eq!(compare_bytes(a, b), expected(i, j));
        }
    }
}

fn flows_in_order() -> Vec<Flow> {
    let a = || FlowItem::Token(Token::Ingredient("a".to_string()));
    let b = || FlowItem::Token(Token::Ingredient("b".to_string()));
    let alt = |items: Vec<FlowItem>, gate: Gate| Split::new(Flow::new(items), gate);
    vec![
        Flow::new(vec![]),
        Flow::new(vec![a()]),
        Flow::new(vec![a(), a()]),
        Flow::new(vec![a(), b()]),
        Flow::new(vec![a(), FlowItem::Split(SplitSet::new(vec![]))]),
        Flow::new(vec![b()]),
        Flow::new(vec![FlowItem::Split(SplitSet::new(vec![]))]),
        Flow::new(vec![FlowItem::Split(SplitSet::new(vec![alt(vec![], allow(&[]))]))]),
        Flow::new(vec![FlowItem::Split(SplitSet::new(vec![
            alt(vec![], allow(&[])),
            alt(vec![a()], allow(&[])),
        ]))]),
        Flow::new(vec![FlowItem::Split(SplitSet::new(vec![alt(vec![], allow(&[1]))]))]),
        Flow::new(vec![FlowItem::Split(SplitSet::new(vec![alt(vec![], block(&[]))]))]),
        Flow::new(vec![FlowItem::Split(SplitSet::new(vec![alt(vec![a()], allow(&[]))]))]),
        Flow::new(vec![
            FlowItem::Split(SplitSet::new(vec![alt(vec![a()], allow(&[]))])),
            a(),
        ]),
    ]
}

#[test]
fn flows_are_ordered_place_by_place() {
    let flows = flows_in_order();
    for (i, a) in flows.iter().enumerate() {
        for (j, b) in flows.iter().enumerate() {
            assert_eq!(a.compare(b), expected(i, j));
            assert_eq!(a.cmp(b) as i8, i.cmp(&j) as i8);
            assert_eq!(a == b, i == j);
            assert_eq!(a.clone().compare(b), expected(i, j));

            let left = Split::new(a.clone(), allow(&[1]));
            let right = Split::new(b.clone(), allow(&[1]));
            assert_eq!(left.compare(&right), expected(i, j));
            let later = Split::new(a.clone(), block(&[1]));
            if i <= j {
                assert_eq!(left.compare(&Split::new(b.clone(), block(&[1]))), Order::Less);
            }
            assert_eq!(later.compare(&left), Order::Greater);

            let one = SplitSet::new(vec![left.clone()]);
            let other = SplitSet::new(vec![right.clone()]);
            assert_eq!(one.compare(&other), expected(i, j));
            let item = FlowItem::Split(one);
            let other_item = FlowItem::Split(other);
            assert_eq!(item.compare(&other_item), expected(i, j));
            assert_eq!(
                FlowItem::Token(Token::Place).compare(&item),
                Order::Less
            );
            assert_eq!(
                item.compare(&FlowItem::Token(Token::Place)),
                Order::Greater
            );
        }
    }
}
