use vstd::prelude::*;
use crate::order::{
    compare_text, lemma_order_ints_flip, lemma_order_ints_transitive, lemma_order_text_equal,
    code_points, order_int, order_text, Order,
};
use crate::types::{lemma_order_portion, order_portion, Portion, PortionView, Quantity};

verus! {

/// One element of a procedure. The flow machinery never looks inside a token:
/// it only moves tokens around and compares them.
#[derive(PartialEq, Eq, Hash, Debug, PartialOrd, Ord)]
pub enum Token {
    Ingredient(String),
    Tool(String),
    Container(String),
    Appliance(String),
    Verb(String),
    Combine(String),
    Transfer(String),
    Measure(Quantity),
    Take(Portion),
    Leave(Portion),
    Place,
    Remove,
    Configure(String),
    Meld(String),
    Discard,
    Empty,
    TagSet(String),
    TagGet(String),
    Modifier(String),
    Annotation(String),
}

/// The mathematical value of a [`Token`]: the same variants, with texts as
/// sequences of characters.
pub enum TokenView {
    Ingredient(Seq<char>),
    Tool(Seq<char>),
    Container(Seq<char>),
    Appliance(Seq<char>),
    Verb(Seq<char>),
    Combine(Seq<char>),
    Transfer(Seq<char>),
    Measure,
    Take(PortionView),
    Leave(PortionView),
    Place,
    Remove,
    Configure(Seq<char>),
    Meld(Seq<char>),
    Discard,
    Empty,
    TagSet(Seq<char>),
    TagGet(Seq<char>),
    Modifier(Seq<char>),
    Annotation(Seq<char>),
}

impl View for Token {
    type V = TokenView;

    open spec fn view(&self) -> TokenView {
        match *self {
            Token::Ingredient(text) => TokenView::Ingredient(text@),
            Token::Tool(text) => TokenView::Tool(text@),
            Token::Container(text) => TokenView::Container(text@),
            Token::Appliance(text) => TokenView::Appliance(text@),
            Token::Verb(text) => TokenView::Verb(text@),
            Token::Combine(text) => TokenView::Combine(text@),
            Token::Transfer(text) => TokenView::Transfer(text@),
            Token::Measure(_) => TokenView::Measure,
            Token::Take(portion) => TokenView::Take(portion@),
            Token::Leave(portion) => TokenView::Leave(portion@),
            Token::Place => TokenView::Place,
            Token::Remove => TokenView::Remove,
            Token::Configure(text) => TokenView::Configure(text@),
            Token::Meld(text) => TokenView::Meld(text@),
            Token::Discard => TokenView::Discard,
            Token::Empty => TokenView::Empty,
            Token::TagSet(text) => TokenView::TagSet(text@),
            Token::TagGet(text) => TokenView::TagGet(text@),
            Token::Modifier(text) => TokenView::Modifier(text@),
            Token::Annotation(text) => TokenView::Annotation(text@),
        }
    }
}

impl Clone for Token {
    fn clone(&self) -> (r: Self)
        ensures
            r@ == self@,
    {
        match self {
            Token::Ingredient(text) => Token::Ingredient(text.clone()),
            Token::Tool(text) => Token::Tool(text.clone()),
            Token::Container(text) => Token::Container(text.clone()),
            Token::Appliance(text) => Token::Appliance(text.clone()),
            Token::Verb(text) => Token::Verb(text.clone()),
            Token::Combine(text) => Token::Combine(text.clone()),
            Token::Transfer(text) => Token::Transfer(text.clone()),
            Token::Measure(_) => Token::Measure(Quantity),
            Token::Take(portion) => Token::Take(portion.clone()),
            Token::Leave(portion) => Token::Leave(portion.clone()),
            Token::Place => Token::Place,
            Token::Remove => Token::Remove,
            Token::Configure(text) => Token::Configure(text.clone()),
            Token::Meld(text) => Token::Meld(text.clone()),
            Token::Discard => Token::Discard,
            Token::Empty => Token::Empty,
            Token::TagSet(text) => Token::TagSet(text.clone()),
            Token::TagGet(text) => Token::TagGet(text.clone()),
            Token::Modifier(text) => Token::Modifier(text.clone()),
            Token::Annotation(text) => Token::Annotation(text.clone()),
        }
    }
}

impl TokenView {
    /// The place of the variant in the order of declaration, from 0.
    pub open spec fn rank(self) -> int {
        match self {
            TokenView::Ingredient(_) => 0,
            TokenView::Tool(_) => 1,
            TokenView::Container(_) => 2,
            TokenView::Appliance(_) => 3,
            TokenView::Verb(_) => 4,
            TokenView::Combine(_) => 5,
            TokenView::Transfer(_) => 6,
            TokenView::Measure => 7,
            TokenView::Take(_) => 8,
            TokenView::Leave(_) => 9,
            TokenView::Place => 10,
            TokenView::Remove => 11,
            TokenView::Configure(_) => 12,
            TokenView::Meld(_) => 13,
            TokenView::Discard => 14,
            TokenView::Empty => 15,
            TokenView::TagSet(_) => 16,
            TokenView::TagGet(_) => 17,
            TokenView::Modifier(_) => 18,
            TokenView::Annotation(_) => 19,
        }
    }

    /// The text that the token holds, if it holds one.
    pub open spec fn text(self) -> Option<Seq<char>> {
        match self {
            TokenView::Ingredient(text)
            | TokenView::Tool(text)
            | TokenView::Container(text)
            | TokenView::Appliance(text)
            | TokenView::Verb(text)
            | TokenView::Combine(text)
            | TokenView::Transfer(text)
            | TokenView::Configure(text)
            | TokenView::Meld(text)
            | TokenView::TagSet(text)
            | TokenView::TagGet(text)
            | TokenView::Modifier(text)
            | TokenView::Annotation(text) => Some(text),
            _ => None,
        }
    }

    /// The portion that the token holds, if it holds one.
    pub open spec fn portion(self) -> Option<PortionView> {
        match self {
            TokenView::Take(portion) | TokenView::Leave(portion) => Some(portion),
            _ => None,
        }
    }
}

/// The order of tokens: by variant in the order of declaration, then by the
/// text or the portion that the variant holds.
pub open spec fn order_token(a: TokenView, b: TokenView) -> Order {
    order_int(a.rank(), b.rank()).chain(
        match (a.text(), b.text()) {
            (Some(x), Some(y)) => order_text(x, y),
            _ => match (a.portion(), b.portion()) {
                (Some(p), Some(q)) => order_portion(p, q),
                _ => Order::Equal,
            },
        },
    )
}

/// Tokens tie exactly when they are the same, a comparison read from the
/// other side is flipped, and what comes before is transitive.
pub proof fn lemma_order_token(a: TokenView, b: TokenView, c: TokenView)
    ensures
        order_token(a, b) is Equal <==> a == b,
        order_token(b, a) == order_token(a, b).flip(),
        order_token(a, b) is Less && order_token(b, c) is Less ==> order_token(a, c) is Less,
{
    if a.rank() == b.rank() {
        match (a.text(), b.text()) {
            (Some(x), Some(y)) => {
                lemma_order_text_equal(x, y);
                lemma_order_ints_flip(code_points(x), code_points(y));
                if b.rank() == c.rank() {
                    let z = c.text()->0;
                    if order_text(x, y) is Less && order_text(y, z) is Less {
                        lemma_order_ints_transitive(code_points(x), code_points(y), code_points(z));
                    }
                }
            },
            _ => match (a.portion(), b.portion()) {
                (Some(p), Some(q)) => {
                    if b.rank() == c.rank() {
                        lemma_order_portion(p, q, c.portion()->0);
                    } else {
                        lemma_order_portion(p, q, q);
                    }
                },
                _ => {},
            },
        }
    }
}

impl Token {
    fn rank(&self) -> (r: u8)
        ensures
            r == self@.rank(),
    {
        match self {
            Token::Ingredient(_) => 0,
            Token::Tool(_) => 1,
            Token::Container(_) => 2,
            Token::Appliance(_) => 3,
            Token::Verb(_) => 4,
            Token::Combine(_) => 5,
            Token::Transfer(_) => 6,
            Token::Measure(_) => 7,
            Token::Take(_) => 8,
            Token::Leave(_) => 9,
            Token::Place => 10,
            Token::Remove => 11,
            Token::Configure(_) => 12,
            Token::Meld(_) => 13,
            Token::Discard => 14,
            Token::Empty => 15,
            Token::TagSet(_) => 16,
            Token::TagGet(_) => 17,
            Token::Modifier(_) => 18,
            Token::Annotation(_) => 19,
        }
    }

    fn text(&self) -> (r: Option<&str>)
        ensures
            r is Some == self@.text() is Some,
            r is Some ==> r->0@ == self@.text()->0,
    {
        match self {
            Token::Ingredient(text)
            | Token::Tool(text)
            | Token::Container(text)
            | Token::Appliance(text)
            | Token::Verb(text)
            | Token::Combine(text)
            | Token::Transfer(text)
            | Token::Configure(text)
            | Token::Meld(text)
            | Token::TagSet(text)
            | Token::TagGet(text)
            | Token::Modifier(text)
            | Token::Annotation(text) => Some(text.as_str()),
            _ => None,
        }
    }

    fn portion(&self) -> (r: Option<&Portion>)
        ensures
            r is Some == self@.portion() is Some,
            r is Some ==> r->0@ == self@.portion()->0,
    {
        match self {
            Token::Take(portion) | Token::Leave(portion) => Some(portion),
            _ => None,
        }
    }

    /// Compares two tokens.
    pub fn compare(&self, other: &Token) -> (r: Order)
        ensures
            r == order_token(self@, other@),
            r is Equal <==> self@ == other@,
    {
        proof {
            lemma_order_token(self@, other@, other@);
        }
        let rank = self.rank();
        let other_rank = other.rank();
        if rank < other_rank {
            return Order::Less;
        }
        if rank > other_rank {
            return Order::Greater;
        }
        match (self.text(), other.text()) {
            (Some(x), Some(y)) => compare_text(x, y),
            _ => match (self.portion(), other.portion()) {
                (Some(p), Some(q)) => p.compare(q),
                _ => Order::Equal,
            },
        }
    }
}

} // verus!
