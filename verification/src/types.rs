use vstd::prelude::*;
use crate::order::{
    compare_text, lemma_order_ints_flip, lemma_order_ints_transitive, lemma_order_text_equal,
    code_points, order_int, order_text, Order,
};

verus! {

/// A measured amount. It carries no data of its own yet.
#[derive(Clone, PartialEq, Eq, Debug, Hash, PartialOrd, Ord)]
pub struct Quantity;

/// A part of something: named loosely, measured, or given as a fraction.
#[derive(PartialEq, Eq, Debug, Hash, PartialOrd, Ord)]
pub enum Portion {
    Pseudo(String),
    Quantity(Quantity),
    Fraction(u8, u8),
}

/// The mathematical value of a [`Portion`].
pub enum PortionView {
    Pseudo(Seq<char>),
    Quantity,
    Fraction(u8, u8),
}

impl View for Portion {
    type V = PortionView;

    open spec fn view(&self) -> PortionView {
        match *self {
            Portion::Pseudo(text) => PortionView::Pseudo(text@),
            Portion::Quantity(_) => PortionView::Quantity,
            Portion::Fraction(n, d) => PortionView::Fraction(n, d),
        }
    }
}

impl Clone for Portion {
    fn clone(&self) -> (r: Self)
        ensures
            r@ == self@,
    {
        match self {
            Portion::Pseudo(text) => Portion::Pseudo(text.clone()),
            Portion::Quantity(_) => Portion::Quantity(Quantity),
            Portion::Fraction(n, d) => Portion::Fraction(*n, *d),
        }
    }
}

/// The order of portions: by variant in the order of declaration, then by
/// what the variant holds, the text in dictionary order and the fraction by
/// its first number, then its second.
pub open spec fn order_portion(a: PortionView, b: PortionView) -> Order {
    match (a, b) {
        (PortionView::Pseudo(x), PortionView::Pseudo(y)) => order_text(x, y),
        (PortionView::Pseudo(_), _) => Order::Less,
        (PortionView::Quantity, PortionView::Pseudo(_)) => Order::Greater,
        (PortionView::Quantity, PortionView::Quantity) => Order::Equal,
        (PortionView::Quantity, PortionView::Fraction(_, _)) => Order::Less,
        (PortionView::Fraction(n, d), PortionView::Fraction(m, e)) => order_int(n as int, m as int).chain(
            order_int(d as int, e as int),
        ),
        (PortionView::Fraction(_, _), _) => Order::Greater,
    }
}

/// Portions tie exactly when they are the same, a comparison read from the
/// other side is flipped, and what comes before is transitive.
pub proof fn lemma_order_portion(a: PortionView, b: PortionView, c: PortionView)
    ensures
        order_portion(a, b) is Equal <==> a == b,
        order_portion(b, a) == order_portion(a, b).flip(),
        order_portion(a, b) is Less && order_portion(b, c) is Less ==> order_portion(a, c) is Less,
{
    match (a, b) {
        (PortionView::Pseudo(x), PortionView::Pseudo(y)) => {
            lemma_order_text_equal(x, y);
            lemma_order_ints_flip(code_points(x), code_points(y));
            if let PortionView::Pseudo(z) = c {
                if order_text(x, y) is Less && order_text(y, z) is Less {
                    lemma_order_ints_transitive(code_points(x), code_points(y), code_points(z));
                }
            }
        },
        _ => {},
    }
}

impl Portion {
    /// Compares two portions.
    pub fn compare(&self, other: &Portion) -> (r: Order)
        ensures
            r == order_portion(self@, other@),
    {
        match (self, other) {
            (Portion::Pseudo(x), Portion::Pseudo(y)) => compare_text(x.as_str(), y.as_str()),
            (Portion::Pseudo(_), _) => Order::Less,
            (Portion::Quantity(_), Portion::Pseudo(_)) => Order::Greater,
            (Portion::Quantity(_), Portion::Quantity(_)) => Order::Equal,
            (Portion::Quantity(_), Portion::Fraction(_, _)) => Order::Less,
            (Portion::Fraction(n, d), Portion::Fraction(m, e)) => {
                if *n < *m {
                    Order::Less
                } else if *n > *m {
                    Order::Greater
                } else if *d < *e {
                    Order::Less
                } else if *d > *e {
                    Order::Greater
                } else {
                    Order::Equal
                }
            },
            (Portion::Fraction(_, _), _) => Order::Greater,
        }
    }
}

} // verus!
