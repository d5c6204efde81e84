//! Three-way comparison and the dictionary order on sequences of numbers.

use vstd::prelude::*;
use vstd::std_specs::iter::IteratorSpec;

verus! {

/// How one value stands to another in a total order.
#[derive(Debug, Clone, Copy, PartialEq, Eq, Hash, Structural)]
pub enum Order {
    Less,
    Equal,
    Greater,
}

impl Order {
    /// The same comparison read from the other side.
    pub open spec fn flip(self) -> Order {
        match self {
            Order::Less => Order::Greater,
            Order::Equal => Order::Equal,
            Order::Greater => Order::Less,
        }
    }

    /// This comparison, and `next` where this one is a tie.
    pub open spec fn chain(self, next: Order) -> Order {
        match self {
            Order::Equal => next,
            _ => self,
        }
    }
}

/// The order of the integers.
pub open spec fn order_int(a: int, b: int) -> Order {
    if a < b {
        Order::Less
    } else if a == b {
        Order::Equal
    } else {
        Order::Greater
    }
}

/// The dictionary order on sequences of integers: the first place where two
/// sequences differ decides, and a proper prefix comes first.
pub open spec fn order_ints(a: Seq<int>, b: Seq<int>) -> Order
    decreases a.len(),
{
    if a.len() == 0 {
        if b.len() == 0 {
            Order::Equal
        } else {
            Order::Less
        }
    } else if b.len() == 0 {
        Order::Greater
    } else {
        order_int(a[0], b[0]).chain(order_ints(a.drop_first(), b.drop_first()))
    }
}

/// Bytes as integers.
pub open spec fn byte_values(s: Seq<u8>) -> Seq<int> {
    s.map_values(|b: u8| b as int)
}

/// Characters as their code points.
pub open spec fn code_points(s: Seq<char>) -> Seq<int> {
    s.map_values(|c: char| c as int)
}

/// The dictionary order on byte sequences.
pub open spec fn order_bytes(a: Seq<u8>, b: Seq<u8>) -> Order {
    order_ints(byte_values(a), byte_values(b))
}

/// The dictionary order on texts, character by character, by code point.
pub open spec fn order_text(a: Seq<char>, b: Seq<char>) -> Order {
    order_ints(code_points(a), code_points(b))
}

/// Two sequences tie exactly when they are the same sequence.
pub proof fn lemma_order_ints_equal(a: Seq<int>, b: Seq<int>)
    ensures
        order_ints(a, b) is Equal <==> a == b,
    decreases a.len(),
{
    if a.len() > 0 && b.len() > 0 {
        lemma_order_ints_equal(a.drop_first(), b.drop_first());
        if order_ints(a, b) is Equal {
            assert(a =~= seq![a[0]] + a.drop_first());
            assert(b =~= seq![b[0]] + b.drop_first());
        }
    } else if a.len() == 0 && b.len() == 0 {
        assert(a =~= b);
    }
}

/// Read from the other side, a comparison is flipped.
pub proof fn lemma_order_ints_flip(a: Seq<int>, b: Seq<int>)
    ensures
        order_ints(b, a) == order_ints(a, b).flip(),
    decreases a.len(),
{
    if a.len() > 0 && b.len() > 0 {
        lemma_order_ints_flip(a.drop_first(), b.drop_first());
    }
}

/// What comes before something that comes before a third comes before the third.
pub proof fn lemma_order_ints_transitive(a: Seq<int>, b: Seq<int>, c: Seq<int>)
    requires
        order_ints(a, b) is Less,
        order_ints(b, c) is Less,
    ensures
        order_ints(a, c) is Less,
    decreases a.len(),
{
    if a.len() > 0 && b.len() > 0 && c.len() > 0 {
        if a[0] == b[0] && b[0] == c[0] {
            lemma_order_ints_transitive(a.drop_first(), b.drop_first(), c.drop_first());
        }
    }
}

/// Byte sequences tie exactly when they are the same.
pub proof fn lemma_order_bytes_equal(a: Seq<u8>, b: Seq<u8>)
    ensures
        order_bytes(a, b) is Equal <==> a == b,
{
    lemma_order_ints_equal(byte_values(a), byte_values(b));
    if byte_values(a) == byte_values(b) {
        assert(a.len() == byte_values(a).len());
        assert(b.len() == byte_values(b).len());
        assert forall|i: int| 0 <= i < a.len() implies a[i] == b[i] by {
            assert(byte_values(a)[i] == byte_values(b)[i]);
        }
        assert(a =~= b);
    }
}

/// Texts tie exactly when they are the same.
pub proof fn lemma_order_text_equal(a: Seq<char>, b: Seq<char>)
    ensures
        order_text(a, b) is Equal <==> a == b,
{
    lemma_order_ints_equal(code_points(a), code_points(b));
    if code_points(a) == code_points(b) {
        assert(a.len() == code_points(a).len());
        assert(b.len() == code_points(b).len());
        assert forall|i: int| 0 <= i < a.len() implies a[i] == b[i] by {
            assert(code_points(a)[i] == code_points(b)[i]);
        }
        assert(a =~= b);
    }
}

/// Dropping a common first element leaves the comparison to the rest.
proof fn lemma_order_ints_skip(a: Seq<int>, b: Seq<int>, n: int)
    requires
        0 <= n <= a.len(),
        n <= b.len(),
        a.take(n) == b.take(n),
    ensures
        order_ints(a, b) == order_ints(a.skip(n), b.skip(n)),
    decreases n,
{
    if n > 0 {
        assert(a[0] == a.take(n)[0]);
        assert(b[0] == b.take(n)[0]);
        let ta = a.drop_first();
        let tb = b.drop_first();
        assert(ta.take(n - 1) =~= a.take(n).drop_first());
        assert(tb.take(n - 1) =~= b.take(n).drop_first());
        lemma_order_ints_skip(ta, tb, n - 1);
        assert(ta.skip(n - 1) =~= a.skip(n));
        assert(tb.skip(n - 1) =~= b.skip(n));
    } else {
        assert(a.skip(0) =~= a);
        assert(b.skip(0) =~= b);
    }
}

/// Compares two vectors of bytes in the dictionary order.
pub fn compare_bytes(a: &Vec<u8>, b: &Vec<u8>) -> (r: Order)
    ensures
        r == order_bytes(a@, b@),
{
    let mut i: usize = 0;
    while i < a.len() && i < b.len()
        invariant
            i <= a.len(),
            i <= b.len(),
            a@.take(i as int) == b@.take(i as int),
        decreases a.len() - i,
    {
        let x = a[i];
        let y = b[i];
        if x != y {
            proof {
                let va = byte_values(a@);
                let vb = byte_values(b@);
                assert(va.take(i as int) =~= byte_values(a@.take(i as int)));
                assert(vb.take(i as int) =~= byte_values(b@.take(i as int)));
                lemma_order_ints_skip(va, vb, i as int);
            }
            return if x < y {
                Order::Less
            } else {
                Order::Greater
            };
        }
        proof {
            assert(a@.take(i + 1) =~= a@.take(i as int).push(a@[i as int]));
            assert(b@.take(i + 1) =~= b@.take(i as int).push(b@[i as int]));
        }
        i += 1;
    }
    proof {
        let va = byte_values(a@);
        let vb = byte_values(b@);
        assert(va.take(i as int) =~= byte_values(a@.take(i as int)));
        assert(vb.take(i as int) =~= byte_values(b@.take(i as int)));
        lemma_order_ints_skip(va, vb, i as int);
    }
    if i < b.len() {
        Order::Less
    } else if i < a.len() {
        Order::Greater
    } else {
        Order::Equal
    }
}

/// Compares two texts in the dictionary order of their characters.
pub fn compare_text(a: &str, b: &str) -> (r: Order)
    ensures
        r == order_text(a@, b@),
{
    broadcast use {vstd::string::axiom_spec_iter, vstd::string::next_postcondition};

    let mut rest_a = a.chars();
    let mut rest_b = b.chars();
    let ghost mut n: int = 0;
    proof {
        assert(a@.skip(0) =~= a@);
        assert(b@.skip(0) =~= b@);
    }
    loop
        invariant
            0 <= n <= a@.len(),
            n <= b@.len(),
            rest_a.remaining() == a@.skip(n),
            rest_b.remaining() == b@.skip(n),
            a@.take(n) == b@.take(n),
        decreases a@.len() - n,
    {
        let x = rest_a.next();
        let y = rest_b.next();
        proof {
            let ca = code_points(a@);
            let cb = code_points(b@);
            assert(ca.take(n) =~= code_points(a@.take(n)));
            assert(cb.take(n) =~= code_points(b@.take(n)));
            lemma_order_ints_skip(ca, cb, n);
            assert(ca.skip(n) =~= code_points(a@.skip(n)));
            assert(cb.skip(n) =~= code_points(b@.skip(n)));
        }
        match (x, y) {
            (None, None) => {
                return Order::Equal;
            },
            (None, Some(_)) => {
                return Order::Less;
            },
            (Some(_), None) => {
                return Order::Greater;
            },
            (Some(c), Some(d)) => {
                if c < d {
                    return Order::Less;
                }
                if c > d {
                    return Order::Greater;
                }
                proof {
                    assert(a@.take(n + 1) =~= a@.take(n).push(a@[n]));
                    assert(b@.take(n + 1) =~= b@.take(n).push(b@[n]));
                    assert(a@.skip(n).drop_first() =~= a@.skip(n + 1));
                    assert(b@.skip(n).drop_first() =~= b@.skip(n + 1));
                    n = n + 1;
                }
            },
        }
    }
}

} // verus!
