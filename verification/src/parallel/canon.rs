//! The canonical order of flows and of their alternatives.
//!
//! Items, flows, alternatives and sets of alternatives are ordered as a
//! dictionary orders words: a token comes before a split, sequences are
//! compared place by place, and an alternative is compared by its sub-flow
//! first and its gate second.

use vstd::prelude::*;
use crate::order::Order;
use crate::parallel::flow::{
    split_views, Flow, FlowItem, FlowItemView, Split, SplitSet, SplitView,
};
use crate::parallel::gate::{lemma_order_gate, order_gate};
use crate::token::{lemma_order_token, order_token};

verus! {

/// The order of items: a token before a split, tokens by the order of
/// tokens, splits by the order of their alternatives.
pub open spec fn order_item(a: FlowItemView, b: FlowItemView) -> Order
    decreases a,
{
    match (a, b) {
        (FlowItemView::Token(x), FlowItemView::Token(y)) => order_token(x, y),
        (FlowItemView::Token(_), FlowItemView::Split(_)) => Order::Less,
        (FlowItemView::Split(_), FlowItemView::Token(_)) => Order::Greater,
        (FlowItemView::Split(x), FlowItemView::Split(y)) => order_splits(x, y),
    }
}

/// The order of flows: the first place where two flows differ decides, and
/// a flow comes before every flow that it begins.
pub open spec fn order_flow(a: Seq<FlowItemView>, b: Seq<FlowItemView>) -> Order
    decreases a,
{
    if a.len() == 0 {
        if b.len() == 0 {
            Order::Equal
        } else {
            Order::Less
        }
    } else if b.len() == 0 {
        Order::Greater
    } else {
        order_item(a[0], b[0]).chain(order_flow(a.drop_first(), b.drop_first()))
    }
}

/// The order of alternatives: by their sub-flows, and by their gates where
/// the sub-flows are the same.
pub open spec fn order_split(a: SplitView, b: SplitView) -> Order
    decreases a,
{
    order_flow(a.flow, b.flow).chain(order_gate(a.gate, b.gate))
}

/// The order of sequences of alternatives: the first place where two of
/// them differ decides, and a sequence comes before every sequence that it
/// begins.
pub open spec fn order_splits(a: Seq<SplitView>, b: Seq<SplitView>) -> Order
    decreases a,
{
    if a.len() == 0 {
        if b.len() == 0 {
            Order::Equal
        } else {
            Order::Less
        }
    } else if b.len() == 0 {
        Order::Greater
    } else {
        order_split(a[0], b[0]).chain(order_splits(a.drop_first(), b.drop_first()))
    }
}

/// Whether alternatives increase strictly in the canonical order. No
/// alternative then occurs twice.
pub open spec fn canonical(set: Seq<SplitView>) -> bool {
    forall|i: int, j: int| 0 <= i < j < set.len() ==> order_split(set[i], set[j]) is Less
}

/// Items tie exactly when they are the same.
pub proof fn lemma_order_item_equal(a: FlowItemView, b: FlowItemView)
    ensures
        order_item(a, b) is Equal <==> a == b,
    decreases a,
{
    match (a, b) {
        (FlowItemView::Token(x), FlowItemView::Token(y)) => {
            lemma_order_token(x, y, y);
        },
        (FlowItemView::Split(x), FlowItemView::Split(y)) => {
            lemma_order_splits_equal(x, y);
        },
        _ => {},
    }
}

/// Flows tie exactly when they are the same.
pub proof fn lemma_order_flow_equal(a: Seq<FlowItemView>, b: Seq<FlowItemView>)
    ensures
        order_flow(a, b) is Equal <==> a == b,
    decreases a,
{
    if a.len() > 0 && b.len() > 0 {
        lemma_order_item_equal(a[0], b[0]);
        lemma_order_flow_equal(a.drop_first(), b.drop_first());
        if order_flow(a, b) is Equal {
            assert(a =~= seq![a[0]] + a.drop_first());
            assert(b =~= seq![b[0]] + b.drop_first());
        }
    } else if a.len() == 0 && b.len() == 0 {
        assert(a =~= b);
    }
}

/// Alternatives tie exactly when they are the same.
pub proof fn lemma_order_split_equal(a: SplitView, b: SplitView)
    ensures
        order_split(a, b) is Equal <==> a == b,
    decreases a,
{
    lemma_order_flow_equal(a.flow, b.flow);
    lemma_order_gate(a.gate, b.gate, b.gate);
}

/// Sequences of alternatives tie exactly when they are the same.
pub proof fn lemma_order_splits_equal(a: Seq<SplitView>, b: Seq<SplitView>)
    ensures
        order_splits(a, b) is Equal <==> a == b,
    decreases a,
{
    if a.len() > 0 && b.len() > 0 {
        lemma_order_split_equal(a[0], b[0]);
        lemma_order_splits_equal(a.drop_first(), b.drop_first());
        if order_splits(a, b) is Equal {
            assert(a =~= seq![a[0]] + a.drop_first());
            assert(b =~= seq![b[0]] + b.drop_first());
        }
    } else if a.len() == 0 && b.len() == 0 {
        assert(a =~= b);
    }
}

/// Read from the other side, a comparison of items is flipped.
pub proof fn lemma_order_item_flip(a: FlowItemView, b: FlowItemView)
    ensures
        order_item(b, a) == order_item(a, b).flip(),
    decreases a,
{
    match (a, b) {
        (FlowItemView::Token(x), FlowItemView::Token(y)) => {
            lemma_order_token(x, y, y);
        },
        (FlowItemView::Split(x), FlowItemView::Split(y)) => {
            lemma_order_splits_flip(x, y);
        },
        _ => {},
    }
}

/// Read from the other side, a comparison of flows is flipped.
pub proof fn lemma_order_flow_flip(a: Seq<FlowItemView>, b: Seq<FlowItemView>)
    ensures
        order_flow(b, a) == order_flow(a, b).flip(),
    decreases a,
{
    if a.len() > 0 && b.len() > 0 {
        lemma_order_item_flip(a[0], b[0]);
        lemma_order_flow_flip(a.drop_first(), b.drop_first());
    }
}

/// Read from the other side, a comparison of alternatives is flipped.
pub proof fn lemma_order_split_flip(a: SplitView, b: SplitView)
    ensures
        order_split(b, a) == order_split(a, b).flip(),
    decreases a,
{
    lemma_order_flow_flip(a.flow, b.flow);
    lemma_order_gate(a.gate, b.gate, b.gate);
}

/// Read from the other side, a comparison of sequences of alternatives is flipped.
pub proof fn lemma_order_splits_flip(a: Seq<SplitView>, b: Seq<SplitView>)
    ensures
        order_splits(b, a) == order_splits(a, b).flip(),
    decreases a,
{
    if a.len() > 0 && b.len() > 0 {
        lemma_order_split_flip(a[0], b[0]);
        lemma_order_splits_flip(a.drop_first(), b.drop_first());
    }
}

/// An item before an item that is before a third is before the third.
pub proof fn lemma_order_item_transitive(a: FlowItemView, b: FlowItemView, c: FlowItemView)
    requires
        order_item(a, b) is Less,
        order_item(b, c) is Less,
    ensures
        order_item(a, c) is Less,
    decreases a,
{
    match (a, b, c) {
        (FlowItemView::Token(x), FlowItemView::Token(y), FlowItemView::Token(z)) => {
            lemma_order_token(x, y, z);
        },
        (FlowItemView::Split(x), FlowItemView::Split(y), FlowItemView::Split(z)) => {
            lemma_order_splits_transitive(x, y, z);
        },
        _ => {},
    }
}

/// A flow before a flow that is before a third is before the third.
pub proof fn lemma_order_flow_transitive(
    a: Seq<FlowItemView>,
    b: Seq<FlowItemView>,
    c: Seq<FlowItemView>,
)
    requires
        order_flow(a, b) is Less,
        order_flow(b, c) is Less,
    ensures
        order_flow(a, c) is Less,
    decreases a,
{
    if a.len() > 0 && b.len() > 0 && c.len() > 0 {
        lemma_order_item_equal(a[0], b[0]);
        lemma_order_item_equal(b[0], c[0]);
        lemma_order_item_equal(a[0], c[0]);
        if order_item(a[0], b[0]) is Less && order_item(b[0], c[0]) is Less {
            lemma_order_item_transitive(a[0], b[0], c[0]);
        }
        if order_item(a[0], b[0]) is Equal && order_item(b[0], c[0]) is Equal {
            lemma_order_flow_transitive(a.drop_first(), b.drop_first(), c.drop_first());
        }
    }
}

/// An alternative before one that is before a third is before the third.
pub proof fn lemma_order_split_transitive(a: SplitView, b: SplitView, c: SplitView)
    requires
        order_split(a, b) is Less,
        order_split(b, c) is Less,
    ensures
        order_split(a, c) is Less,
    decreases a,
{
    lemma_order_flow_equal(a.flow, b.flow);
    lemma_order_flow_equal(b.flow, c.flow);
    lemma_order_flow_equal(a.flow, c.flow);
    if order_flow(a.flow, b.flow) is Less && order_flow(b.flow, c.flow) is Less {
        lemma_order_flow_transitive(a.flow, b.flow, c.flow);
    }
    lemma_order_gate(a.gate, b.gate, c.gate);
}

/// A sequence of alternatives before one that is before a third is before the third.
pub proof fn lemma_order_splits_transitive(
    a: Seq<SplitView>,
    b: Seq<SplitView>,
    c: Seq<SplitView>,
)
    requires
        order_splits(a, b) is Less,
        order_splits(b, c) is Less,
    ensures
        order_splits(a, c) is Less,
    decreases a,
{
    if a.len() > 0 && b.len() > 0 && c.len() > 0 {
        lemma_order_split_equal(a[0], b[0]);
        lemma_order_split_equal(b[0], c[0]);
        lemma_order_split_equal(a[0], c[0]);
        if order_split(a[0], b[0]) is Less && order_split(b[0], c[0]) is Less {
            lemma_order_split_transitive(a[0], b[0], c[0]);
        }
        if order_split(a[0], b[0]) is Equal && order_split(b[0], c[0]) is Equal {
            lemma_order_splits_transitive(a.drop_first(), b.drop_first(), c.drop_first());
        }
    }
}

/// Flows that begin alike compare as what follows the common beginning.
pub proof fn lemma_order_flow_skip(a: Seq<FlowItemView>, b: Seq<FlowItemView>, n: int)
    requires
        0 <= n <= a.len(),
        n <= b.len(),
        a.take(n) == b.take(n),
    ensures
        order_flow(a, b) == order_flow(a.skip(n), b.skip(n)),
    decreases n,
{
    if n > 0 {
        assert(a[0] == a.take(n)[0]);
        assert(b[0] == b.take(n)[0]);
        lemma_order_item_equal(a[0], b[0]);
        let ta = a.drop_first();
        let tb = b.drop_first();
        assert(ta.take(n - 1) =~= a.take(n).drop_first());
        assert(tb.take(n - 1) =~= b.take(n).drop_first());
        lemma_order_flow_skip(ta, tb, n - 1);
        assert(ta.skip(n - 1) =~= a.skip(n));
        assert(tb.skip(n - 1) =~= b.skip(n));
    } else {
        assert(a.skip(0) =~= a);
        assert(b.skip(0) =~= b);
    }
}

/// Sequences of alternatives that begin alike compare as what follows the
/// common beginning.
pub proof fn lemma_order_splits_skip(a: Seq<SplitView>, b: Seq<SplitView>, n: int)
    requires
        0 <= n <= a.len(),
        n <= b.len(),
        a.take(n) == b.take(n),
    ensures
        order_splits(a, b) == order_splits(a.skip(n), b.skip(n)),
    decreases n,
{
    if n > 0 {
        assert(a[0] == a.take(n)[0]);
        assert(b[0] == b.take(n)[0]);
        lemma_order_split_equal(a[0], b[0]);
        let ta = a.drop_first();
        let tb = b.drop_first();
        assert(ta.take(n - 1) =~= a.take(n).drop_first());
        assert(tb.take(n - 1) =~= b.take(n).drop_first());
        lemma_order_splits_skip(ta, tb, n - 1);
        assert(ta.skip(n - 1) =~= a.skip(n));
        assert(tb.skip(n - 1) =~= b.skip(n));
    } else {
        assert(a.skip(0) =~= a);
        assert(b.skip(0) =~= b);
    }
}

impl FlowItem {
    /// Compares two items in the canonical order.
    pub fn compare(&self, other: &FlowItem) -> (r: Order)
        ensures
            r == order_item(self@, other@),
            r is Equal <==> self@ == other@,
        decreases self,
    {
        proof {
            lemma_order_item_equal(self@, other@);
        }
        match (self, other) {
            (FlowItem::Token(x), FlowItem::Token(y)) => x.compare(y),
            (FlowItem::Token(_), FlowItem::Split(_)) => Order::Less,
            (FlowItem::Split(_), FlowItem::Token(_)) => Order::Greater,
            (FlowItem::Split(x), FlowItem::Split(y)) => x.compare(y),
        }
    }
}

impl Flow {
    /// Compares two flows in the canonical order.
    pub fn compare(&self, other: &Flow) -> (r: Order)
        ensures
            r == order_flow(self@, other@),
            r is Equal <==> self@ == other@,
        decreases self,
    {
        proof {
            lemma_order_flow_equal(self@, other@);
        }
        let mut i: usize = 0;
        while i < self.0.len() && i < other.0.len()
            invariant
                i <= self.0.len(),
                i <= other.0.len(),
                self@.take(i as int) == other@.take(i as int),
            decreases self.0.len() - i,
        {
            let here = self.0[i].compare(&other.0[i]);
            proof {
                assert(self@[i as int] == self.0[i as int]@);
                assert(other@[i as int] == other.0[i as int]@);
                lemma_order_flow_skip(self@, other@, i as int);
                assert(self@.take(i + 1) =~= self@.take(i as int).push(self@[i as int]));
                assert(other@.take(i + 1) =~= other@.take(i as int).push(other@[i as int]));
            }
            match here {
                Order::Equal => {},
                _ => {
                    return here;
                },
            }
            i += 1;
        }
        proof {
            lemma_order_flow_skip(self@, other@, i as int);
        }
        if i < other.0.len() {
            Order::Less
        } else if i < self.0.len() {
            Order::Greater
        } else {
            Order::Equal
        }
    }
}

impl Split {
    /// Compares two alternatives in the canonical order: by their sub-flows,
    /// then by their gates.
    pub fn compare(&self, other: &Split) -> (r: Order)
        ensures
            r == order_split(self@, other@),
            r is Equal <==> self@ == other@,
        decreases self,
    {
        proof {
            lemma_order_split_equal(self@, other@);
        }
        match self.flow.compare(&other.flow) {
            Order::Equal => self.gate.compare(&other.gate),
            decided => decided,
        }
    }
}

impl SplitSet {
    /// Compares two sets of alternatives in the canonical order.
    pub fn compare(&self, other: &SplitSet) -> (r: Order)
        ensures
            r == order_splits(self@, other@),
            r is Equal <==> self@ == other@,
        decreases self,
    {
        proof {
            lemma_order_splits_equal(self@, other@);
        }
        let mut i: usize = 0;
        while i < self.0.len() && i < other.0.len()
            invariant
                i <= self.0.len(),
                i <= other.0.len(),
                self@.take(i as int) == other@.take(i as int),
            decreases self.0.len() - i,
        {
            let here = self.0[i].compare(&other.0[i]);
            proof {
                assert(self@[i as int] == self.0[i as int]@);
                assert(other@[i as int] == other.0[i as int]@);
                lemma_order_splits_skip(self@, other@, i as int);
                assert(self@.take(i + 1) =~= self@.take(i as int).push(self@[i as int]));
                assert(other@.take(i + 1) =~= other@.take(i as int).push(other@[i as int]));
            }
            match here {
                Order::Equal => {},
                _ => {
                    return here;
                },
            }
            i += 1;
        }
        proof {
            lemma_order_splits_skip(self@, other@, i as int);
        }
        if i < other.0.len() {
            Order::Less
        } else if i < self.0.len() {
            Order::Greater
        } else {
            Order::Equal
        }
    }
}

/// Without its last alternative, a sequence in canonical order is in
/// canonical order, and holds what it held but for that alternative.
pub proof fn lemma_canonical_drop_last(set: Seq<SplitView>)
    requires
        canonical(set),
        set.len() > 0,
    ensures
        canonical(set.drop_last()),
        set.drop_last().to_set() == set.to_set().remove(set.last()),
{
    let before = set.drop_last();
    let last = set.len() - 1;
    assert forall|i: int, j: int| 0 <= i < j < before.len() implies order_split(
        before[i],
        before[j],
    ) is Less by {
        assert(order_split(set[i], set[j]) is Less);
    }
    assert forall|x: SplitView| before.to_set().contains(x) <==> set.to_set().remove(
        set.last(),
    ).contains(x) by {
        if before.contains(x) {
            let i = choose|i: int| 0 <= i < before.len() && before[i] == x;
            assert(set[i] == x);
            assert(order_split(set[i], set[last]) is Less);
            lemma_order_split_equal(x, x);
        }
        if set.contains(x) && x != set.last() {
            let i = choose|i: int| 0 <= i < set.len() && set[i] == x;
            assert(before[i] == x);
        }
    }
    assert(before.to_set() =~= set.to_set().remove(set.last()));
}

/// Two sequences in canonical order that hold the same alternatives are the
/// same sequence.
pub proof fn lemma_canonical_unique(a: Seq<SplitView>, b: Seq<SplitView>)
    requires
        canonical(a),
        canonical(b),
        a.to_set() == b.to_set(),
    ensures
        a == b,
    decreases a.len(),
{
    if a.len() == 0 {
        if b.len() > 0 {
            assert(b.contains(b[0]));
            assert(a.to_set().contains(b[0]));
        }
        assert(a =~= b);
    } else {
        let la = a.len() - 1;
        assert(a.contains(a[la]));
        assert(b.to_set().contains(a[la]));
        let j = choose|j: int| 0 <= j < b.len() && b[j] == a[la];
        let lb = b.len() - 1;
        assert(b.contains(b[lb]));
        assert(a.to_set().contains(b[lb]));
        let i = choose|i: int| 0 <= i < a.len() && a[i] == b[lb];
        lemma_order_split_equal(a[la], a[la]);
        if j < lb {
            assert(order_split(b[j], b[lb]) is Less);
            if i < la {
                assert(order_split(a[i], a[la]) is Less);
                lemma_order_split_flip(a[i], a[la]);
            }
        }
        assert(a[la] == b[lb]);
        lemma_canonical_drop_last(a);
        lemma_canonical_drop_last(b);
        lemma_canonical_unique(a.drop_last(), b.drop_last());
        assert(a =~= a.drop_last().push(a[la]));
        assert(b =~= b.drop_last().push(b[lb]));
    }
}

/// An alternative put where the order stays strict is one more member.
proof fn lemma_canonical_insert(before: Seq<SplitView>, added: SplitView, p: int)
    requires
        canonical(before),
        0 <= p <= before.len(),
        forall|k: int| 0 <= k < p ==> order_split(#[trigger] before[k], added) is Less,
        p < before.len() ==> order_split(before[p], added) is Greater,
    ensures
        canonical(before.insert(p, added)),
        before.insert(p, added).to_set() == before.to_set().insert(added),
{
    let after = before.insert(p, added);
    assert forall|k: int| p <= k < before.len() implies order_split(added, #[trigger] before[k])
        is Less by {
        lemma_order_split_flip(before[p], added);
        if p < k {
            assert(order_split(before[p], before[k]) is Less);
            lemma_order_split_transitive(added, before[p], before[k]);
        }
    }
    assert forall|i: int, j: int| 0 <= i < j < after.len() implies order_split(after[i], after[j])
        is Less by {
        if i < p {
            assert(after[i] == before[i]);
        } else if i > p {
            assert(after[i] == before[i - 1]);
        }
        if j < p {
            assert(after[j] == before[j]);
        } else if j > p {
            assert(after[j] == before[j - 1]);
        }
        if i < p && j > p {
            assert(order_split(before[i], before[j - 1]) is Less);
        }
    }
    assert forall|x: SplitView| after.to_set().contains(x) <==> before.to_set().insert(added).contains(
        x,
    ) by {
        if after.contains(x) {
            let i = choose|i: int| 0 <= i < after.len() && after[i] == x;
            if i < p {
                assert(before[i] == x);
            } else if i > p {
                assert(before[i - 1] == x);
            }
        }
        if before.contains(x) {
            let i = choose|i: int| 0 <= i < before.len() && before[i] == x;
            if i < p {
                assert(after[i] == x);
            } else {
                assert(after[i + 1] == x);
            }
        }
        if x == added {
            assert(after[p] == x);
        }
    }
    assert(after.to_set() =~= before.to_set().insert(added));
}

/// Puts an alternative at its place among alternatives in canonical order,
/// unless it is there already.
fn insert_split(out: &mut Vec<Split>, split: Split)
    requires
        canonical(split_views(old(out)@)),
    ensures
        canonical(split_views(final(out)@)),
        split_views(final(out)@).to_set() == split_views(old(out)@).to_set().insert(split@),
{
    let ghost before = split_views(out@);
    let ghost added = split@;
    let mut p: usize = 0;
    while p < out.len()
        invariant
            p <= out.len(),
            out@ == old(out)@,
            before == split_views(out@),
            added == split@,
            canonical(before),
            forall|k: int| 0 <= k < p ==> order_split(#[trigger] before[k], added) is Less,
        ensures
            p < out.len() ==> order_split(before[p as int], added) is Greater,
        decreases out.len() - p,
    {
        assert(before[p as int] == out[p as int]@);
        match out[p].compare(&split) {
            Order::Less => {
                p += 1;
            },
            Order::Equal => {
                proof {
                    assert(before.contains(added));
                    assert(before.to_set() =~= before.to_set().insert(added));
                }
                return ;
            },
            Order::Greater => {
                break ;
            },
        }
    }
    proof {
        lemma_canonical_insert(before, added, p as int);
    }
    out.insert(p, split);
    proof {
        assert(split_views(out@) =~= before.insert(p as int, added));
    }
}

impl SplitSet {
    /// The set of the given alternatives: each of them once, in canonical
    /// order. The alternatives are taken as they are: nothing is dropped,
    /// added or united. There is one such sequence for the alternatives
    /// given.
    pub fn new(splits: Vec<Split>) -> (r: Self)
        ensures
            canonical(r@),
            r@.to_set() == split_views(splits@).to_set(),
    {
        let ghost given = splits@;
        let ghost input = split_views(splits@);
        let ghost mut seen: Seq<SplitView> = Seq::empty();
        let mut out: Vec<Split> = Vec::new();
        proof {
            assert(split_views(out@).to_set() =~= seen.to_set());
        }
        for split in it: splits
            invariant
                it.seq() == given,
                input == split_views(given),
                seen == input.take(it.index() as int),
                canonical(split_views(out@)),
                split_views(out@).to_set() == seen.to_set(),
        {
            proof {
                let more = input.take(it.index() + 1);
                assert(input[it.index() as int] == split@);
                assert(more =~= seen.push(split@));
                assert(more.to_set() =~= seen.to_set().insert(split@)) by {
                    assert forall|x: SplitView| more.to_set().contains(x) <==> seen.to_set().insert(
                        split@,
                    ).contains(x) by {
                        if more.contains(x) {
                            let i = choose|i: int| 0 <= i < more.len() && more[i] == x;
                            if i < seen.len() {
                                assert(seen[i] == x);
                            }
                        }
                        if seen.contains(x) {
                            let i = choose|i: int| 0 <= i < seen.len() && seen[i] == x;
                            assert(more[i] == x);
                        }
                        assert(more[seen.len() as int] == split@);
                    }
                }
                seen = more;
            }
            insert_split(&mut out, split);
        }
        proof {
            assert(seen =~= input);
            assert(SplitSet(out)@ =~= split_views(out@));
        }
        SplitSet(out)
    }
}

} // verus!
