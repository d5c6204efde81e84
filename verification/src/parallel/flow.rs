//! Flows: sequences of tokens and splits, and the gated alternatives that
//! a split holds.

use vstd::prelude::*;
use vstd::string::StringExecFns;
use crate::parallel::canon::canonical;
use crate::parallel::gate::{Gate, GateView, Slot};
use crate::text::{listed, push_listed};
use crate::token::{Token, TokenView};

verus! {

/// Why a stack of slot choices does not fit a flow.
#[derive(Clone, Debug, PartialEq, Eq)]
pub enum SlotStackError {
    /// A split was reached and no slot was left to resolve it.
    Empty,
    /// The flow was walked and these slots were never used.
    Leftover { leftover: Vec<Slot> },
}

/// The mathematical value of a [`SlotStackError`].
pub enum SlotStackErrorView {
    Empty,
    Leftover { leftover: Seq<Slot> },
}

impl View for SlotStackError {
    type V = SlotStackErrorView;

    open spec fn view(&self) -> SlotStackErrorView {
        match self {
            SlotStackError::Empty => SlotStackErrorView::Empty,
            SlotStackError::Leftover { leftover } => SlotStackErrorView::Leftover { leftover: leftover@ },
        }
    }
}

impl SlotStackErrorView {
    /// What the error says.
    pub open spec fn text(self) -> Seq<char> {
        match self {
            SlotStackErrorView::Empty => "stack is empty"@,
            SlotStackErrorView::Leftover { leftover } => "leftover items in stack; found: ["@ + listed(
                leftover,
            ) + seq![']'],
        }
    }
}

impl SlotStackError {
    /// What the error says, with the slots that were left over.
    pub fn to_string(&self) -> (r: String)
        ensures
            r@ == self@.text(),
    {
        match self {
            SlotStackError::Empty => String::from_str("stack is empty"),
            SlotStackError::Leftover { leftover } => {
                let mut r = String::from_str("leftover items in stack; found: [");
                push_listed(&mut r, leftover);
                proof {
                    reveal_strlit("]");
                }
                r.append("]");
                proof {
                    assert("]"@ =~= seq![']']);
                    assert(r@ =~= self@.text());
                }
                r
            },
        }
    }
}

/// One item of a flow: a token, or a set of gated alternatives.
#[derive(PartialEq, Eq, Hash, Debug, PartialOrd, Ord)]
pub enum FlowItem {
    Token(Token),
    Split(SplitSet),
}

/// An ordered sequence of tokens and splits: all variants of one procedure.
#[derive(PartialEq, Eq, Hash, Debug, PartialOrd, Ord)]
pub struct Flow(pub(crate) Vec<FlowItem>);

/// One gated alternative: a sub-flow that is active for the slots its gate
/// allows.
#[derive(PartialEq, Eq, Hash, Debug, PartialOrd, Ord)]
pub struct Split {
    pub(crate) flow: Flow,
    pub(crate) gate: Gate,
}

/// All alternatives at one branch point: each of them once, in canonical
/// order.
#[derive(PartialEq, Eq, Hash, Debug, PartialOrd, Ord)]
pub struct SplitSet(pub(crate) Vec<Split>);

/// Another name for [`FlowItem`].
pub type CowFlowItem = FlowItem;

/// Another name for [`Flow`].
pub type CowFlow = Flow;

/// Another name for [`Split`].
pub type CowSplit = Split;

/// Another name for [`SplitSet`].
pub type CowSplitSet = SplitSet;

/// The mathematical value of a [`FlowItem`].
pub enum FlowItemView {
    Token(TokenView),
    Split(Seq<SplitView>),
}

/// The mathematical value of a [`Split`].
pub struct SplitView {
    pub flow: Seq<FlowItemView>,
    pub gate: GateView,
}

/// The values of a vector of items.
pub open spec fn item_views(items: Seq<FlowItem>) -> Seq<FlowItemView> {
    items.map_values(|item: FlowItem| item@)
}

/// The values of a vector of alternatives.
pub open spec fn split_views(splits: Seq<Split>) -> Seq<SplitView> {
    splits.map_values(|split: Split| split@)
}

impl View for FlowItem {
    type V = FlowItemView;

    open(crate) spec fn view(&self) -> FlowItemView {
        self.model()
    }
}

impl View for Flow {
    type V = Seq<FlowItemView>;

    open(crate) spec fn view(&self) -> Seq<FlowItemView> {
        self.model()
    }
}

impl View for Split {
    type V = SplitView;

    open(crate) spec fn view(&self) -> SplitView {
        self.model()
    }
}

impl View for SplitSet {
    type V = Seq<SplitView>;

    open(crate) spec fn view(&self) -> Seq<SplitView> {
        self.model()
    }
}

impl FlowItem {
    /// The value of the item: the value of its token, or the values of its
    /// alternatives in their order.
    pub open(crate) spec fn model(&self) -> FlowItemView
        decreases self,
    {
        match self {
            FlowItem::Token(token) => FlowItemView::Token(token@),
            FlowItem::Split(set) => FlowItemView::Split(set.model()),
        }
    }

    fn copy(&self) -> (r: FlowItem)
        ensures
            r@ == self@,
        decreases self,
    {
        match self {
            FlowItem::Token(token) => FlowItem::Token(token.clone()),
            FlowItem::Split(set) => FlowItem::Split(set.copy()),
        }
    }
}

impl Flow {
    /// The value of the flow: the values of its items in order.
    pub open(crate) spec fn model(&self) -> Seq<FlowItemView>
        decreases self,
    {
        Seq::new(
            self.0.len() as nat,
            |i: int|
                if 0 <= i < self.0.len() {
                    self.0[i].model()
                } else {
                    arbitrary()
                },
        )
    }

    /// Builds a flow from its items, in order.
    pub fn new(flow: Vec<FlowItem>) -> (r: Self)
        ensures
            r@ == item_views(flow@),
    {
        let r = Flow(flow);
        assert(r@ =~= item_views(flow@));
        r
    }

    /// The items of the flow, in order.
    pub fn items(&self) -> (r: &Vec<FlowItem>)
        ensures
            item_views(r@) == self@,
    {
        assert(item_views(self.0@) =~= self@);
        &self.0
    }

    /// Gives up the flow for its items, in order.
    pub fn into_items(self) -> (r: Vec<FlowItem>)
        ensures
            item_views(r@) == self@,
    {
        assert(item_views(self.0@) =~= self@);
        self.0
    }

    fn copy(&self) -> (r: Flow)
        ensures
            r@ == self@,
        decreases self,
    {
        let mut items: Vec<FlowItem> = Vec::new();
        let mut i: usize = 0;
        while i < self.0.len()
            invariant
                i <= self.0.len(),
                item_views(items@) == self@.take(i as int),
            decreases self.0.len() - i,
        {
            let item = self.0[i].copy();
            items.push(item);
            proof {
                assert(self@[i as int] == self.0[i as int]@);
                assert(item_views(items@) =~= self@.take(i as int).push(self@[i as int]));
                assert(self@.take(i + 1) =~= self@.take(i as int).push(self@[i as int]));
            }
            i += 1;
        }
        proof {
            assert(self@.take(i as int) =~= self@);
            assert(Flow(items)@ =~= item_views(items@));
        }
        Flow(items)
    }
}

impl Split {
    /// The value of the alternative: the value of its sub-flow and that of
    /// its gate.
    pub open(crate) spec fn model(&self) -> SplitView
        decreases self,
    {
        SplitView { flow: self.flow.model(), gate: self.gate@ }
    }

    /// Pairs a sub-flow with its gate: the sub-flow is active for the slots
    /// that its gate allows.
    pub fn new(flow: Flow, gate: Gate) -> (r: Self)
        ensures
            r@ == (SplitView { flow: flow@, gate: gate@ }),
    {
        Split { flow, gate }
    }

    /// The sub-flow of the alternative.
    pub fn flow(&self) -> (r: &Flow)
        ensures
            r@ == self@.flow,
    {
        &self.flow
    }

    /// Its gate: the sub-flow is active for the slots this one allows.
    pub fn gate(&self) -> (r: &Gate)
        ensures
            r@ == self@.gate,
    {
        &self.gate
    }

    fn copy(&self) -> (r: Split)
        ensures
            r@ == self@,
        decreases self,
    {
        Split { flow: self.flow.copy(), gate: self.gate.clone() }
    }
}

impl SplitSet {
    /// The value of the set: the values of its alternatives in their order.
    pub open(crate) spec fn model(&self) -> Seq<SplitView>
        decreases self,
    {
        Seq::new(
            self.0.len() as nat,
            |i: int|
                if 0 <= i < self.0.len() {
                    self.0[i].model()
                } else {
                    arbitrary()
                },
        )
    }

    /// Every set of alternatives holds its alternatives in canonical order,
    /// each once.
    #[verifier::type_invariant]
    pub open(crate) spec fn well_formed(self) -> bool {
        canonical(self@)
    }

    /// The alternatives of the set, in canonical order.
    pub fn splits(&self) -> (r: &Vec<Split>)
        ensures
            split_views(r@) == self@,
            canonical(self@),
    {
        proof {
            use_type_invariant(self);
            assert(split_views(self.0@) =~= self@);
        }
        &self.0
    }

    /// Gives up the set for its alternatives, in canonical order.
    pub fn into_splits(self) -> (r: Vec<Split>)
        ensures
            split_views(r@) == self@,
            canonical(self@),
    {
        proof {
            use_type_invariant(&self);
            assert(split_views(self.0@) =~= self@);
        }
        self.0
    }

    fn copy(&self) -> (r: SplitSet)
        ensures
            r@ == self@,
        decreases self,
    {
        let mut splits: Vec<Split> = Vec::new();
        let mut i: usize = 0;
        while i < self.0.len()
            invariant
                i <= self.0.len(),
                split_views(splits@) == self@.take(i as int),
            decreases self.0.len() - i,
        {
            let split = self.0[i].copy();
            splits.push(split);
            proof {
                assert(self@[i as int] == self.0[i as int]@);
                assert(split_views(splits@) =~= self@.take(i as int).push(self@[i as int]));
                assert(self@.take(i + 1) =~= self@.take(i as int).push(self@[i as int]));
            }
            i += 1;
        }
        proof {
            use_type_invariant(self);
            assert(self@.take(i as int) =~= self@);
            assert(SplitSet(splits)@ =~= split_views(splits@));
        }
        SplitSet(splits)
    }
}

impl Clone for FlowItem {
    fn clone(&self) -> (r: Self)
        ensures
            r@ == self@,
    {
        self.copy()
    }
}

impl Clone for Flow {
    fn clone(&self) -> (r: Self)
        ensures
            r@ == self@,
    {
        self.copy()
    }
}

impl Clone for Split {
    fn clone(&self) -> (r: Self)
        ensures
            r@ == self@,
    {
        self.copy()
    }
}

impl Clone for SplitSet {
    fn clone(&self) -> (r: Self)
        ensures
            r@ == self@,
    {
        self.copy()
    }
}

} // verus!
