//! Procedures: flows in which every branch point is in normal form, at
//! every depth.

use vstd::prelude::*;
use crate::parallel::flow::{
    item_views, split_views, Flow, FlowItem, FlowItemView, Split, SplitSet, SplitView,
};
use crate::parallel::normalize::{
    has_flow, lemma_normalized_flows, lemma_normalized_self, lemma_normalized_unique,
    normalized_from,
};

verus! {

/// The normal form of alternatives. There is one and no other: two normal
/// forms of the same alternatives are the same, and normalizing computes
/// one.
pub open spec fn normal_form(splits: Seq<SplitView>) -> Seq<SplitView> {
    choose|out: Seq<SplitView>| normalized_from(out, splits)
}

/// An item with every branch point in normal form.
pub open spec fn deep_item(item: FlowItemView) -> FlowItemView
    decreases item, 0nat,
{
    match item {
        FlowItemView::Token(token) => FlowItemView::Token(token),
        FlowItemView::Split(set) => FlowItemView::Split(deep_set(set)),
    }
}

/// A flow with every branch point in normal form.
pub open spec fn deep_flow(flow: Seq<FlowItemView>) -> Seq<FlowItemView>
    decreases flow, 0nat,
{
    Seq::new(
        flow.len(),
        |i: int|
            if 0 <= i < flow.len() {
                deep_item(flow[i])
            } else {
                arbitrary()
            },
    )
}

/// An alternative whose sub-flow has every branch point in normal form.
pub open spec fn deep_split(split: SplitView) -> SplitView
    decreases split, 0nat,
{
    SplitView { flow: deep_flow(split.flow), gate: split.gate }
}

/// Alternatives whose sub-flows have every branch point in normal form.
pub open spec fn deep_splits(set: Seq<SplitView>) -> Seq<SplitView>
    decreases set, 0nat,
{
    Seq::new(
        set.len(),
        |i: int|
            if 0 <= i < set.len() {
                deep_split(set[i])
            } else {
                arbitrary()
            },
    )
}

/// The normal form of alternatives whose sub-flows were first brought into
/// normal form themselves.
pub open spec fn deep_set(set: Seq<SplitView>) -> Seq<SplitView>
    decreases set, 1nat,
{
    normal_form(deep_splits(set))
}

/// Whether every branch point of an item is in normal form.
pub open spec fn normal_item(item: FlowItemView) -> bool
    decreases item, 0nat,
{
    match item {
        FlowItemView::Token(_) => true,
        FlowItemView::Split(set) => normal_set(set),
    }
}

/// Whether every branch point of a flow is in normal form, at every depth.
pub open spec fn normal_flow(flow: Seq<FlowItemView>) -> bool
    decreases flow, 0nat,
{
    forall|i: int| 0 <= i < flow.len() ==> normal_item(#[trigger] flow[i])
}

/// Whether alternatives are in normal form, and every branch point of their
/// sub-flows too.
pub open spec fn normal_set(set: Seq<SplitView>) -> bool
    decreases set, 0nat,
{
    &&& normalized_from(set, set)
    &&& forall|i: int| 0 <= i < set.len() ==> normal_flow((#[trigger] set[i]).flow)
}

/// An item whose branch points are in normal form is its own normal form.
pub proof fn lemma_normal_item_fixed(item: FlowItemView)
    requires
        normal_item(item),
    ensures
        deep_item(item) == item,
    decreases item,
{
    match item {
        FlowItemView::Token(_) => {},
        FlowItemView::Split(set) => {
            lemma_normal_set_fixed(set);
        },
    }
}

/// Bringing a flow into normal form changes nothing where every branch
/// point is in normal form already.
pub proof fn lemma_normal_flow_fixed(flow: Seq<FlowItemView>)
    requires
        normal_flow(flow),
    ensures
        deep_flow(flow) == flow,
    decreases flow,
{
    assert forall|i: int| 0 <= i < flow.len() implies deep_flow(flow)[i] == flow[i] by {
        lemma_normal_item_fixed(flow[i]);
    }
    assert(deep_flow(flow) =~= flow);
}

/// Alternatives in normal form, with sub-flows in normal form, are their own
/// normal form.
pub proof fn lemma_normal_set_fixed(set: Seq<SplitView>)
    requires
        normal_set(set),
    ensures
        deep_set(set) == set,
    decreases set,
{
    assert forall|i: int| 0 <= i < set.len() implies deep_splits(set)[i] == set[i] by {
        lemma_normal_flow_fixed(set[i].flow);
    }
    assert(deep_splits(set) =~= set);
    assert(normalized_from(normal_form(set), set));
    lemma_normalized_unique(set, normal_form(set), set);
}

impl FlowItem {
    /// The item with every branch point in normal form.
    pub fn normalize_tree(self) -> (r: FlowItem)
        ensures
            r@ == deep_item(self@),
            normal_item(r@),
        decreases self,
    {
        match self {
            FlowItem::Token(token) => FlowItem::Token(token),
            FlowItem::Split(set) => FlowItem::Split(set.normalize_tree()),
        }
    }
}

impl Flow {
    /// The flow with every branch point in normal form, the innermost first.
    pub fn normalize_tree(self) -> (r: Flow)
        ensures
            r@ == deep_flow(self@),
            normal_flow(r@),
        decreases self,
    {
        let ghost whole = self@;
        let ghost given = self.0@;
        let mut items: Vec<FlowItem> = Vec::new();
        proof {
            assert(whole =~= item_views(given));
        }
        for item in it: self.0
            invariant
                it.seq() == given,
                whole == item_views(given),
                given == self.0@,
                item_views(items@) == deep_flow(whole).take(it.index() as int),
                normal_flow(item_views(items@)),
        {
            let ghost before = item_views(items@);
            proof {
                assert(whole[it.index() as int] == item@);
            }
            let deep = item.normalize_tree();
            items.push(deep);
            proof {
                let all = deep_flow(whole);
                assert(item_views(items@) =~= before.push(all[it.index() as int]));
                assert forall|i: int| 0 <= i < item_views(items@).len() implies normal_item(
                    #[trigger] item_views(items@)[i],
                ) by {
                    if i < before.len() {
                        assert(item_views(items@)[i] == before[i]);
                    }
                }
                assert(all.take(it.index() + 1) =~= all.take(it.index() as int).push(
                    all[it.index() as int],
                ));
            }
        }
        proof {
            assert(deep_flow(whole).take(given.len() as int) =~= deep_flow(whole));
        }
        Flow::new(items)
    }
}

impl SplitSet {
    /// The normal form of the alternatives, their sub-flows brought into
    /// normal form first.
    pub fn normalize_tree(self) -> (r: SplitSet)
        ensures
            r@ == deep_set(self@),
            normalized_from(r@, deep_splits(self@)),
            normal_set(r@),
        decreases self,
    {
        let ghost whole = self@;
        let ghost given = self.0@;
        let ghost goal = deep_splits(whole);
        let mut splits: Vec<Split> = Vec::new();
        proof {
            assert(whole =~= split_views(given));
        }
        for split in it: self.0
            invariant
                it.seq() == given,
                whole == split_views(given),
                given == self.0@,
                goal.len() == whole.len(),
                forall|i: int| 0 <= i < whole.len() ==> goal[i] == deep_split(whole[i]),
                split_views(splits@) == goal.take(it.index() as int),
                forall|i: int|
                    0 <= i < splits@.len() ==> normal_flow((#[trigger] split_views(splits@)[i]).flow),
        {
            let ghost before = split_views(splits@);
            proof {
                assert(whole[it.index() as int] == split@);
            }
            let deep = Split::new(split.flow.normalize_tree(), split.gate);
            splits.push(deep);
            proof {
                assert(split_views(splits@) =~= before.push(goal[it.index() as int]));
                assert forall|i: int| 0 <= i < splits@.len() implies normal_flow(
                    (#[trigger] split_views(splits@)[i]).flow,
                ) by {
                    if i < before.len() {
                        assert(split_views(splits@)[i] == before[i]);
                    }
                }
                assert(goal.take(it.index() + 1) =~= goal.take(it.index() as int).push(
                    goal[it.index() as int],
                ));
            }
        }
        proof {
            assert(goal.take(given.len() as int) =~= goal);
        }
        let r = SplitSet::normalize_splits(splits);
        proof {
            assert(normalized_from(r@, goal));
            assert(normalized_from(normal_form(goal), goal));
            lemma_normalized_self(r@, goal);
            assert forall|i: int| 0 <= i < r@.len() implies normal_flow((#[trigger] r@[i]).flow) by {
                lemma_normalized_flows(r@, goal, i);
                if has_flow(goal, r@[i].flow) {
                    let j = choose|j: int| 0 <= j < goal.len() && goal[j].flow == r@[i].flow;
                    assert(normal_flow(split_views(splits@)[j].flow));
                }
            }
            lemma_normalized_unique(goal, r@, normal_form(goal));
        }
        r
    }
}

/// A flow in which every branch point is in normal form, at every depth.
#[derive(PartialEq, Eq, Hash, Debug, PartialOrd, Ord)]
pub struct Procedure(pub(crate) Flow);

impl View for Procedure {
    type V = Seq<FlowItemView>;

    open(crate) spec fn view(&self) -> Seq<FlowItemView> {
        self.0@
    }
}

impl Clone for Procedure {
    fn clone(&self) -> (r: Self)
        ensures
            r@ == self@,
    {
        proof {
            use_type_invariant(self);
        }
        Procedure(self.0.clone())
    }
}

impl Procedure {
    /// The procedure of the given items: its branch points are brought into
    /// normal form, the innermost first.
    pub fn new(pathway: Vec<FlowItem>) -> (r: Self)
        ensures
            r@ == deep_flow(item_views(pathway@)),
            normal_flow(r@),
    {
        Procedure(Flow::new(pathway).normalize_tree())
    }

    /// The normal form of the alternatives, their sub-flows brought into
    /// normal form first.
    pub fn normalize_splits(splits: &SplitSet) -> (r: SplitSet)
        ensures
            r@ == deep_set(splits@),
            normalized_from(r@, deep_splits(splits@)),
            normal_set(r@),
    {
        splits.clone().normalize_tree()
    }

    /// Every branch point of a procedure is in normal form.
    #[verifier::type_invariant]
    pub open(crate) spec fn well_formed(self) -> bool {
        normal_flow(self.0@)
    }

    /// The flow of the procedure.
    pub fn flow(&self) -> (r: &Flow)
        ensures
            r@ == self@,
            normal_flow(r@),
    {
        proof {
            use_type_invariant(self);
        }
        &self.0
    }
}

} // verus!
