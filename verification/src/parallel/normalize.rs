//! Normalization of the alternatives at one branch point.
//!
//! Alternatives whose gate allows nothing are dropped. Where the gates of
//! the others leave a slot unclaimed, one more alternative with an empty
//! sub-flow takes what is left. Alternatives with the same sub-flow are then
//! made one, under the union of their gates.

use vstd::prelude::*;
use crate::order::Order;
use crate::parallel::canon::{
    canonical, lemma_order_flow_equal, lemma_order_flow_flip, lemma_order_flow_transitive,
    order_flow, order_split,
};
use crate::parallel::flow::{split_views, Flow, FlowItemView, Split, SplitSet, SplitView};
use crate::parallel::gate::{Gate, GateView, Slot};

verus! {

/// The alternatives whose gate is not block-all, in their order.
pub open spec fn alive(splits: Seq<SplitView>) -> Seq<SplitView>
    decreases splits.len(),
{
    if splits.len() == 0 {
        Seq::empty()
    } else if splits.last().gate.is_block_all() {
        alive(splits.drop_last())
    } else {
        alive(splits.drop_last()).push(splits.last())
    }
}

/// The union of the gates of all the alternatives: block-all for none.
pub open spec fn coverage(splits: Seq<SplitView>) -> GateView
    decreases splits.len(),
{
    if splits.len() == 0 {
        GateView::block_all()
    } else {
        coverage(splits.drop_last()).union(splits.last().gate)
    }
}

/// The alternative that takes the slots which no given alternative claims:
/// an empty sub-flow under the inverse of the coverage. There is none where
/// the coverage is allow-all.
pub open spec fn escape_hatch(splits: Seq<SplitView>) -> Option<SplitView> {
    if coverage(splits).is_allow_all() {
        None
    } else {
        Some(SplitView { flow: Seq::empty(), gate: coverage(splits).invert() })
    }
}

/// The alternatives with their escape hatch, where there is one.
pub open spec fn completed(splits: Seq<SplitView>) -> Seq<SplitView> {
    match escape_hatch(splits) {
        Some(hatch) => splits.push(hatch),
        None => splits,
    }
}

/// Whether some alternative has the given sub-flow.
pub open spec fn has_flow(splits: Seq<SplitView>, flow: Seq<FlowItemView>) -> bool {
    exists|i: int| 0 <= i < splits.len() && splits[i].flow == flow
}

/// The union of the gates of the alternatives that have the given sub-flow.
pub open spec fn group_gate(splits: Seq<SplitView>, flow: Seq<FlowItemView>) -> GateView
    decreases splits.len(),
{
    if splits.len() == 0 {
        GateView::block_all()
    } else if splits.last().flow == flow {
        group_gate(splits.drop_last(), flow).union(splits.last().gate)
    } else {
        group_gate(splits.drop_last(), flow)
    }
}

/// The alternatives grouped by sub-flow: each sub-flow that occurs, with the
/// union of the gates of its group.
pub open spec fn grouped(splits: Seq<SplitView>) -> Map<Seq<FlowItemView>, GateView> {
    Map::new(
        |flow: Seq<FlowItemView>| has_flow(splits, flow),
        |flow: Seq<FlowItemView>| group_gate(splits, flow),
    )
}

/// Whether the sub-flows of the alternatives are strictly increasing in the
/// canonical order. No sub-flow then occurs twice.
pub open spec fn increasing_flows(splits: Seq<SplitView>) -> bool {
    forall|i: int, j: int|
        0 <= i < j < splits.len() ==> order_flow(#[trigger] splits[i].flow, #[trigger] splits[j].flow)
            is Less
}

/// The place of an alternative with the given sub-flow.
pub open spec fn place_of(splits: Seq<SplitView>, flow: Seq<FlowItemView>) -> int {
    choose|i: int| 0 <= i < splits.len() && splits[i].flow == flow
}

/// Alternatives read as a map from sub-flow to gate.
pub open spec fn as_map(splits: Seq<SplitView>) -> Map<Seq<FlowItemView>, GateView> {
    Map::new(
        |flow: Seq<FlowItemView>| has_flow(splits, flow),
        |flow: Seq<FlowItemView>| splits[place_of(splits, flow)].gate,
    )
}

/// What it is for `out` to be the normal form of `splits`: its sub-flows
/// increase strictly, and it holds, for each sub-flow among the alternatives
/// that are alive and their escape hatch, the union of the gates of that
/// sub-flow's group, and nothing else.
pub open spec fn normalized_from(out: Seq<SplitView>, splits: Seq<SplitView>) -> bool {
    &&& increasing_flows(out)
    &&& as_map(out) == grouped(completed(alive(splits)))
}

/// With increasing sub-flows, an alternative is found at its own place.
pub proof fn lemma_place_of(splits: Seq<SplitView>, i: int)
    requires
        increasing_flows(splits),
        0 <= i < splits.len(),
    ensures
        has_flow(splits, splits[i].flow),
        place_of(splits, splits[i].flow) == i,
        as_map(splits).dom().contains(splits[i].flow),
        as_map(splits)[splits[i].flow] == splits[i].gate,
{
    let flow = splits[i].flow;
    let p = place_of(splits, flow);
    lemma_order_flow_equal(flow, flow);
    if p < i {
        assert(order_flow(splits[p].flow, splits[i].flow) is Less);
    } else if i < p {
        assert(order_flow(splits[i].flow, splits[p].flow) is Less);
    }
}

/// Increasing sub-flows make the alternatives increase in the canonical order.
pub proof fn lemma_increasing_is_canonical(splits: Seq<SplitView>)
    requires
        increasing_flows(splits),
    ensures
        canonical(splits),
{
    assert forall|i: int, j: int| 0 <= i < j < splits.len() implies order_split(
        splits[i],
        splits[j],
    ) is Less by {
        assert(order_flow(splits[i].flow, splits[j].flow) is Less);
    }
}

/// A map from sub-flow to gate with one more alternative joined in: under
/// its sub-flow stands its gate, united with a gate that stood there.
pub open spec fn joined(map: Map<Seq<FlowItemView>, GateView>, split: SplitView) -> Map<
    Seq<FlowItemView>,
    GateView,
> {
    map.insert(
        split.flow,
        if map.dom().contains(split.flow) {
            map[split.flow].union(split.gate)
        } else {
            split.gate
        },
    )
}

/// Joins one alternative into alternatives with increasing sub-flows: its
/// gate goes to the alternative with the same sub-flow, or it takes its own
/// place among the others.
fn merge_in(out: &mut Vec<Split>, split: Split)
    requires
        increasing_flows(split_views(old(out)@)),
    ensures
        increasing_flows(split_views(final(out)@)),
        as_map(split_views(final(out)@)) == joined(as_map(split_views(old(out)@)), split@),
{
    let ghost before = split_views(out@);
    let ghost added = split@;
    let mut p: usize = 0;
    while p < out.len()
        invariant
            p <= out.len(),
            out@ == old(out)@,
            before == split_views(out@),
            added == split@,
            increasing_flows(before),
            forall|k: int| 0 <= k < p ==> order_flow(#[trigger] before[k].flow, added.flow) is Less,
        ensures
            p < out.len() ==> order_flow(before[p as int].flow, added.flow) is Greater,
        decreases out.len() - p,
    {
        assert(before[p as int] == out[p as int]@);
        match out[p].flow.compare(&split.flow) {
            Order::Less => {
                p += 1;
            },
            Order::Equal => {
                let united = out[p].gate.union(&split.gate);
                out[p].gate = united;
                proof {
                    let after = split_views(out@);
                    assert(after =~= before.update(
                        p as int,
                        SplitView { flow: added.flow, gate: before[p as int].gate.union(added.gate) },
                    ));
                    lemma_merge_update(before, added, p as int);
                }
                return ;
            },
            Order::Greater => {
                break ;
            },
        }
    }
    proof {
        lemma_merge_insert(before, added, p as int);
    }
    out.insert(p, split);
    proof {
        assert(split_views(out@) =~= before.insert(p as int, added));
    }
}

/// Uniting a gate into the alternative with the same sub-flow joins it in.
proof fn lemma_merge_update(before: Seq<SplitView>, added: SplitView, p: int)
    requires
        increasing_flows(before),
        0 <= p < before.len(),
        before[p].flow == added.flow,
    ensures
        ({
            let after = before.update(
                p,
                SplitView { flow: added.flow, gate: before[p].gate.union(added.gate) },
            );
            increasing_flows(after) && as_map(after) == joined(as_map(before), added)
        }),
{
    let after = before.update(p, SplitView { flow: added.flow, gate: before[p].gate.union(added.gate) });
    assert forall|i: int, j: int| 0 <= i < j < after.len() implies order_flow(
        #[trigger] after[i].flow,
        #[trigger] after[j].flow,
    ) is Less by {
        assert(after[i].flow == before[i].flow);
        assert(after[j].flow == before[j].flow);
    }
    let goal = joined(as_map(before), added);
    assert forall|flow: Seq<FlowItemView>| as_map(after).dom().contains(flow) <==> goal.dom().contains(
        flow,
    ) by {
        if has_flow(after, flow) {
            let i = choose|i: int| 0 <= i < after.len() && after[i].flow == flow;
            assert(before[i].flow == flow);
        }
        if has_flow(before, flow) {
            let i = choose|i: int| 0 <= i < before.len() && before[i].flow == flow;
            assert(after[i].flow == flow);
        }
        if flow == added.flow {
            assert(after[p].flow == flow);
        }
    }
    assert forall|flow: Seq<FlowItemView>| as_map(after).dom().contains(flow) implies as_map(
        after,
    )[flow] == goal[flow] by {
        let i = choose|i: int| 0 <= i < after.len() && after[i].flow == flow;
        lemma_place_of(after, i);
        assert(before[i].flow == flow);
        lemma_place_of(before, i);
        lemma_place_of(before, p);
    }
    assert(as_map(after) =~= goal);
}

/// An alternative with a new sub-flow, put where the sub-flows stay
/// increasing, is joined in.
proof fn lemma_merge_insert(before: Seq<SplitView>, added: SplitView, p: int)
    requires
        increasing_flows(before),
        0 <= p <= before.len(),
        forall|k: int| 0 <= k < p ==> order_flow(#[trigger] before[k].flow, added.flow) is Less,
        p < before.len() ==> order_flow(before[p].flow, added.flow) is Greater,
    ensures
        increasing_flows(before.insert(p, added)),
        as_map(before.insert(p, added)) == joined(as_map(before), added),
{
    let after = before.insert(p, added);
    assert forall|k: int| p <= k < before.len() implies order_flow(
        added.flow,
        #[trigger] before[k].flow,
    ) is Less by {
        lemma_order_flow_flip(before[p].flow, added.flow);
        if p < k {
            assert(order_flow(before[p].flow, before[k].flow) is Less);
            lemma_order_flow_transitive(added.flow, before[p].flow, before[k].flow);
        }
    }
    assert forall|i: int, j: int| 0 <= i < j < after.len() implies order_flow(
        #[trigger] after[i].flow,
        #[trigger] after[j].flow,
    ) is Less by {
        if i < p {
            assert(after[i] == before[i]);
        } else if i > p {
            assert(after[i] == before[i - 1]);
        }
        if j < p {
            assert(after[j] == before[j]);
        } else if j > p {
            assert(after[j] == before[j - 1]);
        }
    }
    assert(!has_flow(before, added.flow)) by {
        if has_flow(before, added.flow) {
            let i = choose|i: int| 0 <= i < before.len() && before[i].flow == added.flow;
            lemma_order_flow_equal(added.flow, added.flow);
            if i < p {
                assert(order_flow(before[i].flow, added.flow) is Less);
            } else {
                assert(order_flow(added.flow, before[i].flow) is Less);
            }
        }
    }
    let goal = joined(as_map(before), added);
    assert forall|flow: Seq<FlowItemView>| as_map(after).dom().contains(flow) <==> goal.dom().contains(
        flow,
    ) by {
        if has_flow(after, flow) {
            let i = choose|i: int| 0 <= i < after.len() && after[i].flow == flow;
            if i < p {
                assert(before[i].flow == flow);
            } else if i > p {
                assert(before[i - 1].flow == flow);
            }
        }
        if has_flow(before, flow) {
            let i = choose|i: int| 0 <= i < before.len() && before[i].flow == flow;
            if i < p {
                assert(after[i].flow == flow);
            } else {
                assert(after[i + 1].flow == flow);
            }
        }
        if flow == added.flow {
            assert(after[p].flow == flow);
        }
    }
    assert forall|flow: Seq<FlowItemView>| as_map(after).dom().contains(flow) implies as_map(
        after,
    )[flow] == goal[flow] by {
        let i = choose|i: int| 0 <= i < after.len() && after[i].flow == flow;
        lemma_place_of(after, i);
        if i < p {
            lemma_place_of(before, i);
        } else if i > p {
            lemma_place_of(before, i - 1);
        }
    }
    assert(as_map(after) =~= goal);
}

/// Without an alternative of a sub-flow, the union of its group is block-all.
pub proof fn lemma_group_gate_absent(splits: Seq<SplitView>, flow: Seq<FlowItemView>)
    requires
        !has_flow(splits, flow),
    ensures
        group_gate(splits, flow) == GateView::block_all(),
    decreases splits.len(),
{
    if splits.len() > 0 {
        assert(splits[splits.len() - 1].flow != flow);
        if has_flow(splits.drop_last(), flow) {
            let i = choose|i: int| 0 <= i < splits.drop_last().len() && splits.drop_last()[i].flow == flow;
            assert(splits[i].flow == flow);
        }
        lemma_group_gate_absent(splits.drop_last(), flow);
    }
}

/// Block-all changes no gate that it is united with.
pub proof fn lemma_union_block_all(gate: GateView)
    ensures
        GateView::block_all().union(gate) == gate,
        gate.union(GateView::block_all()) == gate,
{
    assert(GateView::block_all().union(gate).slots =~= gate.slots);
    assert(gate.union(GateView::block_all()).slots =~= gate.slots);
}

/// Grouping one more alternative joins it into the groups.
pub proof fn lemma_grouped_push(splits: Seq<SplitView>, added: SplitView)
    ensures
        grouped(splits.push(added)) == joined(grouped(splits), added),
{
    let more = splits.push(added);
    let goal = joined(grouped(splits), added);
    assert(more.drop_last() =~= splits);
    assert(more.last() == added);
    assert forall|flow: Seq<FlowItemView>| grouped(more).dom().contains(flow) <==> goal.dom().contains(
        flow,
    ) by {
        if has_flow(more, flow) {
            let i = choose|i: int| 0 <= i < more.len() && more[i].flow == flow;
            if i < splits.len() {
                assert(splits[i].flow == flow);
            }
        }
        if has_flow(splits, flow) {
            let i = choose|i: int| 0 <= i < splits.len() && splits[i].flow == flow;
            assert(more[i].flow == flow);
        }
        if flow == added.flow {
            assert(more[splits.len() as int].flow == flow);
        }
    }
    assert forall|flow: Seq<FlowItemView>| grouped(more).dom().contains(flow) implies grouped(
        more,
    )[flow] == goal[flow] by {
        if flow == added.flow && !has_flow(splits, flow) {
            lemma_group_gate_absent(splits, flow);
            lemma_union_block_all(added.gate);
        }
    }
    assert(grouped(more) =~= goal);
}

/// The union of gates allows a slot exactly when one of the gates does.
pub proof fn lemma_coverage_allows(splits: Seq<SplitView>, slot: Slot)
    ensures
        coverage(splits).allows(slot) <==> exists|i: int|
            0 <= i < splits.len() && (#[trigger] splits[i]).gate.allows(slot),
    decreases splits.len(),
{
    if splits.len() > 0 {
        let before = splits.drop_last();
        lemma_coverage_allows(before, slot);
        if exists|i: int| 0 <= i < before.len() && (#[trigger] before[i]).gate.allows(slot) {
            let i = choose|i: int| 0 <= i < before.len() && (#[trigger] before[i]).gate.allows(slot);
            assert(splits[i].gate.allows(slot));
        }
        if exists|i: int| 0 <= i < splits.len() && (#[trigger] splits[i]).gate.allows(slot) {
            let i = choose|i: int| 0 <= i < splits.len() && (#[trigger] splits[i]).gate.allows(slot);
            if i < before.len() {
                assert(before[i].gate.allows(slot));
            }
        }
        if splits.last().gate.allows(slot) {
            assert(splits[splits.len() - 1].gate.allows(slot));
        }
    }
}

/// The union of gates is a block-list exactly when one of the gates is.
pub proof fn lemma_coverage_kind(splits: Seq<SplitView>)
    ensures
        coverage(splits).kind is Block <==> exists|i: int|
            0 <= i < splits.len() && (#[trigger] splits[i]).gate.kind is Block,
    decreases splits.len(),
{
    if splits.len() > 0 {
        let before = splits.drop_last();
        lemma_coverage_kind(before);
        if exists|i: int| 0 <= i < before.len() && (#[trigger] before[i]).gate.kind is Block {
            let i = choose|i: int| 0 <= i < before.len() && (#[trigger] before[i]).gate.kind is Block;
            assert(splits[i].gate.kind is Block);
        }
        if exists|i: int| 0 <= i < splits.len() && (#[trigger] splits[i]).gate.kind is Block {
            let i = choose|i: int| 0 <= i < splits.len() && (#[trigger] splits[i]).gate.kind is Block;
            if i < before.len() {
                assert(before[i].gate.kind is Block);
            }
        }
        if splits.last().gate.kind is Block {
            assert(splits[splits.len() - 1].gate.kind is Block);
        }
    }
}

/// The union of a group allows a slot exactly when a gate of the group does.
pub proof fn lemma_group_gate_allows(splits: Seq<SplitView>, flow: Seq<FlowItemView>, slot: Slot)
    ensures
        group_gate(splits, flow).allows(slot) <==> exists|i: int|
            0 <= i < splits.len() && (#[trigger] splits[i]).flow == flow && splits[i].gate.allows(slot),
    decreases splits.len(),
{
    if splits.len() > 0 {
        let before = splits.drop_last();
        lemma_group_gate_allows(before, flow, slot);
        if exists|i: int|
            0 <= i < before.len() && (#[trigger] before[i]).flow == flow && before[i].gate.allows(slot) {
            let i = choose|i: int|
                0 <= i < before.len() && (#[trigger] before[i]).flow == flow && before[i].gate.allows(
                    slot,
                );
            assert(splits[i].flow == flow && splits[i].gate.allows(slot));
        }
        if exists|i: int|
            0 <= i < splits.len() && (#[trigger] splits[i]).flow == flow && splits[i].gate.allows(slot) {
            let i = choose|i: int|
                0 <= i < splits.len() && (#[trigger] splits[i]).flow == flow && splits[i].gate.allows(
                    slot,
                );
            if i < before.len() {
                assert(before[i].flow == flow && before[i].gate.allows(slot));
            }
        }
        if splits.last().flow == flow && splits.last().gate.allows(slot) {
            assert(splits[splits.len() - 1].flow == flow);
        }
    }
}

/// The union of a group is a block-list exactly when a gate of the group is.
pub proof fn lemma_group_gate_kind(splits: Seq<SplitView>, flow: Seq<FlowItemView>)
    ensures
        group_gate(splits, flow).kind is Block <==> exists|i: int|
            0 <= i < splits.len() && (#[trigger] splits[i]).flow == flow && splits[i].gate.kind is Block,
    decreases splits.len(),
{
    if splits.len() > 0 {
        let before = splits.drop_last();
        lemma_group_gate_kind(before, flow);
        if exists|i: int|
            0 <= i < before.len() && (#[trigger] before[i]).flow == flow && before[i].gate.kind is Block {
            let i = choose|i: int|
                0 <= i < before.len() && (#[trigger] before[i]).flow == flow && before[i].gate.kind
                    is Block;
            assert(splits[i].flow == flow && splits[i].gate.kind is Block);
        }
        if exists|i: int|
            0 <= i < splits.len() && (#[trigger] splits[i]).flow == flow && splits[i].gate.kind is Block {
            let i = choose|i: int|
                0 <= i < splits.len() && (#[trigger] splits[i]).flow == flow && splits[i].gate.kind
                    is Block;
            if i < before.len() {
                assert(before[i].flow == flow && before[i].gate.kind is Block);
            }
        }
        if splits.last().flow == flow && splits.last().gate.kind is Block {
            assert(splits[splits.len() - 1].flow == flow);
        }
    }
}

/// The alternatives that are alive are those given whose gate is not
/// block-all.
pub proof fn lemma_alive(splits: Seq<SplitView>)
    ensures
        forall|i: int| 0 <= i < alive(splits).len() ==> !(#[trigger] alive(splits)[i]).gate.is_block_all(),
        forall|i: int|
            0 <= i < alive(splits).len() ==> splits.contains(#[trigger] alive(splits)[i]),
        forall|k: int|
            0 <= k < splits.len() && !(#[trigger] splits[k]).gate.is_block_all() ==> alive(
                splits,
            ).contains(splits[k]),
    decreases splits.len(),
{
    if splits.len() > 0 {
        let before = splits.drop_last();
        let last = splits.last();
        lemma_alive(before);
        assert forall|i: int| 0 <= i < alive(splits).len() implies splits.contains(
            #[trigger] alive(splits)[i],
        ) by {
            if i < alive(before).len() {
                assert(before.contains(alive(before)[i]));
                let k = choose|k: int| 0 <= k < before.len() && before[k] == alive(before)[i];
                assert(splits[k] == alive(splits)[i]);
            } else {
                assert(splits[splits.len() - 1] == alive(splits)[i]);
            }
        }
        assert forall|k: int|
            0 <= k < splits.len() && !(#[trigger] splits[k]).gate.is_block_all() implies alive(
            splits,
        ).contains(splits[k]) by {
            if k < before.len() {
                assert(before[k] == splits[k]);
                assert(alive(before).contains(before[k]));
                let i = choose|i: int| 0 <= i < alive(before).len() && alive(before)[i] == before[k];
                assert(alive(splits)[i] == splits[k]);
            } else {
                assert(alive(splits)[alive(before).len() as int] == splits[k]);
            }
        }
    }
}

/// Alternatives of which none is block-all are all alive.
pub proof fn lemma_alive_all(splits: Seq<SplitView>)
    requires
        forall|i: int| 0 <= i < splits.len() ==> !(#[trigger] splits[i]).gate.is_block_all(),
    ensures
        alive(splits) == splits,
    decreases splits.len(),
{
    if splits.len() > 0 {
        let before = splits.drop_last();
        assert forall|i: int| 0 <= i < before.len() implies !(#[trigger] before[i]).gate.is_block_all() by {
            assert(before[i] == splits[i]);
        }
        lemma_alive_all(before);
        assert(!splits[splits.len() - 1].gate.is_block_all());
        assert(before.push(splits.last()) =~= splits);
    } else {
        assert(alive(splits) =~= splits);
    }
}

/// With increasing sub-flows every group has one member, whose gate is the
/// union of the group.
pub proof fn lemma_group_gate_single(splits: Seq<SplitView>, i: int)
    requires
        increasing_flows(splits),
        0 <= i < splits.len(),
    ensures
        group_gate(splits, splits[i].flow) == splits[i].gate,
    decreases splits.len(),
{
    let flow = splits[i].flow;
    let before = splits.drop_last();
    let last = splits.len() - 1;
    assert forall|a: int, b: int| 0 <= a < b < before.len() implies order_flow(
        #[trigger] before[a].flow,
        #[trigger] before[b].flow,
    ) is Less by {
        assert(before[a] == splits[a]);
        assert(before[b] == splits[b]);
    }
    if i == last {
        if has_flow(before, flow) {
            let k = choose|k: int| 0 <= k < before.len() && before[k].flow == flow;
            assert(before[k] == splits[k]);
            assert(order_flow(splits[k].flow, splits[i].flow) is Less);
            lemma_order_flow_equal(flow, flow);
        }
        lemma_group_gate_absent(before, flow);
        lemma_union_block_all(splits[i].gate);
    } else {
        assert(order_flow(splits[i].flow, splits[last].flow) is Less);
        lemma_order_flow_equal(flow, flow);
        assert(before[i] == splits[i]);
        lemma_group_gate_single(before, i);
    }
}

/// With increasing sub-flows, grouping changes nothing.
pub proof fn lemma_grouped_increasing(splits: Seq<SplitView>)
    requires
        increasing_flows(splits),
    ensures
        grouped(splits) == as_map(splits),
{
    assert forall|flow: Seq<FlowItemView>| grouped(splits).dom().contains(flow) implies grouped(
        splits,
    )[flow] == as_map(splits)[flow] by {
        let i = choose|i: int| 0 <= i < splits.len() && splits[i].flow == flow;
        lemma_group_gate_single(splits, i);
        lemma_place_of(splits, i);
    }
    assert(grouped(splits) =~= as_map(splits));
}

/// Two sequences of alternatives with increasing sub-flows that are the same
/// map from sub-flow to gate are the same sequence.
pub proof fn lemma_as_map_unique(a: Seq<SplitView>, b: Seq<SplitView>)
    requires
        increasing_flows(a),
        increasing_flows(b),
        as_map(a) == as_map(b),
    ensures
        a == b,
    decreases a.len(),
{
    if a.len() == 0 {
        if b.len() > 0 {
            lemma_place_of(b, 0);
            assert(as_map(a).dom().contains(b[0].flow));
        }
        assert(a =~= b);
    } else {
        let la = a.len() - 1;
        lemma_place_of(a, la);
        assert(has_flow(b, a[la].flow));
        let j = choose|j: int| 0 <= j < b.len() && b[j].flow == a[la].flow;
        let lb = b.len() - 1;
        lemma_place_of(b, lb);
        assert(has_flow(a, b[lb].flow));
        let i = choose|i: int| 0 <= i < a.len() && a[i].flow == b[lb].flow;
        lemma_order_flow_equal(a[la].flow, a[la].flow);
        if j < lb {
            assert(order_flow(b[j].flow, b[lb].flow) is Less);
            if i < la {
                assert(order_flow(a[i].flow, a[la].flow) is Less);
                lemma_order_flow_flip(a[i].flow, a[la].flow);
            }
        }
        assert(j == lb);
        lemma_place_of(b, j);
        assert(a[la] == b[lb]);
        lemma_as_map_drop_last(a);
        lemma_as_map_drop_last(b);
        lemma_as_map_unique(a.drop_last(), b.drop_last());
        assert(a =~= a.drop_last().push(a[la]));
        assert(b =~= b.drop_last().push(b[lb]));
    }
}

/// Without its last alternative, a sequence with increasing sub-flows is the
/// same map without the sub-flow of that alternative.
pub proof fn lemma_as_map_drop_last(splits: Seq<SplitView>)
    requires
        increasing_flows(splits),
        splits.len() > 0,
    ensures
        increasing_flows(splits.drop_last()),
        as_map(splits.drop_last()) == as_map(splits).remove(splits.last().flow),
{
    let before = splits.drop_last();
    let last = splits.len() - 1;
    assert forall|a: int, b: int| 0 <= a < b < before.len() implies order_flow(
        #[trigger] before[a].flow,
        #[trigger] before[b].flow,
    ) is Less by {
        assert(before[a] == splits[a]);
        assert(before[b] == splits[b]);
    }
    let goal = as_map(splits).remove(splits.last().flow);
    assert forall|flow: Seq<FlowItemView>| as_map(before).dom().contains(flow) <==> goal.dom().contains(
        flow,
    ) by {
        if has_flow(before, flow) {
            let i = choose|i: int| 0 <= i < before.len() && before[i].flow == flow;
            assert(splits[i].flow == flow);
            assert(order_flow(splits[i].flow, splits[last].flow) is Less);
            lemma_order_flow_equal(flow, flow);
        }
        if has_flow(splits, flow) && flow != splits.last().flow {
            let i = choose|i: int| 0 <= i < splits.len() && splits[i].flow == flow;
            assert(before[i].flow == flow);
        }
    }
    assert forall|flow: Seq<FlowItemView>| as_map(before).dom().contains(flow) implies as_map(
        before,
    )[flow] == goal[flow] by {
        let i = choose|i: int| 0 <= i < before.len() && before[i].flow == flow;
        assert(before[i] == splits[i]);
        lemma_place_of(before, i);
        lemma_place_of(splits, i);
        assert(order_flow(splits[i].flow, splits[last].flow) is Less);
        lemma_order_flow_equal(flow, flow);
    }
    assert(as_map(before) =~= goal);
}

/// A normal form claims every slot: the union of its gates is allow-all,
/// and no two of its alternatives have the same sub-flow.
pub proof fn lemma_normalized_total(out: Seq<SplitView>, splits: Seq<SplitView>)
    requires
        normalized_from(out, splits),
    ensures
        coverage(out) == GateView::allow_all(),
        forall|slot: Slot| coverage(out).allows(slot),
        forall|i: int, j: int| 0 <= i < j < out.len() ==> out[i].flow != out[j].flow,
{
    let src = alive(splits);
    let all = completed(src);
    assert forall|i: int, j: int| 0 <= i < j < out.len() implies out[i].flow != out[j].flow by {
        assert(order_flow(out[i].flow, out[j].flow) is Less);
        lemma_order_flow_equal(out[i].flow, out[i].flow);
    }
    assert forall|slot: Slot| coverage(out).allows(slot) by {
        lemma_coverage_allows(src, slot);
        let k = if coverage(src).allows(slot) {
            choose|k: int| 0 <= k < src.len() && (#[trigger] src[k]).gate.allows(slot)
        } else {
            src.len() as int
        };
        assert(0 <= k < all.len() && all[k].gate.allows(slot));
        lemma_carried(out, all, k);
        let i = choose|i: int| 0 <= i < out.len() && out[i].flow == all[k].flow;
        lemma_place_of(out, i);
        lemma_group_gate_allows(all, all[k].flow, slot);
        assert(out[i].gate.allows(slot));
        lemma_coverage_allows(out, slot);
    }
    assert(coverage(out).kind is Block) by {
        lemma_coverage_kind(src);
        let k = if coverage(src).kind is Block {
            choose|k: int| 0 <= k < src.len() && (#[trigger] src[k]).gate.kind is Block
        } else {
            src.len() as int
        };
        assert(0 <= k < all.len() && all[k].gate.kind is Block);
        lemma_carried(out, all, k);
        let i = choose|i: int| 0 <= i < out.len() && out[i].flow == all[k].flow;
        lemma_place_of(out, i);
        lemma_group_gate_kind(all, all[k].flow);
        assert(out[i].gate.kind is Block);
        lemma_coverage_kind(out);
    }
    assert(coverage(out).slots =~= Set::<Slot>::empty()) by {
        assert forall|slot: Slot| !coverage(out).slots.contains(slot) by {
            assert(coverage(out).allows(slot));
        }
    }
}

/// Each alternative that was grouped has its sub-flow in what came out.
proof fn lemma_carried(out: Seq<SplitView>, all: Seq<SplitView>, k: int)
    requires
        as_map(out) == grouped(all),
        0 <= k < all.len(),
    ensures
        has_flow(out, all[k].flow),
{
    assert(has_flow(all, all[k].flow));
    assert(grouped(all).dom().contains(all[k].flow));
    assert(as_map(out).dom().contains(all[k].flow));
}

/// In a normal form no gate is block-all.
pub proof fn lemma_normalized_alive(out: Seq<SplitView>, splits: Seq<SplitView>)
    requires
        normalized_from(out, splits),
    ensures
        forall|i: int| 0 <= i < out.len() ==> !(#[trigger] out[i]).gate.is_block_all(),
{
    let src = alive(splits);
    let all = completed(src);
    lemma_alive(splits);
    assert forall|i: int| 0 <= i < out.len() implies !(#[trigger] out[i]).gate.is_block_all() by {
        let flow = out[i].flow;
        lemma_place_of(out, i);
        assert(grouped(all).dom().contains(flow));
        let k = choose|k: int| 0 <= k < all.len() && all[k].flow == flow;
        assert(!all[k].gate.is_block_all()) by {
            if k < src.len() {
                assert(all[k] == src[k]);
            }
        }
        lemma_group_gate_kind(all, flow);
        if all[k].gate.kind is Allow {
            assert(!(all[k].gate.slots =~= Set::<Slot>::empty()));
            let slot = choose|slot: Slot| all[k].gate.slots.contains(slot);
            assert(all[k].gate.allows(slot));
            lemma_group_gate_allows(all, flow, slot);
            assert(out[i].gate.allows(slot));
        }
    }
}

/// A normal form is a normal form of itself.
pub proof fn lemma_normalized_self(out: Seq<SplitView>, splits: Seq<SplitView>)
    requires
        normalized_from(out, splits),
    ensures
        normalized_from(out, out),
{
    lemma_normalized_alive(out, splits);
    lemma_alive_all(out);
    lemma_normalized_total(out, splits);
    assert(completed(out) == out);
    lemma_grouped_increasing(out);
}

/// Each sub-flow of a normal form is the sub-flow of one of the given
/// alternatives, or empty.
pub proof fn lemma_normalized_flows(out: Seq<SplitView>, splits: Seq<SplitView>, i: int)
    requires
        normalized_from(out, splits),
        0 <= i < out.len(),
    ensures
        out[i].flow == Seq::<FlowItemView>::empty() || has_flow(splits, out[i].flow),
{
    let src = alive(splits);
    let all = completed(src);
    lemma_place_of(out, i);
    assert(grouped(all).dom().contains(out[i].flow));
    let k = choose|k: int| 0 <= k < all.len() && all[k].flow == out[i].flow;
    if k < src.len() {
        lemma_alive(splits);
        assert(all[k] == src[k]);
        assert(splits.contains(src[k]));
        let j = choose|j: int| 0 <= j < splits.len() && splits[j] == src[k];
        assert(splits[j].flow == out[i].flow);
    }
}

/// A normal form is its own normal form: normalizing twice gives what
/// normalizing once gives.
pub proof fn lemma_normalize_idempotent(splits: Seq<SplitView>, once: Seq<SplitView>, twice: Seq<SplitView>)
    requires
        normalized_from(once, splits),
        normalized_from(twice, once),
    ensures
        twice == once,
{
    lemma_normalized_alive(once, splits);
    lemma_alive_all(once);
    lemma_normalized_total(once, splits);
    assert(completed(once) == once);
    lemma_grouped_increasing(once);
    lemma_as_map_unique(twice, once);
}

/// Two normal forms of the same alternatives are the same.
pub proof fn lemma_normalized_unique(splits: Seq<SplitView>, one: Seq<SplitView>, other: Seq<SplitView>)
    requires
        normalized_from(one, splits),
        normalized_from(other, splits),
    ensures
        one == other,
{
    lemma_as_map_unique(one, other);
}

/// A gate is decided by its kind and by the slots it allows.
pub proof fn lemma_gate_decided(a: GateView, b: GateView)
    requires
        a.kind == b.kind,
        forall|slot: Slot| a.allows(slot) == b.allows(slot),
    ensures
        a == b,
{
    assert forall|slot: Slot| a.slots.contains(slot) == b.slots.contains(slot) by {
        assert(a.allows(slot) == b.allows(slot));
    }
    assert(a.slots =~= b.slots);
}

/// The union of the gates of alternatives depends only on which
/// alternatives there are.
pub proof fn lemma_coverage_of_set(a: Seq<SplitView>, b: Seq<SplitView>)
    requires
        a.to_set() == b.to_set(),
    ensures
        coverage(a) == coverage(b),
{
    lemma_coverage_kind(a);
    lemma_coverage_kind(b);
    assert(coverage(a).kind == coverage(b).kind) by {
        lemma_same_members(a, b);
        lemma_same_members(b, a);
        if exists|i: int| 0 <= i < a.len() && (#[trigger] a[i]).gate.kind is Block {
            let i = choose|i: int| 0 <= i < a.len() && (#[trigger] a[i]).gate.kind is Block;
            let j = choose|j: int| 0 <= j < b.len() && b[j] == a[i];
            assert(b[j].gate.kind is Block);
        }
        if exists|i: int| 0 <= i < b.len() && (#[trigger] b[i]).gate.kind is Block {
            let i = choose|i: int| 0 <= i < b.len() && (#[trigger] b[i]).gate.kind is Block;
            let j = choose|j: int| 0 <= j < a.len() && a[j] == b[i];
            assert(a[j].gate.kind is Block);
        }
    }
    assert forall|slot: Slot| coverage(a).allows(slot) == coverage(b).allows(slot) by {
        lemma_coverage_allows(a, slot);
        lemma_coverage_allows(b, slot);
        lemma_same_members(a, b);
        lemma_same_members(b, a);
        if exists|i: int| 0 <= i < a.len() && (#[trigger] a[i]).gate.allows(slot) {
            let i = choose|i: int| 0 <= i < a.len() && (#[trigger] a[i]).gate.allows(slot);
            let j = choose|j: int| 0 <= j < b.len() && b[j] == a[i];
            assert(b[j].gate.allows(slot));
        }
        if exists|i: int| 0 <= i < b.len() && (#[trigger] b[i]).gate.allows(slot) {
            let i = choose|i: int| 0 <= i < b.len() && (#[trigger] b[i]).gate.allows(slot);
            let j = choose|j: int| 0 <= j < a.len() && a[j] == b[i];
            assert(a[j].gate.allows(slot));
        }
    }
    lemma_gate_decided(coverage(a), coverage(b));
}

/// Each alternative of a sequence is found in a sequence that holds the
/// same alternatives.
proof fn lemma_same_members(a: Seq<SplitView>, b: Seq<SplitView>)
    requires
        a.to_set() == b.to_set(),
    ensures
        forall|i: int| 0 <= i < a.len() ==> b.contains(#[trigger] a[i]),
{
    assert forall|i: int| 0 <= i < a.len() implies b.contains(#[trigger] a[i]) by {
        assert(a.contains(a[i]));
        assert(b.to_set().contains(a[i]));
    }
}

/// The groups of alternatives depend only on which alternatives there are.
pub proof fn lemma_grouped_of_set(a: Seq<SplitView>, b: Seq<SplitView>)
    requires
        a.to_set() == b.to_set(),
    ensures
        grouped(a) == grouped(b),
{
    lemma_same_members(a, b);
    lemma_same_members(b, a);
    assert forall|flow: Seq<FlowItemView>| has_flow(a, flow) == has_flow(b, flow) by {
        if has_flow(a, flow) {
            let i = choose|i: int| 0 <= i < a.len() && a[i].flow == flow;
            let j = choose|j: int| 0 <= j < b.len() && b[j] == a[i];
            assert(b[j].flow == flow);
        }
        if has_flow(b, flow) {
            let i = choose|i: int| 0 <= i < b.len() && b[i].flow == flow;
            let j = choose|j: int| 0 <= j < a.len() && a[j] == b[i];
            assert(a[j].flow == flow);
        }
    }
    assert forall|flow: Seq<FlowItemView>| group_gate(a, flow) == group_gate(b, flow) by {
        lemma_group_gate_kind(a, flow);
        lemma_group_gate_kind(b, flow);
        assert(group_gate(a, flow).kind == group_gate(b, flow).kind) by {
            if exists|i: int|
                0 <= i < a.len() && (#[trigger] a[i]).flow == flow && a[i].gate.kind is Block {
                let i = choose|i: int|
                    0 <= i < a.len() && (#[trigger] a[i]).flow == flow && a[i].gate.kind is Block;
                let j = choose|j: int| 0 <= j < b.len() && b[j] == a[i];
                assert(b[j].flow == flow && b[j].gate.kind is Block);
            }
            if exists|i: int|
                0 <= i < b.len() && (#[trigger] b[i]).flow == flow && b[i].gate.kind is Block {
                let i = choose|i: int|
                    0 <= i < b.len() && (#[trigger] b[i]).flow == flow && b[i].gate.kind is Block;
                let j = choose|j: int| 0 <= j < a.len() && a[j] == b[i];
                assert(a[j].flow == flow && a[j].gate.kind is Block);
            }
        }
        assert forall|slot: Slot|
            group_gate(a, flow).allows(slot) == group_gate(b, flow).allows(slot) by {
            lemma_group_gate_allows(a, flow, slot);
            lemma_group_gate_allows(b, flow, slot);
            if exists|i: int|
                0 <= i < a.len() && (#[trigger] a[i]).flow == flow && a[i].gate.allows(slot) {
                let i = choose|i: int|
                    0 <= i < a.len() && (#[trigger] a[i]).flow == flow && a[i].gate.allows(slot);
                let j = choose|j: int| 0 <= j < b.len() && b[j] == a[i];
                assert(b[j].flow == flow && b[j].gate.allows(slot));
            }
            if exists|i: int|
                0 <= i < b.len() && (#[trigger] b[i]).flow == flow && b[i].gate.allows(slot) {
                let i = choose|i: int|
                    0 <= i < b.len() && (#[trigger] b[i]).flow == flow && b[i].gate.allows(slot);
                let j = choose|j: int| 0 <= j < a.len() && a[j] == b[i];
                assert(a[j].flow == flow && a[j].gate.allows(slot));
            }
        }
        lemma_gate_decided(group_gate(a, flow), group_gate(b, flow));
    }
    assert(grouped(a) =~= grouped(b));
}

/// A normal form does not depend on the order in which the alternatives
/// are given, nor on how often one of them is given.
pub proof fn lemma_normalized_of_set(out: Seq<SplitView>, a: Seq<SplitView>, b: Seq<SplitView>)
    requires
        normalized_from(out, a),
        a.to_set() == b.to_set(),
    ensures
        normalized_from(out, b),
{
    let src_a = alive(a);
    let src_b = alive(b);
    lemma_alive(a);
    lemma_alive(b);
    lemma_same_members(a, b);
    lemma_same_members(b, a);
    assert forall|x: SplitView| src_a.to_set().contains(x) == src_b.to_set().contains(x) by {
        if src_a.contains(x) {
            let i = choose|i: int| 0 <= i < src_a.len() && src_a[i] == x;
            assert(a.contains(src_a[i]));
            let k = choose|k: int| 0 <= k < a.len() && a[k] == x;
            let j = choose|j: int| 0 <= j < b.len() && b[j] == a[k];
            assert(src_b.contains(b[j]));
        }
        if src_b.contains(x) {
            let i = choose|i: int| 0 <= i < src_b.len() && src_b[i] == x;
            assert(b.contains(src_b[i]));
            let k = choose|k: int| 0 <= k < b.len() && b[k] == x;
            let j = choose|j: int| 0 <= j < a.len() && a[j] == b[k];
            assert(src_a.contains(a[j]));
        }
    }
    assert(src_a.to_set() =~= src_b.to_set());
    lemma_coverage_of_set(src_a, src_b);
    let all_a = completed(src_a);
    let all_b = completed(src_b);
    assert forall|x: SplitView| all_a.to_set().contains(x) == all_b.to_set().contains(x) by {
        if all_a.contains(x) {
            let i = choose|i: int| 0 <= i < all_a.len() && all_a[i] == x;
            if i < src_a.len() {
                assert(src_a.contains(src_a[i]));
                assert(src_b.to_set().contains(x));
                let j = choose|j: int| 0 <= j < src_b.len() && src_b[j] == x;
                assert(all_b[j] == x);
            } else {
                assert(all_b[src_b.len() as int] == x);
            }
        }
        if all_b.contains(x) {
            let i = choose|i: int| 0 <= i < all_b.len() && all_b[i] == x;
            if i < src_b.len() {
                assert(src_b.contains(src_b[i]));
                assert(src_a.to_set().contains(x));
                let j = choose|j: int| 0 <= j < src_a.len() && src_a[j] == x;
                assert(all_a[j] == x);
            } else {
                assert(all_a[src_a.len() as int] == x);
            }
        }
    }
    assert(all_a.to_set() =~= all_b.to_set());
    lemma_grouped_of_set(all_a, all_b);
}

/// The normal form of no alternatives is one alternative: the empty flow
/// under the allow-all gate.
pub proof fn lemma_normalize_empty(out: Seq<SplitView>)
    requires
        normalized_from(out, Seq::empty()),
    ensures
        out == seq![SplitView { flow: Seq::empty(), gate: GateView::allow_all() }],
{
    let none = Seq::<SplitView>::empty();
    let hatch = SplitView { flow: Seq::empty(), gate: GateView::allow_all() };
    let only = seq![hatch];
    assert(alive(none) =~= none);
    assert(coverage(none) == GateView::block_all());
    assert(escape_hatch(none) == Some(hatch));
    assert(completed(none) =~= only);
    assert(increasing_flows(only));
    lemma_grouped_increasing(only);
    lemma_as_map_unique(out, only);
}

impl SplitSet {
    /// The normal form of the given alternatives: those whose gate is not
    /// block-all, with an escape hatch where their gates leave a slot
    /// unclaimed, grouped by sub-flow under the union of the gates of each
    /// group. The sub-flows are taken as they are: splits inside them are
    /// not normalized again.
    ///
    /// The union of the gates of what comes out is allow-all, every slot is
    /// allowed by one of them, and no sub-flow comes out twice.
    pub fn normalize_splits(splits: Vec<Split>) -> (r: SplitSet)
        ensures
            normalized_from(r@, split_views(splits@)),
            canonical(r@),
            coverage(r@) == GateView::allow_all(),
            forall|slot: Slot| coverage(r@).allows(slot),
            forall|i: int, j: int| 0 <= i < j < r@.len() ==> r@[i].flow != r@[j].flow,
    {
        let ghost input = split_views(splits@);
        let ghost given = splits@;
        let ghost mut seen: Seq<SplitView> = Seq::empty();
        let mut covered = Gate::block_all();
        let mut out: Vec<Split> = Vec::new();
        proof {
            assert(as_map(split_views(out@)) =~= grouped(alive(seen)));
        }
        for split in it: splits
            invariant
                it.seq() == given,
                input == split_views(given),
                seen == input.take(it.index() as int),
                covered@ == coverage(alive(seen)),
                increasing_flows(split_views(out@)),
                as_map(split_views(out@)) == grouped(alive(seen)),
        {
            let ghost here = split@;
            proof {
                assert(input[it.index() as int] == here);
                assert(input.take(it.index() + 1).drop_last() =~= seen);
                assert(input.take(it.index() + 1).last() == here);
                lemma_grouped_push(alive(seen), here);
                assert(alive(seen).push(here).drop_last() =~= alive(seen));
                seen = input.take(it.index() + 1);
            }
            if !split.gate.is_block_all() {
                covered = covered.union(&split.gate);
                merge_in(&mut out, split);
            }
        }
        proof {
            assert(seen =~= input);
        }
        let ghost src = alive(input);
        if !covered.is_allow_all() {
            let hatch = Split::new(Flow::new(Vec::new()), covered.invert());
            proof {
                assert(hatch@.flow =~= Seq::<FlowItemView>::empty());
                assert(escape_hatch(src) == Some(hatch@));
                lemma_grouped_push(src, hatch@);
            }
            merge_in(&mut out, hatch);
        }
        proof {
            lemma_increasing_is_canonical(split_views(out@));
            assert(SplitSet(out)@ =~= split_views(out@));
            lemma_normalized_total(split_views(out@), input);
        }
        SplitSet(out)
    }
}

} // verus!
