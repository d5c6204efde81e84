//! Resolving a flow against a stack of slot choices.
//!
//! A flow is walked from left to right. A token continues every walk found
//! so far. The first split of a flow takes the slot on top of the stack, and
//! every split of that flow is resolved with this one slot: each of its
//! alternatives gives the walks of its sub-flow where its gate allows the
//! slot, and one empty walk where it does not. The alternatives work on
//! copies of what is left of the stack.

use vstd::prelude::*;
use crate::parallel::flow::{
    Flow, FlowItem, FlowItemView, SlotStackError, SlotStackErrorView, Split, SplitSet, SplitView,
};
use crate::parallel::gate::Slot;
use crate::token::{Token, TokenView};

verus! {

/// The walks of `walks`, each continued by `token`.
pub open spec fn with_token(walks: Seq<Seq<TokenView>>, token: TokenView) -> Seq<Seq<TokenView>> {
    walks.map_values(|walk: Seq<TokenView>| walk.push(token))
}

/// The walks of `walks`, each begun with `prefix`.
pub open spec fn continued(prefix: Seq<TokenView>, walks: Seq<Seq<TokenView>>) -> Seq<Seq<TokenView>> {
    walks.map_values(|walk: Seq<TokenView>| prefix + walk)
}

/// Every walk of `left` continued by every walk of `right`; the walks of
/// `left` vary slowest.
pub open spec fn cross(left: Seq<Seq<TokenView>>, right: Seq<Seq<TokenView>>) -> Seq<Seq<TokenView>>
    decreases left.len(),
{
    if left.len() == 0 {
        Seq::empty()
    } else {
        cross(left.drop_last(), right) + continued(left.last(), right)
    }
}

/// Whether a flow holds a split at its own level.
pub open spec fn has_split(flow: Seq<FlowItemView>) -> bool {
    exists|i: int| 0 <= i < flow.len() && flow[i] is Split
}

/// What is left of a stack after a flow was walked: the top is taken once if
/// the flow holds a split at its own level.
pub open spec fn stack_after(flow: Seq<FlowItemView>, stack: Seq<Slot>) -> Seq<Slot> {
    if has_split(flow) && stack.len() > 0 {
        stack.drop_last()
    } else {
        stack
    }
}

/// The walks through the first `n` items of a flow, or `None` where a split
/// is reached with no slot left.
pub open spec fn prefix_walks(flow: Seq<FlowItemView>, n: nat, stack: Seq<Slot>) -> Option<Seq<Seq<TokenView>>>
    decreases flow, n,
{
    if n == 0 || n > flow.len() {
        Some(seq![Seq::empty()])
    } else {
        match (prefix_walks(flow, (n - 1) as nat, stack), item_walks(flow[n - 1], stack)) {
            (Some(before), Some(here)) => Some(cross(before, here)),
            _ => None,
        }
    }
}

/// The walks through one item. A token is its own single walk. A split is
/// resolved with the top of the stack, against the rest of the stack.
pub open spec fn item_walks(item: FlowItemView, stack: Seq<Slot>) -> Option<Seq<Seq<TokenView>>>
    decreases item, 0nat,
{
    match item {
        FlowItemView::Token(token) => Some(seq![seq![token]]),
        FlowItemView::Split(set) => if stack.len() == 0 {
            None
        } else {
            set_walks(set, set.len(), stack.last(), stack.drop_last())
        },
    }
}

/// The walks through the first `n` alternatives of a split set, one
/// alternative after the other.
pub open spec fn set_walks(set: Seq<SplitView>, n: nat, slot: Slot, stack: Seq<Slot>) -> Option<Seq<Seq<TokenView>>>
    decreases set, n,
{
    if n == 0 || n > set.len() {
        Some(Seq::empty())
    } else {
        match (set_walks(set, (n - 1) as nat, slot, stack), split_walks(set[n - 1], slot, stack)) {
            (Some(before), Some(here)) => Some(before + here),
            _ => None,
        }
    }
}

/// The walks through one alternative: those of its sub-flow where its gate
/// allows the slot, and one empty walk where it does not.
pub open spec fn split_walks(split: SplitView, slot: Slot, stack: Seq<Slot>) -> Option<Seq<Seq<TokenView>>>
    decreases split, 0nat,
{
    if split.gate.allows(slot) {
        flow_walks(split.flow, stack)
    } else {
        Some(seq![Seq::empty()])
    }
}

/// The walks through a whole flow.
pub open spec fn flow_walks(flow: Seq<FlowItemView>, stack: Seq<Slot>) -> Option<Seq<Seq<TokenView>>>
    decreases flow, flow.len() + 1,
{
    prefix_walks(flow, flow.len(), stack)
}

/// What walking a flow against a stack gives: the walks, or the error that
/// the stack ran empty.
pub open spec fn found(walks: Option<Seq<Seq<TokenView>>>) -> Result<
    Seq<Seq<TokenView>>,
    SlotStackErrorView,
> {
    match walks {
        Some(walks) => Ok(walks),
        None => Err(SlotStackErrorView::Empty),
    }
}

/// What resolving a flow against a stack of slot choices gives: the walks,
/// where every split found a slot and no slot is left over.
pub open spec fn resolved(flow: Seq<FlowItemView>, stack: Seq<Slot>) -> Result<
    Seq<Seq<TokenView>>,
    SlotStackErrorView,
> {
    match flow_walks(flow, stack) {
        None => Err(SlotStackErrorView::Empty),
        Some(walks) => if stack_after(flow, stack).len() == 0 {
            Ok(walks)
        } else {
            Err(SlotStackErrorView::Leftover { leftover: stack_after(flow, stack) })
        },
    }
}

/// The tokens of one walk.
pub open spec fn walk_view(walk: Seq<&Token>) -> Seq<TokenView> {
    walk.map_values(|token: &Token| token@)
}

/// The walks that a vector of walks stands for.
pub open spec fn walks_view(walks: Seq<Vec<&Token>>) -> Seq<Seq<TokenView>> {
    walks.map_values(|walk: Vec<&Token>| walk_view(walk@))
}

/// The value of what a walk returns.
pub open spec fn result_view(res: Result<Vec<Vec<&Token>>, SlotStackError>) -> Result<
    Seq<Seq<TokenView>>,
    SlotStackErrorView,
> {
    match res {
        Ok(walks) => Ok(walks_view(walks@)),
        Err(error) => Err(error@),
    }
}


/// Appends a token to every walk.
fn push_to_each<'a>(walks: &mut Vec<Vec<&'a Token>>, token: &'a Token)
    ensures
        walks_view(final(walks)@) == with_token(walks_view(old(walks)@), token@),
{
    let mut i: usize = 0;
    while i < walks.len()
        invariant
            i <= walks.len(),
            walks.len() == old(walks).len(),
            forall|j: int| 0 <= j < i ==> walks[j]@ == #[trigger] old(walks)[j]@.push(token),
            forall|j: int| i <= j < walks.len() ==> walks[j] == old(walks)[j],
        decreases walks.len() - i,
    {
        walks[i].push(token);
        i += 1;
    }
    proof {
        assert forall|j: int| 0 <= j < walks.len() implies walks_view(walks@)[j] == with_token(walks_view(old(walks)@), token@)[j] by {
            assert(walks[j]@ == old(walks)[j]@.push(token));
            assert(walk_view(walks[j]@) =~= walk_view(old(walks)[j]@).push(token@));
        }
        assert(walks_view(walks@) =~= with_token(walks_view(old(walks)@), token@));
    }
}


/// A fresh walk: `prefix` followed by `walk`.
fn joined<'a>(prefix: &Vec<&'a Token>, walk: &Vec<&'a Token>) -> (out: Vec<&'a Token>)
    ensures
        out@ == prefix@ + walk@,
{
    let mut out: Vec<&Token> = Vec::new();
    let mut i: usize = 0;
    while i < prefix.len()
        invariant
            i <= prefix.len(),
            out@ == prefix@.take(i as int),
        decreases prefix.len() - i,
    {
        out.push(prefix[i]);
        i += 1;
    }
    let mut j: usize = 0;
    while j < walk.len()
        invariant
            j <= walk.len(),
            out@ == prefix@ + walk@.take(j as int),
        decreases walk.len() - j,
    {
        out.push(walk[j]);
        j += 1;
    }
    out
}

/// Every walk of `left` continued by every walk of `right`.
fn crossed<'a>(left: &Vec<Vec<&'a Token>>, right: &Vec<Vec<&'a Token>>) -> (out: Vec<Vec<&'a Token>>)
    ensures
        walks_view(out@) == cross(walks_view(left@), walks_view(right@)),
{
    let mut out: Vec<Vec<&Token>> = Vec::new();
    let mut i: usize = 0;
    while i < left.len()
        invariant
            i <= left.len(),
            walks_view(out@) == cross(walks_view(left@.take(i as int)), walks_view(right@)),
        decreases left.len() - i,
    {
        let ghost before = walks_view(out@);
        let mut j: usize = 0;
        while j < right.len()
            invariant
                i < left.len(),
                j <= right.len(),
                walks_view(out@) == before + continued(walk_view(left[i as int]@), walks_view(right@.take(j as int))),
            decreases right.len() - j,
        {
            let ghost prev = out@;
            let walk = joined(&left[i], &right[j]);
            out.push(walk);
            proof {
                assert(walk_view(walk@) =~= walk_view(left[i as int]@) + walk_view(right[j as int]@));
                assert(right@.take(j + 1) =~= right@.take(j as int).push(right[j as int]));
                assert(walks_view(out@) =~= walks_view(prev).push(walk_view(walk@)));
                assert(walks_view(right@.take(j + 1)) =~= walks_view(right@.take(j as int)).push(
                    walk_view(right[j as int]@),
                ));
                assert(continued(walk_view(left[i as int]@), walks_view(right@.take(j + 1)))
                    =~= continued(walk_view(left[i as int]@), walks_view(right@.take(j as int))).push(
                    walk_view(walk@),
                ));
            }
            j += 1;
        }
        proof {
            assert(right@.take(right.len() as int) =~= right@);
            let next = walks_view(left@.take(i + 1));
            assert(next.drop_last() =~= walks_view(left@.take(i as int)));
            assert(next.last() == walk_view(left[i as int]@));
        }
        i += 1;
    }
    proof {
        assert(left@.take(left.len() as int) =~= left@);
    }
    out
}

impl Flow {
    /// Resolves the flow against a stack of slot choices whose top is its
    /// last element. The first split of the flow takes the top of the stack,
    /// and every split of this flow is resolved with that one slot; the
    /// alternatives work on copies of what is left below it.
    pub fn find_walks<'a>(&'a self, slot_stack: &mut Vec<Slot>) -> (res: Result<
        Vec<Vec<&'a Token>>,
        SlotStackError,
    >)
        ensures
            result_view(res) == found(flow_walks(self@, old(slot_stack)@)),
            final(slot_stack)@ == stack_after(self@, old(slot_stack)@),
        decreases self, 1nat,
    {
        let mut results: Vec<Vec<&Token>> = Vec::new();
        results.push(Vec::new());
        let mut target: Option<Slot> = None;
        let mut i: usize = 0;
        proof {
            assert(walks_view(results@) =~~= seq![Seq::<TokenView>::empty()]);
        }
        while i < self.0.len()
            invariant
                i <= self.0.len(),
                prefix_walks(self@, i as nat, old(slot_stack)@) == Some(walks_view(results@)),
                target is Some <==> has_split(self@.take(i as int)),
                target is Some ==> old(slot_stack)@.len() > 0 && target == Some(old(slot_stack)@.last())
                    && slot_stack@ == old(slot_stack)@.drop_last(),
                target is None ==> slot_stack@ == old(slot_stack)@,
            decreases self.0.len() - i,
        {
            let ghost flow = self@;
            let ghost before = walks_view(results@);
            proof {
                assert(flow[i as int] == self.0[i as int]@);
                assert(flow.take(i + 1) =~= flow.take(i as int).push(flow[i as int]));
                lemma_prefix_walks_step(flow, i as nat, old(slot_stack)@);
            }
            match &self.0[i] {
                FlowItem::Token(token) => {
                    push_to_each(&mut results, token);
                    proof {
                        lemma_cross_token(before, token@);
                        lemma_has_split_push(flow.take(i as int), flow[i as int]);
                    }
                },
                FlowItem::Split(set) => {
                    if target.is_none() {
                        target = slot_stack.pop();
                    }
                    proof {
                        lemma_has_split_push(flow.take(i as int), flow[i as int]);
                        if old(slot_stack)@.len() == 0 {
                            assert(flow[i as int] is Split);
                            lemma_prefix_walks_fail(flow, (i + 1) as nat, flow.len(), old(slot_stack)@);
                            lemma_has_split_prefix(flow, i + 1);
                        }
                    }
                    let slot = match target {
                        Some(slot) => slot,
                        None => {
                            return Err(SlotStackError::Empty);
                        },
                    };
                    let outcome = set.find_walks(slot, slot_stack);
                    proof {
                        lemma_has_split_prefix(flow, i + 1);
                    }
                    match outcome {
                        Ok(set_walks) => {
                            results = crossed(&results, &set_walks);
                        },
                        Err(error) => {
                            proof {
                                lemma_prefix_walks_fail(flow, (i + 1) as nat, flow.len(), old(slot_stack)@);
                            }
                            return Err(error);
                        },
                    }
                },
            }
            i += 1;
        }
        proof {
            assert(self@.take(i as int) =~= self@);
        }
        Ok(results)
    }

    /// Resolves the flow against a stack of slot choices whose top is its
    /// last element, and insists that every slot is used.
    pub fn walks<'a>(&'a self, slot_stack: Vec<Slot>) -> (res: Result<Vec<Vec<&'a Token>>, SlotStackError>)
        ensures
            result_view(res) == resolved(self@, slot_stack@),
    {
        let mut slot_stack = slot_stack;
        let results = match self.find_walks(&mut slot_stack) {
            Ok(results) => results,
            Err(error) => {
                return Err(error);
            },
        };
        if !slot_stack.is_empty() {
            return Err(SlotStackError::Leftover { leftover: slot_stack });
        }
        Ok(results)
    }
}

impl Split {
    /// The walks through this alternative for a slot: those of the sub-flow
    /// where its gate allows the slot, else one empty walk.
    pub fn find_walks<'a>(&'a self, target_slot: Slot, slot_stack: &mut Vec<Slot>) -> (res: Result<
        Vec<Vec<&'a Token>>,
        SlotStackError,
    >)
        ensures
            result_view(res) == found(split_walks(self@, target_slot, old(slot_stack)@)),
            final(slot_stack)@ == if self@.gate.allows(target_slot) {
                stack_after(self@.flow, old(slot_stack)@)
            } else {
                old(slot_stack)@
            },
        decreases self, 0nat,
    {
        if !self.gate.allows_slot(target_slot) {
            let mut walks: Vec<Vec<&Token>> = Vec::new();
            walks.push(Vec::new());
            proof {
                assert(walks_view(walks@) =~~= seq![Seq::<TokenView>::empty()]);
            }
            Ok(walks)
        } else {
            self.flow.find_walks(slot_stack)
        }
    }
}

impl SplitSet {
    /// The walks through every alternative of the set for a slot, one
    /// alternative after the other. Each alternative works on a copy of the
    /// stack, which is left as it was.
    pub fn find_walks<'a>(&'a self, target_slot: Slot, slot_stack: &mut Vec<Slot>) -> (res: Result<
        Vec<Vec<&'a Token>>,
        SlotStackError,
    >)
        ensures
            result_view(res) == found(set_walks(self@, self@.len(), target_slot, old(slot_stack)@)),
            final(slot_stack)@ == old(slot_stack)@,
        decreases self, 1nat,
    {
        let mut results: Vec<Vec<&Token>> = Vec::new();
        let mut i: usize = 0;
        proof {
            assert(walks_view(results@) =~= Seq::<Seq<TokenView>>::empty());
        }
        while i < self.0.len()
            invariant
                i <= self.0.len(),
                slot_stack@ == old(slot_stack)@,
                set_walks(self@, i as nat, target_slot, slot_stack@) == Some(walks_view(results@)),
            decreases self.0.len() - i,
        {
            let ghost set = self@;
            proof {
                assert(set[i as int] == self.0[i as int]@);
            }
            let mut copy = slot_stack.clone();
            match self.0[i].find_walks(target_slot, &mut copy) {
                Ok(mut split_walks) => {
                    let ghost before = results@;
                    let ghost added = split_walks@;
                    results.append(&mut split_walks);
                    proof {
                        assert(walks_view(results@) =~= walks_view(before) + walks_view(added));
                    }
                },
                Err(error) => {
                    proof {
                        lemma_set_walks_fail(set, (i + 1) as nat, set.len(), target_slot, slot_stack@);
                    }
                    return Err(error);
                },
            }
            i += 1;
        }
        Ok(results)
    }
}

/// A token after every walk is the cross product with the token's one walk.
pub proof fn lemma_cross_token(walks: Seq<Seq<TokenView>>, token: TokenView)
    ensures
        cross(walks, seq![seq![token]]) == with_token(walks, token),
    decreases walks.len(),
{
    if walks.len() > 0 {
        lemma_cross_token(walks.drop_last(), token);
        assert(continued(walks.last(), seq![seq![token]]) =~~= seq![walks.last().push(token)]);
        assert(with_token(walks, token) =~= with_token(walks.drop_last(), token).push(walks.last().push(token)));
    } else {
        assert(with_token(walks, token) =~= Seq::empty());
    }
}

/// The walks through one more item: those before it, crossed with its own.
pub proof fn lemma_prefix_walks_step(flow: Seq<FlowItemView>, n: nat, stack: Seq<Slot>)
    requires
        n < flow.len(),
    ensures
        prefix_walks(flow, n + 1, stack) == match (
            prefix_walks(flow, n, stack),
            item_walks(flow[n as int], stack),
        ) {
            (Some(before), Some(here)) => Some(cross(before, here)),
            _ => None,
        },
{
    assert((n + 1 - 1) as nat == n);
}

/// Once a prefix of a flow cannot be walked, no longer prefix can.
pub proof fn lemma_prefix_walks_fail(flow: Seq<FlowItemView>, n: nat, m: nat, stack: Seq<Slot>)
    requires
        n <= m <= flow.len(),
        prefix_walks(flow, n, stack) is None,
    ensures
        prefix_walks(flow, m, stack) is None,
    decreases m,
{
    if n < m {
        lemma_prefix_walks_fail(flow, n, (m - 1) as nat, stack);
    }
}

/// Once the first alternatives of a set cannot be walked, no more of them can.
pub proof fn lemma_set_walks_fail(set: Seq<SplitView>, n: nat, m: nat, slot: Slot, stack: Seq<Slot>)
    requires
        n <= m <= set.len(),
        set_walks(set, n, slot, stack) is None,
    ensures
        set_walks(set, m, slot, stack) is None,
    decreases m,
{
    if n < m {
        lemma_set_walks_fail(set, n, (m - 1) as nat, slot, stack);
    }
}

/// A flow with one more item holds a split if it did before or the item is one.
pub proof fn lemma_has_split_push(flow: Seq<FlowItemView>, item: FlowItemView)
    ensures
        has_split(flow.push(item)) == (has_split(flow) || item is Split),
{
    let longer = flow.push(item);
    if has_split(flow) {
        let k = choose|k: int| 0 <= k < flow.len() && flow[k] is Split;
        assert(longer[k] is Split);
    }
    if item is Split {
        assert(longer[flow.len() as int] is Split);
    }
    if has_split(longer) {
        let k = choose|k: int| 0 <= k < longer.len() && longer[k] is Split;
        if k < flow.len() {
            assert(flow[k] is Split);
        }
    }
}

/// A split in a prefix of a flow is a split of the flow.
pub proof fn lemma_has_split_prefix(flow: Seq<FlowItemView>, n: int)
    requires
        0 <= n <= flow.len(),
        has_split(flow.take(n)),
    ensures
        has_split(flow),
{
    let prefix = flow.take(n);
    let k = choose|k: int| 0 <= k < prefix.len() && prefix[k] is Split;
    assert(flow[k] is Split);
}

/// The tokens of the items of a flow that are tokens, in order.
pub open spec fn tokens_of(flow: Seq<FlowItemView>) -> Seq<TokenView>
    decreases flow.len(),
{
    if flow.len() == 0 {
        Seq::empty()
    } else {
        match flow.last() {
            FlowItemView::Token(token) => tokens_of(flow.drop_last()).push(token),
            FlowItemView::Split(_) => tokens_of(flow.drop_last()),
        }
    }
}

/// A flow without splits has one walk, whatever the stack: its tokens.
pub proof fn lemma_flat_flow_walk(flow: Seq<FlowItemView>, stack: Seq<Slot>)
    requires
        !has_split(flow),
    ensures
        flow_walks(flow, stack) == Some(seq![tokens_of(flow)]),
        stack_after(flow, stack) == stack,
{
    lemma_flat_prefix_walk(flow, flow.len(), stack);
    assert(flow.take(flow.len() as int) =~= flow);
}

/// The first items of a flow without splits have one walk: their tokens.
proof fn lemma_flat_prefix_walk(flow: Seq<FlowItemView>, n: nat, stack: Seq<Slot>)
    requires
        !has_split(flow),
        n <= flow.len(),
    ensures
        prefix_walks(flow, n, stack) == Some(seq![tokens_of(flow.take(n as int))]),
    decreases n,
{
    if n == 0 {
        assert(tokens_of(flow.take(0)) =~= Seq::<TokenView>::empty());
    } else {
        lemma_flat_prefix_walk(flow, (n - 1) as nat, stack);
        let before = tokens_of(flow.take(n - 1));
        let item = flow[n - 1];
        assert(item is Token);
        let token = item->Token_0;
        assert(item_walks(item, stack) == Some(seq![seq![token]]));
        lemma_cross_token(seq![before], token);
        assert(with_token(seq![before], token) =~~= seq![before.push(token)]);
        assert(flow.take(n as int).drop_last() =~= flow.take(n - 1));
        assert(flow.take(n as int).last() == item);
    }
}

/// Walking is decided by the flow and the stack alone: equal flows walked
/// against equal stacks give the same walks in the same order, or the same
/// error, and leave the same stack.
pub proof fn lemma_walks_determined(
    flow: Seq<FlowItemView>,
    stack: Seq<Slot>,
    other_flow: Seq<FlowItemView>,
    other_stack: Seq<Slot>,
)
    requires
        flow == other_flow,
        stack == other_stack,
    ensures
        found(flow_walks(flow, stack)) == found(flow_walks(other_flow, other_stack)),
        stack_after(flow, stack) == stack_after(other_flow, other_stack),
        resolved(flow, stack) == resolved(other_flow, other_stack),
{
}

/// How deep splits are nested in an item: a token has no level, and a split
/// has one level more than the deepest of the sub-flows of its alternatives.
pub open spec fn item_depth(item: FlowItemView) -> nat
    decreases item, 0nat,
{
    match item {
        FlowItemView::Token(_) => 0,
        FlowItemView::Split(set) => 1 + set_depth(set, set.len()),
    }
}

/// The deepest nesting among the sub-flows of the first `n` alternatives.
pub open spec fn set_depth(set: Seq<SplitView>, n: nat) -> nat
    decreases set, n,
{
    if n == 0 || n > set.len() {
        0
    } else {
        let before = set_depth(set, (n - 1) as nat);
        let here = depth(set[n - 1].flow);
        if before >= here {
            before
        } else {
            here
        }
    }
}

/// The deepest nesting among the first `n` items of a flow.
pub open spec fn prefix_depth(flow: Seq<FlowItemView>, n: nat) -> nat
    decreases flow, n,
{
    if n == 0 || n > flow.len() {
        0
    } else {
        let before = prefix_depth(flow, (n - 1) as nat);
        let here = item_depth(flow[n - 1]);
        if before >= here {
            before
        } else {
            here
        }
    }
}

/// The number of nesting levels of a flow.
pub open spec fn depth(flow: Seq<FlowItemView>) -> nat
    decreases flow, flow.len() + 1,
{
    prefix_depth(flow, flow.len())
}

/// A prefix is at least as deep as each of its items.
pub proof fn lemma_prefix_depth_bounds(flow: Seq<FlowItemView>, n: nat, k: int)
    requires
        0 <= k < n <= flow.len(),
    ensures
        item_depth(flow[k]) <= prefix_depth(flow, n),
    decreases n,
{
    if k < n - 1 {
        lemma_prefix_depth_bounds(flow, (n - 1) as nat, k);
    }
}

/// The first alternatives are at least as deep as each of their sub-flows.
pub proof fn lemma_set_depth_bounds(set: Seq<SplitView>, n: nat, k: int)
    requires
        0 <= k < n <= set.len(),
    ensures
        depth(set[k].flow) <= set_depth(set, n),
    decreases n,
{
    if k < n - 1 {
        lemma_set_depth_bounds(set, (n - 1) as nat, k);
    }
}

/// A prefix with a nesting level holds a split.
pub proof fn lemma_deep_prefix_has_split(flow: Seq<FlowItemView>, n: nat)
    requires
        n <= flow.len(),
        prefix_depth(flow, n) > 0,
    ensures
        has_split(flow),
    decreases n,
{
    if n > 0 {
        if item_depth(flow[n - 1]) > 0 {
            assert(flow[n - 1] is Split);
        } else {
            lemma_deep_prefix_has_split(flow, (n - 1) as nat);
        }
    }
}

/// A flow without nesting levels can be walked against any stack.
pub proof fn lemma_flat_prefix_walks(flow: Seq<FlowItemView>, n: nat, stack: Seq<Slot>)
    requires
        n <= flow.len(),
        prefix_depth(flow, n) == 0,
    ensures
        prefix_walks(flow, n, stack) is Some,
    decreases n,
{
    if n > 0 {
        assert(prefix_depth(flow, (n - 1) as nat) == 0 && item_depth(flow[n - 1]) == 0);
        lemma_flat_prefix_walks(flow, (n - 1) as nat, stack);
        assert(item_walks(flow[n - 1], stack) is Some);
    }
}

/// The alternatives of a split whose sub-flows have no nesting levels can be
/// walked for any slot against any stack.
pub proof fn lemma_flat_set_walks(set: Seq<SplitView>, n: nat, slot: Slot, stack: Seq<Slot>)
    requires
        n <= set.len(),
        set_depth(set, n) == 0,
    ensures
        set_walks(set, n, slot, stack) is Some,
    decreases n,
{
    if n > 0 {
        let sub = set[n - 1].flow;
        assert(set_depth(set, (n - 1) as nat) == 0 && depth(sub) == 0);
        lemma_flat_set_walks(set, (n - 1) as nat, slot, stack);
        lemma_flat_prefix_walks(sub, sub.len(), stack);
        assert(flow_walks(sub, stack) is Some);
        assert(split_walks(set[n - 1], slot, stack) is Some);
    }
}

/// A flow with at most one nesting level can be walked against any stack
/// that is not empty.
pub proof fn lemma_shallow_prefix_walks(flow: Seq<FlowItemView>, n: nat, stack: Seq<Slot>)
    requires
        n <= flow.len(),
        prefix_depth(flow, n) <= 1,
        stack.len() > 0,
    ensures
        prefix_walks(flow, n, stack) is Some,
    decreases n,
{
    if n > 0 {
        assert(prefix_depth(flow, (n - 1) as nat) <= 1 && item_depth(flow[n - 1]) <= 1);
        lemma_shallow_prefix_walks(flow, (n - 1) as nat, stack);
        match flow[n - 1] {
            FlowItemView::Token(_) => {},
            FlowItemView::Split(set) => {
                assert(set_depth(set, set.len()) == 0);
                lemma_flat_set_walks(set, set.len(), stack.last(), stack.drop_last());
            },
        }
        assert(item_walks(flow[n - 1], stack) is Some);
    }
}

/// A flow that holds a split cannot be walked against the empty stack.
pub proof fn lemma_split_needs_slot(flow: Seq<FlowItemView>)
    requires
        has_split(flow),
    ensures
        flow_walks(flow, Seq::empty()) is None,
        resolved(flow, Seq::empty()) == Err::<Seq<Seq<TokenView>>, SlotStackErrorView>(
            SlotStackErrorView::Empty,
        ),
{
    let stack = Seq::<Slot>::empty();
    let k = choose|k: int| 0 <= k < flow.len() && flow[k] is Split;
    lemma_prefix_walks_step(flow, k as nat, stack);
    lemma_prefix_walks_fail(flow, (k + 1) as nat, flow.len(), stack);
}

/// Resolving a flow takes at most one slot from the stack it is given: where
/// it succeeds, the stack held one slot if the flow holds a split, and none
/// if it does not.
pub proof fn lemma_resolved_stack(flow: Seq<FlowItemView>, stack: Seq<Slot>)
    requires
        resolved(flow, stack) is Ok,
    ensures
        stack.len() == (if has_split(flow) {
            1nat
        } else {
            0nat
        }),
{
    if has_split(flow) && stack.len() == 0 {
        lemma_split_needs_slot(flow);
        assert(stack =~= Seq::<Slot>::empty());
    }
}

/// A flow with at most one nesting level needs exactly as many slots as it
/// has levels: with fewer the stack runs empty, and with more the slots
/// below the used ones are left over.
pub proof fn lemma_stack_discipline(flow: Seq<FlowItemView>, stack: Seq<Slot>)
    requires
        depth(flow) <= 1,
    ensures
        stack.len() < depth(flow) ==> resolved(flow, stack) == Err::<
            Seq<Seq<TokenView>>,
            SlotStackErrorView,
        >(SlotStackErrorView::Empty),
        stack.len() == depth(flow) ==> resolved(flow, stack) is Ok,
        stack.len() > depth(flow) ==> resolved(flow, stack) == Err::<
            Seq<Seq<TokenView>>,
            SlotStackErrorView,
        >(SlotStackErrorView::Leftover { leftover: stack.take(stack.len() - depth(flow)) }),
{
    if depth(flow) == 0 {
        lemma_flat_prefix_walks(flow, flow.len(), stack);
        if has_split(flow) {
            let k = choose|k: int| 0 <= k < flow.len() && flow[k] is Split;
            lemma_prefix_depth_bounds(flow, flow.len(), k);
        }
        assert(stack.take(stack.len() as int) =~= stack);
    } else {
        lemma_deep_prefix_has_split(flow, flow.len());
        if stack.len() == 0 {
            lemma_split_needs_slot(flow);
            assert(stack =~= Seq::<Slot>::empty());
        } else {
            lemma_shallow_prefix_walks(flow, flow.len(), stack);
            assert(stack.drop_last() =~= stack.take(stack.len() - 1));
        }
    }
}

} // verus!
