//! Walks written out as a sequence of tokens and gate marks.
//!
//! A walk through a procedure can be written as its tokens in order, with a
//! mark where the walk enters the scope of a gate and a mark where it leaves
//! it again. Such a sequence is sound if the marks nest: every leaving mark
//! names what was entered last and not left yet, and at the end no scope is
//! open.

use vstd::prelude::*;
use crate::parallel::gate::{Gate, GateView};
use crate::order::Order;
use crate::token::{Token, TokenView};

verus! {

/// Why the marks of a walk do not nest.
#[derive(Debug, PartialEq, Eq)]
pub enum GateOpError {
    /// A scope was left where none was open.
    EmptyStack,
    /// A scope was left that is not the one entered last.
    StackMismatch { expected: Gate, produced: Gate },
    /// The walk ended with these scopes open, the outermost first.
    StackLeftover { leftover: Vec<Gate> },
}

/// The mathematical value of a [`GateOpError`].
pub enum GateOpErrorView {
    EmptyStack,
    StackMismatch { expected: GateView, produced: GateView },
    StackLeftover { leftover: Seq<GateView> },
}

/// The values of a vector of gates.
pub open spec fn gate_views(gates: Seq<Gate>) -> Seq<GateView> {
    gates.map_values(|gate: Gate| gate@)
}

impl View for GateOpError {
    type V = GateOpErrorView;

    open spec fn view(&self) -> GateOpErrorView {
        match self {
            GateOpError::EmptyStack => GateOpErrorView::EmptyStack,
            GateOpError::StackMismatch { expected, produced } => GateOpErrorView::StackMismatch {
                expected: expected@,
                produced: produced@,
            },
            GateOpError::StackLeftover { leftover } => GateOpErrorView::StackLeftover {
                leftover: gate_views(leftover@),
            },
        }
    }
}

/// One item of a walk written out: a token, or the mark that the scope of a
/// gate is entered (`Push`) or left (`Pop`).
#[derive(Clone, Copy, PartialEq, Eq, Hash, Debug, PartialOrd, Ord)]
pub enum WalkItem<'a> {
    Token(&'a Token),
    Push(&'a Gate),
    Pop(&'a Gate),
}

/// The mathematical value of a [`WalkItem`].
pub enum WalkItemView {
    Token(TokenView),
    Push(GateView),
    Pop(GateView),
}

impl<'a> View for WalkItem<'a> {
    type V = WalkItemView;

    open spec fn view(&self) -> WalkItemView {
        match self {
            WalkItem::Token(token) => WalkItemView::Token(token@),
            WalkItem::Push(gate) => WalkItemView::Push(gate@),
            WalkItem::Pop(gate) => WalkItemView::Pop(gate@),
        }
    }
}

/// A walk written out, from start to finish.
pub struct WalkItemSeq<'a>(pub Vec<WalkItem<'a>>);

/// The values of a vector of walk items.
pub open spec fn walk_item_views(items: Seq<WalkItem>) -> Seq<WalkItemView> {
    items.map_values(|item: WalkItem| item@)
}

/// Where a walk stands: the tokens met, and the gates whose scope is open,
/// the outermost first.
pub struct Progress {
    pub tokens: Seq<TokenView>,
    pub open: Seq<GateView>,
}

/// Where a walk stands after one more item.
pub open spec fn step(before: Progress, item: WalkItemView) -> Result<Progress, GateOpErrorView> {
    match item {
        WalkItemView::Token(token) => Ok(Progress { tokens: before.tokens.push(token), open: before.open }),
        WalkItemView::Push(gate) => Ok(Progress { tokens: before.tokens, open: before.open.push(gate) }),
        WalkItemView::Pop(gate) => if before.open.len() == 0 {
            Err(GateOpErrorView::EmptyStack)
        } else if before.open.last() != gate {
            Err(GateOpErrorView::StackMismatch { expected: gate, produced: before.open.last() })
        } else {
            Ok(Progress { tokens: before.tokens, open: before.open.drop_last() })
        },
    }
}

/// Where a walk stands after its first `n` items, or the first error met.
pub open spec fn progress(items: Seq<WalkItemView>, n: nat) -> Result<Progress, GateOpErrorView>
    decreases n,
{
    if n == 0 || n > items.len() {
        Ok(Progress { tokens: Seq::empty(), open: Seq::empty() })
    } else {
        match progress(items, (n - 1) as nat) {
            Ok(before) => step(before, items[n - 1]),
            Err(error) => Err(error),
        }
    }
}

/// The tokens of a walk whose gate marks nest, or what is wrong with them.
pub open spec fn processed(items: Seq<WalkItemView>) -> Result<Seq<TokenView>, GateOpErrorView> {
    match progress(items, items.len()) {
        Err(error) => Err(error),
        Ok(end) => if end.open.len() == 0 {
            Ok(end.tokens)
        } else {
            Err(GateOpErrorView::StackLeftover { leftover: end.open })
        },
    }
}

/// The tokens that references stand for.
pub open spec fn token_views(tokens: Seq<&Token>) -> Seq<TokenView> {
    tokens.map_values(|token: &Token| token@)
}

/// The gates that references stand for.
pub open spec fn borrowed_gate_views(gates: Seq<&Gate>) -> Seq<GateView> {
    gates.map_values(|gate: &Gate| gate@)
}

/// The value of what processing a walk returns.
pub open spec fn process_view(res: Result<Vec<&Token>, GateOpError>) -> Result<
    Seq<TokenView>,
    GateOpErrorView,
> {
    match res {
        Ok(tokens) => Ok(token_views(tokens@)),
        Err(error) => Err(error@),
    }
}

/// Once a walk has met an error, it keeps it.
pub proof fn lemma_progress_fails(items: Seq<WalkItemView>, n: nat, m: nat)
    requires
        n <= m <= items.len(),
        progress(items, n) is Err,
    ensures
        progress(items, m) == progress(items, n),
    decreases m,
{
    if n < m {
        lemma_progress_fails(items, n, (m - 1) as nat);
    }
}

impl<'a> WalkItemSeq<'a> {
    /// The tokens of the walk in order, if its gate marks nest.
    pub fn process(&self) -> (res: Result<Vec<&'a Token>, GateOpError>)
        ensures
            process_view(res) == processed(walk_item_views(self.0@)),
    {
        let ghost items = walk_item_views(self.0@);
        let mut gate_stack: Vec<&Gate> = Vec::new();
        let mut tokens: Vec<&Token> = Vec::new();
        let mut i: usize = 0;
        proof {
            assert(token_views(tokens@) =~= Seq::<TokenView>::empty());
            assert(borrowed_gate_views(gate_stack@) =~= Seq::<GateView>::empty());
        }
        while i < self.0.len()
            invariant
                i <= self.0.len(),
                items == walk_item_views(self.0@),
                progress(items, i as nat) == Ok::<Progress, GateOpErrorView>(
                    Progress {
                        tokens: token_views(tokens@),
                        open: borrowed_gate_views(gate_stack@),
                    },
                ),
            decreases self.0.len() - i,
        {
            let ghost before = Progress {
                tokens: token_views(tokens@),
                open: borrowed_gate_views(gate_stack@),
            };
            proof {
                assert(items[i as int] == self.0[i as int]@);
                assert(progress(items, (i + 1) as nat) == step(before, items[i as int]));
            }
            match self.0[i] {
                WalkItem::Token(token) => {
                    tokens.push(token);
                    proof {
                        assert(token_views(tokens@) =~= before.tokens.push(token@));
                    }
                },
                WalkItem::Push(gate) => {
                    gate_stack.push(gate);
                    proof {
                        assert(borrowed_gate_views(gate_stack@) =~= before.open.push(gate@));
                    }
                },
                WalkItem::Pop(gate) => {
                    let popped = match gate_stack.pop() {
                        Some(popped) => popped,
                        None => {
                            proof {
                                lemma_progress_fails(items, (i + 1) as nat, items.len());
                            }
                            return Err(GateOpError::EmptyStack);
                        },
                    };
                    proof {
                        assert(before.open.last() == popped@);
                        assert(borrowed_gate_views(gate_stack@) =~= before.open.drop_last());
                    }
                    match gate.compare(popped) {
                        Order::Equal => {},
                        _ => {
                            proof {
                                lemma_progress_fails(items, (i + 1) as nat, items.len());
                            }
                            return Err(
                                GateOpError::StackMismatch {
                                    expected: gate.clone(),
                                    produced: popped.clone(),
                                },
                            );
                        },
                    }
                },
            }
            i += 1;
        }
        if gate_stack.len() > 0 {
            let mut leftover: Vec<Gate> = Vec::new();
            let mut k: usize = 0;
            while k < gate_stack.len()
                invariant
                    k <= gate_stack.len(),
                    gate_views(leftover@) == borrowed_gate_views(gate_stack@).take(k as int),
                decreases gate_stack.len() - k,
            {
                leftover.push(gate_stack[k].clone());
                proof {
                    let all = borrowed_gate_views(gate_stack@);
                    assert(gate_views(leftover@) =~= all.take(k as int).push(all[k as int]));
                    assert(all.take(k + 1) =~= all.take(k as int).push(all[k as int]));
                }
                k += 1;
            }
            proof {
                let all = borrowed_gate_views(gate_stack@);
                assert(all.take(k as int) =~= all);
            }
            return Err(GateOpError::StackLeftover { leftover });
        }
        Ok(tokens)
    }
}

} // verus!
