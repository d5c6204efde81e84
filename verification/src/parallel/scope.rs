//! Scopes: the nesting of branch points, each under its own gate, which is
//! active when its sub-scopes are entered.

use vstd::prelude::*;
use crate::parallel::gate::{Gate, GateView};

verus! {

/// One level of nesting. Its sub-scopes are the branch points met one after
/// the other at this level, not the alternatives of one branch point.
#[derive(PartialEq, Eq)]
pub struct Scope {
    pub(crate) active_gate: Gate,
    pub(crate) subscopes: Vec<Scope>,
}

/// The mathematical value of a [`Scope`].
pub struct ScopeView {
    /// Decides which slots can be chosen inside the scope.
    pub active_gate: GateView,
    pub subscopes: Seq<ScopeView>,
}

/// The values of a vector of scopes.
pub open spec fn scope_views(scopes: Seq<Scope>) -> Seq<ScopeView> {
    scopes.map_values(|scope: Scope| scope@)
}

impl Scope {
    pub open(crate) spec fn model(&self) -> ScopeView
        decreases self,
    {
        ScopeView {
            active_gate: self.active_gate@,
            subscopes: Seq::new(
                self.subscopes.len() as nat,
                |i: int|
                    if 0 <= i < self.subscopes.len() {
                        self.subscopes[i].model()
                    } else {
                        arbitrary()
                    },
            ),
        }
    }

    pub fn new(active_gate: Gate, subscopes: Vec<Scope>) -> (r: Self)
        ensures
            r@ == (ScopeView { active_gate: active_gate@, subscopes: scope_views(subscopes@) }),
    {
        let r = Scope { active_gate, subscopes };
        assert(r@.subscopes =~= scope_views(r.subscopes@));
        r
    }

    fn copy(&self) -> (r: Scope)
        ensures
            r@ == self@,
        decreases self,
    {
        let mut subscopes: Vec<Scope> = Vec::new();
        let mut i: usize = 0;
        while i < self.subscopes.len()
            invariant
                i <= self.subscopes.len(),
                scope_views(subscopes@) == self@.subscopes.take(i as int),
            decreases self.subscopes.len() - i,
        {
            let scope = self.subscopes[i].copy();
            subscopes.push(scope);
            proof {
                let inner = self@.subscopes;
                assert(inner[i as int] == self.subscopes[i as int]@);
                assert(scope_views(subscopes@) =~= inner.take(i as int).push(inner[i as int]));
                assert(inner.take(i + 1) =~= inner.take(i as int).push(inner[i as int]));
            }
            i += 1;
        }
        let r = Scope { active_gate: self.active_gate.clone(), subscopes };
        proof {
            assert(self@.subscopes.take(i as int) =~= self@.subscopes);
            assert(r@.subscopes =~= scope_views(r.subscopes@));
        }
        r
    }
}

impl View for Scope {
    type V = ScopeView;

    open(crate) spec fn view(&self) -> ScopeView {
        self.model()
    }
}

impl Clone for Scope {
    fn clone(&self) -> (r: Self)
        ensures
            r@ == self@,
    {
        self.copy()
    }
}

} // verus!
