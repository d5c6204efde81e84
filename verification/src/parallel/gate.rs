use vstd::prelude::*;
use std::collections::BTreeSet;
use vstd::string::StringExecFns;
use crate::text::{listed, push_listed};
use crate::order::{
    compare_bytes, lemma_order_bytes_equal, lemma_order_ints_flip, lemma_order_ints_transitive,
    byte_values, order_bytes, order_int, Order,
};

verus! {

broadcast use {vstd::std_specs::btree::group_btree_axioms, vstd::laws_cmp::group_laws_cmp};

/// An identifier for one variant pathway through a procedure.
pub type Slot = u8;

/// A set of slots.
pub type SlotSet = BTreeSet<Slot>;

/// Whether the slots that a gate lists are the allowed ones or the blocked ones.
#[derive(Debug, Clone, Copy, PartialEq, Eq, Hash, PartialOrd, Ord, Structural)]
pub enum GateType {
    Allow,
    Block,
}

impl GateType {
    pub open spec fn inverse(self) -> GateType {
        match self {
            GateType::Allow => GateType::Block,
            GateType::Block => GateType::Allow,
        }
    }

    pub fn is_allow(&self) -> (r: bool)
        ensures
            r == (*self is Allow),
    {
        match self {
            GateType::Allow => true,
            GateType::Block => false,
        }
    }

    pub fn is_block(&self) -> (r: bool)
        ensures
            r == (*self is Block),
    {
        match self {
            GateType::Allow => false,
            GateType::Block => true,
        }
    }

    pub fn invert(&self) -> (r: Self)
        ensures
            r == self.inverse(),
    {
        match self {
            GateType::Allow => GateType::Block,
            GateType::Block => GateType::Allow,
        }
    }

    /// The name of the kind in capitals.
    pub fn label(&self) -> (r: &'static str)
        ensures
            r@ == self.name(),
    {
        match self {
            GateType::Allow => "ALLOW",
            GateType::Block => "BLOCK",
        }
    }
}

/// A filter on slots: an allow-list or a block-list.
///
/// Two gates are equal when they are of the same kind and list the same
/// slots. A gate that lists every slot as allowed is therefore not equal to
/// a gate that blocks none.
#[derive(Debug, PartialEq, Eq, Hash, PartialOrd, Ord)]
pub struct Gate(pub(crate) GateType, pub(crate) SlotSet);

/// The mathematical value of a [`Gate`]: its kind and the set of slots it lists.
pub struct GateView {
    pub kind: GateType,
    pub slots: Set<Slot>,
}

impl GateType {
    /// The name of the kind in capitals.
    pub open spec fn name(self) -> Seq<char> {
        match self {
            GateType::Allow => "ALLOW"@,
            GateType::Block => "BLOCK"@,
        }
    }
}

impl GateView {
    /// A gate written out: the name of its kind, and in brackets its slots
    /// in increasing order, as for `ALLOW({0, 1, 2})`.
    pub open spec fn text(self) -> Seq<char> {
        self.kind.name() + seq!['(', '{'] + listed(ascending(self.slots)) + seq!['}', ')']
    }

    /// A gate that blocks no slot.
    pub open spec fn allow_all() -> GateView {
        GateView { kind: GateType::Block, slots: Set::empty() }
    }

    /// A gate that allows no slot.
    pub open spec fn block_all() -> GateView {
        GateView { kind: GateType::Allow, slots: Set::empty() }
    }

    /// Only the block-list that lists nothing counts as allow-all.
    pub open spec fn is_allow_all(self) -> bool {
        self.kind is Block && self.slots =~= Set::<Slot>::empty()
    }

    /// Only the allow-list that lists nothing counts as block-all.
    pub open spec fn is_block_all(self) -> bool {
        self.kind is Allow && self.slots =~= Set::<Slot>::empty()
    }

    /// A slot is allowed if and only if it is listed by an allow-list or not
    /// listed by a block-list.
    pub open spec fn allows(self, slot: Slot) -> bool {
        self.slots.contains(slot) == (self.kind is Allow)
    }

    pub open spec fn blocks(self, slot: Slot) -> bool {
        !self.allows(slot)
    }

    /// The same slots under the other kind.
    pub open spec fn invert(self) -> GateView {
        GateView { kind: self.kind.inverse(), slots: self.slots }
    }

    pub open spec fn union(self, other: GateView) -> GateView {
        match (self.kind, other.kind) {
            (GateType::Allow, GateType::Allow) => GateView {
                kind: GateType::Allow,
                slots: self.slots.union(other.slots),
            },
            (GateType::Allow, GateType::Block) => GateView {
                kind: GateType::Block,
                slots: other.slots.difference(self.slots),
            },
            (GateType::Block, GateType::Allow) => GateView {
                kind: GateType::Block,
                slots: self.slots.difference(other.slots),
            },
            (GateType::Block, GateType::Block) => GateView {
                kind: GateType::Block,
                slots: self.slots.intersect(other.slots),
            },
        }
    }

    pub open spec fn intersection(self, other: GateView) -> GateView {
        match (self.kind, other.kind) {
            (GateType::Allow, GateType::Allow) => GateView {
                kind: GateType::Allow,
                slots: self.slots.intersect(other.slots),
            },
            (GateType::Allow, GateType::Block) => GateView {
                kind: GateType::Allow,
                slots: self.slots.difference(other.slots),
            },
            (GateType::Block, GateType::Allow) => GateView {
                kind: GateType::Allow,
                slots: other.slots.difference(self.slots),
            },
            (GateType::Block, GateType::Block) => GateView {
                kind: GateType::Block,
                slots: self.slots.union(other.slots),
            },
        }
    }

    pub open spec fn difference(self, other: GateView) -> GateView {
        self.intersection(other.invert())
    }

    pub open spec fn sym_difference(self, other: GateView) -> GateView {
        GateView {
            kind: if self.kind == other.kind {
                GateType::Allow
            } else {
                GateType::Block
            },
            slots: self.slots.difference(other.slots).union(other.slots.difference(self.slots)),
        }
    }
}

impl View for Gate {
    type V = GateView;

    open(crate) spec fn view(&self) -> GateView {
        GateView { kind: self.0, slots: self.1@ }
    }
}

/// The set of the slots that a vector holds.
fn set_of(slots: &Vec<Slot>) -> (r: SlotSet)
    ensures
        r@ == slots@.to_set(),
{
    let mut r: SlotSet = BTreeSet::new();
    let mut i: usize = 0;
    while i < slots.len()
        invariant
            i <= slots.len(),
            forall|x: Slot| r@.contains(x) <==> exists|j: int| 0 <= j < i && slots@[j] == x,
        decreases slots.len() - i,
    {
        r.insert(slots[i]);
        i += 1;
    }
    assert(r@ =~= slots@.to_set());
    r
}

/// The slots of `a` and those of `b`.
fn set_union(a: &SlotSet, b: &SlotSet) -> (r: SlotSet)
    ensures
        r@ == a@.union(b@),
{
    let mut r: SlotSet = a.clone();
    for x in it: b.iter()
        invariant
            it.seq().unref().to_set() == b@,
            forall|y: Slot|
                r@.contains(y) <==> a@.contains(y) || exists|j: int|
                    0 <= j < it.index() && it.seq().unref()[j] == y,
            it.index() == it.seq().len() ==> r@ == a@.union(b@),
    {
        r.insert(*x);
        proof {
            assert forall|y: Slot| it.index() + 1 == it.seq().len() implies (r@.contains(y)
                <==> a@.union(b@).contains(y)) by {
                assert(b@.contains(y) ==> it.seq().unref().contains(y));
            }
            assert(it.index() + 1 == it.seq().len() ==> r@ =~= a@.union(b@));
        }
    }
    r
}

/// The slots of `a` that `b` holds too (`keep`), or those that it does not.
fn set_filter(a: &SlotSet, b: &SlotSet, keep: bool) -> (r: SlotSet)
    ensures
        r@ == (if keep {
            a@.intersect(b@)
        } else {
            a@.difference(b@)
        }),
{
    let mut r: SlotSet = BTreeSet::new();
    let ghost goal = if keep {
        a@.intersect(b@)
    } else {
        a@.difference(b@)
    };
    for x in it: a.iter()
        invariant
            it.seq().unref().to_set() == a@,
            goal == (if keep {
                a@.intersect(b@)
            } else {
                a@.difference(b@)
            }),
            forall|y: Slot|
                r@.contains(y) <==> b@.contains(y) == keep && exists|j: int|
                    0 <= j < it.index() && it.seq().unref()[j] == y,
            it.index() == it.seq().len() ==> r@ == goal,
    {
        if b.contains(x) == keep {
            r.insert(*x);
        }
        proof {
            assert forall|y: Slot| it.index() + 1 == it.seq().len() implies (r@.contains(y)
                <==> goal.contains(y)) by {
                assert(a@.contains(y) ==> it.seq().unref().contains(y));
            }
            assert(it.index() + 1 == it.seq().len() ==> r@ =~= goal);
        }
    }
    r
}

impl Clone for Gate {
    fn clone(&self) -> (r: Self)
        ensures
            r@ == self@,
    {
        Gate(self.0, self.1.clone())
    }
}

/// Whether slots increase strictly.
pub open spec fn increasing(slots: Seq<Slot>) -> bool {
    forall|i: int, j: int| 0 <= i < j < slots.len() ==> slots[i] < slots[j]
}

/// The slots of a set below a bound are in increasing order, and below the
/// bound.
pub proof fn lemma_ascending_increasing(slots: Set<Slot>, bound: nat)
    requires
        bound <= 256,
    ensures
        increasing(ascending_below(slots, bound)),
        forall|i: int|
            0 <= i < ascending_below(slots, bound).len() ==> ascending_below(slots, bound)[i] < bound,
    decreases bound,
{
    if bound > 0 {
        lemma_ascending_increasing(slots, (bound - 1) as nat);
    }
}

/// Two increasing sequences that hold the same slots are the same sequence.
pub proof fn lemma_increasing_unique(a: Seq<Slot>, b: Seq<Slot>)
    requires
        increasing(a),
        increasing(b),
        a.to_set() == b.to_set(),
    ensures
        a == b,
    decreases a.len(),
{
    if a.len() == 0 {
        if b.len() > 0 {
            assert(b.contains(b[0]));
            assert(a.to_set().contains(b[0]));
        }
        assert(a =~= b);
    } else {
        let la = a.len() - 1;
        assert(a.contains(a[la]));
        assert(b.to_set().contains(a[la]));
        let j = choose|j: int| 0 <= j < b.len() && b[j] == a[la];
        let lb = b.len() - 1;
        assert(b.contains(b[lb]));
        assert(a.to_set().contains(b[lb]));
        let i = choose|i: int| 0 <= i < a.len() && a[i] == b[lb];
        assert(a[la] == b[lb]);
        let ra = a.drop_last();
        let rb = b.drop_last();
        assert forall|x: Slot| ra.to_set().contains(x) == rb.to_set().contains(x) by {
            if ra.contains(x) {
                let k = choose|k: int| 0 <= k < ra.len() && ra[k] == x;
                assert(a[k] == x);
                assert(a.contains(x));
                assert(b.to_set().contains(x));
                let m = choose|m: int| 0 <= m < b.len() && b[m] == x;
                assert(rb[m] == x);
            }
            if rb.contains(x) {
                let k = choose|k: int| 0 <= k < rb.len() && rb[k] == x;
                assert(b[k] == x);
                assert(b.contains(x));
                assert(a.to_set().contains(x));
                let m = choose|m: int| 0 <= m < a.len() && a[m] == x;
                assert(ra[m] == x);
            }
        }
        assert(ra.to_set() =~= rb.to_set());
        lemma_increasing_unique(ra, rb);
        assert(a =~= ra.push(a[la]));
        assert(b =~= rb.push(b[lb]));
    }
}

/// Puts a slot at its place among slots in increasing order, unless it is
/// there already. The search starts at the end, where a slot greater than
/// all the others belongs.
fn insert_slot(slots: &mut Vec<Slot>, slot: Slot)
    requires
        increasing(old(slots)@),
    ensures
        increasing(final(slots)@),
        final(slots)@.to_set() == old(slots)@.to_set().insert(slot),
{
    let ghost before = slots@;
    let mut p: usize = slots.len();
    while p > 0 && slots[p - 1] > slot
        invariant
            p <= slots.len(),
            slots@ == before,
            increasing(before),
            forall|k: int| p <= k < before.len() ==> before[k] > slot,
        decreases p,
    {
        p -= 1;
    }
    if p > 0 && slots[p - 1] == slot {
        proof {
            assert(before.contains(slot));
            assert(before.to_set() =~= before.to_set().insert(slot));
        }
        return ;
    }
    slots.insert(p, slot);
    proof {
        let after = slots@;
        assert(after =~= before.insert(p as int, slot));
        assert forall|i: int, j: int| 0 <= i < j < after.len() implies after[i] < after[j] by {
            if i < p {
                assert(after[i] == before[i]);
                if p > 0 {
                    assert(before[i] <= before[p - 1]);
                }
            } else if i > p {
                assert(after[i] == before[i - 1]);
            }
            if j < p {
                assert(after[j] == before[j]);
            } else if j > p {
                assert(after[j] == before[j - 1]);
            }
        }
        assert forall|x: Slot| after.to_set().contains(x) <==> before.to_set().insert(slot).contains(
            x,
        ) by {
            if after.contains(x) {
                let i = choose|i: int| 0 <= i < after.len() && after[i] == x;
                if i < p {
                    assert(before[i] == x);
                } else if i > p {
                    assert(before[i - 1] == x);
                }
            }
            if before.contains(x) {
                let i = choose|i: int| 0 <= i < before.len() && before[i] == x;
                if i < p {
                    assert(after[i] == x);
                } else {
                    assert(after[i + 1] == x);
                }
            }
            if x == slot {
                assert(after[p as int] == x);
            }
        }
        assert(after.to_set() =~= before.to_set().insert(slot));
    }
}

/// The slots of a set in increasing order.
fn ascending_slots(slots: &SlotSet) -> (r: Vec<Slot>)
    ensures
        r@ == ascending(slots@),
{
    let mut r: Vec<Slot> = Vec::new();
    let ghost mut seen: Set<Slot> = Set::empty();
    proof {
        assert(r@.to_set() =~= seen);
        lemma_ascending_below(slots@, 256);
        lemma_ascending_increasing(slots@, 256);
        assert(ascending(slots@).to_set() =~= slots@);
        if slots@ =~= Set::<Slot>::empty() {
            lemma_increasing_unique(r@, ascending(slots@));
        }
    }
    for x in it: slots.iter()
        invariant
            it.seq().unref().to_set() == slots@,
            increasing(r@),
            r@.to_set() == seen,
            forall|y: Slot|
                seen.contains(y) <==> exists|j: int|
                    0 <= j < it.index() && it.seq().unref()[j] == y,
            increasing(ascending(slots@)),
            ascending(slots@).to_set() == slots@,
            slots@ =~= Set::<Slot>::empty() ==> r@ == ascending(slots@),
            it.index() == it.seq().len() ==> r@ == ascending(slots@),
    {
        insert_slot(&mut r, *x);
        proof {
            seen = seen.insert(*x);
            assert forall|y: Slot| it.index() + 1 == it.seq().len() implies (seen.contains(y)
                <==> slots@.contains(y)) by {
                assert(slots@.contains(y) ==> it.seq().unref().contains(y));
            }
            assert(it.index() + 1 == it.seq().len() ==> seen =~= slots@);
            if r@.to_set() == slots@ {
                lemma_increasing_unique(r@, ascending(slots@));
            }
        }
    }
    r
}

impl Gate {
    /// Compares two gates.
    pub fn compare(&self, other: &Gate) -> (r: Order)
        ensures
            r == order_gate(self@, other@),
            r is Equal <==> self@ == other@,
    {
        proof {
            lemma_order_gate(self@, other@, other@);
        }
        match (self.0, other.0) {
            (GateType::Allow, GateType::Block) => Order::Less,
            (GateType::Block, GateType::Allow) => Order::Greater,
            _ => compare_bytes(&ascending_slots(&self.1), &ascending_slots(&other.1)),
        }
    }

    /// This gate written out, as `ALLOW({0, 1, 2})` or `BLOCK({})`.
    pub fn to_string(&self) -> (r: String)
        ensures
            r@ == self@.text(),
    {
        let mut r = String::from_str(self.0.label());
        proof {
            reveal_strlit("({");
            reveal_strlit("})");
        }
        r.append("({");
        push_listed(&mut r, &ascending_slots(&self.1));
        r.append("})");
        proof {
            assert("({"@ =~= seq!['(', '{']);
            assert("})"@ =~= seq!['}', ')']);
            assert(r@ =~= self@.text());
        }
        r
    }

    /// A gate of the given kind that lists the given slots. A slot given
    /// twice is listed once.
    pub fn new(gate_type: GateType, slots: Vec<Slot>) -> (r: Self)
        ensures
            r@ == (GateView { kind: gate_type, slots: slots@.to_set() }),
    {
        Gate(gate_type, set_of(&slots))
    }

    /// A gate that allows exactly the given slots.
    pub fn allow(slots: Vec<Slot>) -> (r: Self)
        ensures
            r@ == (GateView { kind: GateType::Allow, slots: slots@.to_set() }),
            forall|slot: Slot| r@.allows(slot) <==> slots@.contains(slot),
    {
        Gate::new(GateType::Allow, slots)
    }

    /// A gate that blocks exactly the given slots.
    pub fn block(slots: Vec<Slot>) -> (r: Self)
        ensures
            r@ == (GateView { kind: GateType::Block, slots: slots@.to_set() }),
            forall|slot: Slot| r@.allows(slot) <==> !slots@.contains(slot),
    {
        Gate::new(GateType::Block, slots)
    }

    /// A gate that allows every slot: the block-list that lists nothing.
    pub fn allow_all() -> (r: Self)
        ensures
            r@ == GateView::allow_all(),
            forall|slot: Slot| r@.allows(slot),
    {
        Gate(GateType::Block, BTreeSet::new())
    }

    /// A gate that blocks every slot: the allow-list that lists nothing.
    pub fn block_all() -> (r: Self)
        ensures
            r@ == GateView::block_all(),
            forall|slot: Slot| !r@.allows(slot),
    {
        Gate(GateType::Allow, BTreeSet::new())
    }

    /// Whether this gate is an allow-list.
    pub fn is_allow(&self) -> (r: bool)
        ensures
            r == (self@.kind is Allow),
    {
        self.0.is_allow()
    }

    /// Whether this gate is a block-list.
    pub fn is_block(&self) -> (r: bool)
        ensures
            r == (self@.kind is Block),
    {
        self.0.is_block()
    }

    /// Whether this gate is the block-list that lists nothing.
    pub fn is_allow_all(&self) -> (r: bool)
        ensures
            r == self@.is_allow_all(),
            r == (self@ == GateView::allow_all()),
    {
        self.is_block() && self.1.is_empty()
    }

    /// Whether this gate is the allow-list that lists nothing.
    pub fn is_block_all(&self) -> (r: bool)
        ensures
            r == self@.is_block_all(),
            r == (self@ == GateView::block_all()),
    {
        self.is_allow() && self.1.is_empty()
    }

    /// The slots that this gate lists.
    pub fn slots(&self) -> (r: &SlotSet)
        ensures
            r@ == self@.slots,
    {
        &self.1
    }

    /// A gate that allows what this one blocks and blocks what it allows.
    pub fn invert(&self) -> (r: Self)
        ensures
            r@ == self@.invert(),
            forall|slot: Slot| r@.allows(slot) == !self@.allows(slot),
    {
        Gate(self.0.invert(), self.1.clone())
    }

    pub fn allows_slot(&self, slot: Slot) -> (r: bool)
        ensures
            r == self@.allows(slot),
    {
        self.1.contains(&slot) == self.is_allow()
    }

    pub fn blocks_slot(&self, slot: Slot) -> (r: bool)
        ensures
            r == self@.blocks(slot),
            r == !self@.allows(slot),
    {
        !self.allows_slot(slot)
    }

    /// A gate that allows the slots allowed by either gate.
    pub fn union(&self, gate: &Self) -> (r: Self)
        ensures
            r@ == self@.union(gate@),
            forall|slot: Slot| r@.allows(slot) == (self@.allows(slot) || gate@.allows(slot)),
    {
        let ls = self.slots();
        let rs = gate.slots();
        match (self.0, gate.0) {
            (GateType::Allow, GateType::Allow) => Gate(GateType::Allow, set_union(ls, rs)),
            (GateType::Allow, GateType::Block) => Gate(GateType::Block, set_filter(rs, ls, false)),
            (GateType::Block, GateType::Allow) => Gate(GateType::Block, set_filter(ls, rs, false)),
            (GateType::Block, GateType::Block) => Gate(GateType::Block, set_filter(ls, rs, true)),
        }
    }

    /// A gate that allows the slots allowed by both gates.
    pub fn intersection(&self, gate: &Self) -> (r: Self)
        ensures
            r@ == self@.intersection(gate@),
            forall|slot: Slot| r@.allows(slot) == (self@.allows(slot) && gate@.allows(slot)),
    {
        let ls = self.slots();
        let rs = gate.slots();
        match (self.0, gate.0) {
            (GateType::Allow, GateType::Allow) => Gate(GateType::Allow, set_filter(ls, rs, true)),
            (GateType::Allow, GateType::Block) => Gate(GateType::Allow, set_filter(ls, rs, false)),
            (GateType::Block, GateType::Allow) => Gate(GateType::Allow, set_filter(rs, ls, false)),
            (GateType::Block, GateType::Block) => Gate(GateType::Block, set_union(ls, rs)),
        }
    }

    /// A gate that allows the slots allowed by this gate and not by the other one.
    pub fn difference(&self, gate: &Self) -> (r: Self)
        ensures
            r@ == self@.difference(gate@),
            forall|slot: Slot| r@.allows(slot) == (self@.allows(slot) && !gate@.allows(slot)),
    {
        self.intersection(&gate.invert())
    }

    /// A gate that allows the slots allowed by exactly one of the gates.
    pub fn sym_difference(&self, gate: &Self) -> (r: Self)
        ensures
            r@ == self@.sym_difference(gate@),
            forall|slot: Slot| r@.allows(slot) == (self@.allows(slot) != gate@.allows(slot)),
    {
        let ls = self.slots();
        let rs = gate.slots();
        let slots = set_union(&set_filter(ls, rs, false), &set_filter(rs, ls, false));
        match (self.0, gate.0) {
            (GateType::Allow, GateType::Allow) | (GateType::Block, GateType::Block) => Gate(
                GateType::Allow,
                slots,
            ),
            (GateType::Allow, GateType::Block) | (GateType::Block, GateType::Allow) => Gate(
                GateType::Block,
                slots,
            ),
        }
    }
}

/// The slots of a set that are below `bound`, in increasing order.
pub open spec fn ascending_below(slots: Set<Slot>, bound: nat) -> Seq<Slot>
    decreases bound,
{
    if bound == 0 {
        Seq::empty()
    } else {
        let before = ascending_below(slots, (bound - 1) as nat);
        let slot = (bound - 1) as Slot;
        if bound <= 256 && slots.contains(slot) {
            before.push(slot)
        } else {
            before
        }
    }
}

/// The slots of a set in increasing order.
pub open spec fn ascending(slots: Set<Slot>) -> Seq<Slot> {
    ascending_below(slots, 256)
}

/// The order of gates: allow-lists before block-lists, and gates of one kind
/// by their slots in increasing order, as in a dictionary.
pub open spec fn order_gate(a: GateView, b: GateView) -> Order {
    order_int(
        if a.kind is Allow {
            0
        } else {
            1
        },
        if b.kind is Allow {
            0
        } else {
            1
        },
    ).chain(order_bytes(ascending(a.slots), ascending(b.slots)))
}

/// The increasing sequence holds the slots of the set below the bound, and no others.
pub proof fn lemma_ascending_below(slots: Set<Slot>, bound: nat)
    requires
        bound <= 256,
    ensures
        forall|slot: Slot|
            ascending_below(slots, bound).contains(slot) <==> slots.contains(slot) && slot < bound,
    decreases bound,
{
    if bound > 0 {
        let before = ascending_below(slots, (bound - 1) as nat);
        let last = (bound - 1) as Slot;
        lemma_ascending_below(slots, (bound - 1) as nat);
        assert forall|slot: Slot|
            ascending_below(slots, bound).contains(slot) <==> slots.contains(slot) && slot
                < bound by {
            if slots.contains(last) {
                let now = before.push(last);
                assert(now[before.len() as int] == last);
                if now.contains(slot) {
                    let i = choose|i: int| 0 <= i < now.len() && now[i] == slot;
                    if i < before.len() {
                        assert(before[i] == slot);
                    }
                }
                if before.contains(slot) {
                    let i = choose|i: int| 0 <= i < before.len() && before[i] == slot;
                    assert(now[i] == slot);
                }
            }
        }
    }
}

/// Gates tie exactly when they are the same, a comparison read from the
/// other side is flipped, and what comes before is transitive.
pub proof fn lemma_order_gate(a: GateView, b: GateView, c: GateView)
    ensures
        order_gate(a, b) is Equal <==> a == b,
        order_gate(b, a) == order_gate(a, b).flip(),
        order_gate(a, b) is Less && order_gate(b, c) is Less ==> order_gate(a, c) is Less,
{
    let x = ascending(a.slots);
    let y = ascending(b.slots);
    let z = ascending(c.slots);
    lemma_order_bytes_equal(x, y);
    lemma_order_ints_flip(byte_values(x), byte_values(y));
    if order_bytes(x, y) is Less && order_bytes(y, z) is Less {
        lemma_order_ints_transitive(byte_values(x), byte_values(y), byte_values(z));
    }
    lemma_order_bytes_equal(y, z);
    lemma_order_bytes_equal(x, z);
    if x == y {
        lemma_ascending_below(a.slots, 256);
        lemma_ascending_below(b.slots, 256);
        assert(a.slots =~= b.slots);
    }
}

/// Inverting a gate twice gives back the same gate, kind and slots.
pub proof fn lemma_invert_involution(gate: GateView)
    ensures
        gate.invert().invert() == gate,
{
}

/// The four combinations decide every slot as the two gates do.
pub proof fn lemma_gate_algebra(a: GateView, b: GateView, slot: Slot)
    ensures
        a.invert().allows(slot) == !a.allows(slot),
        a.union(b).allows(slot) == (a.allows(slot) || b.allows(slot)),
        a.intersection(b).allows(slot) == (a.allows(slot) && b.allows(slot)),
        a.difference(b).allows(slot) == (a.allows(slot) && !b.allows(slot)),
        a.sym_difference(b).allows(slot) == (a.allows(slot) != b.allows(slot)),
{
}

/// Union and intersection do not mind the order of the two gates, and a
/// gate combined with itself stays as it is.
pub proof fn lemma_gate_symmetry(a: GateView, b: GateView)
    ensures
        a.union(b) == b.union(a),
        a.intersection(b) == b.intersection(a),
        a.sym_difference(b) == b.sym_difference(a),
        a.union(a) == a,
        a.intersection(a) == a,
{
    assert(a.union(b).slots =~= b.union(a).slots);
    assert(a.intersection(b).slots =~= b.intersection(a).slots);
    assert(a.sym_difference(b).slots =~= b.sym_difference(a).slots);
    assert(a.union(a).slots =~= a.slots);
    assert(a.intersection(a).slots =~= a.slots);
}

/// Union and intersection of three gates do not mind how the gates are
/// grouped.
pub proof fn lemma_gate_grouping(a: GateView, b: GateView, c: GateView)
    ensures
        a.union(b).union(c) == a.union(b.union(c)),
        a.intersection(b).intersection(c) == a.intersection(b.intersection(c)),
{
    assert(a.union(b).union(c).slots =~= a.union(b.union(c)).slots);
    assert(a.intersection(b).intersection(c).slots =~= a.intersection(b.intersection(c)).slots);
}

/// Inverting turns a union into the intersection of the inverted gates, and
/// an intersection into their union.
pub proof fn lemma_gate_inverse(a: GateView, b: GateView)
    ensures
        a.union(b).invert() == a.invert().intersection(b.invert()),
        a.intersection(b).invert() == a.invert().union(b.invert()),
        GateView::allow_all().invert() == GateView::block_all(),
        GateView::block_all().invert() == GateView::allow_all(),
{
    assert(a.union(b).invert().slots =~= a.invert().intersection(b.invert()).slots);
    assert(a.intersection(b).invert().slots =~= a.invert().union(b.invert()).slots);
}

} // verus!
