use std::collections::BTreeSet;

use cheffu::order::Order;
use cheffu::parallel::gate::{Gate, GateType, Slot};

fn allow(slots: &[Slot]) -> Gate {
    Gate::allow(slots.to_vec())
}

fn block(slots: &[Slot]) -> Gate {
    Gate::block(slots.to_vec())
}

fn slot_set(slots: &[Slot]) -> BTreeSet<Slot> {
    slots.iter().cloned().collect()
}

#[test]
fn gate_test_allow_all() {
    let expected = block(&[]);
    let produced = Gate::allow_all();

    assert_eq!(expected, produced);
}

#[test]
fn gate_test_block_all() {
    let expected = allow(&[]);
    let produced = Gate::block_all();

    assert_eq!(expected, produced);
}

#[test]
fn gate_test_is_allow() {
    let gates_and_expected = vec![(allow(&[]), true), (block(&[]), false)];

    for (gate, expected) in gates_and_expected {
        let produced = gate.is_allow();
        assert_eq!(expected, produced);
    }
}

#[test]
fn gate_test_is_block() {
    let gates_and_expected = vec![(allow(&[]), false), (block(&[]), true)];

    for (gate, expected) in gates_and_expected {
        let produced = gate.is_block();
        assert_eq!(expected, produced);
    }
}

#[test]
fn test_is_allow_all() {
    let gates_and_expected = vec![
        (allow(&[]), false),
        (allow(&[0, 1, 2]), false),
        (block(&[]), true),
        (block(&[0, 1, 2]), false),
    ];

    for (gate, expected) in gates_and_expected {
        let produced = gate.is_allow_all();
        assert_eq!(expected, produced);
    }
}

#[test]
fn test_is_block_all() {
    let gates_and_expected = vec![
        (allow(&[]), true),
        (allow(&[0, 1, 2]), false),
        (block(&[]), false),
        (block(&[0, 1, 2]), false),
    ];

    for (gate, expected) in gates_and_expected {
        let produced = gate.is_block_all();
        assert_eq!(expected, produced);
    }
}

#[test]
fn test_slots() {
    let gates_and_expected = vec![
        (allow(&[]), slot_set(&[])),
        (allow(&[0, 1, 2]), slot_set(&[0, 1, 2])),
        (block(&[]), slot_set(&[])),
        (block(&[0, 1, 2]), slot_set(&[0, 1, 2])),
    ];

    for (gate, expected) in gates_and_expected {
        let produced = gate.slots();
        assert_eq!(&expected, produced);
    }
}

#[test]
fn gate_test_invert() {
    let slot_sets = vec![slot_set(&[0, 1, 2]), slot_set(&[]), slot_set(&[27])];

    for slot_set in slot_sets {
        let slots: Vec<Slot> = slot_set.iter().cloned().collect();

        let input = Gate::allow(slots.clone());
        let produced = input.invert();
        let expected = Gate::block(slots.clone());
        assert_eq!(expected, produced);

        let input = Gate::block(slots.clone());
        let produced = input.invert();
        let expected = Gate::allow(slots.clone());
        assert_eq!(expected, produced);
    }
}

#[test]
fn gate_test_allows_slot() {
    let inputs_and_expected = vec![
        ((allow(&[0, 1, 2]), 1), true),
        ((allow(&[0, 1, 2]), 3), false),
        ((block(&[0, 1, 2]), 1), false),
        ((block(&[0, 1, 2]), 3), true),
        ((allow(&[]), 0), false),
        ((block(&[]), 0), true),
    ];

    for ((gate, slot), expected) in inputs_and_expected {
        let produced = gate.allows_slot(slot);
        assert_eq!(expected, produced);
    }
}

#[test]
fn gate_test_blocks_slot() {
    let inputs_and_expected = vec![
        ((allow(&[0, 1, 2]), 1), false),
        ((allow(&[0, 1, 2]), 3), true),
        ((block(&[0, 1, 2]), 1), true),
        ((block(&[0, 1, 2]), 3), false),
        ((allow(&[]), 0), true),
        ((block(&[]), 0), false),
    ];

    for ((gate, slot), expected) in inputs_and_expected {
        let produced = gate.blocks_slot(slot);
        assert_eq!(expected, produced);
    }
}

#[test]
fn gate_test_union() {
    let inputs_and_expected = vec![
        ((allow(&[0, 1, 2]), allow(&[2, 3, 4])), allow(&[0, 1, 2, 3, 4])),
        ((allow(&[0, 1, 2]), block(&[2, 3, 4])), block(&[3, 4])),
        ((block(&[0, 1, 2]), allow(&[2, 3, 4])), block(&[0, 1])),
        ((block(&[0, 1, 2]), block(&[2, 3, 4])), block(&[2])),
    ];

    for ((l_gate, r_gate), expected) in inputs_and_expected {
        let produced = l_gate.union(&r_gate);
        assert_eq!(expected, produced);

        for slot in 0u8..10 {
            let l_is_allowed = l_gate.allows_slot(slot);
            let r_is_allowed = r_gate.allows_slot(slot);
            let u_is_allowed = produced.allows_slot(slot);

            assert_eq!(l_is_allowed || r_is_allowed, u_is_allowed);
        }
    }
}

#[test]
fn gate_test_intersection() {
    let inputs_and_expected = vec![
        ((allow(&[0, 1, 2]), allow(&[2, 3, 4])), allow(&[2])),
        ((allow(&[0, 1, 2]), block(&[2, 3, 4])), allow(&[0, 1])),
        ((block(&[0, 1, 2]), allow(&[2, 3, 4])), allow(&[3, 4])),
        ((block(&[0, 1, 2]), block(&[2, 3, 4])), block(&[0, 1, 2, 3, 4])),
        ((allow(&[0, 1, 2]), allow(&[3, 4, 5])), allow(&[])),
        ((allow(&[0, 1, 2]), block(&[0, 1, 2])), allow(&[])),
    ];

    for ((l_gate, r_gate), expected) in inputs_and_expected {
        let produced = l_gate.intersection(&r_gate);
        assert_eq!(expected, produced);

        for slot in 0u8..10 {
            let l_is_allowed = l_gate.allows_slot(slot);
            let r_is_allowed = r_gate.allows_slot(slot);
            let u_is_allowed = produced.allows_slot(slot);

            assert_eq!(l_is_allowed && r_is_allowed, u_is_allowed);
        }
    }
}

#[test]
fn gate_test_difference() {
    let inputs_and_expected = vec![
        ((allow(&[0, 1, 2]), allow(&[2, 3, 4])), allow(&[0, 1])),
        ((allow(&[0, 1, 2]), block(&[2, 3, 4])), allow(&[2])),
        ((block(&[0, 1, 2]), allow(&[2, 3, 4])), block(&[0, 1, 2, 3, 4])),
        ((block(&[0, 1, 2]), block(&[2, 3, 4])), allow(&[3, 4])),
        ((allow(&[0, 1, 2]), allow(&[3, 4, 5])), allow(&[0, 1, 2])),
        ((allow(&[0, 1, 2]), block(&[0, 1, 2])), allow(&[0, 1, 2])),
    ];

    for ((l_gate, r_gate), expected) in inputs_and_expected {
        let produced = l_gate.difference(&r_gate);
        assert_eq!(expected, produced);

        for slot in 0u8..10 {
            let l_is_allowed = l_gate.allows_slot(slot);
            let r_is_allowed = r_gate.allows_slot(slot);
            let u_is_allowed = produced.allows_slot(slot);

            assert_eq!(l_is_allowed & !r_is_allowed, u_is_allowed);
        }
    }
}

#[test]
fn gate_test_sym_difference() {
    let inputs_and_expected = vec![
        ((allow(&[0, 1, 2]), allow(&[2, 3, 4])), allow(&[0, 1, 3, 4])),
        ((allow(&[0, 1, 2]), block(&[2, 3, 4])), block(&[0, 1, 3, 4])),
        ((block(&[0, 1, 2]), allow(&[2, 3, 4])), block(&[0, 1, 3, 4])),
        ((block(&[0, 1, 2]), block(&[2, 3, 4])), allow(&[0, 1, 3, 4])),
        ((allow(&[0, 1, 2]), allow(&[3, 4, 5])), allow(&[0, 1, 2, 3, 4, 5])),
        ((allow(&[0, 1, 2]), block(&[0, 1, 2])), block(&[])),
    ];

    for ((l_gate, r_gate), expected) in inputs_and_expected {
        let produced = l_gate.sym_difference(&r_gate);
        assert_eq!(expected, produced);

        for slot in 0u8..10 {
            let l_is_allowed = l_gate.allows_slot(slot);
            let r_is_allowed = r_gate.allows_slot(slot);
            let u_is_allowed = produced.allows_slot(slot);

            assert_eq!(l_is_allowed ^ r_is_allowed, u_is_allowed);
        }
    }
}

#[test]
fn gate_kind_inverts_and_names_itself() {
    assert_eq!(GateType::Allow.invert(), GateType::Block);
    assert_eq!(GateType::Block.invert(), GateType::Allow);
    assert!(GateType::Allow.is_allow());
    assert!(!GateType::Allow.is_block());
    assert!(GateType::Block.is_block());
    assert!(!GateType::Block.is_allow());
    assert_eq!(GateType::Allow.label(), "ALLOW");
    assert_eq!(GateType::Block.label(), "BLOCK");
}

#[test]
fn gate_lists_a_repeated_slot_once() {
    assert_eq!(allow(&[0, 1, 0]), allow(&[0, 1]));
    assert_eq!(allow(&[2, 1, 2, 1]).slots(), &slot_set(&[1, 2]));
    assert_eq!(Gate::new(GateType::Block, vec![9, 9]), block(&[9]));
}

#[test]
fn gate_invert_twice_is_the_gate() {
    for gate in vec![allow(&[]), block(&[]), allow(&[0, 7, 255]), block(&[3])] {
        assert_eq!(gate.invert().invert(), gate);
        assert_ne!(gate.invert(), gate);
    }
}

#[test]
fn gate_algebra_decides_every_slot() {
    let gates = vec![
        allow(&[]),
        block(&[]),
        allow(&[0, 1, 2]),
        block(&[0, 1, 2]),
        allow(&[2, 3, 255]),
        block(&[2, 3, 255]),
    ];
    for a in &gates {
        for b in &gates {
            let union = a.union(b);
            let intersection = a.intersection(b);
            let difference = a.difference(b);
            let sym_difference = a.sym_difference(b);
            for slot in 0u8..=255 {
                let l = a.allows_slot(slot);
                let r = b.allows_slot(slot);
                assert_eq!(union.allows_slot(slot), l || r);
                assert_eq!(intersection.allows_slot(slot), l && r);
                assert_eq!(difference.allows_slot(slot), l && !r);
                assert_eq!(sym_difference.allows_slot(slot), l != r);
                assert_eq!(a.invert().allows_slot(slot), !l);
                assert_eq!(a.blocks_slot(slot), !l);
            }
        }
    }
}

#[test]
fn gate_that_allows_every_slot_by_name_is_not_allow_all() {
    let every: Vec<Slot> = (0u8..=255).collect();
    let gate = Gate::allow(every);
    assert!(!gate.is_allow_all());
    assert_ne!(gate, Gate::allow_all());
    for slot in 0u8..=255 {
        assert!(gate.allows_slot(slot));
    }
}

#[test]
fn gate_writes_itself_out() {
    assert_eq!(allow(&[0, 1, 2]).to_string(), "ALLOW({0, 1, 2})");
    assert_eq!(block(&[]).to_string(), "BLOCK({})");
    assert_eq!(allow(&[]).to_string(), "ALLOW({})");
    assert_eq!(block(&[27]).to_string(), "BLOCK({27})");
    assert_eq!(
        allow(&[255, 100, 10, 9, 0, 99, 101, 110, 200]).to_string(),
        "ALLOW({0, 9, 10, 99, 100, 101, 110, 200, 255})"
    );
    for gate in vec![allow(&[5, 3, 250]), block(&[1]), block(&[]), allow(&[7, 70])] {
        let kind = if gate.is_allow() { "ALLOW" } else { "BLOCK" };
        assert_eq!(gate.to_string(), format!("{}({:?})", kind, gate.slots()));
    }
}

#[test]
fn gate_order_is_the_order_of_its_kind_and_slots() {
    let gates = vec![
        allow(&[]),
        allow(&[0]),
        allow(&[0, 1]),
        allow(&[0, 2]),
        allow(&[1]),
        allow(&[255]),
        block(&[]),
        block(&[0, 255]),
        block(&[1]),
    ];
    for (i, a) in gates.iter().enumerate() {
        for (j, b) in gates.iter().enumerate() {
            let expected = if i < j {
                Order::Less
            } else if i == j {
                Order::Equal
            } else {
                Order::Greater
            };
            assert_eq!(a.compare(b), expected);
            assert_eq!(a.cmp(b) as i8, i.cmp(&j) as i8);
        }
    }
}
