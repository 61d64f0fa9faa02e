use r1cs_distributify::check::check_satisfied;
use r1cs_distributify::circuit::{is_well_formed, Circuit, Constraint};
use r1cs_distributify::distribute::{distribute, DistributeError};
use r1cs_distributify::field::Element;
use r1cs_distributify::metrics::{distributibility, nonzero_counts};
use r1cs_distributify::placement::placement_ranks;

fn fe(v: u64) -> Element {
    Element { limbs: [v, 0, 0, 0] }
}

fn terms(ts: &[(usize, u64)]) -> Vec<(usize, Element)> {
    ts.iter().map(|&(w, c)| (w, fe(c))).collect()
}

/// Wires 0 (constant), 1, 2, 3; one constraint (1 + 2 w1) * (3 w2) = w3.
fn worked_example() -> Circuit {
    Circuit {
        n_wires: 4,
        constraints: vec![Constraint {
            a: terms(&[(0, 1), (1, 2)]),
            b: terms(&[(2, 3)]),
            c: terms(&[(3, 1)]),
        }],
        witness: vec![fe(1), fe(1), fe(1), fe(9)],
        wire_mapping: vec![0, 1, 2, 3],
    }
}

#[test]
fn worked_example_layout() {
    let c = worked_example();
    assert!(is_well_formed(&c));
    let out = distribute(&c, 2).unwrap();
    assert_eq!(out.n_wires, 8);
    assert_eq!(out.constraints.len(), 1);
    // the lone constant term of A goes to the last block's slot 0
    assert_eq!(out.constraints[0].a, terms(&[(4, 1), (5, 2)]));
    assert_eq!(out.constraints[0].b, terms(&[(6, 3)]));
    assert_eq!(out.constraints[0].c, terms(&[(1, 1)]));
    assert_eq!(
        out.witness,
        vec![fe(1), fe(9), fe(0), fe(0), fe(1), fe(1), fe(1), fe(0)]
    );
    assert_eq!(out.wire_mapping, vec![0, 3, 0, 0, 0, 1, 2, 0]);
}

#[test]
fn worked_example_stays_satisfied() {
    let c = worked_example();
    assert!(check_satisfied(&c));
    let out = distribute(&c, 2).unwrap();
    assert!(is_well_formed(&out));
    assert!(check_satisfied(&out));
}

#[test]
fn unsatisfied_witness_is_detected() {
    let mut c = worked_example();
    c.witness[3] = fe(8);
    assert!(!check_satisfied(&c));
}

#[test]
fn check_reduces_modulo_the_field_order() {
    // p - 1, the field's minus one
    let minus_one = Element {
        limbs: [
            0x43e1f593f0000000,
            0x2833e84879b97091,
            0xb85045b68181585d,
            0x30644e72e131a029,
        ],
    };
    // (-1) * (-1) = 1
    let mut c = Circuit {
        n_wires: 2,
        constraints: vec![Constraint {
            a: vec![(1, minus_one)],
            b: vec![(1, minus_one)],
            c: terms(&[(0, 1)]),
        }],
        witness: vec![fe(1), fe(1)],
        wire_mapping: vec![0, 0],
    };
    assert!(check_satisfied(&c));
    // (-1) + 1 = 0, so (0) * (-1) = 0
    c.constraints[0].a = vec![(1, minus_one), (0, fe(1))];
    c.constraints[0].c = vec![];
    assert!(check_satisfied(&c));
    c.constraints[0].c = terms(&[(0, 1)]);
    assert!(!check_satisfied(&c));
}

#[test]
fn zero_subprovers_is_rejected() {
    assert_eq!(distribute(&worked_example(), 0), Err(DistributeError::NoSubprovers));
}

#[test]
fn blocks_too_small_is_rejected() {
    // 5 wires over 3 subprovers: 8 wires in blocks of 2 cannot hold 4 wires and 3 constants
    let c = Circuit {
        n_wires: 5,
        constraints: vec![],
        witness: vec![fe(1); 5],
        wire_mapping: vec![0; 5],
    };
    assert_eq!(distribute(&c, 3), Err(DistributeError::BlocksTooSmall));
    // 5 wires over 4 subprovers fit: 8 wires in blocks of 2
    let out = distribute(&c, 4).unwrap();
    assert_eq!(out.n_wires, 8);
}

#[test]
fn too_many_wires_is_rejected() {
    let c = Circuit {
        n_wires: 1,
        constraints: vec![],
        witness: vec![fe(1)],
        wire_mapping: vec![0],
    };
    assert_eq!(
        distribute(&c, (usize::MAX >> 1) + 2),
        Err(DistributeError::TooManyWires)
    );
}

#[test]
fn wire_count_is_next_power_of_two() {
    for (w, n, e) in [(4usize, 2usize, 8usize), (3, 1, 4), (5, 4, 8), (9, 1, 16), (8, 1, 8), (1, 1, 1), (2, 2, 4)] {
        let c = Circuit {
            n_wires: w,
            constraints: vec![],
            witness: vec![fe(1); w],
            wire_mapping: vec![0; w],
        };
        let out = distribute(&c, n).unwrap();
        assert_eq!(out.n_wires, e, "wires {} subprovers {}", w, n);
        assert_eq!(out.witness.len(), e);
        assert_eq!(out.wire_mapping.len(), e);
    }
}

/// Wire k (1..=6) appears k times in A, so the weights order them 6, 5, ..., 1.
fn weighted_circuit() -> Circuit {
    let mut a = Vec::new();
    for k in 1..=6usize {
        for _ in 0..k {
            a.push((k, fe(1)));
        }
    }
    a.push((0, fe(5)));
    Circuit {
        n_wires: 7,
        constraints: vec![Constraint { a, b: terms(&[(0, 1)]), c: vec![] }],
        witness: (0..7).map(|v| fe(100 + v)).collect(),
        wire_mapping: (0..7).map(|v| 10 + v).collect(),
    }
}

#[test]
fn snake_scan_alternates_direction() {
    let c = weighted_circuit();
    let out = distribute(&c, 2).unwrap();
    assert_eq!(out.n_wires, 8);
    // positions 0..6 go to blocks 0, 1, 1, 0, 0, 1 in slots 1, 1, 2, 2, 3, 3
    let expected_place = [(6usize, 1usize), (5, 5), (4, 6), (3, 2), (2, 3), (1, 7)];
    for (wire, place) in expected_place {
        assert_eq!(out.witness[place], fe(100 + wire as u64));
        assert_eq!(out.wire_mapping[place], 10 + wire as u64);
    }
    assert_eq!(out.witness[0], fe(1));
    assert_eq!(out.witness[4], fe(1));
    assert_eq!(out.wire_mapping[0], 0);
    assert_eq!(out.wire_mapping[4], 0);
    // the constant terms: one in A and one in B, each taken by the last block
    assert_eq!(out.constraints[0].a.last(), Some(&(4, fe(5))));
    assert_eq!(out.constraints[0].b, terms(&[(4, 1)]));
}

#[test]
fn constant_terms_are_split_in_consecutive_slices() {
    // five constant terms in A over two subprovers: slices of two, the last taking three
    let c = Circuit {
        n_wires: 2,
        constraints: vec![
            Constraint { a: terms(&[(0, 1), (0, 2)]), b: vec![], c: terms(&[(1, 1)]) },
            Constraint { a: terms(&[(0, 3), (1, 7), (0, 4), (0, 5)]), b: vec![], c: vec![] },
        ],
        witness: vec![fe(1), fe(3)],
        wire_mapping: vec![0, 1],
    };
    let out = distribute(&c, 2).unwrap();
    // 2 + 2 - 1 = 3 wires round up to 4, blocks of 2
    assert_eq!(out.n_wires, 4);
    assert_eq!(out.constraints[0].a, terms(&[(0, 1), (0, 2)]));
    assert_eq!(out.constraints[1].a, terms(&[(2, 3), (1, 7), (2, 4), (2, 5)]));
    assert_eq!(out.constraints[0].c, terms(&[(1, 1)]));
    assert_eq!(out.witness, vec![fe(1), fe(3), fe(1), fe(0)]);
}

#[test]
fn single_subprover_keeps_constant_whole() {
    let c = weighted_circuit();
    let out = distribute(&c, 1).unwrap();
    assert_eq!(out.constraints.len(), c.constraints.len());
    assert_eq!(nonzero_counts(&out), nonzero_counts(&c));
    assert_eq!(out.constraints[0].b, terms(&[(0, 1)]));
    assert_eq!(out.constraints[0].a.last(), Some(&(0, fe(5))));
    assert_eq!(out.witness[0], fe(1));
}

#[test]
fn nonzero_counts_are_conserved() {
    let c = weighted_circuit();
    assert_eq!(nonzero_counts(&c), (22, 1, 0));
    for n in [1usize, 2, 4] {
        let out = distribute(&c, n).unwrap();
        assert_eq!(nonzero_counts(&out), (22, 1, 0));
    }
}

#[test]
fn each_wire_lands_in_one_slot() {
    let c = weighted_circuit();
    let out = distribute(&c, 2).unwrap();
    let bs = out.n_wires / 2;
    for v in 1..7u64 {
        let places: Vec<usize> = (0..out.n_wires)
            .filter(|&i| out.wire_mapping[i] == 10 + v)
            .collect();
        assert_eq!(places.len(), 1);
        assert_ne!(places[0] % bs, 0);
    }
}

#[test]
fn split_is_deterministic() {
    let c = weighted_circuit();
    assert_eq!(distribute(&c, 2), distribute(&c, 2));
}

#[test]
fn ties_keep_wire_order() {
    // weights of wires 1..5: 2, 0, 2, 1, 0
    let ranks = placement_ranks(&vec![9, 2, 0, 2, 1, 0]);
    assert_eq!(&ranks[1..], &[0, 3, 1, 2, 4]);
}

#[test]
fn distributibility_of_worked_example() {
    let c = worked_example();
    // runs of two wires: {0, 1} and {2, 3}; A puts both its terms on the first
    assert_eq!(distributibility(&c, 2), Some(2));
    assert_eq!(distributibility(&c, 1), Some(2));
    assert_eq!(distributibility(&c, 0), None);
    assert_eq!(distributibility(&c, 5), None);
}

#[test]
fn malformed_circuits_are_recognised() {
    let mut c = worked_example();
    c.constraints[0].b.push((4, fe(1)));
    assert!(!is_well_formed(&c));
    let mut c = worked_example();
    c.witness.pop();
    assert!(!is_well_formed(&c));
}

#[test]
fn squaring_chain_stays_satisfied() {
    // x1 = 2 * 1, then x(i+1) = xi * xi
    let mut constraints = vec![Constraint {
        a: terms(&[(0, 2)]),
        b: terms(&[(0, 1)]),
        c: terms(&[(1, 1)]),
    }];
    for i in 1..5usize {
        constraints.push(Constraint {
            a: terms(&[(i, 1)]),
            b: terms(&[(i, 1)]),
            c: terms(&[(i + 1, 1)]),
        });
    }
    let c = Circuit {
        n_wires: 6,
        constraints,
        witness: vec![fe(1), fe(2), fe(4), fe(16), fe(256), fe(65536)],
        wire_mapping: vec![0, 1, 2, 3, 4, 5],
    };
    assert!(check_satisfied(&c));
    for n in [1usize, 2, 4] {
        let out = distribute(&c, n).unwrap();
        assert!(is_well_formed(&out));
        assert!(check_satisfied(&out), "{} subprovers", n);
        assert_eq!(nonzero_counts(&out), nonzero_counts(&c));
    }
    assert_eq!(distribute(&c, 4).unwrap().n_wires, 16);
}
