use triad::dispatch::{
    interference_nodes, plan_dispatch, plan_transaction, schedule_from_digest, transaction_bytes, transaction_operations,
    DispatchPlan, QuantumOperation,
};
use triad::gates::{BasicGate, GateType, MeasurementOperator, Operator, OperatorType, TwoQubitGate};

#[test]
fn dispatch_from_digest() {
    let digest = vec![7u8, 0, 5, 9];
    let plan = plan_dispatch(1, 3, 2, &digest).unwrap();
    assert_eq!(plan, DispatchPlan { first_qubit: 3, partner: Some((2, 5)) });
    // the pick falls on the receiving node: the first other node is used
    let digest = vec![0u8, 0, 4, 0];
    let plan = plan_dispatch(1, 3, 2, &digest).unwrap();
    assert_eq!(plan.partner, Some((0, 0)));
    assert_eq!(plan_dispatch(0, 1, 2, &digest), Some(DispatchPlan { first_qubit: 0, partner: None }));
    assert_eq!(plan_dispatch(3, 3, 2, &digest), None);
}

#[test]
fn transaction_bytes_append_node_index() {
    let b = transaction_bytes("ab", 258);
    assert_eq!(b, vec![b'a', b'b', 2, 1, 0, 0, 0, 0, 0, 0]);
}

#[test]
fn transaction_plan_is_deterministic_and_in_range() {
    let first_plan = plan_transaction(0, 4, 3, "tx-1").unwrap();
    let second_plan = plan_transaction(0, 4, 3, "tx-1").unwrap();
    assert_eq!(first_plan, second_plan);
    assert!(first_plan.first_qubit < 3);
    let (node, qubit) = first_plan.partner.unwrap();
    assert!(node != 0 && node < 4);
    assert!(qubit >= node * 3 && qubit < node * 3 + 3);
}

#[test]
fn transaction_plan_uses_sha256() {
    // SHA-256 of b"abc" followed by eight zero bytes begins 75, 92, 111, 211.
    let msg = transaction_bytes("abc", 0);
    assert_eq!(msg.len(), 11);
    let plan = plan_transaction(0, 2, 256, "abc").unwrap();
    assert_eq!(plan, DispatchPlan { first_qubit: 75, partner: Some((1, 256 + 211)) });
}

#[test]
fn gate_names() {
    assert_eq!(GateType::Hadamard.to_string(), "Hadamard");
    assert_eq!(GateType::RotationZ.to_string(), "RotationZ");
    assert_eq!(GateType::Measure.to_string(), "Measure");
    assert_eq!(BasicGate::T.name(), "T");
    assert_eq!(TwoQubitGate::SWAP.name(), "SWAP");
    assert_eq!(TwoQubitGate::CZ.num_qubits(), 2);
}

#[test]
fn measurement_operator() {
    let m = MeasurementOperator::new(4);
    assert_eq!(m.qubit_idx, 4);
    assert!(m.store_result);
    assert_eq!(m.get_type(), OperatorType::Measurement);
    assert_eq!(m.get_affected_qubits(), vec![4]);
    assert!(m.is_state_changing());
    assert!(!m.is_reversible());
}

#[test]
fn node_schedule_follows_digest_bytes() {
    let digest = vec![4u8, 5, 6, 7, 8];
    let ops = schedule_from_digest(&digest, 3);
    assert_eq!(ops, vec![
        QuantumOperation::SingleQubit { gate: BasicGate::Hadamard, target: 0 },
        QuantumOperation::SingleQubit { gate: BasicGate::PauliX, target: 1 },
        QuantumOperation::SingleQubit { gate: BasicGate::PauliZ, target: 2 },
    ]);
    let one = schedule_from_digest(&vec![3u8], 1);
    assert_eq!(one, vec![QuantumOperation::SingleQubit { gate: BasicGate::PauliY, target: 0 }]);
    let two = schedule_from_digest(&vec![3u8, 3], 2);
    assert_eq!(two[1], QuantumOperation::CNOT { control: 1, target: 0 });
    // SHA-256("abc") begins 0xba 0x78 0x16 0xbf: bytes % 4 are 2, 0, 2, 3
    let ops = transaction_operations("abc", 2);
    assert_eq!(ops, vec![
        QuantumOperation::SingleQubit { gate: BasicGate::PauliZ, target: 0 },
        QuantumOperation::SingleQubit { gate: BasicGate::Hadamard, target: 1 },
    ]);
    assert!(transaction_operations("abc", 0).is_empty());
}

#[test]
fn involved_nodes_follow_entangled_pairs() {
    assert_eq!(interference_nodes(1, 4, 2, &vec![]), vec![1]);
    // qubits 0..2 belong to node 0, 2..4 to node 1, 4..6 to node 2, 6..8 to node 3
    let pairs = vec![(3, 6), (2, 5), (0, 9)];
    assert_eq!(interference_nodes(1, 4, 2, &pairs), vec![1, 3, 2, 0]);
}
