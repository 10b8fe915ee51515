use triad::dispatch::plan_transaction;
use triad::network::{is_edge, NetworkGraph, NetworkTopology};

#[test]
fn full_mesh_two_nodes_reach_each_other() {
    let g = NetworkGraph::setup_topology(2, &NetworkTopology::FullMesh);
    assert_eq!(g.neighbors(0), &vec![1]);
    assert_eq!(g.neighbors(1), &vec![0]);
    // no decay: every reachable node keeps amplitude 1
    let consensus_nodes = g.propagate_wave(0, None);
    assert_eq!(consensus_nodes, 2);
    assert_eq!(g.node_count(), 2);
    assert_eq!(g.wave_consensus(0, None), (2, true));
}

#[test]
fn isolated_node_counts_only_itself() {
    let topology = NetworkTopology::Custom { connections: vec![(1, vec![2])] };
    let g = NetworkGraph::setup_topology(3, &topology);
    assert!(g.neighbors(0).is_empty());
    assert_eq!(g.propagate_wave(0, None), 1);
    assert_eq!(g.propagate_wave(0, Some(5)), 1);
    assert_eq!(g.propagate_wave(1, None), 2);
}

#[test]
fn ring_wave_respects_hop_limit() {
    let g = NetworkGraph::setup_topology(6, &NetworkTopology::Ring);
    assert_eq!(g.propagate_wave(0, Some(0)), 1);
    assert_eq!(g.propagate_wave(0, Some(1)), 3);
    assert_eq!(g.propagate_wave(0, Some(2)), 5);
    assert_eq!(g.propagate_wave(0, Some(3)), 6);
    assert_eq!(g.propagate_wave(0, Some(100)), 6);
}

#[test]
fn star_connects_through_center() {
    let g = NetworkGraph::setup_topology(4, &NetworkTopology::Star { central_node: 2 });
    assert!(is_edge(&NetworkTopology::Star { central_node: 2 }, 4, 0, 2));
    assert!(!is_edge(&NetworkTopology::Star { central_node: 2 }, 4, 0, 1));
    assert_eq!(g.neighbors(2).len(), 3);
    assert_eq!(g.propagate_wave(0, Some(1)), 2);
    assert_eq!(g.propagate_wave(0, Some(2)), 4);
}

#[test]
fn edges_outside_the_network_are_ignored() {
    let topology = NetworkTopology::Custom { connections: vec![(0, vec![9]), (3, vec![0])] };
    let g = NetworkGraph::setup_topology(2, &topology);
    assert!(g.neighbors(0).is_empty());
    assert!(!is_edge(&topology, 2, 0, 9));
    assert!(is_edge(&topology, 4, 0, 3));
}

#[test]
fn half_the_nodes_is_enough_to_agree() {
    let g = NetworkGraph::setup_topology(4, &NetworkTopology::Ring);
    assert_eq!(g.wave_consensus(0, Some(0)), (1, false));
    assert_eq!(g.wave_consensus(0, Some(1)), (3, true));
    let split = NetworkGraph::setup_topology(4, &NetworkTopology::Custom { connections: vec![(0, vec![1])] });
    assert_eq!(split.wave_consensus(0, None), (2, true));
    assert_eq!(split.wave_consensus(2, None), (1, false));
}

#[test]
fn two_node_mesh_transaction_reaches_agreement() {
    // two nodes of two qubits: the transaction entangles a qubit of each node
    for start in 0..2 {
        let plan = plan_transaction(start, 2, 2, "transfer 10 coins").unwrap();
        assert!(plan.first_qubit >= start * 2 && plan.first_qubit < start * 2 + 2);
        let (other, qubit) = plan.partner.unwrap();
        assert_eq!(other, 1 - start);
        assert!(qubit >= other * 2 && qubit < other * 2 + 2);
        let g = NetworkGraph::setup_topology(2, &NetworkTopology::FullMesh);
        let (consensus_nodes, consensus) = g.wave_consensus(start, None);
        assert_eq!(g.node_count(), 2);
        assert!(consensus_nodes <= 2);
        assert_eq!(consensus_nodes, 2);
        assert!(consensus);
    }
}
