//! Names and kinds of gates, operators and related events.

use vstd::prelude::*;

verus! {

/// The single-qubit gates of the basic gate set.
#[derive(Clone, Copy, Debug, PartialEq, Eq)]
pub enum BasicGate {
    Hadamard,
    PauliX,
    PauliY,
    PauliZ,
    S,
    T,
}

pub open spec fn basic_gate_name(g: BasicGate) -> Seq<char> {
    match g {
        BasicGate::Hadamard => "Hadamard"@,
        BasicGate::PauliX => "PauliX"@,
        BasicGate::PauliY => "PauliY"@,
        BasicGate::PauliZ => "PauliZ"@,
        BasicGate::S => "S"@,
        BasicGate::T => "T"@,
    }
}

impl BasicGate {
    /// Its name.
    pub fn name(&self) -> (r: &'static str)
        ensures
            r@ == basic_gate_name(*self),
    {
        match self {
            BasicGate::Hadamard => "Hadamard",
            BasicGate::PauliX => "PauliX",
            BasicGate::PauliY => "PauliY",
            BasicGate::PauliZ => "PauliZ",
            BasicGate::S => "S",
            BasicGate::T => "T",
        }
    }

    /// Every basic gate acts on one qubit.
    pub fn num_qubits(&self) -> (r: usize)
        ensures
            r == 1,
    {
        1
    }
}

/// The axis of a rotation gate.
#[derive(Clone, Copy, Debug, PartialEq, Eq)]
pub enum Axis {
    X,
    Y,
    Z,
}

pub open spec fn rotation_name(a: Axis) -> Seq<char> {
    match a {
        Axis::X => "RX"@,
        Axis::Y => "RY"@,
        Axis::Z => "RZ"@,
    }
}

impl Axis {
    /// The name of the rotation about this axis.
    pub fn rotation_name(&self) -> (r: &'static str)
        ensures
            r@ == rotation_name(*self),
    {
        match self {
            Axis::X => "RX",
            Axis::Y => "RY",
            Axis::Z => "RZ",
        }
    }
}

/// The two-qubit gates.
#[derive(Clone, Copy, Debug, PartialEq, Eq)]
pub enum TwoQubitGate {
    CNOT,
    CZ,
    SWAP,
}

pub open spec fn two_qubit_gate_name(g: TwoQubitGate) -> Seq<char> {
    match g {
        TwoQubitGate::CNOT => "CNOT"@,
        TwoQubitGate::CZ => "CZ"@,
        TwoQubitGate::SWAP => "SWAP"@,
    }
}

impl TwoQubitGate {
    /// Its name.
    pub fn name(&self) -> (r: &'static str)
        ensures
            r@ == two_qubit_gate_name(*self),
    {
        match self {
            TwoQubitGate::CNOT => "CNOT",
            TwoQubitGate::CZ => "CZ",
            TwoQubitGate::SWAP => "SWAP",
        }
    }

    /// Every two-qubit gate acts on two qubits.
    pub fn num_qubits(&self) -> (r: usize)
        ensures
            r == 2,
    {
        2
    }
}

/// The kinds of gate a circuit may hold.
#[derive(Clone, Copy, Debug, PartialEq, Eq, Hash)]
pub enum GateType {
    Hadamard,
    PauliX,
    PauliY,
    PauliZ,
    Phase,
    RotationX,
    RotationY,
    RotationZ,
    CNOT,
    CZ,
    SWAP,
    Toffoli,
    Custom,
    Measure,
}

pub open spec fn gate_type_name(g: GateType) -> Seq<char> {
    match g {
        GateType::Hadamard => "Hadamard"@,
        GateType::PauliX => "PauliX"@,
        GateType::PauliY => "PauliY"@,
        GateType::PauliZ => "PauliZ"@,
        GateType::Phase => "Phase"@,
        GateType::RotationX => "RotationX"@,
        GateType::RotationY => "RotationY"@,
        GateType::RotationZ => "RotationZ"@,
        GateType::CNOT => "CNOT"@,
        GateType::CZ => "CZ"@,
        GateType::SWAP => "SWAP"@,
        GateType::Toffoli => "Toffoli"@,
        GateType::Custom => "Custom"@,
        GateType::Measure => "Measure"@,
    }
}

impl GateType {
    /// Its name.
    pub fn to_string(&self) -> (r: String)
        ensures
            r@ == gate_type_name(*self),
    {
        match self {
            GateType::Hadamard => "Hadamard".to_owned(),
            GateType::PauliX => "PauliX".to_owned(),
            GateType::PauliY => "PauliY".to_owned(),
            GateType::PauliZ => "PauliZ".to_owned(),
            GateType::Phase => "Phase".to_owned(),
            GateType::RotationX => "RotationX".to_owned(),
            GateType::RotationY => "RotationY".to_owned(),
            GateType::RotationZ => "RotationZ".to_owned(),
            GateType::CNOT => "CNOT".to_owned(),
            GateType::CZ => "CZ".to_owned(),
            GateType::SWAP => "SWAP".to_owned(),
            GateType::Toffoli => "Toffoli".to_owned(),
            GateType::Custom => "Custom".to_owned(),
            GateType::Measure => "Measure".to_owned(),
        }
    }
}

/// The kinds of quantum operator.
#[derive(Clone, Copy, Debug, PartialEq, Eq)]
pub enum OperatorType {
    Unitary,
    Measurement,
    Channel,
    Superposition,
}

/// What every operator tells about itself.
pub trait Operator {
    /// The kind of operator.
    fn get_type(&self) -> OperatorType;

    /// The qubits it acts on.
    fn get_affected_qubits(&self) -> Vec<usize>;

    /// Whether applying it changes the state.
    fn is_state_changing(&self) -> bool;

    /// Whether it can be undone.
    fn is_reversible(&self) -> bool;
}

/// The measurement of one qubit.
#[derive(Clone, Copy, Debug, PartialEq, Eq)]
pub struct MeasurementOperator {
    pub qubit_idx: usize,
    pub store_result: bool,
}

impl MeasurementOperator {
    /// Measures `qubit_idx`, keeping the result.
    pub fn new(qubit_idx: usize) -> (r: Self)
        ensures
            r.qubit_idx == qubit_idx,
            r.store_result,
    {
        MeasurementOperator { qubit_idx, store_result: true }
    }
}

impl Operator for MeasurementOperator {
    fn get_type(&self) -> OperatorType {
        OperatorType::Measurement
    }

    fn get_affected_qubits(&self) -> Vec<usize> {
        vec![self.qubit_idx]
    }

    fn is_state_changing(&self) -> bool {
        true
    }

    fn is_reversible(&self) -> bool {
        false
    }
}

/// What a delta describes.
#[derive(Clone, Copy, Debug, PartialEq, Eq)]
pub enum DeltaType {
    Amplitude,
    Measurement,
    Structure,
    Metadata,
}

/// Kinds of anomaly in an interference pattern.
#[derive(Clone, Copy, Debug, PartialEq, Eq)]
pub enum AnomalyType {
    /// The pattern changed abruptly.
    PatternChange,
    /// Constructive turned destructive, or back.
    InterferenceTypeChange,
    /// Entanglement was lost.
    EntanglementLoss,
    /// Nodes disagree.
    NodeInconsistency,
}

/// Errors of the distributed layer.
#[derive(Clone, Debug, PartialEq, Eq)]
pub enum DistributedError {
    ConnectionError(String),
    TeleportationError(String),
    PeerNotFound(String),
    QubitNotEntangled(u64),
    IncompatibleQuantumStates,
    DeserializationError(String),
    UnexpectedError(String),
}

} // verus!
