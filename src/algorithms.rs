//! Short quantum algorithms run on the exact register: random numbers,
//! Deutsch's algorithm, superdense coding and Grover search.

use crate::bits::{bit_of, flip, lemma_two_pow_pos, two_pow};
use crate::engine::{entangled, QuantumEngine};
use crate::register::{
    bit_int, is_zero, sq, all_even, bit_weight, bounded, cnot_image, collapse, halve, ground, h_image, lemma_bounded_ground, lemma_bounded_hadamard,
    lemma_bounded_moves, outcome_possible, reduce, x_image, z_image, QuESTSimulator,
    HADAMARD_LIMIT,
};
use vstd::prelude::*;

verus! {

/// The four Boolean functions of one bit.
#[derive(Clone, Copy, Debug, PartialEq, Eq)]
pub enum FunctionType {
    /// `f(x) = 0`.
    Constant0,
    /// `f(x) = 1`.
    Constant1,
    /// `f(x) = x`.
    Identity,
    /// `f(x) = ¬x`.
    Negation,
}

/// Whether `f` is constant.
pub open spec fn is_constant(f: FunctionType) -> bool {
    f == FunctionType::Constant0 || f == FunctionType::Constant1
}

pub proof fn lemma_bounded_weaken(s: Seq<(int, int)>, a: int, b: int)
    requires
        bounded(s, a),
        a <= b,
    ensures
        bounded(s, b),
{
    assert forall|i: int| 0 <= i < s.len() implies -b <= #[trigger] s[i].0 <= b && -b <= s[i].1
        <= b by {
        let e = s[i].0;
    }
}

/// The oracle `|x, y⟩ ↦ |x, y ⊕ f(x)⟩` on qubits 0 (`x`) and 1 (`y`).
pub open spec fn deutsch_oracle(f: FunctionType, s: Seq<(int, int)>) -> Seq<(int, int)> {
    match f {
        FunctionType::Constant0 => s,
        FunctionType::Constant1 => x_image(s, 1),
        FunctionType::Identity => cnot_image(s, 0, 1),
        FunctionType::Negation => x_image(cnot_image(x_image(s, 0), 0, 1), 0),
    }
}

/// The two-qubit state of Deutsch's algorithm just before qubit 0 is read:
/// `|01⟩`, Hadamard on both qubits, the oracle, Hadamard on qubit 0.
pub open spec fn deutsch_state(f: FunctionType) -> Seq<(int, int)> {
    let prepared = reduce(h_image(reduce(h_image(x_image(ground(4), 1), 0)), 1));
    reduce(h_image(deutsch_oracle(f, prepared), 0))
}

proof fn lemma_two_qubit_bits()
    ensures
        two_pow(2) == 4,
        bit_of(0, 0) == 0 && bit_of(1, 0) == 1 && bit_of(2, 0) == 0 && bit_of(3, 0) == 1,
        bit_of(0, 1) == 0 && bit_of(1, 1) == 0 && bit_of(2, 1) == 1 && bit_of(3, 1) == 1,
        flip(0, 0) == 1 && flip(1, 0) == 0 && flip(2, 0) == 3 && flip(3, 0) == 2,
        flip(0, 1) == 2 && flip(1, 1) == 3 && flip(2, 1) == 0 && flip(3, 1) == 1,
{
    reveal_with_fuel(two_pow, 3);
    assert(two_pow(0) == 1);
    assert(two_pow(1) == 2);
    assert((0int / 1) % 2 == 0 && (1int / 1) % 2 == 1 && (2int / 1) % 2 == 0 && (3int / 1) % 2 == 1);
    assert((0int / 2) % 2 == 0 && (1int / 2) % 2 == 0 && (2int / 2) % 2 == 1 && (3int / 2) % 2 == 1);
}

pub open spec fn real4(a: int, b: int, c: int, d: int) -> Seq<(int, int)> {
    seq![(a, 0int), (b, 0int), (c, 0int), (d, 0int)]
}

/// Where the oracle is constant, qubit 0 ends in `|0⟩`; where it is
/// balanced, in `|1⟩`.
proof fn lemma_deutsch_outcome(f: FunctionType)
    ensures
        is_constant(f) ==> bit_weight(deutsch_state(f), 0, 1, 4) == 0,
        !is_constant(f) ==> bit_weight(deutsch_state(f), 0, 0, 4) == 0,
{
    lemma_two_qubit_bits();
    let g = ground(4);
    assert(g =~= real4(1, 0, 0, 0));
    let s1 = x_image(g, 1);
    assert(s1 =~= real4(0, 0, 1, 0));
    let h1 = h_image(s1, 0);
    assert(h1 =~= real4(0, 0, 1, 1));
    assert(!all_even(h1)) by {
        assert(h1[2].0 % 2 != 0);
    }
    let h2 = h_image(reduce(h1), 1);
    assert(h2 =~= real4(1, 1, -1, -1));
    assert(!all_even(h2)) by {
        assert(h2[0].0 % 2 != 0);
    }
    let p = reduce(h2);
    let o = deutsch_oracle(f, p);
    match f {
        FunctionType::Constant0 => {
            assert(o =~= real4(1, 1, -1, -1));
        },
        FunctionType::Constant1 => {
            assert(o =~= real4(-1, -1, 1, 1));
        },
        FunctionType::Identity => {
            assert(o =~= real4(1, -1, -1, 1));
        },
        FunctionType::Negation => {
            assert(x_image(p, 0) =~= real4(1, 1, -1, -1));
            assert(cnot_image(x_image(p, 0), 0, 1) =~= real4(1, -1, -1, 1));
            assert(o =~= real4(-1, 1, 1, -1));
        },
    }
    let h3 = h_image(o, 0);
    assert(all_even(h3));
    let fin = deutsch_state(f);
    assert(fin == halve(h3));
    match f {
        FunctionType::Constant0 => {
            assert(fin =~= real4(1, 0, -1, 0));
        },
        FunctionType::Constant1 => {
            assert(fin =~= real4(-1, 0, 1, 0));
        },
        FunctionType::Identity => {
            assert(fin =~= real4(0, 1, 0, -1));
        },
        FunctionType::Negation => {
            assert(fin =~= real4(0, -1, 0, 1));
        },
    }
    reveal_with_fuel(bit_weight, 5);
}

/// Deutsch's algorithm: one query tells whether `function_type` is
/// constant. It answers `true` (constant) when qubit 0 reads 0.
pub fn deutsch(function_type: FunctionType) -> (r: bool)
    ensures
        r == is_constant(function_type),
        !r ==> outcome_possible(deutsch_state(function_type), 0, true),
        r ==> outcome_possible(deutsch_state(function_type), 0, false),
{
    proof {
        lemma_deutsch_outcome(function_type);
    }
    proof {
        assert(two_pow(2) == 4) by {
            reveal_with_fuel(two_pow, 3);
        }
        lemma_bounded_ground(4);
    }
    let mut sim = QuESTSimulator::new(2);
    proof {
        lemma_bounded_moves(sim.amplitudes(), 2, 1, 0, 1);
    }
    sim.x(1);
    proof {
        lemma_bounded_weaken(sim.amplitudes(), 1, HADAMARD_LIMIT as int);
        lemma_bounded_hadamard(sim.amplitudes(), 2, 0, 1);
    }
    sim.hadamard(0);
    proof {
        lemma_bounded_weaken(sim.amplitudes(), 2, HADAMARD_LIMIT as int);
        lemma_bounded_hadamard(sim.amplitudes(), 2, 1, 2);
    }
    sim.hadamard(1);
    let ghost prepared = sim.amplitudes();
    match function_type {
        FunctionType::Constant0 => {},
        FunctionType::Constant1 => {
            sim.x(1);
        },
        FunctionType::Identity => {
            sim.cnot(0, 1);
        },
        FunctionType::Negation => {
            proof {
                lemma_bounded_moves(prepared, 2, 0, 0, 4);
                lemma_bounded_moves(x_image(prepared, 0), 2, 1, 0, 4);
            }
            sim.x(0);
            sim.cnot(0, 1);
            sim.x(0);
        },
    }
    proof {
        lemma_bounded_moves(prepared, 2, 1, 0, 4);
        lemma_bounded_moves(cnot_image(x_image(prepared, 0), 0, 1), 2, 0, 0, 4);
        assert(sim.amplitudes() == deutsch_oracle(function_type, prepared));
        assert(bounded(sim.amplitudes(), 4));
        lemma_bounded_weaken(sim.amplitudes(), 4, HADAMARD_LIMIT as int);
    }
    sim.hadamard(0);
    let m = sim.measure(0);
    !m
}

/// The Bell state `(|00⟩ + |11⟩)/√2` as `create_bell_state(0, 1)` leaves it.
pub open spec fn bell_00() -> Seq<(int, int)> {
    cnot_image(reduce(h_image(ground(4), 0)), 0, 1)
}

/// Qubit 0 of `s` after the sender encodes `bits`: nothing, X, Z, or Z then X.
pub open spec fn dense_encode(bits: (bool, bool), s: Seq<(int, int)>) -> Seq<(int, int)> {
    match bits {
        (false, false) => s,
        (false, true) => x_image(s, 0),
        (true, false) => z_image(s, 0),
        (true, true) => x_image(z_image(s, 0), 0),
    }
}

/// The state the receiver reads: the encoded Bell pair after CNOT and
/// Hadamard on qubit 0.
pub open spec fn dense_state(bits: (bool, bool)) -> Seq<(int, int)> {
    reduce(h_image(cnot_image(dense_encode(bits, bell_00()), 0, 1), 0))
}

/// Four amplitudes with only entry `k` nonzero: an outcome of qubit `q`
/// has positive weight only if it is the bit of `k`.
proof fn lemma_single_support(fin: Seq<(int, int)>, k: int, q: nat, b: int)
    requires
        fin.len() == 4,
        0 <= k < 4,
        forall|i: int| 0 <= i < 4 && i != k ==> is_zero(#[trigger] fin[i]),
    ensures
        bit_weight(fin, q, b, 4) > 0 ==> bit_of(k, q) == b,
{
    reveal_with_fuel(bit_weight, 5);
    assert forall|i: int| 0 <= i < 4 && i != k implies sq(#[trigger] fin[i]) == 0 by {
        assert(is_zero(fin[i]));
    }
    if bit_of(k, q) != b {
        assert(bit_weight(fin, q, b, 1) == 0);
        assert(bit_weight(fin, q, b, 2) == 0);
        assert(bit_weight(fin, q, b, 3) == 0);
        assert(bit_weight(fin, q, b, 4) == 0);
    }
}

/// Superdense coding decodes exactly: the receiver's state is the basis
/// state `|bits.0, bits.1⟩` (qubit 0 first).
proof fn lemma_dense_outcome(bits: (bool, bool), b1: bool, b2: bool)
    ensures
        outcome_possible(dense_state(bits), 0, b1) ==> b1 == bits.0,
        outcome_possible(dense_state(bits), 0, b1) && outcome_possible(
            collapse(dense_state(bits), 0, bit_int(b1)),
            1,
            b2,
        ) ==> b2 == bits.1,
{
    lemma_two_qubit_bits();
    let g = ground(4);
    assert(g =~= real4(1, 0, 0, 0));
    let h = h_image(g, 0);
    assert(h =~= real4(1, 1, 0, 0));
    assert(!all_even(h)) by {
        assert(h[0].0 % 2 != 0);
    }
    let bell = bell_00();
    assert(bell =~= real4(1, 0, 0, 1));
    let e = dense_encode(bits, bell);
    let c = cnot_image(e, 0, 1);
    match bits {
        (false, false) => {
            assert(e =~= real4(1, 0, 0, 1));
            assert(c =~= real4(1, 1, 0, 0));
        },
        (false, true) => {
            assert(e =~= real4(0, 1, 1, 0));
            assert(c =~= real4(0, 0, 1, 1));
        },
        (true, false) => {
            assert(e =~= real4(1, 0, 0, -1));
            assert(c =~= real4(1, -1, 0, 0));
        },
        (true, true) => {
            assert(z_image(bell, 0) =~= real4(1, 0, 0, -1));
            assert(e =~= real4(0, 1, -1, 0));
            assert(c =~= real4(0, 0, -1, 1));
        },
    }
    let h3 = h_image(c, 0);
    assert(all_even(h3));
    let fin = dense_state(bits);
    assert(fin == halve(h3));
    let k: int = bit_int(bits.0) + 2 * bit_int(bits.1);
    assert(forall|i: int| 0 <= i < 4 && i != k ==> is_zero(#[trigger] fin[i]));
    let c0 = collapse(fin, 0, bit_int(b1));
    lemma_single_support(fin, k, 0, bit_int(b1));
    assert(bit_of(k, 0) == bit_int(bits.0) && bit_of(k, 1) == bit_int(bits.1));
    if outcome_possible(fin, 0, b1) {
        assert(b1 == bits.0);
        assert forall|i: int| 0 <= i < 4 implies #[trigger] c0[i] == fin[i] by {
            if i != k {
                assert(is_zero(fin[i]));
            }
        }
        assert(c0 =~= fin);
        lemma_single_support(fin, k, 1, bit_int(b2));
    }
}

/// Superdense coding: two classical bits sent through one qubit of a Bell
/// pair and read back by measuring both qubits.
pub fn dense_coding(bits: (bool, bool)) -> (r: (bool, bool))
    ensures
        r == bits,
        outcome_possible(dense_state(bits), 0, r.0),
        outcome_possible(collapse(dense_state(bits), 0, bit_int(r.0)), 1, r.1),
{
    proof {
        assert(two_pow(2) == 4) by {
            reveal_with_fuel(two_pow, 3);
        }
    }
    let mut engine = QuantumEngine::new(2);
    let _ = engine.create_bell_state(0, 1);
    proof {
        lemma_bounded_ground(4);
        lemma_bounded_hadamard(ground(4), 2, 0, 1);
        lemma_bounded_moves(reduce(h_image(ground(4), 0)), 2, 1, 0, 2);
        let b = bell_00();
        lemma_bounded_moves(b, 2, 0, 0, 2);
        lemma_bounded_moves(z_image(b, 0), 2, 0, 0, 2);
        lemma_bounded_moves(dense_encode(bits, b), 2, 1, 0, 2);
    }
    match bits {
        (false, false) => {},
        (false, true) => {
            engine.x(0);
        },
        (true, false) => {
            engine.z(0);
        },
        (true, true) => {
            engine.z(0);
            engine.x(0);
        },
    }
    engine.cnot(0, 1);
    proof {
        lemma_bounded_weaken(engine.amps(), 2, HADAMARD_LIMIT as int);
    }
    engine.hadamard(0);
    let bit1 = engine.measure(0);
    let bit2 = engine.measure(1);
    proof {
        lemma_dense_outcome(bits, bit1, bit2);
    }
    (bit1, bit2)
}

/// One fair random bit: Hadamard on a fresh qubit, then measure it.
pub fn random_bit() -> (r: bool) {
    proof {
        assert(two_pow(1) == 2) by {
            reveal_with_fuel(two_pow, 2);
        }
        lemma_bounded_ground(2);
        lemma_bounded_weaken(ground(2), 1, HADAMARD_LIMIT as int);
    }
    let mut sim = QuESTSimulator::new(1);
    sim.hadamard(0);
    sim.measure(0)
}

/// A random number below `bits` (the bound, despite the name), built from
/// as many random bits as `bits - 1` needs.
pub fn random_number(bits: usize) -> (r: u64)
    requires
        bits > 0,
    ensures
        r < bits,
{
    let bound = bits as u128;
    let mut width: u128 = 1;
    let mut count: usize = 0;
    while width < bound
        invariant
            1 <= width <= 2 * bound,
            width == two_pow(count as nat),
            count <= 64,
            bound == bits as u128,
            bound <= usize::MAX,
        decreases 2 * bound - width,
    {
        proof {
            if count >= 64 {
                crate::bits::lemma_two_pow_mono(64, count as nat);
                crate::bits::lemma_two_pow_64();
            }
        }
        width = width * 2;
        count = count + 1;
    }
    let mut result: u128 = 0;
    let mut weight: u128 = 1;
    let mut i: usize = 0;
    while i < count
        invariant
            i <= count,
            result < weight,
            weight == two_pow(i as nat),
            width == two_pow(count as nat),
            width <= 2 * bound,
            bound <= usize::MAX,
        decreases count - i,
    {
        proof {
            crate::bits::lemma_two_pow_mono((i + 1) as nat, count as nat);
        }
        if random_bit() {
            result = result + weight;
        }
        weight = weight * 2;
        i = i + 1;
    }
    (result % bound) as u64
}

/// Grover iterations for `n` qubits: `⌊π/4 · √(2^n)⌋`.
pub open spec fn grover_rounds(n: nat) -> nat {
    if n == 0 { 0 } else if n == 1 { 1 } else if n == 2 { 1 } else if n == 3 { 2 } else if n == 4 { 3 } else if n == 5 { 4 } else if n == 6 { 6 } else if n == 7 { 8 } else if n == 8 { 12 } else if n == 9 { 17 } else if n == 10 { 25 } else if n == 11 { 35 } else if n == 12 { 50 } else if n == 13 { 71 } else if n == 14 { 100 } else if n == 15 { 142 } else if n == 16 { 201 } else if n == 17 { 284 } else if n == 18 { 402 } else if n == 19 { 568 } else { 804 }
}

fn rounds_for(n: usize) -> (r: usize)
    requires
        n <= 20,
    ensures
        r == grover_rounds(n as nat),
{
    if n == 0 { 0 } else if n == 1 { 1 } else if n == 2 { 1 } else if n == 3 { 2 } else if n == 4 { 3 } else if n == 5 { 4 } else if n == 6 { 6 } else if n == 7 { 8 } else if n == 8 { 12 } else if n == 9 { 17 } else if n == 10 { 25 } else if n == 11 { 35 } else if n == 12 { 50 } else if n == 13 { 71 } else if n == 14 { 100 } else if n == 15 { 142 } else if n == 16 { 201 } else if n == 17 { 284 } else if n == 18 { 402 } else if n == 19 { 568 } else { 804 }
}

/// Applies X to every qubit `i` whose bit in `target` is 0.
fn flip_zero_bits(engine: &mut QuantumEngine, target: u64)
    requires
        old(engine).wf(),
        old(engine).n() <= 20,
    ensures
        final(engine).wf(),
        final(engine).n() == old(engine).n(),
{
    let n = engine.simulator().num_qubits();
    let mut i: usize = 0;
    let mut rest = target;
    while i < n
        invariant
            engine.wf(),
            n == engine.n(),
            i <= n,
        decreases n - i,
    {
        if rest % 2 == 0 {
            engine.x(i);
        }
        rest = rest / 2;
        i = i + 1;
    }
}

/// Applies X to every qubit.
fn flip_all(engine: &mut QuantumEngine)
    requires
        old(engine).wf(),
    ensures
        final(engine).wf(),
        final(engine).n() == old(engine).n(),
{
    let n = engine.simulator().num_qubits();
    let mut i: usize = 0;
    while i < n
        invariant
            engine.wf(),
            n == engine.n(),
            i <= n,
        decreases n - i,
    {
        engine.x(i);
        i = i + 1;
    }
}

/// Applies Hadamard to every qubit while the amplitudes leave room for it;
/// tells whether every qubit got one.
fn hadamard_all(engine: &mut QuantumEngine) -> (done: bool)
    requires
        old(engine).wf(),
    ensures
        final(engine).wf(),
        final(engine).n() == old(engine).n(),
{
    let n = engine.simulator().num_qubits();
    let mut i: usize = 0;
    while i < n
        invariant
            engine.wf(),
            n == engine.n(),
            n == old(engine).n(),
            i <= n,
        decreases n - i,
    {
        if !engine.simulator().hadamard_fits() {
            return false;
        }
        engine.hadamard(i);
        i = i + 1;
    }
    true
}

/// One Grover round: mark the target (X on its zero bits, Z on qubit
/// `last`, X again), then diffuse (Hadamard, X, Z on `last`, X, Hadamard).
/// Tells whether every Hadamard could be applied; where one could not, the
/// engine is left partway and is to be discarded.
fn grover_round(engine: &mut QuantumEngine, target: u64, last: usize) -> (done: bool)
    requires
        old(engine).wf(),
        old(engine).n() <= 20,
        last < old(engine).n(),
    ensures
        final(engine).wf(),
        final(engine).n() == old(engine).n(),
{
    flip_zero_bits(engine, target);
    engine.z(last);
    flip_zero_bits(engine, target);
    if !hadamard_all(engine) {
        return false;
    }
    flip_all(engine);
    engine.z(last);
    flip_all(engine);
    hadamard_all(engine)
}

/// Grover search for `target_state` over `num_qubits` qubits: the equal
/// superposition, then `grover_rounds(num_qubits)` rounds of marking the
/// target (X on its zero bits, Z on the last qubit, X again) and diffusion
/// (Hadamard, X, Z on the last qubit, X, Hadamard), then every qubit is
/// read, qubit `i` giving bit `i` of the result. Each round is applied
/// whole or not at all: if its Hadamards would take the exact amplitudes
/// past their bounds, the search stops before that round.
pub fn grover(num_qubits: usize, target_state: u64) -> (r: u64)
    requires
        1 <= num_qubits <= 20,
    ensures
        r < two_pow(num_qubits as nat),
{
    let mut engine = QuantumEngine::new(num_qubits);
    engine.create_uniform_superposition();
    let rounds = rounds_for(num_qubits);
    let last = num_qubits - 1;
    let mut k: usize = 0;
    while k < rounds
        invariant
            engine.wf(),
            engine.n() == num_qubits,
            1 <= num_qubits <= 20,
            last == num_qubits - 1,
        decreases rounds - k,
    {
        let mut trial = engine.duplicate();
        if !grover_round(&mut trial, target_state, last) {
            break;
        }
        engine = trial;
        k = k + 1;
    }
    let mut result: u64 = 0;
    let mut weight: u64 = 1;
    let mut i: usize = 0;
    while i < num_qubits
        invariant
            engine.wf(),
            engine.n() == num_qubits,
            num_qubits <= 20,
            i <= num_qubits,
            weight == two_pow(i as nat),
            result < weight,
        decreases num_qubits - i,
    {
        proof {
            crate::bits::lemma_two_pow_mono(i as nat, 20);
            crate::bits::lemma_two_pow_20();
        }
        if engine.measure(i) {
            result = result + weight;
        }
        weight = weight * 2;
        i = i + 1;
    }
    result
}

/// The pairs `(i, j)`, `i < j`, of entangled qubits, in order.
pub fn entangled_pairs(engine: &QuantumEngine) -> (r: Vec<(usize, usize)>)
    requires
        engine.wf(),
    ensures
        forall|a: usize, b: usize|
            #![trigger r@.contains((a, b))]
            #![trigger entangled(engine.amps(), engine.n(), a as nat, b as nat)]
            r@.contains((a, b)) <==> a < b < engine.n() && entangled(
                engine.amps(),
                engine.n(),
                a as nat,
                b as nat,
            ),
{
    let n = engine.simulator().num_qubits();
    let mut out: Vec<(usize, usize)> = Vec::new();
    let mut i: usize = 0;
    while i < n
        invariant
            n == engine.n(),
            engine.wf(),
            i <= n,
            forall|a: usize, b: usize|
                #![trigger out@.contains((a, b))]
                #![trigger entangled(engine.amps(), engine.n(), a as nat, b as nat)]
                out@.contains((a, b)) <==> a < b < n && a < i && entangled(
                    engine.amps(),
                    engine.n(),
                    a as nat,
                    b as nat,
                ),
        decreases n - i,
    {
        let mut j: usize = i + 1;
        while j < n
            invariant
                n == engine.n(),
                engine.wf(),
                i < n,
                i + 1 <= j <= n,
                forall|a: usize, b: usize|
                    #![trigger out@.contains((a, b))]
                    #![trigger entangled(engine.amps(), engine.n(), a as nat, b as nat)]
                    out@.contains((a, b)) <==> a < b < n && (a < i || (a == i && b < j))
                        && entangled(engine.amps(), engine.n(), a as nat, b as nat),
            decreases n - j,
        {
            let e = engine.is_entangled(i, j);
            let ghost before = out@;
            if e {
                out.push((i, j));
            }
            proof {
                assert forall|a: usize, b: usize|
                    #![trigger out@.contains((a, b))]
                    #![trigger entangled(engine.amps(), engine.n(), a as nat, b as nat)]
                    out@.contains((a, b)) <==> a < b < n && (a < i || (a == i && b < j + 1))
                        && entangled(engine.amps(), engine.n(), a as nat, b as nat) by {
                    if e {
                        assert(out@ == before.push((i, j)));
                        if out@.contains((a, b)) {
                            let k = choose|k: int| 0 <= k < out@.len() && out@[k] == (a, b);
                            if k < before.len() {
                                assert(before[k] == out@[k]);
                                assert(before.contains((a, b)));
                            }
                        }
                        if a < b < n && (a < i || (a == i && b < j + 1)) && entangled(
                            engine.amps(),
                            engine.n(),
                            a as nat,
                            b as nat,
                        ) {
                            if a == i && b == j {
                                assert(out@[before.len() as int] == (a, b));
                            } else {
                                assert(before.contains((a, b)));
                                let k = choose|k: int| 0 <= k < before.len() && before[k] == (a, b);
                                assert(out@[k] == before[k]);
                            }
                        }
                    }
                }
            }
            j = j + 1;
        }
        i = i + 1;
    }
    out
}

} // verus!
