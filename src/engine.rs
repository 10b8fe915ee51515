//! A small front end over the exact register: single gates, measurement,
//! and the preparation of superposed and entangled states.

use crate::bits::{bit_of, flip, lemma_flip, lemma_two_pow_add, lemma_two_pow_pos, two_pow, MAX_QUBITS};
use crate::register::{
    bit_weight, bounded, cnot_image, collapse, ground, h_image, lemma_bit_is_binary, pair_weight,
    reduce, sq, weight, x_image, y_image, z_image, QuESTSimulator, HADAMARD_LIMIT,
};
use vstd::arithmetic::div_mod::lemma_fundamental_div_mod_converse;
use vstd::prelude::*;

verus! {

/// `Σ |s_i|²` over the whole register.
pub open spec fn total_weight(s: Seq<(int, int)>) -> int {
    weight(s, s.len() as int)
}

/// The probability of reading 0 on qubit `q` lies in `[1e-10, 1 − 1e-10]`.
pub open spec fn in_superposition(s: Seq<(int, int)>, q: nat) -> bool {
    let w = total_weight(s);
    let w0 = bit_weight(s, q, 0, s.len() as int);
    w0 * 10_000_000_000 >= w && w0 * 10_000_000_000 <= w * 9_999_999_999
}

/// Qubits `q1` and `q2` are distinct, both superposed, and their joint
/// outcome probabilities are far from a product:
/// `|p00·p11 − p01·p10| > 1e-6`.
pub open spec fn entangled(s: Seq<(int, int)>, n: nat, q1: nat, q2: nat) -> bool {
    let w = total_weight(s);
    let p00 = pair_weight(s, q1, 0, q2, 0, s.len() as int);
    let p01 = pair_weight(s, q1, 0, q2, 1, s.len() as int);
    let p10 = pair_weight(s, q1, 1, q2, 0, s.len() as int);
    let p11 = pair_weight(s, q1, 1, q2, 1, s.len() as int);
    let d = p00 * p11 - p01 * p10;
    &&& q1 < n
    &&& q2 < n
    &&& q1 != q2
    &&& in_superposition(s, q1)
    &&& in_superposition(s, q2)
    &&& (if d >= 0 { d } else { -d }) * 1_000_000 > w * w
}

/// Hadamard on qubits `0..k`, in that order.
pub open spec fn h_chain(s: Seq<(int, int)>, k: nat) -> Seq<(int, int)>
    decreases k,
{
    if k == 0 {
        s
    } else {
        reduce(h_image(h_chain(s, (k - 1) as nat), (k - 1) as nat))
    }
}

/// CNOT from qubit 0 onto each of the qubits `1..k`, in that order.
pub open spec fn cnot_chain(s: Seq<(int, int)>, k: nat) -> Seq<(int, int)>
    decreases k,
{
    if k <= 1 {
        s
    } else {
        cnot_image(cnot_chain(s, (k - 1) as nat), 0, (k - 1) as nat)
    }
}

/// Amplitude 1 on the first `2^k` basis states, 0 on the others.
pub open spec fn prefix_ones(len: nat, k: nat) -> Seq<(int, int)> {
    Seq::new(len, |i: int| if i < two_pow(k) { (1int, 0int) } else { (0int, 0int) })
}

/// The equal superposition of all `len` basis states.
pub open spec fn uniform(len: nat) -> Seq<(int, int)> {
    Seq::new(len, |i: int| (1int, 0int))
}

proof fn lemma_bit_of_prefix(i: int, k: nat)
    requires
        0 <= i < two_pow(k + 1),
    ensures
        i < two_pow(k) ==> bit_of(i, k) == 0,
        i >= two_pow(k) ==> bit_of(i, k) == 1,
{
    let m = two_pow(k) as int;
    lemma_two_pow_pos(k);
    assert(two_pow(k + 1) == 2 * m);
    if i < m {
        lemma_fundamental_div_mod_converse(i, m, 0, i);
        lemma_fundamental_div_mod_converse(0, 2, 0, 0);
    } else {
        lemma_fundamental_div_mod_converse(i, m, 1, i - m);
        lemma_fundamental_div_mod_converse(1, 2, 0, 1);
    }
}

/// Hadamard on each of the qubits `0..k` of `|0…0⟩` spreads amplitude 1 over
/// the first `2^k` basis states.
proof fn lemma_h_chain_ground(n: nat, k: nat)
    requires
        k <= n,
    ensures
        h_chain(ground(two_pow(n)), k) == prefix_ones(two_pow(n), k),
    decreases k,
{
    let len = two_pow(n);
    if k == 0 {
        assert(ground(len) =~= prefix_ones(len, 0));
    } else {
        let j = (k - 1) as nat;
        lemma_h_chain_ground(n, j);
        let s = prefix_ones(len, j);
        let m = two_pow(j) as int;
        lemma_two_pow_pos(j);
        lemma_two_pow_add(k, (n - k) as nat);
        lemma_two_pow_pos((n - k) as nat);
        assert(two_pow(k) <= len) by (nonlinear_arith)
            requires
                len == two_pow(k) * two_pow((n - k) as nat),
                two_pow((n - k) as nat) >= 1,
        ;
        let h = h_image(s, j);
        assert forall|i: int| 0 <= i < len implies #[trigger] h[i] == prefix_ones(len, k)[i] by {
            lemma_flip(i, j, n);
            lemma_bit_is_binary(i, j);
            if i < two_pow(k) {
                lemma_bit_of_prefix(i, j);
            } else {
                // Neither `i` nor its partner lies below 2^j.
                if bit_of(i, j) == 1 {
                    assert(flip(i, j) == i - m);
                } else {
                    assert(flip(i, j) == i + m);
                }
            }
        }
        assert(h =~= prefix_ones(len, k));
        assert(h[0] == (1int, 0int));
        assert(!(h[0].0 % 2 == 0));
    }
}

proof fn lemma_ground_weights(len: nat, q1: nat, q2: nat, k: int)
    requires
        1 <= k <= len,
    ensures
        weight(ground(len), k) == 1,
        bit_weight(ground(len), q1, 0, k) == 1,
        pair_weight(ground(len), q1, 0, q2, 0, k) == 1,
        pair_weight(ground(len), q1, 0, q2, 1, k) == 0,
        pair_weight(ground(len), q1, 1, q2, 0, k) == 0,
        pair_weight(ground(len), q1, 1, q2, 1, k) == 0,
    decreases k,
{
    let g = ground(len);
    if k == 1 {
        lemma_two_pow_pos(q1);
        lemma_two_pow_pos(q2);
        assert(bit_of(0, q1) == 0);
        assert(bit_of(0, q2) == 0);
        assert(g[0] == (1int, 0int));
        let a = g[0];
        assert(a.0 == 1 && a.1 == 0);
        assert(a.0 * a.0 + a.1 * a.1 == 1) by (nonlinear_arith)
            requires
                a.0 == 1,
                a.1 == 0,
        ;
        assert(sq(g[0]) == 1);
        reveal_with_fuel(weight, 2);
        reveal_with_fuel(bit_weight, 2);
        reveal_with_fuel(pair_weight, 2);
    } else {
        lemma_ground_weights(len, q1, q2, k - 1);
        assert(g[k - 1] == (0int, 0int));
        assert(sq(g[k - 1]) == 0);
        assert(weight(g, k) == weight(g, k - 1) + sq(g[k - 1]));
    }
}

/// On a freshly built register, `|0…0⟩`, every qubit reads 0 with
/// certainty: no qubit is in superposition and no pair is entangled.
pub proof fn lemma_ground_state_unentangled(n: nat, q1: nat, q2: nat)
    requires
        1 <= n,
    ensures
        !in_superposition(ground(two_pow(n)), q1),
        !entangled(ground(two_pow(n)), n, q1, q2),
{
    lemma_two_pow_pos(n);
    lemma_ground_weights(two_pow(n), q1, q2, two_pow(n) as int);
    lemma_ground_weights(two_pow(n), q2, q1, two_pow(n) as int);
}

/// A register driven through a small set of named operations.
pub struct QuantumEngine {
    simulator: QuESTSimulator,
}

impl QuantumEngine {
    pub closed spec fn sim(&self) -> QuESTSimulator {
        self.simulator
    }

    pub open spec fn wf(&self) -> bool {
        self.sim().wf()
    }

    /// The number of qubits.
    pub open spec fn n(&self) -> nat {
        self.sim().n()
    }

    /// The unnormalised amplitudes.
    pub open spec fn amps(&self) -> Seq<(int, int)> {
        self.sim().amplitudes()
    }

    /// An engine over `num_qubits` qubits in the state `|0…0⟩`.
    pub fn new(num_qubits: usize) -> (r: Self)
        requires
            1 <= num_qubits <= MAX_QUBITS,
        ensures
            r.wf(),
            r.n() == num_qubits,
            r.amps() == ground(two_pow(num_qubits as nat)),
    {
        QuantumEngine { simulator: QuESTSimulator::new(num_qubits) }
    }

    /// A copy of the engine.
    pub fn duplicate(&self) -> (r: Self)
        requires
            self.wf(),
        ensures
            r.wf(),
            r.n() == self.n(),
            r.amps() == self.amps(),
    {
        QuantumEngine { simulator: self.simulator.duplicate() }
    }

    /// The register underneath.
    pub fn simulator(&self) -> (r: &QuESTSimulator)
        ensures
            *r == self.sim(),
    {
        &self.simulator
    }

    /// The register underneath, for changes.
    pub fn simulator_mut(&mut self) -> (r: &mut QuESTSimulator)
        ensures
            *r == old(self).sim(),
            final(self).sim() == *final(r),
    {
        &mut self.simulator
    }

    /// Hadamard on `qubit`.
    pub fn hadamard(&mut self, qubit: usize)
        requires
            old(self).wf(),
            qubit < old(self).n(),
            old(self).sim().hadamard_ready(),
        ensures
            final(self).wf(),
            final(self).n() == old(self).n(),
            final(self).amps() == reduce(h_image(old(self).amps(), qubit as nat)),
    {
        self.simulator.hadamard(qubit);
    }

    /// Pauli X (NOT) on `qubit`.
    pub fn x(&mut self, qubit: usize)
        requires
            old(self).wf(),
            qubit < old(self).n(),
        ensures
            final(self).wf(),
            final(self).n() == old(self).n(),
            final(self).amps() == x_image(old(self).amps(), qubit as nat),
    {
        self.simulator.x(qubit);
    }

    /// Pauli Y on `qubit`.
    pub fn y(&mut self, qubit: usize)
        requires
            old(self).wf(),
            qubit < old(self).n(),
        ensures
            final(self).wf(),
            final(self).n() == old(self).n(),
            final(self).amps() == y_image(old(self).amps(), qubit as nat),
    {
        self.simulator.y(qubit);
    }

    /// Pauli Z on `qubit`.
    pub fn z(&mut self, qubit: usize)
        requires
            old(self).wf(),
            qubit < old(self).n(),
        ensures
            final(self).wf(),
            final(self).n() == old(self).n(),
            final(self).amps() == z_image(old(self).amps(), qubit as nat),
    {
        self.simulator.z(qubit);
    }

    /// CNOT with `control` and `target`.
    pub fn cnot(&mut self, control: usize, target: usize)
        requires
            old(self).wf(),
            control < old(self).n(),
            target < old(self).n(),
            control != target,
        ensures
            final(self).wf(),
            final(self).n() == old(self).n(),
            final(self).amps() == cnot_image(old(self).amps(), control as nat, target as nat),
    {
        self.simulator.cnot(control, target);
    }

    /// Measures `qubit`; see `QuESTSimulator::measure`.
    pub fn measure(&mut self, qubit: usize) -> (r: bool)
        requires
            old(self).wf(),
            qubit < old(self).n(),
        ensures
            final(self).wf(),
            final(self).n() == old(self).n(),
            final(self).amps() == collapse(
                old(self).amps(),
                qubit as nat,
                if r {
                    1
                } else {
                    0
                },
            ),
            r ==> bit_weight(old(self).amps(), qubit as nat, 1, old(self).amps().len() as int)
                > 0,
            !r ==> bit_weight(old(self).amps(), qubit as nat, 0, old(self).amps().len() as int)
                > 0,
    {
        self.simulator.measure(qubit)
    }

    /// Back to `|0…0⟩`.
    pub fn reset(&mut self)
        requires
            old(self).wf(),
        ensures
            final(self).wf(),
            final(self).n() == old(self).n(),
            final(self).amps() == ground(two_pow(old(self).n())),
    {
        self.simulator.reset();
    }

    /// Starts from `|0…0⟩` and applies Hadamard to every qubit: the equal
    /// superposition of all basis states.
    pub fn create_uniform_superposition(&mut self)
        requires
            old(self).wf(),
        ensures
            final(self).wf(),
            final(self).n() == old(self).n(),
            final(self).amps() == uniform(two_pow(old(self).n())),
            final(self).amps() == h_chain(ground(two_pow(old(self).n())), old(self).n()),
    {
        self.reset();
        let n = self.simulator.num_qubits();
        let mut q: usize = 0;
        while q < n
            invariant
                self.wf(),
                n == self.n(),
                q <= n,
                self.amps() == h_chain(ground(two_pow(n as nat)), q as nat),
            decreases n - q,
        {
            proof {
                lemma_h_chain_ground(n as nat, q as nat);
                assert(bounded(self.amps(), HADAMARD_LIMIT as int));
            }
            self.hadamard(q);
            q = q + 1;
        }
        proof {
            lemma_h_chain_ground(n as nat, n as nat);
            assert(prefix_ones(two_pow(n as nat), n as nat) =~= uniform(two_pow(n as nat)));
        }
    }
    /// Whether the probability of reading 0 on `qubit` lies strictly away
    /// from 0 and 1 (by more than 1e-10).
    pub fn is_in_superposition(&self, qubit: usize) -> (r: bool)
        requires
            self.wf(),
            qubit < self.n(),
        ensures
            r == in_superposition(self.amps(), qubit as nat),
    {
        let w = self.simulator.total_weight();
        let w0 = self.simulator.outcome_weight(qubit, 0);
        let scaled = (w0 as u128) * 10_000_000_000u128;
        scaled >= w as u128 && scaled <= (w as u128) * 9_999_999_999u128
    }

    /// Whether `qubit1` and `qubit2` are entangled, judged from their joint
    /// outcome probabilities.
    pub fn is_entangled(&self, qubit1: usize, qubit2: usize) -> (r: bool)
        requires
            self.wf(),
        ensures
            r == entangled(self.amps(), self.n(), qubit1 as nat, qubit2 as nat),
    {
        let n = self.simulator.num_qubits();
        if qubit1 >= n || qubit2 >= n || qubit1 == qubit2 {
            return false;
        }
        if !self.is_in_superposition(qubit1) || !self.is_in_superposition(qubit2) {
            return false;
        }
        let w = self.simulator.total_weight() as u128;
        let p00 = self.simulator.joint_weight(qubit1, 0, qubit2, 0) as u128;
        let p01 = self.simulator.joint_weight(qubit1, 0, qubit2, 1) as u128;
        let p10 = self.simulator.joint_weight(qubit1, 1, qubit2, 0) as u128;
        let p11 = self.simulator.joint_weight(qubit1, 1, qubit2, 1) as u128;
        proof {
            assert(p00 * p11 <= 0x400_0000_0000_0000_0000_0000_0000_0000) by (nonlinear_arith)
                requires
                    p00 <= 0x2000_0000_0000_0000,
                    p11 <= 0x2000_0000_0000_0000,
            ;
            assert(p01 * p10 <= 0x400_0000_0000_0000_0000_0000_0000_0000) by (nonlinear_arith)
                requires
                    p01 <= 0x2000_0000_0000_0000,
                    p10 <= 0x2000_0000_0000_0000,
            ;
            assert(w * w <= 0x400_0000_0000_0000_0000_0000_0000_0000) by (nonlinear_arith)
                requires
                    w <= 0x2000_0000_0000_0000,
            ;
        }
        let a = p00 * p11;
        let b = p01 * p10;
        let d = if a >= b {
            a - b
        } else {
            b - a
        };
        let ww = w * w;
        let limit = ww / 1_000_000;
        proof {
            let dd = d as int;
            let y = ww as int;
            vstd::arithmetic::div_mod::lemma_fundamental_div_mod(y, 1_000_000);
            vstd::arithmetic::div_mod::lemma_mod_bound(y, 1_000_000);
            assert((dd > limit) == (dd * 1_000_000 > y)) by (nonlinear_arith)
                requires
                    y == 1_000_000 * limit + y % 1_000_000,
                    0 <= y % 1_000_000 < 1_000_000,
                    dd >= 0,
            ;
        }
        d > limit
    }

    /// Prepares the Bell state `(|00⟩ + |11⟩)/√2` on `qubit1`, `qubit2`:
    /// reset, Hadamard on `qubit1`, CNOT from `qubit1` onto `qubit2`.
    pub fn create_bell_state(&mut self, qubit1: usize, qubit2: usize) -> (r: Result<(), String>)
        requires
            old(self).wf(),
            qubit1 < old(self).n(),
            qubit2 < old(self).n(),
        ensures
            final(self).wf(),
            final(self).n() == old(self).n(),
            r.is_err() <==> qubit1 == qubit2,
            r.is_err() ==> final(self).amps() == old(self).amps(),
            r.is_ok() ==> final(self).amps() == cnot_image(
                reduce(h_image(ground(two_pow(old(self).n())), qubit1 as nat)),
                qubit1 as nat,
                qubit2 as nat,
            ),
    {
        if qubit1 == qubit2 {
            return Err("the two qubits must be distinct".to_owned());
        }
        self.reset();
        proof {
            assert(bounded(self.amps(), HADAMARD_LIMIT as int));
        }
        self.hadamard(qubit1);
        self.cnot(qubit1, qubit2);
        Ok(())
    }

    /// Prepares the GHZ state `(|0…0⟩ + |1…1⟩)/√2`: reset, Hadamard on qubit
    /// 0, then CNOT from qubit 0 onto each other qubit in turn.
    pub fn create_ghz_state(&mut self) -> (r: Result<(), String>)
        requires
            old(self).wf(),
        ensures
            final(self).wf(),
            final(self).n() == old(self).n(),
            r.is_err() <==> old(self).n() < 2,
            r.is_err() ==> final(self).amps() == old(self).amps(),
            r.is_ok() ==> final(self).amps() == cnot_chain(
                reduce(h_image(ground(two_pow(old(self).n())), 0)),
                old(self).n(),
            ),
    {
        let n = self.simulator.num_qubits();
        if n < 2 {
            return Err("a GHZ state needs at least two qubits".to_owned());
        }
        self.reset();
        proof {
            assert(bounded(self.amps(), HADAMARD_LIMIT as int));
        }
        self.hadamard(0);
        let ghost start = self.amps();
        let mut i: usize = 1;
        while i < n
            invariant
                self.wf(),
                n == self.n(),
                1 <= i <= n,
                self.amps() == cnot_chain(start, i as nat),
            decreases n - i,
        {
            self.cnot(0, i);
            i = i + 1;
        }
        Ok(())
    }
}

} // verus!
