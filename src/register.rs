//! An exact state-vector register acted on by H, X, Y, Z and CNOT.
//!
//! Every amplitude is a Gaussian integer `re + im·i`; the state it stands for
//! is the vector divided by its Euclidean length, so the probability of basis
//! state `k` is `|a_k|² / Σ|a_i|²`. Gates act on the integer vector directly,
//! which keeps every probability exact and the state normalised by
//! construction.

use crate::bits::{
    bit_at, bit_of, flip, flip_index, lemma_flip, lemma_flip_keeps_other_bit, lemma_two_pow_30,
    lemma_two_pow_mono, lemma_two_pow_pos, two_pow, MAX_QUBITS,
};
use rand::Rng;
use vstd::prelude::*;

verus! {

/// The bound on each component of an amplitude.
pub const AMPLITUDE_LIMIT: i64 = 32768;

/// The bound on each component under which a Hadamard gate cannot exceed
/// `AMPLITUDE_LIMIT`.
pub const HADAMARD_LIMIT: i64 = 16384;

/// One unnormalised amplitude, `re + im·i`.
#[derive(Clone, Copy, Debug, PartialEq, Eq)]
pub struct Amplitude {
    pub re: i64,
    pub im: i64,
}

pub open spec fn amp_view(a: Amplitude) -> (int, int) {
    (a.re as int, a.im as int)
}

/// `|a|²` of an unnormalised amplitude.
pub open spec fn sq(a: (int, int)) -> int {
    a.0 * a.0 + a.1 * a.1
}

pub open spec fn is_zero(a: (int, int)) -> bool {
    a.0 == 0 && a.1 == 0
}

/// `Σ |s_i|²` over the first `k` entries.
pub open spec fn weight(s: Seq<(int, int)>, k: int) -> int
    decreases k,
{
    if k <= 0 {
        0
    } else {
        weight(s, k - 1) + sq(s[k - 1])
    }
}

/// `Σ |s_i|²` over the first `k` entries whose qubit `q` reads `b`.
pub open spec fn bit_weight(s: Seq<(int, int)>, q: nat, b: int, k: int) -> int
    decreases k,
{
    if k <= 0 {
        0
    } else {
        bit_weight(s, q, b, k - 1) + if bit_of(k - 1, q) == b {
            sq(s[k - 1])
        } else {
            0
        }
    }
}

/// `Σ |s_i|²` over the first `k` entries whose qubits `q1`, `q2` read `b1`, `b2`.
pub open spec fn pair_weight(s: Seq<(int, int)>, q1: nat, b1: int, q2: nat, b2: int, k: int) -> int
    decreases k,
{
    if k <= 0 {
        0
    } else {
        pair_weight(s, q1, b1, q2, b2, k - 1) + if bit_of(k - 1, q1) == b1 && bit_of(k - 1, q2)
            == b2 {
            sq(s[k - 1])
        } else {
            0
        }
    }
}

/// The basis state `|0…0⟩` over `len` amplitudes.
pub open spec fn ground(len: nat) -> Seq<(int, int)> {
    Seq::new(len, |i: int| if i == 0 { (1int, 0int) } else { (0int, 0int) })
}

/// Pauli X on qubit `q`: amplitudes trade places with their partner.
pub open spec fn x_image(s: Seq<(int, int)>, q: nat) -> Seq<(int, int)> {
    Seq::new(s.len(), |i: int| s[flip(i, q)])
}

/// Pauli Y on qubit `q`: `|0⟩ ↦ i|1⟩`, `|1⟩ ↦ −i|0⟩`.
pub open spec fn y_image(s: Seq<(int, int)>, q: nat) -> Seq<(int, int)> {
    Seq::new(
        s.len(),
        |i: int|
            if bit_of(i, q) == 0 {
                (s[flip(i, q)].1, -s[flip(i, q)].0)
            } else {
                (-s[flip(i, q)].1, s[flip(i, q)].0)
            },
    )
}

/// Pauli Z on qubit `q`: the amplitudes where the qubit reads 1 change sign.
pub open spec fn z_image(s: Seq<(int, int)>, q: nat) -> Seq<(int, int)> {
    Seq::new(s.len(), |i: int| if bit_of(i, q) == 1 { (-s[i].0, -s[i].1) } else { s[i] })
}

/// Hadamard on qubit `q`, without the factor `1/√2`.
pub open spec fn h_image(s: Seq<(int, int)>, q: nat) -> Seq<(int, int)> {
    Seq::new(
        s.len(),
        |i: int|
            if bit_of(i, q) == 0 {
                (s[i].0 + s[flip(i, q)].0, s[i].1 + s[flip(i, q)].1)
            } else {
                (s[flip(i, q)].0 - s[i].0, s[flip(i, q)].1 - s[i].1)
            },
    )
}

/// CNOT: where the control reads 1, the target bit is flipped.
pub open spec fn cnot_image(s: Seq<(int, int)>, c: nat, t: nat) -> Seq<(int, int)> {
    Seq::new(s.len(), |i: int| if bit_of(i, c) == 1 { s[flip(i, t)] } else { s[i] })
}

/// The amplitudes that disagree with outcome `b` on qubit `q` are cleared.
pub open spec fn collapse(s: Seq<(int, int)>, q: nat, b: int) -> Seq<(int, int)> {
    Seq::new(s.len(), |i: int| if bit_of(i, q) == b { s[i] } else { (0int, 0int) })
}

pub open spec fn all_even(s: Seq<(int, int)>) -> bool {
    forall|i: int| 0 <= i < s.len() ==> (#[trigger] s[i]).0 % 2 == 0 && s[i].1 % 2 == 0
}

/// Halving every amplitude; the state it stands for is the same.
pub open spec fn halve(s: Seq<(int, int)>) -> Seq<(int, int)> {
    Seq::new(s.len(), |i: int| (s[i].0 / 2, s[i].1 / 2))
}

/// A common factor 2 is taken out where there is one.
pub open spec fn reduce(s: Seq<(int, int)>) -> Seq<(int, int)> {
    if all_even(s) {
        halve(s)
    } else {
        s
    }
}

pub open spec fn bounded(s: Seq<(int, int)>, lim: int) -> bool {
    forall|i: int|
        0 <= i < s.len() ==> -lim <= #[trigger] s[i].0 <= lim && -lim <= s[i].1 <= lim
}

/// Some amplitude is not zero, so the vector has a length to divide by.
pub open spec fn nonzero(s: Seq<(int, int)>) -> bool {
    exists|i: int| 0 <= i < s.len() && !is_zero(#[trigger] s[i])
}

pub open spec fn bit_int(b: bool) -> int {
    if b {
        1
    } else {
        0
    }
}

/// Outcome `b` of measuring qubit `q` has positive probability.
pub open spec fn outcome_possible(s: Seq<(int, int)>, q: nat, b: bool) -> bool {
    bit_weight(s, q, if b { 1 } else { 0 }, s.len() as int) > 0
}

pub proof fn lemma_bit_is_binary(i: int, q: nat)
    ensures
        bit_of(i, q) == 0 || bit_of(i, q) == 1,
{
    vstd::arithmetic::div_mod::lemma_mod_bound(i / (two_pow(q) as int), 2);
}

/// The weight splits into the weights of the two outcomes of any qubit.
pub proof fn lemma_weight_split(s: Seq<(int, int)>, q: nat, k: int)
    requires
        k <= s.len(),
    ensures
        weight(s, k) == bit_weight(s, q, 0, k) + bit_weight(s, q, 1, k),
    decreases k,
{
    if k > 0 {
        lemma_weight_split(s, q, k - 1);
        lemma_bit_is_binary(k - 1, q);
    }
}

pub proof fn lemma_bit_weight_nonneg(s: Seq<(int, int)>, q: nat, b: int, k: int)
    ensures
        bit_weight(s, q, b, k) >= 0,
    decreases k,
{
    if k > 0 {
        lemma_bit_weight_nonneg(s, q, b, k - 1);
        let a = s[k - 1];
        assert(a.0 * a.0 >= 0 && a.1 * a.1 >= 0) by (nonlinear_arith);
    }
}

/// Collapsing onto outcome `b` keeps the weight of `b` and clears the other.
pub proof fn lemma_collapse_weight(s: Seq<(int, int)>, q: nat, b: int, k: int)
    requires
        b == 0 || b == 1,
        k <= s.len(),
    ensures
        bit_weight(collapse(s, q, b), q, b, k) == bit_weight(s, q, b, k),
        bit_weight(collapse(s, q, b), q, 1 - b, k) == 0,
        weight(collapse(s, q, b), k) == bit_weight(s, q, b, k),
    decreases k,
{
    if k > 0 {
        lemma_collapse_weight(s, q, b, k - 1);
        lemma_bit_is_binary(k - 1, q);
    }
    lemma_weight_split(collapse(s, q, b), q, k);
}

/// X, Y, Z on `q` and CNOT from `c` onto `q` keep some amplitude nonzero.
pub proof fn lemma_nonzero_moves(s: Seq<(int, int)>, n: nat, q: nat, c: nat)
    requires
        q < n,
        c < n,
        s.len() == two_pow(n),
        nonzero(s),
    ensures
        nonzero(x_image(s, q)),
        nonzero(y_image(s, q)),
        nonzero(z_image(s, q)),
        c != q ==> nonzero(cnot_image(s, c, q)),
{
    let j = choose|j: int| 0 <= j < s.len() && !is_zero(#[trigger] s[j]);
    lemma_flip(j, q, n);
    let k = flip(j, q);
    assert(!is_zero(x_image(s, q)[k]));
    assert(!is_zero(y_image(s, q)[k]));
    assert(!is_zero(z_image(s, q)[j]));
    if c != q {
        if bit_of(j, c) == 1 {
            lemma_flip_keeps_other_bit(j, q, c, n);
            assert(!is_zero(cnot_image(s, c, q)[k]));
        } else {
            assert(!is_zero(cnot_image(s, c, q)[j]));
        }
    }
}

/// The Hadamard gate is invertible, so it keeps some amplitude nonzero.
pub proof fn lemma_nonzero_hadamard(s: Seq<(int, int)>, n: nat, q: nat)
    requires
        q < n,
        s.len() == two_pow(n),
        nonzero(s),
    ensures
        nonzero(h_image(s, q)),
{
    let j = choose|j: int| 0 <= j < s.len() && !is_zero(#[trigger] s[j]);
    lemma_flip(j, q, n);
    let k = flip(j, q);
    let h = h_image(s, q);
    if is_zero(h[j]) {
        assert(!is_zero(h[k]));
    }
}

/// Positive weight on outcome `b` means some amplitude agreeing with `b` is nonzero.
pub proof fn lemma_positive_weight_witness(s: Seq<(int, int)>, q: nat, b: int, k: int)
    requires
        0 <= k <= s.len(),
        bit_weight(s, q, b, k) > 0,
    ensures
        exists|i: int| 0 <= i < k && bit_of(i, q) == b && !is_zero(#[trigger] s[i]),
    decreases k,
{
    if k > 0 {
        if bit_weight(s, q, b, k - 1) > 0 {
            lemma_positive_weight_witness(s, q, b, k - 1);
            let i = choose|i: int| 0 <= i < k - 1 && bit_of(i, q) == b && !is_zero(#[trigger] s[i]);
            assert(0 <= i < k && bit_of(i, q) == b && !is_zero(s[i]));
        } else {
            assert(bit_of(k - 1, q) == b);
            assert(!is_zero(s[k - 1]));
        }
    }
}

/// A nonzero vector has positive weight: the probabilities `|a_i|² / w`
/// are well defined and add up to 1.
pub proof fn lemma_nonzero_weight(s: Seq<(int, int)>, k: int)
    requires
        0 <= k <= s.len(),
    ensures
        weight(s, k) >= 0,
        (exists|i: int| 0 <= i < k && !is_zero(#[trigger] s[i])) ==> weight(s, k) > 0,
    decreases k,
{
    if k > 0 {
        lemma_nonzero_weight(s, k - 1);
        let a = s[k - 1];
        assert(a.0 * a.0 >= 0 && a.1 * a.1 >= 0) by (nonlinear_arith);
        if !is_zero(a) {
            assert(a.0 * a.0 > 0 || a.1 * a.1 > 0) by (nonlinear_arith)
                requires
                    a.0 != 0 || a.1 != 0,
            ;
        }
        if exists|i: int| 0 <= i < k && !is_zero(#[trigger] s[i]) {
            let i = choose|i: int| 0 <= i < k && !is_zero(#[trigger] s[i]);
            if i < k - 1 {
                assert(exists|i: int| 0 <= i < k - 1 && !is_zero(#[trigger] s[i]));
            }
        }
    }
}

/// A register of `num_qubits` qubits, simulated exactly.
pub struct QuESTSimulator {
    qubits: usize,
    amps: Vec<Amplitude>,
}

/// Relies on rand's `Rng::gen_range` over `0..bound`: a value below `bound`,
/// drawn uniformly. It panics on an empty range, hence `bound > 0`.
#[verifier::external_body]
fn draw_below(bound: u64) -> (r: u64)
    requires
        bound > 0,
    ensures
        r < bound,
{
    rand::thread_rng().gen_range(0..bound)
}

impl QuESTSimulator {
    /// The number of qubits.
    pub closed spec fn n(&self) -> nat {
        self.qubits as nat
    }

    /// The unnormalised amplitudes, indexed by basis state.
    pub closed spec fn amplitudes(&self) -> Seq<(int, int)> {
        self.amps@.map_values(|a: Amplitude| amp_view(a))
    }

    pub open spec fn wf(&self) -> bool {
        &&& 1 <= self.n() <= MAX_QUBITS
        &&& self.amplitudes().len() == two_pow(self.n())
        &&& bounded(self.amplitudes(), AMPLITUDE_LIMIT as int)
        &&& nonzero(self.amplitudes())
    }

    /// The total weight `Σ|a_i|²`; the probability of basis state `k` is
    /// `|a_k|²` divided by it.
    pub open spec fn total(&self) -> int {
        weight(self.amplitudes(), self.amplitudes().len() as int)
    }

    /// A register in the state `|0…0⟩`.
    pub fn new(num_qubits: usize) -> (r: Self)
        requires
            1 <= num_qubits <= MAX_QUBITS,
        ensures
            r.wf(),
            r.n() == num_qubits,
            r.amplitudes() == ground(two_pow(num_qubits as nat)),
    {
        let mut r = QuESTSimulator { qubits: num_qubits, amps: Vec::new() };
        r.fill_ground();
        r
    }

    fn fill_ground(&mut self)
        requires
            1 <= old(self).qubits <= MAX_QUBITS,
        ensures
            final(self).qubits == old(self).qubits,
            final(self).amplitudes() == ground(two_pow(old(self).qubits as nat)),
            final(self).wf(),
    {
        proof {
            lemma_two_pow_mono(self.qubits as nat, 30);
            lemma_two_pow_30();
            lemma_two_pow_pos(self.qubits as nat);
        }
        let len = crate::bits::qubit_mask(self.qubits);
        let mut v: Vec<Amplitude> = Vec::new();
        let mut i: usize = 0;
        while i < len
            invariant
                len == two_pow(self.qubits as nat),
                i <= len,
                v@.len() == i,
                forall|j: int| 0 <= j < i ==> amp_view(#[trigger] v@[j]) == ground(len as nat)[j],
            decreases len - i,
        {
            if i == 0 {
                v.push(Amplitude { re: 1, im: 0 });
            } else {
                v.push(Amplitude { re: 0, im: 0 });
            }
            i = i + 1;
        }
        self.amps = v;
        proof {
            assert(self.amplitudes() =~= ground(len as nat));
            assert(!is_zero(self.amplitudes()[0]));
        }
    }

    proof fn lemma_entry(&self, i: int)
        requires
            self.wf(),
            0 <= i < self.amps@.len(),
        ensures
            amp_view(self.amps@[i]) == self.amplitudes()[i],
            -AMPLITUDE_LIMIT <= self.amps@[i].re <= AMPLITUDE_LIMIT,
            -AMPLITUDE_LIMIT <= self.amps@[i].im <= AMPLITUDE_LIMIT,
            self.amps@.len() == self.amplitudes().len(),
    {
        assert(self.amplitudes()[i] == amp_view(self.amps@[i]));
        let e = self.amplitudes()[i].0;
        assert(-AMPLITUDE_LIMIT <= e <= AMPLITUDE_LIMIT);
    }

    /// A copy of the register.
    pub fn duplicate(&self) -> (r: Self)
        requires
            self.wf(),
        ensures
            r.wf(),
            r.n() == self.n(),
            r.amplitudes() == self.amplitudes(),
    {
        let mut v: Vec<Amplitude> = Vec::new();
        let mut i: usize = 0;
        while i < self.amps.len()
            invariant
                i <= self.amps@.len(),
                v@ == self.amps@.subrange(0, i as int),
            decreases self.amps@.len() - i,
        {
            v.push(self.amps[i]);
            i = i + 1;
            assert(v@ =~= self.amps@.subrange(0, i as int));
        }
        assert(self.amps@.subrange(0, self.amps@.len() as int) =~= self.amps@);
        QuESTSimulator { qubits: self.qubits, amps: v }
    }

    /// The number of qubits.
    pub fn num_qubits(&self) -> (r: usize)
        ensures
            r == self.n(),
    {
        self.qubits
    }

    /// The number of amplitudes, `2^n`.
    pub fn dimension(&self) -> (r: usize)
        requires
            self.wf(),
        ensures
            r == two_pow(self.n()),
    {
        self.amps.len()
    }

    /// The unnormalised amplitude of basis state `i`.
    pub fn amplitude(&self, i: usize) -> (a: Amplitude)
        requires
            self.wf(),
            i < two_pow(self.n()),
        ensures
            amp_view(a) == self.amplitudes()[i as int],
    {
        self.amps[i]
    }

    /// Back to `|0…0⟩`.
    pub fn reset(&mut self)
        requires
            old(self).wf(),
        ensures
            final(self).wf(),
            final(self).n() == old(self).n(),
            final(self).amplitudes() == ground(two_pow(old(self).n())),
    {
        self.fill_ground();
    }
    /// Pauli X (NOT) on `qubit`.
    pub fn x(&mut self, qubit: usize)
        requires
            old(self).wf(),
            qubit < old(self).n(),
        ensures
            final(self).wf(),
            final(self).n() == old(self).n(),
            final(self).amplitudes() == x_image(old(self).amplitudes(), qubit as nat),
    {
        let ghost s = self.amplitudes();
        let ghost q = qubit as nat;
        let len = self.amps.len();
        let mut v: Vec<Amplitude> = Vec::new();
        let mut i: usize = 0;
        while i < len
            invariant
                self.wf(),
                s == self.amplitudes(),
                len == s.len(),
                qubit < self.n(),
                q == qubit,
                i <= len,
                v@.len() == i,
                forall|j: int| 0 <= j < i ==> amp_view(#[trigger] v@[j]) == x_image(s, q)[j],
            decreases len - i,
        {
            proof {
                lemma_flip(i as int, q, self.n());
            }
            let f = flip_index(i, qubit, self.qubits);
            v.push(self.amps[f]);
            i = i + 1;
        }
        self.amps = v;
        proof {
            assert(self.amplitudes() =~= x_image(s, q));
            lemma_nonzero_moves(s, self.n(), q, q);
            assert forall|k: int| 0 <= k < s.len() implies -AMPLITUDE_LIMIT <= #[trigger] x_image(s, q)[k].0 <= AMPLITUDE_LIMIT && -AMPLITUDE_LIMIT <= x_image(s, q)[k].1 <= AMPLITUDE_LIMIT by {
                lemma_flip(k, q, self.n());
            }
        }
    }

    /// Pauli Y on `qubit`.
    pub fn y(&mut self, qubit: usize)
        requires
            old(self).wf(),
            qubit < old(self).n(),
        ensures
            final(self).wf(),
            final(self).n() == old(self).n(),
            final(self).amplitudes() == y_image(old(self).amplitudes(), qubit as nat),
    {
        let ghost s = self.amplitudes();
        let ghost q = qubit as nat;
        let len = self.amps.len();
        let mut v: Vec<Amplitude> = Vec::new();
        let mut i: usize = 0;
        while i < len
            invariant
                self.wf(),
                s == self.amplitudes(),
                len == s.len(),
                qubit < self.n(),
                q == qubit,
                i <= len,
                v@.len() == i,
                forall|j: int| 0 <= j < i ==> amp_view(#[trigger] v@[j]) == y_image(s, q)[j],
            decreases len - i,
        {
            proof {
                lemma_flip(i as int, q, self.n());
            }
            let f = flip_index(i, qubit, self.qubits);
            proof {
                self.lemma_entry(f as int);
            }
            let a = self.amps[f];
            if bit_at(i, qubit) == 0 {
                v.push(Amplitude { re: a.im, im: -a.re });
            } else {
                v.push(Amplitude { re: -a.im, im: a.re });
            }
            i = i + 1;
        }
        self.amps = v;
        proof {
            assert(self.amplitudes() =~= y_image(s, q));
            lemma_nonzero_moves(s, self.n(), q, q);
            assert forall|k: int| 0 <= k < s.len() implies -AMPLITUDE_LIMIT <= #[trigger] y_image(s, q)[k].0 <= AMPLITUDE_LIMIT && -AMPLITUDE_LIMIT <= y_image(s, q)[k].1 <= AMPLITUDE_LIMIT by {
                lemma_flip(k, q, self.n());
            }
        }
    }

    /// Pauli Z on `qubit`.
    pub fn z(&mut self, qubit: usize)
        requires
            old(self).wf(),
            qubit < old(self).n(),
        ensures
            final(self).wf(),
            final(self).n() == old(self).n(),
            final(self).amplitudes() == z_image(old(self).amplitudes(), qubit as nat),
    {
        let ghost s = self.amplitudes();
        let ghost q = qubit as nat;
        let len = self.amps.len();
        let mut v: Vec<Amplitude> = Vec::new();
        let mut i: usize = 0;
        while i < len
            invariant
                self.wf(),
                s == self.amplitudes(),
                len == s.len(),
                qubit < self.n(),
                q == qubit,
                i <= len,
                v@.len() == i,
                forall|j: int| 0 <= j < i ==> amp_view(#[trigger] v@[j]) == z_image(s, q)[j],
            decreases len - i,
        {
            proof {
                self.lemma_entry(i as int);
            }
            let a = self.amps[i];
            if bit_at(i, qubit) == 1 {
                v.push(Amplitude { re: -a.re, im: -a.im });
            } else {
                v.push(a);
            }
            i = i + 1;
        }
        self.amps = v;
        proof {
            assert(self.amplitudes() =~= z_image(s, q));
            lemma_nonzero_moves(s, self.n(), q, q);
            assert forall|k: int| 0 <= k < s.len() implies -AMPLITUDE_LIMIT <= #[trigger] z_image(s, q)[k].0 <= AMPLITUDE_LIMIT && -AMPLITUDE_LIMIT <= z_image(s, q)[k].1 <= AMPLITUDE_LIMIT by {
                lemma_flip(k, q, self.n());
            }
        }
    }

    /// CNOT with `control` and `target`.
    pub fn cnot(&mut self, control: usize, target: usize)
        requires
            old(self).wf(),
            control < old(self).n(),
            target < old(self).n(),
            control != target,
        ensures
            final(self).wf(),
            final(self).n() == old(self).n(),
            final(self).amplitudes() == cnot_image(
                old(self).amplitudes(),
                control as nat,
                target as nat,
            ),
    {
        let ghost s = self.amplitudes();
        let ghost c = control as nat;
        let ghost t = target as nat;
        let len = self.amps.len();
        let mut v: Vec<Amplitude> = Vec::new();
        let mut i: usize = 0;
        while i < len
            invariant
                self.wf(),
                s == self.amplitudes(),
                len == s.len(),
                control < self.n(),
                target < self.n(),
                c == control,
                t == target,
                i <= len,
                v@.len() == i,
                forall|j: int|
                    0 <= j < i ==> amp_view(#[trigger] v@[j]) == cnot_image(s, c, t)[j],
            decreases len - i,
        {
            proof {
                lemma_flip(i as int, t, self.n());
            }
            if bit_at(i, control) == 1 {
                let f = flip_index(i, target, self.qubits);
                v.push(self.amps[f]);
            } else {
                v.push(self.amps[i]);
            }
            i = i + 1;
        }
        self.amps = v;
        proof {
            assert(self.amplitudes() =~= cnot_image(s, c, t));
            lemma_nonzero_moves(s, self.n(), t, c);
            assert forall|k: int| 0 <= k < s.len() implies -AMPLITUDE_LIMIT <= #[trigger] cnot_image(s, c, t)[k].0 <= AMPLITUDE_LIMIT && -AMPLITUDE_LIMIT <= cnot_image(s, c, t)[k].1 <= AMPLITUDE_LIMIT by {
                lemma_flip(k, t, self.n());
            }
        }
    }
    /// Whether every component is small enough for a Hadamard gate.
    pub open spec fn hadamard_ready(&self) -> bool {
        bounded(self.amplitudes(), HADAMARD_LIMIT as int)
    }

    /// Decides `hadamard_ready`.
    pub fn hadamard_fits(&self) -> (r: bool)
        requires
            self.wf(),
        ensures
            r == self.hadamard_ready(),
    {
        let ghost s = self.amplitudes();
        let len = self.amps.len();
        let mut i: usize = 0;
        while i < len
            invariant
                self.wf(),
                s == self.amplitudes(),
                len == s.len(),
                i <= len,
                forall|j: int|
                    0 <= j < i ==> -HADAMARD_LIMIT <= #[trigger] s[j].0 <= HADAMARD_LIMIT
                        && -HADAMARD_LIMIT <= s[j].1 <= HADAMARD_LIMIT,
            decreases len - i,
        {
            proof {
                self.lemma_entry(i as int);
            }
            let a = self.amps[i];
            if a.re < -HADAMARD_LIMIT || a.re > HADAMARD_LIMIT || a.im < -HADAMARD_LIMIT || a.im
                > HADAMARD_LIMIT {
                assert(s[i as int].0 == a.re && s[i as int].1 == a.im);
                return false;
            }
            i = i + 1;
        }
        true
    }

    /// Takes a common factor 2 out of every amplitude where there is one.
    fn reduce_common_factor(&mut self)
        requires
            old(self).wf(),
        ensures
            final(self).wf(),
            final(self).n() == old(self).n(),
            final(self).amplitudes() == reduce(old(self).amplitudes()),
    {
        let ghost s = self.amplitudes();
        let len = self.amps.len();
        let mut i: usize = 0;
        let mut even = true;
        while i < len
            invariant
                self.wf(),
                s == self.amplitudes(),
                len == s.len(),
                i <= len,
                even == (forall|j: int| 0 <= j < i ==> #[trigger] s[j].0 % 2 == 0 && s[j].1 % 2 == 0),
            decreases len - i,
        {
            proof {
                self.lemma_entry(i as int);
            }
            let a = self.amps[i];
            assert(s[i as int].0 == a.re && s[i as int].1 == a.im);
            let odd = a.re % 2 != 0 || a.im % 2 != 0;
            assert(odd == !(s[i as int].0 % 2 == 0 && s[i as int].1 % 2 == 0));
            if odd {
                even = false;
            }
            proof {
                if even {
                    assert forall|j: int| 0 <= j < i + 1 implies #[trigger] s[j].0 % 2 == 0 && s[j].1
                        % 2 == 0 by {
                        if j < i {
                        }
                    }
                }
            }
            i = i + 1;
        }
        if !even {
            return;
        }
        let mut v: Vec<Amplitude> = Vec::new();
        i = 0;
        while i < len
            invariant
                self.wf(),
                s == self.amplitudes(),
                all_even(s),
                len == s.len(),
                i <= len,
                v@.len() == i,
                forall|j: int| 0 <= j < i ==> amp_view(#[trigger] v@[j]) == halve(s)[j],
            decreases len - i,
        {
            proof {
                self.lemma_entry(i as int);
            }
            let a = self.amps[i];
            v.push(Amplitude { re: a.re / 2, im: a.im / 2 });
            i = i + 1;
        }
        self.amps = v;
        proof {
            assert(self.amplitudes() =~= halve(s));
            let j = choose|j: int| 0 <= j < s.len() && !is_zero(#[trigger] s[j]);
            assert(s[j].0 % 2 == 0 && s[j].1 % 2 == 0);
            assert(!is_zero(halve(s)[j]));
            assert forall|k: int| 0 <= k < s.len() implies -AMPLITUDE_LIMIT <= #[trigger] halve(s)[k].0 <= AMPLITUDE_LIMIT && -AMPLITUDE_LIMIT <= halve(s)[k].1 <= AMPLITUDE_LIMIT by {
                let e = s[k].0;
            }
        }
    }

    /// Hadamard on `qubit`. The factor `1/√2` is left implicit; a common
    /// factor 2 is then taken out where there is one.
    pub fn hadamard(&mut self, qubit: usize)
        requires
            old(self).wf(),
            qubit < old(self).n(),
            old(self).hadamard_ready(),
        ensures
            final(self).wf(),
            final(self).n() == old(self).n(),
            final(self).amplitudes() == reduce(h_image(old(self).amplitudes(), qubit as nat)),
    {
        let ghost s = self.amplitudes();
        let ghost q = qubit as nat;
        let len = self.amps.len();
        let mut v: Vec<Amplitude> = Vec::new();
        let mut i: usize = 0;
        while i < len
            invariant
                self.wf(),
                self.hadamard_ready(),
                s == self.amplitudes(),
                len == s.len(),
                qubit < self.n(),
                q == qubit,
                i <= len,
                v@.len() == i,
                forall|j: int| 0 <= j < i ==> amp_view(#[trigger] v@[j]) == h_image(s, q)[j],
            decreases len - i,
        {
            proof {
                lemma_flip(i as int, q, self.n());
                self.lemma_entry(i as int);
            }
            let f = flip_index(i, qubit, self.qubits);
            proof {
                self.lemma_entry(f as int);
                let e1 = s[i as int].0;
                let e2 = s[f as int].0;
            }
            let a = self.amps[i];
            let b = self.amps[f];
            if bit_at(i, qubit) == 0 {
                v.push(Amplitude { re: a.re + b.re, im: a.im + b.im });
            } else {
                v.push(Amplitude { re: b.re - a.re, im: b.im - a.im });
            }
            i = i + 1;
        }
        self.amps = v;
        proof {
            assert(self.amplitudes() =~= h_image(s, q));
            lemma_nonzero_hadamard(s, self.n(), q);
            assert forall|k: int| 0 <= k < s.len() implies -AMPLITUDE_LIMIT <= #[trigger] h_image(s, q)[k].0 <= AMPLITUDE_LIMIT && -AMPLITUDE_LIMIT <= h_image(s, q)[k].1 <= AMPLITUDE_LIMIT by {
                lemma_flip(k, q, self.n());
                let e1 = s[k].0;
                let e2 = s[flip(k, q)].0;
            }
        }
        self.reduce_common_factor();
    }

    fn sq_of(a: Amplitude) -> (r: u64)
        requires
            -AMPLITUDE_LIMIT <= a.re <= AMPLITUDE_LIMIT,
            -AMPLITUDE_LIMIT <= a.im <= AMPLITUDE_LIMIT,
        ensures
            r == sq(amp_view(a)),
            r <= 0x8000_0000,
    {
        assert(a.re * a.re <= 0x4000_0000 && a.re * a.re >= 0) by (nonlinear_arith)
            requires
                -32768 <= a.re <= 32768,
        ;
        assert(a.im * a.im <= 0x4000_0000 && a.im * a.im >= 0) by (nonlinear_arith)
            requires
                -32768 <= a.im <= 32768,
        ;
        (a.re * a.re + a.im * a.im) as u64
    }

    /// `Σ|a_i|²`.
    pub fn total_weight(&self) -> (w: u64)
        requires
            self.wf(),
        ensures
            w == self.total(),
            w <= 0x2000_0000_0000_0000,
    {
        let ghost s = self.amplitudes();
        proof {
            lemma_two_pow_mono(self.n(), 30);
            lemma_two_pow_30();
        }
        let len = self.amps.len();
        let mut acc: u64 = 0;
        let mut i: usize = 0;
        while i < len
            invariant
                self.wf(),
                s == self.amplitudes(),
                len == s.len(),
                len <= 0x4000_0000,
                i <= len,
                acc == weight(s, i as int),
                acc <= i * 0x8000_0000,
            decreases len - i,
        {
            proof {
                self.lemma_entry(i as int);
            }
            let t = Self::sq_of(self.amps[i]);
            acc = acc + t;
            i = i + 1;
        }
        assert(acc <= 0x2000_0000_0000_0000) by (nonlinear_arith)
            requires
                acc <= i * 0x8000_0000,
                i <= 0x4000_0000,
        ;
        acc
    }

    /// `Σ|a_i|²` over the basis states in which `qubit` reads `b`.
    pub fn outcome_weight(&self, qubit: usize, b: usize) -> (w: u64)
        requires
            self.wf(),
            qubit < self.n(),
        ensures
            w == bit_weight(self.amplitudes(), qubit as nat, b as int, two_pow(self.n()) as int),
            w <= 0x2000_0000_0000_0000,
    {
        let ghost s = self.amplitudes();
        proof {
            lemma_two_pow_mono(self.n(), 30);
            lemma_two_pow_30();
        }
        let len = self.amps.len();
        let mut acc: u64 = 0;
        let mut i: usize = 0;
        while i < len
            invariant
                self.wf(),
                s == self.amplitudes(),
                len == s.len(),
                len <= 0x4000_0000,
                qubit < self.n(),
                i <= len,
                acc == bit_weight(s, qubit as nat, b as int, i as int),
                acc <= i * 0x8000_0000,
            decreases len - i,
        {
            proof {
                self.lemma_entry(i as int);
            }
            if bit_at(i, qubit) == b {
                let t = Self::sq_of(self.amps[i]);
                acc = acc + t;
            }
            i = i + 1;
        }
        assert(acc <= 0x2000_0000_0000_0000) by (nonlinear_arith)
            requires
                acc <= i * 0x8000_0000,
                i <= 0x4000_0000,
        ;
        acc
    }

    /// `Σ|a_i|²` over the basis states in which `q1` reads `b1` and `q2` reads `b2`.
    pub fn joint_weight(&self, q1: usize, b1: usize, q2: usize, b2: usize) -> (w: u64)
        requires
            self.wf(),
            q1 < self.n(),
            q2 < self.n(),
        ensures
            w == pair_weight(
                self.amplitudes(),
                q1 as nat,
                b1 as int,
                q2 as nat,
                b2 as int,
                two_pow(self.n()) as int,
            ),
            w <= 0x2000_0000_0000_0000,
    {
        let ghost s = self.amplitudes();
        proof {
            lemma_two_pow_mono(self.n(), 30);
            lemma_two_pow_30();
        }
        let len = self.amps.len();
        let mut acc: u64 = 0;
        let mut i: usize = 0;
        while i < len
            invariant
                self.wf(),
                s == self.amplitudes(),
                len == s.len(),
                len <= 0x4000_0000,
                q1 < self.n(),
                q2 < self.n(),
                i <= len,
                acc == pair_weight(s, q1 as nat, b1 as int, q2 as nat, b2 as int, i as int),
                acc <= i * 0x8000_0000,
            decreases len - i,
        {
            proof {
                self.lemma_entry(i as int);
            }
            if bit_at(i, q1) == b1 && bit_at(i, q2) == b2 {
                let t = Self::sq_of(self.amps[i]);
                acc = acc + t;
            }
            i = i + 1;
        }
        assert(acc <= 0x2000_0000_0000_0000) by (nonlinear_arith)
            requires
                acc <= i * 0x8000_0000,
                i <= 0x4000_0000,
        ;
        acc
    }

    /// Measures `qubit`: outcome 1 comes with probability `w₁ / w`, where `w₁`
    /// is the weight of the basis states in which the qubit reads 1. The
    /// amplitudes that disagree with the outcome are cleared.
    pub fn measure(&mut self, qubit: usize) -> (r: bool)
        requires
            old(self).wf(),
            qubit < old(self).n(),
        ensures
            final(self).wf(),
            final(self).n() == old(self).n(),
            final(self).amplitudes() == collapse(
                old(self).amplitudes(),
                qubit as nat,
                if r {
                    1
                } else {
                    0
                },
            ),
            r ==> outcome_possible(old(self).amplitudes(), qubit as nat, true),
            !r ==> outcome_possible(old(self).amplitudes(), qubit as nat, false),
    {
        let w = self.total_weight();
        proof {
            lemma_nonzero_weight(self.amplitudes(), self.amplitudes().len() as int);
        }
        let d = draw_below(w);
        self.measure_with_draw(qubit, d)
    }

    /// Measures `qubit` with the draw `d`, a number below the total weight:
    /// outcome 1 exactly when `d` falls below the weight `w₁` of the basis
    /// states in which the qubit reads 1, so a uniform `d` gives outcome 1
    /// with probability `w₁ / w`. The amplitudes that disagree are cleared.
    pub fn measure_with_draw(&mut self, qubit: usize, d: u64) -> (r: bool)
        requires
            old(self).wf(),
            qubit < old(self).n(),
            d < old(self).total(),
        ensures
            final(self).wf(),
            final(self).n() == old(self).n(),
            r == (d < bit_weight(old(self).amplitudes(), qubit as nat, 1, old(self).amplitudes().len() as int)),
            final(self).amplitudes() == collapse(
                old(self).amplitudes(),
                qubit as nat,
                if r {
                    1
                } else {
                    0
                },
            ),
            r ==> outcome_possible(old(self).amplitudes(), qubit as nat, true),
            !r ==> outcome_possible(old(self).amplitudes(), qubit as nat, false),
    {
        let ghost s = self.amplitudes();
        let ghost q = qubit as nat;
        let w1 = self.outcome_weight(qubit, 1);
        let outcome = d < w1;
        proof {
            lemma_weight_split(s, q, s.len() as int);
            lemma_bit_weight_nonneg(s, q, 0, s.len() as int);
        }
        let b: usize = if outcome {
            1
        } else {
            0
        };
        let len = self.amps.len();
        let mut v: Vec<Amplitude> = Vec::new();
        let mut i: usize = 0;
        while i < len
            invariant
                self.wf(),
                s == self.amplitudes(),
                len == s.len(),
                qubit < self.n(),
                q == qubit,
                b == 0 || b == 1,
                i <= len,
                v@.len() == i,
                forall|j: int| 0 <= j < i ==> amp_view(#[trigger] v@[j]) == collapse(s, q, b as int)[j],
            decreases len - i,
        {
            proof {
                self.lemma_entry(i as int);
            }
            if bit_at(i, qubit) == b {
                v.push(self.amps[i]);
            } else {
                v.push(Amplitude { re: 0, im: 0 });
            }
            i = i + 1;
        }
        self.amps = v;
        proof {
            assert(self.amplitudes() =~= collapse(s, q, b as int));
            lemma_positive_weight_witness(s, q, b as int, s.len() as int);
            let j = choose|j: int| 0 <= j < s.len() && bit_of(j, q) == b as int && !is_zero(#[trigger] s[j]);
            assert(!is_zero(collapse(s, q, b as int)[j]));
            assert forall|k: int| 0 <= k < s.len() implies -AMPLITUDE_LIMIT <= #[trigger] collapse(s, q, b as int)[k].0 <= AMPLITUDE_LIMIT && -AMPLITUDE_LIMIT <= collapse(s, q, b as int)[k].1 <= AMPLITUDE_LIMIT by {
                let e = s[k].0;
            }
        }
        outcome
    }
}

} // verus!

verus! {

/// Applying X twice to the same qubit gives back the amplitudes unchanged.
pub proof fn lemma_x_twice(s: Seq<(int, int)>, q: nat, n: nat)
    requires
        q < n,
        s.len() == two_pow(n),
    ensures
        x_image(x_image(s, q), q) == s,
{
    assert forall|i: int| 0 <= i < s.len() implies #[trigger] x_image(x_image(s, q), q)[i]
        == s[i] by {
        lemma_flip(i, q, n);
    }
    assert(x_image(x_image(s, q), q) =~= s);
}

/// Applying Y twice to the same qubit gives back the amplitudes unchanged.
pub proof fn lemma_y_twice(s: Seq<(int, int)>, q: nat, n: nat)
    requires
        q < n,
        s.len() == two_pow(n),
    ensures
        y_image(y_image(s, q), q) == s,
{
    assert forall|i: int| 0 <= i < s.len() implies #[trigger] y_image(y_image(s, q), q)[i]
        == s[i] by {
        lemma_flip(i, q, n);
    }
    assert(y_image(y_image(s, q), q) =~= s);
}

/// Applying Z twice to the same qubit gives back the amplitudes unchanged.
pub proof fn lemma_z_twice(s: Seq<(int, int)>, q: nat)
    ensures
        z_image(z_image(s, q), q) == s,
{
    assert(z_image(z_image(s, q), q) =~= s);
}

/// Applying the Hadamard gate twice to the same qubit gives back the
/// amplitudes, or all of them halved, which stands for the same state.
pub proof fn lemma_hadamard_twice(s: Seq<(int, int)>, q: nat, n: nat)
    requires
        q < n,
        s.len() == two_pow(n),
    ensures
        reduce(h_image(reduce(h_image(s, q)), q)) == s || (all_even(s) && reduce(
            h_image(reduce(h_image(s, q)), q),
        ) == halve(s)),
{
    let h1 = h_image(s, q);
    if all_even(h1) {
        let u = halve(h1);
        assert forall|i: int| 0 <= i < s.len() implies #[trigger] h_image(u, q)[i] == s[i] by {
            lemma_flip(i, q, n);
            let f = flip(i, q);
            assert(h1[i].0 % 2 == 0 && h1[i].1 % 2 == 0);
            assert(h1[f].0 % 2 == 0 && h1[f].1 % 2 == 0);
        }
        assert(h_image(u, q) =~= s);
    } else {
        let d = h_image(h1, q);
        assert forall|i: int| 0 <= i < s.len() implies #[trigger] d[i] == (
        2 * s[i].0,
        2 * s[i].1,
        ) by {
            lemma_flip(i, q, n);
        }
        assert(all_even(d));
        assert(halve(d) =~= s);
    }
}

/// Measuring a qubit twice in a row gives the same bit: the first
/// measurement (outcome `b1`, possible in `s`) leaves `collapse(s, q, b1)`,
/// where only `b1` is possible, so the second outcome `b2` equals `b1`.
pub proof fn lemma_measure_twice(s: Seq<(int, int)>, q: nat, b1: bool, b2: bool)
    requires
        outcome_possible(s, q, b1),
        outcome_possible(collapse(s, q, bit_int(b1)), q, b2),
    ensures
        b1 == b2,
{
    lemma_collapse_weight(s, q, bit_int(b1), s.len() as int);
}

/// In a well-formed register the total weight is positive, so the
/// probabilities `|a_k|² / w` are defined and add up to exactly 1; for every
/// qubit the probabilities of its two outcomes add up to 1 as well. Every
/// operation of the register keeps it well formed.
pub proof fn lemma_probabilities_sum_to_one(sim: QuESTSimulator, q: nat)
    requires
        sim.wf(),
        q < sim.n(),
    ensures
        sim.total() > 0,
        bit_weight(sim.amplitudes(), q, 0, sim.amplitudes().len() as int) + bit_weight(
            sim.amplitudes(),
            q,
            1,
            sim.amplitudes().len() as int,
        ) == sim.total(),
{
    lemma_nonzero_weight(sim.amplitudes(), sim.amplitudes().len() as int);
    lemma_weight_split(sim.amplitudes(), q, sim.amplitudes().len() as int);
}

} // verus!

verus! {

/// X, Y, Z and CNOT only move amplitudes and change their signs, so they
/// keep every bound on the components.
pub proof fn lemma_bounded_moves(s: Seq<(int, int)>, n: nat, q: nat, c: nat, b: int)
    requires
        q < n,
        c < n,
        s.len() == two_pow(n),
        bounded(s, b),
    ensures
        bounded(x_image(s, q), b),
        bounded(y_image(s, q), b),
        bounded(z_image(s, q), b),
        bounded(cnot_image(s, c, q), b),
        bounded(collapse(s, q, 0), b) && bounded(collapse(s, q, 1), b),
{
    lemma_two_pow_pos(n);
    let e0 = s[0].0;
    assert forall|i: int| 0 <= i < s.len() implies -b <= #[trigger] x_image(s, q)[i].0 <= b
        && -b <= x_image(s, q)[i].1 <= b by {
        lemma_flip(i, q, n);
        let e2 = s[flip(i, q)].0;
    }
    assert forall|i: int| 0 <= i < s.len() implies -b <= #[trigger] y_image(s, q)[i].0 <= b
        && -b <= y_image(s, q)[i].1 <= b by {
        lemma_flip(i, q, n);
        let e2 = s[flip(i, q)].0;
    }
    assert forall|i: int| 0 <= i < s.len() implies -b <= #[trigger] z_image(s, q)[i].0 <= b
        && -b <= z_image(s, q)[i].1 <= b by {
        let e1 = s[i].0;
    }
    assert forall|i: int| 0 <= i < s.len() implies -b <= #[trigger] cnot_image(s, c, q)[i].0
        <= b && -b <= cnot_image(s, c, q)[i].1 <= b by {
        lemma_flip(i, q, n);
        let e1 = s[i].0;
        let e2 = s[flip(i, q)].0;
    }
    assert forall|i: int| 0 <= i < s.len() implies -b <= #[trigger] collapse(s, q, 0)[i].0 <= b
        && -b <= collapse(s, q, 0)[i].1 <= b && -b <= collapse(s, q, 1)[i].0 <= b && -b
        <= collapse(s, q, 1)[i].1 <= b by {
        let e1 = s[i].0;
    }
}

/// A Hadamard gate at most doubles the bound on the components.
pub proof fn lemma_bounded_hadamard(s: Seq<(int, int)>, n: nat, q: nat, b: int)
    requires
        q < n,
        s.len() == two_pow(n),
        bounded(s, b),
    ensures
        bounded(reduce(h_image(s, q)), 2 * b),
{
    let h = h_image(s, q);
    assert forall|i: int| 0 <= i < s.len() implies -2 * b <= #[trigger] h[i].0 <= 2 * b && -2
        * b <= h[i].1 <= 2 * b by {
        lemma_flip(i, q, n);
        let e1 = s[i].0;
        let e2 = s[flip(i, q)].0;
    }
    if all_even(h) {
        assert forall|i: int| 0 <= i < s.len() implies -2 * b <= #[trigger] halve(h)[i].0 <= 2
            * b && -2 * b <= halve(h)[i].1 <= 2 * b by {
            let e = h[i].0;
        }
    }
}

/// The ground state has components within 1.
pub proof fn lemma_bounded_ground(len: nat)
    ensures
        bounded(ground(len), 1),
{
}

} // verus!

verus! {

/// Hadamard applied twice to the same qubit through `hadamard`: when the
/// components start within half of `HADAMARD_LIMIT`, the first call leaves
/// the register ready for the second, and the two together give back the
/// amplitudes, or all of them halved, which stands for the same state.
pub proof fn lemma_hadamard_twice_ready(s: Seq<(int, int)>, q: nat, n: nat)
    requires
        q < n,
        s.len() == two_pow(n),
        bounded(s, HADAMARD_LIMIT / 2),
    ensures
        bounded(s, HADAMARD_LIMIT as int),
        bounded(reduce(h_image(s, q)), HADAMARD_LIMIT as int),
        reduce(h_image(reduce(h_image(s, q)), q)) == s || (all_even(s) && reduce(
            h_image(reduce(h_image(s, q)), q),
        ) == halve(s)),
{
    assert forall|i: int| 0 <= i < s.len() implies -HADAMARD_LIMIT <= #[trigger] s[i].0
        <= HADAMARD_LIMIT && -HADAMARD_LIMIT <= s[i].1 <= HADAMARD_LIMIT by {
        let e = s[i].0;
    }
    lemma_bounded_hadamard(s, n, q, HADAMARD_LIMIT / 2);
    lemma_hadamard_twice(s, q, n);
}

} // verus!
