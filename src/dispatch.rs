//! Where a transaction lands: its SHA-256 digest picks the qubit it acts on
//! in the node that receives it, and the qubit of another node that it
//! entangles with.

use crate::gates::BasicGate;
use sha2::Digest;
use vstd::prelude::*;
use vstd::string::StringSliceAdditionalSpecFns;

verus! {

/// The SHA-256 digest of `data`.
pub uninterp spec fn sha256_of(data: Seq<u8>) -> Seq<u8>;

/// Relies on sha2's `Sha256::digest`: the 32-byte SHA-256 digest of `data`,
/// which depends on `data` alone.
#[verifier::external_body]
fn sha256(data: &Vec<u8>) -> (r: Vec<u8>)
    ensures
        r@ == sha256_of(data@),
        r@.len() == 32,
{
    sha2::Sha256::digest(data.as_slice()).to_vec()
}

/// The `k` low bytes of `x`, least significant first.
pub open spec fn le_bytes(x: nat, k: nat) -> Seq<u8>
    decreases k,
{
    if k == 0 {
        Seq::empty()
    } else {
        seq![(x % 256) as u8] + le_bytes(x / 256, (k - 1) as nat)
    }
}

/// The bytes hashed for a transaction received by node `node_idx`: the
/// transaction's UTF-8 bytes, then the node index as 8 little-endian bytes.
pub open spec fn transaction_message(tx: Seq<u8>, node_idx: nat) -> Seq<u8> {
    tx + le_bytes(node_idx, 8)
}

/// The qubits a transaction acts on: `first_qubit` of the receiving node,
/// and, where there is another node, `(node, qubit)` of the partner.
#[derive(Clone, Copy, Debug, PartialEq, Eq)]
pub struct DispatchPlan {
    pub first_qubit: usize,
    pub partner: Option<(usize, usize)>,
}

/// The node other than `node_idx` picked by digest byte `pick`, or the
/// first node other than `node_idx` where the pick falls on `node_idx`.
pub open spec fn partner_node(node_idx: int, node_count: int, pick: int) -> int {
    if pick % node_count != node_idx {
        pick % node_count
    } else if node_idx != 0 {
        0
    } else {
        1
    }
}

/// The plan for node `node_idx` of `node_count` nodes holding
/// `qubits_per_node` qubits each (node `i` holds qubits
/// `i·qubits_per_node .. (i+1)·qubits_per_node`), from digest `d`.
pub open spec fn dispatch_spec(
    node_idx: int,
    node_count: int,
    qubits_per_node: int,
    d: Seq<u8>,
) -> Option<(int, Option<(int, int)>)> {
    if node_idx >= node_count || qubits_per_node == 0 {
        None
    } else {
        let first = node_idx * qubits_per_node + (d[0] as int) % qubits_per_node;
        if node_count > 1 {
            let other = partner_node(node_idx, node_count, d[2] as int);
            Some((first, Some((other, other * qubits_per_node + (d[3] as int) % qubits_per_node))))
        } else {
            Some((first, None))
        }
    }
}

pub open spec fn plan_view(p: DispatchPlan) -> (int, Option<(int, int)>) {
    (
        p.first_qubit as int,
        match p.partner {
            Some((n, q)) => Some((n as int, q as int)),
            None => None,
        },
    )
}

pub open spec fn plan_option_view(p: Option<DispatchPlan>) -> Option<(int, Option<(int, int)>)> {
    match p {
        Some(x) => Some(plan_view(x)),
        None => None,
    }
}

/// Chooses the qubits from a digest `digest`.
pub fn plan_dispatch(
    node_idx: usize,
    node_count: usize,
    qubits_per_node: usize,
    digest: &Vec<u8>,
) -> (r: Option<DispatchPlan>)
    requires
        digest@.len() >= 4,
        node_count * qubits_per_node <= usize::MAX,
    ensures
        plan_option_view(r) == dispatch_spec(
            node_idx as int,
            node_count as int,
            qubits_per_node as int,
            digest@,
        ),
{
    if node_idx >= node_count || qubits_per_node == 0 {
        return None;
    }
    proof {
        assert(node_idx * qubits_per_node + qubits_per_node <= node_count * qubits_per_node)
            by (nonlinear_arith)
            requires
                node_idx < node_count,
        ;
    }
    let first = node_idx * qubits_per_node + (digest[0] as usize) % qubits_per_node;
    if node_count > 1 {
        let pick = (digest[2] as usize) % node_count;
        let other = if pick != node_idx {
            pick
        } else if node_idx != 0 {
            0
        } else {
            1
        };
        proof {
            assert(other * qubits_per_node + qubits_per_node <= node_count * qubits_per_node)
                by (nonlinear_arith)
                requires
                    other < node_count,
            ;
        }
        let second = other * qubits_per_node + (digest[3] as usize) % qubits_per_node;
        Some(DispatchPlan { first_qubit: first, partner: Some((other, second)) })
    } else {
        Some(DispatchPlan { first_qubit: first, partner: None })
    }
}

/// The bytes that `transaction_message` describes.
pub fn transaction_bytes(tx_data: &str, node_idx: usize) -> (r: Vec<u8>)
    ensures
        r@ == transaction_message(tx_data.spec_bytes(), node_idx as nat),
{
    let b = tx_data.as_bytes();
    let mut out: Vec<u8> = Vec::new();
    let mut i: usize = 0;
    while i < b.len()
        invariant
            b@ == tx_data.spec_bytes(),
            i <= b@.len(),
            out@ == b@.subrange(0, i as int),
        decreases b@.len() - i,
    {
        out.push(b[i]);
        i = i + 1;
        assert(out@ =~= b@.subrange(0, i as int));
    }
    assert(b@.subrange(0, b@.len() as int) =~= b@);
    let ghost prefix = out@;
    let mut v: u64 = node_idx as u64;
    let mut k: usize = 0;
    while k < 8
        invariant
            k <= 8,
            prefix == tx_data.spec_bytes(),
            out@ + le_bytes(v as nat, (8 - k) as nat) == prefix + le_bytes(node_idx as nat, 8),
        decreases 8 - k,
    {
        let ghost before = out@;
        let ghost vv = v;
        out.push((v % 256) as u8);
        v = v / 256;
        k = k + 1;
        proof {
            assert(le_bytes(vv as nat, (8 - (k - 1)) as nat) == seq![(vv % 256) as u8] + le_bytes(
                v as nat,
                (8 - k) as nat,
            ));
            assert(out@ + le_bytes(v as nat, (8 - k) as nat) =~= before + le_bytes(
                vv as nat,
                (8 - (k - 1)) as nat,
            ));
        }
    }
    assert(out@ =~= out@ + le_bytes(v as nat, 0));
    out
}

/// Chooses the qubits for transaction `tx_data` received by node
/// `node_idx`, from the SHA-256 digest of `transaction_bytes`.
pub fn plan_transaction(
    node_idx: usize,
    node_count: usize,
    qubits_per_node: usize,
    tx_data: &str,
) -> (r: Option<DispatchPlan>)
    requires
        node_count * qubits_per_node <= usize::MAX,
    ensures
        plan_option_view(r) == dispatch_spec(
            node_idx as int,
            node_count as int,
            qubits_per_node as int,
            sha256_of(transaction_message(tx_data.spec_bytes(), node_idx as nat)),
        ),
{
    let msg = transaction_bytes(tx_data, node_idx);
    let d = sha256(&msg);
    plan_dispatch(node_idx, node_count, qubits_per_node, &d)
}

/// One step of the operation schedule a node derives from a transaction.
#[derive(Clone, Copy, Debug, PartialEq, Eq)]
pub enum QuantumOperation {
    SingleQubit { gate: BasicGate, target: usize },
    CNOT { control: usize, target: usize },
}

/// Step `i` of the schedule for a node of `n` qubits, from digest byte `byte`:
/// by `byte % 4`, Hadamard, X or Z on qubit `i % n`, or CNOT from `i % n`
/// onto `(i + 1) % n` (Y on `i % n` where the node has a single qubit).
pub open spec fn scheduled_operation(byte: u8, i: int, n: int) -> QuantumOperation {
    let t = (i % n) as usize;
    if byte % 4 == 0 {
        QuantumOperation::SingleQubit { gate: BasicGate::Hadamard, target: t }
    } else if byte % 4 == 1 {
        QuantumOperation::SingleQubit { gate: BasicGate::PauliX, target: t }
    } else if byte % 4 == 2 {
        QuantumOperation::SingleQubit { gate: BasicGate::PauliZ, target: t }
    } else if n >= 2 {
        QuantumOperation::CNOT { control: t, target: ((i + 1) % n) as usize }
    } else {
        QuantumOperation::SingleQubit { gate: BasicGate::PauliY, target: t }
    }
}

/// One step per digest byte, for as many bytes as the node has qubits.
pub open spec fn operation_schedule(d: Seq<u8>, n: int) -> Seq<QuantumOperation> {
    let len = if d.len() < n {
        d.len() as int
    } else {
        n
    };
    Seq::new(len as nat, |i: int| scheduled_operation(d[i], i, n))
}

/// The schedule of `operation_schedule` for digest `digest`.
pub fn schedule_from_digest(digest: &Vec<u8>, qubit_count: usize) -> (r: Vec<QuantumOperation>)
    ensures
        r@ == operation_schedule(digest@, qubit_count as int),
{
    let len = if digest.len() < qubit_count {
        digest.len()
    } else {
        qubit_count
    };
    let mut out: Vec<QuantumOperation> = Vec::new();
    let mut i: usize = 0;
    while i < len
        invariant
            len as int == (if digest@.len() < qubit_count {
                digest@.len() as int
            } else {
                qubit_count as int
            }),
            i <= len,
            out@.len() == i,
            forall|j: int|
                0 <= j < i ==> #[trigger] out@[j] == scheduled_operation(
                    digest@[j],
                    j,
                    qubit_count as int,
                ),
        decreases len - i,
    {
        let byte = digest[i];
        let t = i % qubit_count;
        let op = if byte % 4 == 0 {
            QuantumOperation::SingleQubit { gate: BasicGate::Hadamard, target: t }
        } else if byte % 4 == 1 {
            QuantumOperation::SingleQubit { gate: BasicGate::PauliX, target: t }
        } else if byte % 4 == 2 {
            QuantumOperation::SingleQubit { gate: BasicGate::PauliZ, target: t }
        } else if qubit_count >= 2 {
            QuantumOperation::CNOT { control: t, target: (i + 1) % qubit_count }
        } else {
            QuantumOperation::SingleQubit { gate: BasicGate::PauliY, target: t }
        };
        out.push(op);
        i = i + 1;
    }
    assert(out@ =~= operation_schedule(digest@, qubit_count as int));
    out
}

/// The operations a node of `qubit_count` qubits applies for transaction
/// `tx_data`, from the SHA-256 digest of its UTF-8 bytes.
pub fn transaction_operations(tx_data: &str, qubit_count: usize) -> (r: Vec<QuantumOperation>)
    ensures
        r@ == operation_schedule(sha256_of(tx_data.spec_bytes()), qubit_count as int),
{
    let b = tx_data.as_bytes();
    let mut msg: Vec<u8> = Vec::new();
    let mut i: usize = 0;
    while i < b.len()
        invariant
            b@ == tx_data.spec_bytes(),
            i <= b@.len(),
            msg@ == b@.subrange(0, i as int),
        decreases b@.len() - i,
    {
        msg.push(b[i]);
        i = i + 1;
        assert(msg@ =~= b@.subrange(0, i as int));
    }
    assert(b@.subrange(0, b@.len() as int) =~= b@);
    let d = sha256(&msg);
    schedule_from_digest(&d, qubit_count)
}

/// Node `node` holds qubit `q` (node `i` holds `i·qpn .. (i+1)·qpn`).
pub open spec fn owns(node: int, qpn: int, q: int) -> bool {
    node * qpn <= q < node * qpn + qpn
}

/// Pair `j` has a qubit held by `node`.
pub open spec fn pair_touches(pairs: Seq<(usize, usize)>, j: int, node: int, qpn: int) -> bool {
    owns(node, qpn, pairs[j].0 as int) || owns(node, qpn, pairs[j].1 as int)
}

/// One of the first `jlim` pairs has a qubit held by `node`.
pub open spec fn touched(pairs: Seq<(usize, usize)>, jlim: int, node: int, qpn: int) -> bool {
    exists|j: int| 0 <= j < jlim && #[trigger] pair_touches(pairs, j, node, qpn)
}

fn holds_node(list: &Vec<usize>, x: usize) -> (r: bool)
    ensures
        r == list@.contains(x),
{
    let mut i: usize = 0;
    while i < list.len()
        invariant
            i <= list@.len(),
            forall|j: int| 0 <= j < i ==> list@[j] != x,
        decreases list@.len() - i,
    {
        if list[i] == x {
            assert(list@[i as int] == x);
            return true;
        }
        i = i + 1;
    }
    false
}

/// The nodes a transaction received by `node_idx` involves: that node
/// first, then, pair by pair of `entangled_pairs` (global qubit indices),
/// each node holding a qubit of the pair, once each, in node order within
/// a pair.
pub fn interference_nodes(
    node_idx: usize,
    node_count: usize,
    qubits_per_node: usize,
    entangled_pairs: &Vec<(usize, usize)>,
) -> (r: Vec<usize>)
    requires
        node_idx < node_count,
        node_count * qubits_per_node <= usize::MAX,
    ensures
        r@.len() >= 1,
        r@[0] == node_idx,
        forall|a: int, b: int| 0 <= a < b < r@.len() ==> r@[a] != r@[b],
        forall|m: usize|
            #[trigger] r@.contains(m) <==> (m == node_idx || (m < node_count && touched(
                entangled_pairs@,
                entangled_pairs@.len() as int,
                m as int,
                qubits_per_node as int,
            ))),
{
    let ghost ps = entangled_pairs@;
    let qpn = qubits_per_node;
    let mut out: Vec<usize> = Vec::new();
    out.push(node_idx);
    let mut j: usize = 0;
    while j < entangled_pairs.len()
        invariant
            ps == entangled_pairs@,
            node_idx < node_count,
            node_count * qpn <= usize::MAX,
            j <= ps.len(),
            out@.len() >= 1,
            out@[0] == node_idx,
            forall|a: int, b: int| 0 <= a < b < out@.len() ==> out@[a] != out@[b],
            forall|m: usize|
                #[trigger] out@.contains(m) <==> (m == node_idx || (m < node_count && touched(
                    ps,
                    j as int,
                    m as int,
                    qpn as int,
                ))),
        decreases ps.len() - j,
    {
        let (q1, q2) = entangled_pairs[j];
        let mut n: usize = 0;
        while n < node_count
            invariant
                ps == entangled_pairs@,
                (q1, q2) == ps[j as int],
                node_idx < node_count,
                node_count * qpn <= usize::MAX,
                j < ps.len(),
                n <= node_count,
                out@.len() >= 1,
                out@[0] == node_idx,
                forall|a: int, b: int| 0 <= a < b < out@.len() ==> out@[a] != out@[b],
                forall|m: usize|
                    #[trigger] out@.contains(m) <==> (m == node_idx || (m < node_count && touched(
                        ps,
                        j as int,
                        m as int,
                        qpn as int,
                    )) || (m < n && pair_touches(ps, j as int, m as int, qpn as int))),
            decreases node_count - n,
        {
            proof {
                assert(n * qpn + qpn <= node_count * qpn) by (nonlinear_arith)
                    requires
                        n < node_count,
                ;
            }
            let lo = n * qpn;
            let hit = (lo <= q1 && q1 < lo + qpn) || (lo <= q2 && q2 < lo + qpn);
            let ghost before = out@;
            if hit && !holds_node(&out, n) {
                out.push(n);
                proof {
                    assert(out@ == before.push(n));
                    assert forall|a: int, b: int| 0 <= a < b < out@.len() implies out@[a] != out@[b] by {
                        if b == before.len() {
                            assert(out@[a] == before[a]);
                            assert(before.contains(before[a]));
                        } else {
                            assert(out@[a] == before[a] && out@[b] == before[b]);
                        }
                    }
                }
            }
            proof {
                assert(hit == pair_touches(ps, j as int, n as int, qpn as int));
                assert forall|m: usize| #[trigger] out@.contains(m) <==> (m == node_idx || (m
                    < node_count && touched(ps, j as int, m as int, qpn as int)) || (m < n + 1
                    && pair_touches(ps, j as int, m as int, qpn as int))) by {
                    if out@.contains(m) && out@ != before {
                        let k = choose|k: int| 0 <= k < out@.len() && out@[k] == m;
                        if k < before.len() {
                            assert(before[k] == m);
                            assert(before.contains(m));
                        }
                    }
                    if before.contains(m) && out@ != before {
                        let k = choose|k: int| 0 <= k < before.len() && before[k] == m;
                        assert(out@[k] == m);
                    }
                    if m == n && hit && out@ != before {
                        assert(out@[before.len() as int] == m);
                    }
                }
            }
            n = n + 1;
        }
        proof {
            assert forall|m: usize| #[trigger] out@.contains(m) <==> (m == node_idx || (m
                < node_count && touched(ps, j + 1, m as int, qpn as int))) by {
                if m < node_count && touched(ps, j + 1, m as int, qpn as int) && !touched(
                    ps,
                    j as int,
                    m as int,
                    qpn as int,
                ) {
                    let jj = choose|jj: int| 0 <= jj < j + 1 && #[trigger] pair_touches(ps, jj, m as int, qpn as int);
                    assert(jj == j);
                }
                if m < node_count && touched(ps, j as int, m as int, qpn as int) {
                    let jj = choose|jj: int| 0 <= jj < j && #[trigger] pair_touches(ps, jj, m as int, qpn as int);
                    assert(0 <= jj < j + 1 && pair_touches(ps, jj, m as int, qpn as int));
                }
                if m < node_count && pair_touches(ps, j as int, m as int, qpn as int) {
                    assert(0 <= j < j + 1 && pair_touches(ps, j as int, m as int, qpn as int));
                }
            }
        }
        j = j + 1;
    }
    out
}

} // verus!
