use std::collections::HashMap;
use vstd::prelude::*;

use crate::qasm_parser::{declare, line_gate, lines_view, match_gate_line, ParseError, RegisterTable};
use crate::structures::{gate_qubits, Circuit, Gate, OP_CX};

pub use crate::qasm_parser::parallel_parse_qasm;

verus! {

broadcast use vstd::std_specs::hash::group_hash_axioms;

/// The layer from which qubit `q` is free after the tagged gates `t`: one past
/// the layer of the last gate on it, or zero.
pub open spec fn next_free(t: Seq<(Gate, nat)>, q: u32) -> nat
    decreases t.len(),
{
    if t.len() == 0 {
        0
    } else if gate_qubits(t.last().0).contains(q) {
        t.last().1 + 1
    } else {
        next_free(t.drop_last(), q)
    }
}

/// The layer of gate `g` after the tagged gates `t`: the first layer from
/// which all its qubits are free.
pub open spec fn gate_layer(t: Seq<(Gate, nat)>, g: Gate) -> nat {
    if g.gate_type == OP_CX && next_free(t, g.qubit2) > next_free(t, g.qubit1) {
        next_free(t, g.qubit2)
    } else {
        next_free(t, g.qubit1)
    }
}

/// The number of layers that the tagged gates fill.
pub open spec fn layer_count(t: Seq<(Gate, nat)>) -> nat
    decreases t.len(),
{
    if t.len() == 0 {
        0
    } else if layer_count(t.drop_last()) > t.last().1 + 1 {
        layer_count(t.drop_last())
    } else {
        t.last().1 + 1
    }
}

/// The gates of layer `k`, in the order of their lines.
pub open spec fn layer_gates(t: Seq<(Gate, nat)>, k: nat) -> Seq<Gate>
    decreases t.len(),
{
    if t.len() == 0 {
        Seq::empty()
    } else if t.last().1 == k {
        layer_gates(t.drop_last(), k).push(t.last().0)
    } else {
        layer_gates(t.drop_last(), k)
    }
}

/// The gates of the first `n` layers, layer after layer.
pub open spec fn flatten(t: Seq<(Gate, nat)>, n: nat) -> Seq<Gate>
    decreases n,
{
    if n == 0 {
        Seq::empty()
    } else {
        flatten(t, (n - 1) as nat) + layer_gates(t, (n - 1) as nat)
    }
}

/// Reading the lines one by one: the registers declared so far, the next
/// free offset, and each gate so far tagged with its layer.
pub open spec fn layered_state(lines: Seq<Seq<u8>>) -> Result<
    (Seq<(Seq<u8>, u32)>, u32, Seq<(Gate, nat)>),
    ParseError,
>
    decreases lines.len(),
{
    if lines.len() == 0 {
        Ok((Seq::empty(), 0, Seq::empty()))
    } else {
        match layered_state(lines.drop_last()) {
            Err(e) => Err(e),
            Ok((regs, next, t)) => match declare(regs, next, lines.last()) {
                Err(e) => Err(e),
                Ok((regs2, next2)) => match line_gate(regs2, lines.last()) {
                    Err(e) => Err(e),
                    Ok(None) => Ok((regs2, next2, t)),
                    Ok(Some(g)) => Ok((regs2, next2, t.push((g, gate_layer(t, g))))),
                },
            },
        }
    }
}

/// The gates of a text ordered by layer, and within a layer by line.
pub open spec fn layered_gates(lines: Seq<Seq<u8>>) -> Result<Seq<Gate>, ParseError> {
    match layered_state(lines) {
        Err(e) => Err(e),
        Ok((_, _, t)) => Ok(flatten(t, layer_count(t))),
    }
}

/// Each tag is the layer that its gate gets after the gates before it.
pub open spec fn tags_valid(t: Seq<(Gate, nat)>) -> bool {
    forall|j: int| 0 <= j < t.len() ==> (#[trigger] t[j]).1 == gate_layer(t.subrange(0, j), t[j].0)
}

proof fn lemma_layered_tags_valid(lines: Seq<Seq<u8>>)
    requires
        layered_state(lines) is Ok,
    ensures
        tags_valid(layered_state(lines)->Ok_0.2),
    decreases lines.len(),
{
    if lines.len() > 0 {
        let pre = lines.drop_last();
        lemma_layered_tags_valid(pre);
        let t = layered_state(pre)->Ok_0.2;
        let t2 = layered_state(lines)->Ok_0.2;
        if t2 != t {
            assert forall|j: int| 0 <= j < t2.len() implies (#[trigger] t2[j]).1 == gate_layer(
                t2.subrange(0, j),
                t2[j].0,
            ) by {
                if j < t.len() {
                    assert(t2.subrange(0, j) =~= t.subrange(0, j));
                    assert(t2[j] == t[j]);
                } else {
                    assert(t2.subrange(0, j) =~= t);
                }
            }
        }
    }
}

/// A gate's layer is at least the next free layer of each of its qubits.
proof fn lemma_gate_layer_covers(t: Seq<(Gate, nat)>, g: Gate, q: u32)
    requires
        gate_qubits(g).contains(q),
    ensures
        next_free(t, q) <= gate_layer(t, g),
{
}

/// After validly tagged gates, a qubit is free only past every gate on it.
proof fn lemma_next_free_past(t: Seq<(Gate, nat)>, i: int, q: u32)
    requires
        tags_valid(t),
        0 <= i < t.len(),
        gate_qubits(t[i].0).contains(q),
    ensures
        t[i].1 + 1 <= next_free(t, q),
    decreases t.len(),
{
    let u = t.drop_last();
    let x = t.last();
    if i < t.len() - 1 {
        assert forall|j: int| 0 <= j < u.len() implies (#[trigger] u[j]).1 == gate_layer(
            u.subrange(0, j),
            u[j].0,
        ) by {
            assert(u[j] == t[j]);
            assert(u.subrange(0, j) =~= t.subrange(0, j));
        }
        assert(u[i] == t[i]);
        lemma_next_free_past(u, i, q);
        if gate_qubits(x.0).contains(q) {
            assert(t.subrange(0, t.len() - 1) =~= u);
            lemma_gate_layer_covers(u, x.0, q);
        }
    }
}

/// Layering keeps dependencies: of two gates that share a qubit, the one on
/// the later line lies in a strictly later layer, so it comes after the
/// other in the layered circuit.
pub proof fn lemma_layers_keep_dependencies(lines: Seq<Seq<u8>>, i: int, j: int, q: u32)
    requires
        layered_state(lines) is Ok,
        0 <= i < j < layered_state(lines)->Ok_0.2.len(),
        gate_qubits(layered_state(lines)->Ok_0.2[i].0).contains(q),
        gate_qubits(layered_state(lines)->Ok_0.2[j].0).contains(q),
    ensures
        layered_state(lines)->Ok_0.2[i].1 < layered_state(lines)->Ok_0.2[j].1,
{
    let t = layered_state(lines)->Ok_0.2;
    lemma_layered_tags_valid(lines);
    let u = t.subrange(0, j);
    assert forall|m: int| 0 <= m < u.len() implies (#[trigger] u[m]).1 == gate_layer(
        u.subrange(0, m),
        u[m].0,
    ) by {
        assert(u[m] == t[m]);
        assert(u.subrange(0, m) =~= t.subrange(0, m));
    }
    assert(u[i] == t[i]);
    lemma_next_free_past(u, i, q);
    assert(t[j].1 == gate_layer(u, t[j].0));
    lemma_gate_layer_covers(u, t[j].0, q);
}

/// No qubit is free only past the last layer.
proof fn lemma_next_free_bound(t: Seq<(Gate, nat)>, q: u32)
    ensures
        next_free(t, q) <= layer_count(t),
    decreases t.len(),
{
    if t.len() > 0 {
        lemma_next_free_bound(t.drop_last(), q);
    }
}

/// The layers past the last one are empty.
proof fn lemma_layer_gates_beyond(t: Seq<(Gate, nat)>, k: nat)
    requires
        k >= layer_count(t),
    ensures
        layer_gates(t, k) == Seq::<Gate>::empty(),
    decreases t.len(),
{
    if t.len() > 0 {
        lemma_layer_gates_beyond(t.drop_last(), k);
    }
}

/// No layer holds more gates than were tagged.
proof fn lemma_layer_count_bound(t: Seq<(Gate, nat)>)
    requires
        forall|i: int| 0 <= i < t.len() ==> (#[trigger] t[i]).1 <= i,
    ensures
        layer_count(t) <= t.len(),
    decreases t.len(),
{
    if t.len() > 0 {
        let u = t.drop_last();
        assert forall|i: int| 0 <= i < u.len() implies (#[trigger] u[i]).1 <= i by {
            assert(u[i] == t[i]);
        }
        lemma_layer_count_bound(u);
    }
}

/// Once reading fails at some line, it fails with that error whatever follows.
proof fn lemma_layered_err(ls: Seq<Seq<u8>>, i: int)
    requires
        0 <= i <= ls.len(),
        layered_state(ls.subrange(0, i)) is Err,
    ensures
        layered_state(ls)->Err_0 == layered_state(ls.subrange(0, i))->Err_0,
        layered_state(ls) is Err,
    decreases ls.len() - i,
{
    if i < ls.len() {
        assert(ls.subrange(0, i + 1).drop_last() =~= ls.subrange(0, i));
        lemma_layered_err(ls, i + 1);
    } else {
        assert(ls.subrange(0, i) =~= ls);
    }
}

/// Reads a text's lines into a circuit ordered by dependency layer. Each gate
/// goes to the first layer from which all its qubits are free; the layers
/// follow one another, and within a layer the gates keep the order of their
/// lines. A gate can name only the registers declared above it.
pub fn parse_qasm(lines: &Vec<Vec<u8>>) -> (r: Result<Circuit, ParseError>)
    ensures
        match r {
            Ok(c) => c.wf() && layered_gates(lines_view(lines@)) == Ok::<Seq<Gate>, ParseError>(
                c.gates@,
            ),
            Err(e) => layered_gates(lines_view(lines@)) == Err::<Seq<Gate>, ParseError>(e),
        },
{
    let ghost ls = lines_view(lines@);
    let mut table = RegisterTable::new();
    let mut next: HashMap<u32, usize> = HashMap::new();
    let mut layers: Vec<Vec<Gate>> = Vec::new();
    let ghost mut t: Seq<(Gate, nat)> = Seq::empty();
    let mut i: usize = 0;
    while i < lines.len()
        invariant
            i <= lines@.len(),
            ls == lines_view(lines@),
            layered_state(ls.subrange(0, i as int)) == Ok::<
                (Seq<(Seq<u8>, u32)>, u32, Seq<(Gate, nat)>),
                ParseError,
            >((table.regs(), table.next_offset, t)),
            forall|q: u32|
                #![trigger next@.contains_key(q)]
                #![trigger next_free(t, q)]
                (next@.contains_key(q) ==> next@[q] == next_free(t, q)) && (!next@.contains_key(q)
                    ==> next_free(t, q) == 0),
            layers@.len() == layer_count(t),
            forall|k: int| 0 <= k < layers@.len() ==> (#[trigger] layers@[k])@ == layer_gates(t, k as nat),
            forall|j: int| 0 <= j < t.len() ==> (#[trigger] t[j]).1 <= j,
            t.len() <= i,
        decreases lines@.len() - i,
    {
        let line = lines[i].as_slice();
        let ghost pre = ls.subrange(0, i + 1);
        assert(pre.drop_last() =~= ls.subrange(0, i as int));
        assert(pre.last() == line@);
        match table.declare_line(line) {
            Ok(()) => {},
            Err(e) => {
                proof {
                    lemma_layered_err(ls, i + 1);
                }
                return Err(e);
            },
        }
        match match_gate_line(&table, line) {
            Err(e) => {
                proof {
                    lemma_layered_err(ls, i + 1);
                }
                return Err(e);
            },
            Ok(None) => {},
            Ok(Some(g)) => {
                proof {
                    lemma_next_free_bound(t, g.qubit1);
                    lemma_next_free_bound(t, g.qubit2);
                    lemma_layer_count_bound(t);
                }
                let (q0, maybe_q1) = g.get_qubits();
                let mut layer: usize = match next.get(&q0) {
                    Some(v) => *v,
                    None => 0,
                };
                if let Some(q1) = maybe_q1 {
                    let l1: usize = match next.get(&q1) {
                        Some(v) => *v,
                        None => 0,
                    };
                    if l1 > layer {
                        layer = l1;
                    }
                }
                assert(layer == gate_layer(t, g));
                next.insert(q0, layer + 1);
                if let Some(q1) = maybe_q1 {
                    next.insert(q1, layer + 1);
                }
                if layers.len() == layer {
                    layers.push(Vec::new());
                    proof {
                        lemma_layer_gates_beyond(t, layer as nat);
                    }
                }
                assert(layers@[layer as int]@ == layer_gates(t, layer as nat));
                let ghost old_layers = layers@;
                layers[layer].push(g);
                let ghost t2 = t.push((g, layer as nat));
                proof {
                    assert(t2.drop_last() =~= t);
                    assert forall|q: u32|
                        #![trigger next@.contains_key(q)]
                        #![trigger next_free(t2, q)]
                        (next@.contains_key(q) ==> next@[q] == next_free(t2, q)) && (
                        !next@.contains_key(q) ==> next_free(t2, q) == 0) by {
                        if gate_qubits(g).contains(q) {
                        } else {
                            assert(next_free(t2, q) == next_free(t, q));
                        }
                    }
                    assert forall|k: int| 0 <= k < layers@.len() implies (#[trigger] layers@[k])@
                        == layer_gates(t2, k as nat) by {
                        if k == layer {
                            assert(layer_gates(t2, k as nat) == layer_gates(t, k as nat).push(g));
                            assert(layers@[k]@ =~= old_layers[k]@.push(g));
                        } else {
                            assert(layers@[k] == old_layers[k]);
                        }
                    }
                    assert forall|j: int| 0 <= j < t2.len() implies (#[trigger] t2[j]).1 <= j by {
                        if j < t.len() {
                            assert(t2[j] == t[j]);
                        }
                    }
                    t = t2;
                }
            },
        }
        i = i + 1;
    }
    assert(ls.subrange(0, lines@.len() as int) =~= ls);
    let mut circ = Circuit::new();
    let mut k: usize = 0;
    while k < layers.len()
        invariant
            k <= layers@.len(),
            layers@.len() == layer_count(t),
            forall|m: int| 0 <= m < layers@.len() ==> (#[trigger] layers@[m])@ == layer_gates(t, m as nat),
            circ.wf(),
            circ.gates@ == flatten(t, k as nat),
        decreases layers@.len() - k,
    {
        let bucket = &layers[k];
        let ghost base = circ.gates@;
        let mut j: usize = 0;
        while j < bucket.len()
            invariant
                j <= bucket@.len(),
                circ.wf(),
                circ.gates@ == base + bucket@.subrange(0, j as int),
            decreases bucket@.len() - j,
        {
            circ.add_gate(bucket[j]);
            j = j + 1;
            assert(circ.gates@ =~= base + bucket@.subrange(0, j as int));
        }
        assert(bucket@.subrange(0, bucket@.len() as int) =~= bucket@);
        k = k + 1;
    }
    Ok(circ)
}

} // verus!
