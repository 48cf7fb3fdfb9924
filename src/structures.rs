use std::collections::HashSet;
use vstd::prelude::*;

use crate::bits::{
    bits_value, lemma_bits_value_bound, lemma_low_bits_value, lemma_mask_keeps, lemma_unpack_pack,
    low_bits, pack, unpack, BitBuffer, BitReader,
};

verus! {

broadcast use vstd::std_specs::hash::group_hash_axioms;

/// Opcode of the T gate.
pub const OP_T: u8 = 0;

/// Opcode of the CX gate, the one gate on two qubits.
pub const OP_CX: u8 = 1;

/// Opcode of the H gate.
pub const OP_H: u8 = 2;

/// Opcode of the S gate.
pub const OP_S: u8 = 3;

/// Width in bits of the opcode field of a gate record.
pub const OP_BITS: usize = 2;

/// Length in bytes of the file header.
pub const HEADER_LEN: usize = 20;

/// The magic bytes that open every file: `DQASM\0`.
pub open spec fn magic_bytes() -> Seq<u8> {
    seq![68u8, 81u8, 65u8, 83u8, 77u8, 0u8]
}

/// The number of binary digits of `v` (zero for zero).
pub open spec fn bit_length(v: nat) -> nat
    decreases v,
{
    if v == 0 {
        0
    } else {
        1 + bit_length(v / 2)
    }
}

/// The width of a qubit field for a circuit of `num_qubits` qubits:
/// `ceil(log2(num_qubits))`, and zero for one qubit or none.
pub open spec fn qubit_width(num_qubits: nat) -> nat {
    if num_qubits <= 1 {
        0
    } else {
        bit_length((num_qubits - 1) as nat)
    }
}

proof fn lemma_double_shift(b: u64)
    requires
        b < 62,
    ensures
        (1u64 << (b + 1)) == 2 * (1u64 << b),
        (1u64 << b) >= 1,
{
    assert((1u64 << (b + 1)) == 2 * (1u64 << b) && (1u64 << b) >= 1) by (bit_vector)
        requires
            b < 62,
    ;
}

/// A number below `2^k` has at most `k` binary digits, and lies below two to
/// the number of its digits.
pub proof fn lemma_bit_length_bound(v: nat, k: u64)
    requires
        k <= 32,
        v < (1u64 << k),
    ensures
        bit_length(v) <= k,
        v < (1u64 << (bit_length(v) as u64)),
    decreases v,
{
    if v == 0 {
        assert(0u64 < (1u64 << 0u64)) by (bit_vector);
    } else {
        let x = v as u64;
        assert(k >= 1 && x / 2 < (1u64 << ((k - 1) as u64))) by (bit_vector)
            requires
                k <= 32,
                x < (1u64 << k),
                x != 0,
        ;
        lemma_bit_length_bound(v / 2, (k - 1) as u64);
        let b = bit_length(v / 2);
        lemma_double_shift(b as u64);
    }
}

/// Every number below `2^32` lies below `1 << 32`.
proof fn lemma_u32_below(v: nat)
    requires
        v <= u32::MAX,
    ensures
        v < (1u64 << 32u64),
{
    assert((1u64 << 32u64) == 0x1_0000_0000u64) by (bit_vector);
}

/// A field of at most 32 bits holds a number that fits in 32 bits.
proof fn lemma_shift_below_u32(w: u64)
    requires
        w <= 32,
    ensures
        (1u64 << w) <= 0x1_0000_0000u64,
{
    assert((1u64 << w) <= 0x1_0000_0000u64) by (bit_vector)
        requires
            w <= 32,
    ;
}

/// Every qubit of a circuit of `num_qubits` qubits fits in the qubit field.
pub proof fn lemma_qubit_fits(num_qubits: nat, q: nat)
    requires
        q < num_qubits <= u32::MAX,
    ensures
        qubit_width(num_qubits) <= 32,
        q < (1u64 << (qubit_width(num_qubits) as u64)),
{
    if num_qubits <= 1 {
        assert(0u64 < (1u64 << 0u64)) by (bit_vector);
    } else {
        lemma_u32_below((num_qubits - 1) as nat);
        lemma_bit_length_bound((num_qubits - 1) as nat, 32);
    }
}

/// The width of a qubit field for a circuit of `num_qubits` qubits.
pub fn qubit_bits(num_qubits: u32) -> (r: usize)
    ensures
        r == qubit_width(num_qubits as nat),
        r <= 32,
{
    if num_qubits <= 1 {
        return 0;
    }
    let mut v: u32 = num_qubits - 1;
    let mut r: usize = 0;
    proof {
        lemma_u32_below(v as nat);
        lemma_bit_length_bound(v as nat, 32);
    }
    while v > 0
        invariant
            r + bit_length(v as nat) == qubit_width(num_qubits as nat),
            qubit_width(num_qubits as nat) <= 32,
        decreases v,
    {
        v = v / 2;
        r = r + 1;
    }
    r
}

/// The `n` low bytes of `v`, least significant first.
pub open spec fn le_bytes(v: u64, n: nat) -> Seq<u8> {
    Seq::new(n, |i: int| (v >> ((8 * i) as u64)) as u8)
}

/// The little-endian number in the two bytes of `b` at `p`.
pub open spec fn le16(b: Seq<u8>, p: int) -> u16 {
    (b[p] as u16) | ((b[p + 1] as u16) << 8u16)
}

/// The little-endian number in the four bytes of `b` at `p`.
pub open spec fn le32(b: Seq<u8>, p: int) -> u32 {
    (b[p] as u32) | ((b[p + 1] as u32) << 8u32) | ((b[p + 2] as u32) << 16u32) | ((b[p + 3] as u32)
        << 24u32)
}

/// The little-endian number in the eight bytes of `b` at `p`.
pub open spec fn le64(b: Seq<u8>, p: int) -> u64 {
    (b[p] as u64) | ((b[p + 1] as u64) << 8u64) | ((b[p + 2] as u64) << 16u64) | ((b[p + 3] as u64)
        << 24u64) | ((b[p + 4] as u64) << 32u64) | ((b[p + 5] as u64) << 40u64) | ((b[p + 6] as u64)
        << 48u64) | ((b[p + 7] as u64) << 56u64)
}

/// The header bytes for a file of the given version, qubit count and gate count.
pub open spec fn header_bytes(magic: Seq<u8>, version: u16, num_qubits: u32, num_gates: u64) -> Seq<
    u8,
> {
    magic + le_bytes(version as u64, 2) + le_bytes(num_qubits as u64, 4) + le_bytes(num_gates, 8)
}

/// Why a byte stream is not a circuit.
#[derive(Debug, Clone, Copy, PartialEq, Eq, Structural)]
pub enum DecodeError {
    /// The stream does not open with the magic bytes.
    BadMagic,
    /// The stream ends inside the header or inside a gate record.
    Truncated,
    /// The header announces gates but no qubits.
    NoQubits,
}

/// What the header at the start of `b` holds: version, qubit count, gate count.
pub open spec fn decode_header(b: Seq<u8>) -> Result<(u16, u32, u64), DecodeError> {
    if b.len() < 6 {
        Err(DecodeError::Truncated)
    } else if b.subrange(0, 6) != magic_bytes() {
        Err(DecodeError::BadMagic)
    } else if b.len() < 20 {
        Err(DecodeError::Truncated)
    } else {
        Ok((le16(b, 6), le32(b, 8), le64(b, 12)))
    }
}

/// The file header: format magic, version, qubit count and gate count.
pub struct Header {
    pub magic: [u8; 6],
    pub version: u16,
    pub num_qubits: u32,
    pub num_gates: u64,
}

impl Header {
    fn dqasm_magic() -> (r: [u8; 6])
        ensures
            r@ == magic_bytes(),
    {
        let r = [68u8, 81u8, 65u8, 83u8, 77u8, 0u8];
        assert(r@ =~= magic_bytes());
        r
    }

    /// A header of the current version for the given counts.
    pub fn new(num_qubits: u32, num_gates: u64) -> (r: Self)
        ensures
            r.magic@ == magic_bytes(),
            r.version == 1,
            r.num_qubits == num_qubits,
            r.num_gates == num_gates,
    {
        Header { magic: Header::dqasm_magic(), version: 1, num_qubits, num_gates }
    }

    /// Appends the header: magic, then version, qubit count and gate count, little-endian.
    pub fn write(&self, out: &mut Vec<u8>)
        ensures
            final(out)@ == old(out)@ + header_bytes(
                self.magic@,
                self.version,
                self.num_qubits,
                self.num_gates,
            ),
    {
        let mut i: usize = 0;
        while i < 6
            invariant
                i <= 6,
                out@ == old(out)@ + self.magic@.subrange(0, i as int),
            decreases 6 - i,
        {
            out.push(self.magic[i]);
            i = i + 1;
            assert(out@ =~= old(out)@ + self.magic@.subrange(0, i as int));
        }
        assert(self.magic@.subrange(0, 6) =~= self.magic@);
        push_le(out, self.version as u64, 2);
        push_le(out, self.num_qubits as u64, 4);
        push_le(out, self.num_gates, 8);
        assert(out@ =~= old(out)@ + header_bytes(
            self.magic@,
            self.version,
            self.num_qubits,
            self.num_gates,
        ));
    }

    /// Reads the header at the start of `bytes`.
    pub fn read(bytes: &[u8]) -> (r: Result<Header, DecodeError>)
        ensures
            match r {
                Ok(h) => decode_header(bytes@) == Ok::<(u16, u32, u64), DecodeError>(
                    (h.version, h.num_qubits, h.num_gates),
                ) && h.magic@ == magic_bytes(),
                Err(e) => decode_header(bytes@) == Err::<(u16, u32, u64), DecodeError>(e),
            },
    {
        if bytes.len() < 6 {
            return Err(DecodeError::Truncated);
        }
        let magic = Header::dqasm_magic();
        let mut i: usize = 0;
        while i < 6
            invariant
                i <= 6 <= bytes@.len(),
                magic@ == magic_bytes(),
                forall|j: int| 0 <= j < i ==> bytes@[j] == magic@[j],
            decreases 6 - i,
        {
            if bytes[i] != magic[i] {
                assert(bytes@.subrange(0, 6)[i as int] != magic_bytes()[i as int]);
                return Err(DecodeError::BadMagic);
            }
            i = i + 1;
        }
        assert(bytes@.subrange(0, 6) =~= magic_bytes());
        if bytes.len() < HEADER_LEN {
            return Err(DecodeError::Truncated);
        }
        let version = (bytes[6] as u16) | ((bytes[7] as u16) << 8u16);
        let num_qubits = (bytes[8] as u32) | ((bytes[9] as u32) << 8u32) | ((bytes[10] as u32)
            << 16u32) | ((bytes[11] as u32) << 24u32);
        let num_gates = (bytes[12] as u64) | ((bytes[13] as u64) << 8u64) | ((bytes[14] as u64)
            << 16u64) | ((bytes[15] as u64) << 24u64) | ((bytes[16] as u64) << 32u64) | ((
        bytes[17] as u64) << 40u64) | ((bytes[18] as u64) << 48u64) | ((bytes[19] as u64) << 56u64);
        Ok(Header { magic, version, num_qubits, num_gates })
    }
}

/// Appends the `n` low bytes of `v`, least significant first.
fn push_le(out: &mut Vec<u8>, v: u64, n: usize)
    requires
        n <= 8,
    ensures
        final(out)@ == old(out)@ + le_bytes(v, n as nat),
{
    let mut i: usize = 0;
    while i < n
        invariant
            i <= n <= 8,
            out@ == old(out)@ + le_bytes(v, i as nat),
        decreases n - i,
    {
        out.push((v >> ((8 * i) as u64)) as u8);
        i = i + 1;
        assert(out@ =~= old(out)@ + le_bytes(v, i as nat));
    }
}

/// A gate: an opcode and one qubit, or two for CX.
///
/// Opcodes: 0 is T, 1 is CX, 2 is H, 3 is S. The second qubit of a
/// one-qubit gate is zero and read by nobody.
#[derive(Debug, Clone, Copy, PartialEq, Eq, Structural)]
pub struct Gate {
    pub gate_type: u8,
    pub qubit1: u32,
    pub qubit2: u32,
}

/// The qubits that a gate acts on.
pub open spec fn gate_qubits(g: Gate) -> Set<u32> {
    if g.gate_type == OP_CX {
        set![g.qubit1, g.qubit2]
    } else {
        set![g.qubit1]
    }
}

/// The qubits that a sequence of gates acts on.
pub open spec fn qubits_of(gs: Seq<Gate>) -> Set<u32>
    decreases gs.len(),
{
    if gs.len() == 0 {
        Set::empty()
    } else {
        qubits_of(gs.drop_last()).union(gate_qubits(gs.last()))
    }
}

/// The bits of a gate record: opcode, first qubit, and the second qubit of a CX.
pub open spec fn gate_bits(g: Gate, w: nat) -> Seq<bool> {
    low_bits(g.gate_type as u64, 2) + low_bits(g.qubit1 as u64, w) + if g.gate_type == OP_CX {
        low_bits(g.qubit2 as u64, w)
    } else {
        Seq::empty()
    }
}

/// The bytes of a gate record with qubit fields of `w` bits.
pub open spec fn gate_bytes(g: Gate, w: nat) -> Seq<u8> {
    pack(gate_bits(g, w))
}

/// The bytes of a sequence of gate records.
pub open spec fn gates_bytes(gs: Seq<Gate>, w: nat) -> Seq<u8>
    decreases gs.len(),
{
    if gs.len() == 0 {
        Seq::empty()
    } else {
        gates_bytes(gs.drop_last(), w) + gate_bytes(gs.last(), w)
    }
}

/// The bytes of a circuit with these gates and this many qubits.
pub open spec fn encode_circuit(gs: Seq<Gate>, num_qubits: nat) -> Seq<u8> {
    header_bytes(magic_bytes(), 1, num_qubits as u32, gs.len() as u64) + gates_bytes(
        gs,
        qubit_width(num_qubits),
    )
}

/// The length in bytes of a gate record with this opcode.
pub open spec fn gate_len(op: u8, w: nat) -> nat {
    (2 + w * (if op == OP_CX {
        2nat
    } else {
        1nat
    }) + 7) as nat / 8
}

/// The opcode held by the low two bits of a gate record's first byte.
pub open spec fn opcode_of(first: u8) -> u8 {
    bits_value(unpack(seq![first]).subrange(0, 2)) as u8
}

/// What the bytes from `p` on in `b` encode, with qubit fields of `w` bits,
/// or none where the bytes end first.
pub open spec fn decode_gate(b: Seq<u8>, p: int, w: nat) -> Option<Gate> {
    if p < 0 || p >= b.len() {
        None
    } else {
        let op = opcode_of(b[p]);
        let n = gate_len(op, w);
        if p + n > b.len() {
            None
        } else {
            let bits = unpack(b.subrange(p, p + n));
            Some(
                Gate {
                    gate_type: op,
                    qubit1: bits_value(bits.subrange(2, 2 + w as int)) as u32,
                    qubit2: if op == OP_CX {
                        bits_value(bits.subrange(2 + w as int, 2 + 2 * w as int)) as u32
                    } else {
                        0
                    },
                },
            )
        }
    }
}

/// The `count` gates whose records follow one another from `p` in `b`, or none
/// where the bytes end first.
pub open spec fn decode_gates(b: Seq<u8>, p: int, w: nat, count: nat) -> Option<Seq<Gate>>
    decreases count,
{
    if count == 0 {
        Some(Seq::empty())
    } else {
        match decode_gate(b, p, w) {
            None => None,
            Some(g) => match decode_gates(b, p + gate_len(g.gate_type, w), w, (count - 1) as nat) {
                None => None,
                Some(rest) => Some(seq![g] + rest),
            },
        }
    }
}

/// The gates of the circuit that the bytes `b` hold.
pub open spec fn decode_circuit(b: Seq<u8>) -> Result<Seq<Gate>, DecodeError> {
    match decode_header(b) {
        Err(e) => Err(e),
        Ok((_, num_qubits, num_gates)) => if num_qubits == 0 && num_gates > 0 {
            Err(DecodeError::NoQubits)
        } else {
            match decode_gates(b, 20, qubit_width(num_qubits as nat), num_gates as nat) {
                Some(gs) => Ok(gs),
                None => Err(DecodeError::Truncated),
            }
        },
    }
}

proof fn lemma_le16(v: u64, b0: u8, b1: u8)
    requires
        v < 0x1_0000,
        b0 == (v >> 0u64) as u8,
        b1 == (v >> 8u64) as u8,
    ensures
        (b0 as u16) | ((b1 as u16) << 8u16) == v as u16,
{
    assert((b0 as u16) | ((b1 as u16) << 8u16) == v as u16) by (bit_vector)
        requires
            v < 0x1_0000,
            b0 == (v >> 0u64) as u8,
            b1 == (v >> 8u64) as u8,
    ;
}

proof fn lemma_le32(v: u64, b0: u8, b1: u8, b2: u8, b3: u8)
    requires
        v < 0x1_0000_0000,
        b0 == (v >> 0u64) as u8,
        b1 == (v >> 8u64) as u8,
        b2 == (v >> 16u64) as u8,
        b3 == (v >> 24u64) as u8,
    ensures
        (b0 as u32) | ((b1 as u32) << 8u32) | ((b2 as u32) << 16u32) | ((b3 as u32) << 24u32)
            == v as u32,
{
    assert((b0 as u32) | ((b1 as u32) << 8u32) | ((b2 as u32) << 16u32) | ((b3 as u32) << 24u32)
        == v as u32) by (bit_vector)
        requires
            v < 0x1_0000_0000,
            b0 == (v >> 0u64) as u8,
            b1 == (v >> 8u64) as u8,
            b2 == (v >> 16u64) as u8,
            b3 == (v >> 24u64) as u8,
    ;
}

proof fn lemma_le64(v: u64, b: Seq<u8>)
    requires
        b.len() == 8,
        forall|i: int| 0 <= i < 8 ==> b[i] == (v >> ((8 * i) as u64)) as u8,
    ensures
        le64(b, 0) == v,
{
    let (b0, b1, b2, b3, b4, b5, b6, b7) = (b[0], b[1], b[2], b[3], b[4], b[5], b[6], b[7]);
    assert(b0 == (v >> 0u64) as u8 && b1 == (v >> 8u64) as u8 && b2 == (v >> 16u64) as u8 && b3 == (v
        >> 24u64) as u8);
    assert(b4 == (v >> 32u64) as u8 && b5 == (v >> 40u64) as u8 && b6 == (v >> 48u64) as u8 && b7 == (v
        >> 56u64) as u8);
    assert((b0 as u64) | ((b1 as u64) << 8u64) | ((b2 as u64) << 16u64) | ((b3 as u64) << 24u64) | ((
    b4 as u64) << 32u64) | ((b5 as u64) << 40u64) | ((b6 as u64) << 48u64) | ((b7 as u64) << 56u64)
        == v) by (bit_vector)
        requires
            b0 == (v >> 0u64) as u8,
            b1 == (v >> 8u64) as u8,
            b2 == (v >> 16u64) as u8,
            b3 == (v >> 24u64) as u8,
            b4 == (v >> 32u64) as u8,
            b5 == (v >> 40u64) as u8,
            b6 == (v >> 48u64) as u8,
            b7 == (v >> 56u64) as u8,
    ;
}

/// A header written for these counts reads back as the same counts.
pub proof fn lemma_header_round_trip(num_qubits: u32, num_gates: u64, rest: Seq<u8>)
    ensures
        decode_header(header_bytes(magic_bytes(), 1, num_qubits, num_gates) + rest) == Ok::<
            (u16, u32, u64),
            DecodeError,
        >((1, num_qubits, num_gates)),
{
    let b = header_bytes(magic_bytes(), 1, num_qubits, num_gates) + rest;
    assert(b.subrange(0, 6) =~= magic_bytes());
    let nq = num_qubits as u64;
    lemma_le16(1, b[6], b[7]);
    lemma_le32(nq, b[8], b[9], b[10], b[11]);
    let tail = b.subrange(12, 20);
    assert(tail =~= le_bytes(num_gates, 8));
    lemma_le64(num_gates, tail);
    assert(le64(b, 12) == le64(tail, 0));
}

/// The bytes of any gate, wherever they stand, decode to it, and their
/// length is the one that their opcode announces.
pub proof fn lemma_gate_round_trip(g: Gate, w: nat, pre: Seq<u8>, rest: Seq<u8>)
    requires
        g.wf(),
        w <= 32,
        g.qubit1 < (1u64 << (w as u64)),
        g.gate_type == OP_CX ==> g.qubit2 < (1u64 << (w as u64)),
    ensures
        gate_bytes(g, w).len() == gate_len(g.gate_type, w),
        decode_gate(pre + gate_bytes(g, w) + rest, pre.len() as int, w) == Some(g),
{
    let gb = gate_bits(g, w);
    let rec = pack(gb);
    let b = pre + rec + rest;
    let p = pre.len() as int;
    let n = gate_len(g.gate_type, w);
    assert(rec.len() == n);
    assert(b.subrange(p, p + n) =~= rec);
    let bits = unpack(rec);
    assert forall|i: int| 0 <= i < gb.len() implies bits[i] == gb[i] by {
        lemma_unpack_pack(gb, i);
    }
    // opcode
    let op = g.gate_type as u64;
    assert(unpack(seq![b[p]]).subrange(0, 2) =~= gb.subrange(0, 2));
    assert(gb.subrange(0, 2) =~= low_bits(op, 2));
    lemma_low_bits_value(op, 2);
    assert(op < (1u64 << 2u64)) by (bit_vector)
        requires
            op < 4,
    ;
    lemma_mask_keeps(op, 2);
    assert(opcode_of(b[p]) == g.gate_type);
    // first qubit
    let q1 = g.qubit1 as u64;
    assert(bits.subrange(2, 2 + w as int) =~= low_bits(q1, w));
    lemma_low_bits_value(q1, w);
    lemma_mask_keeps(q1, w as u64);
    if g.gate_type == OP_CX {
        let q2 = g.qubit2 as u64;
        assert(bits.subrange(2 + w as int, 2 + 2 * w as int) =~= low_bits(q2, w));
        lemma_low_bits_value(q2, w);
        lemma_mask_keeps(q2, w as u64);
    }
}

/// The bytes of a nonempty gate sequence start with the first gate's record.
proof fn lemma_gates_bytes_first(gs: Seq<Gate>, w: nat)
    requires
        gs.len() > 0,
    ensures
        gates_bytes(gs, w) == gate_bytes(gs[0], w) + gates_bytes(gs.drop_first(), w),
    decreases gs.len(),
{
    if gs.len() == 1 {
        assert(gs.drop_last().len() == 0);
        assert(gs.drop_first().len() == 0);
        assert(gates_bytes(gs.drop_last(), w) == Seq::<u8>::empty());
        assert(gates_bytes(gs.drop_first(), w) == Seq::<u8>::empty());
        assert(gs.last() == gs[0]);
        assert(gates_bytes(gs, w) =~= gate_bytes(gs[0], w) + gates_bytes(gs.drop_first(), w));
    } else {
        lemma_gates_bytes_first(gs.drop_last(), w);
        assert(gs.drop_first().drop_last() =~= gs.drop_last().drop_first());
        assert(gs.drop_first().last() == gs.last());
        assert(gs.drop_last()[0] == gs[0]);
        assert(gates_bytes(gs.drop_first(), w) == gates_bytes(gs.drop_first().drop_last(), w)
            + gate_bytes(gs.drop_first().last(), w));
        assert(gates_bytes(gs, w) =~= gate_bytes(gs[0], w) + gates_bytes(gs.drop_first(), w));
    }
}

/// Records written one after another read back as the same gates.
proof fn lemma_gates_round_trip(gs: Seq<Gate>, w: nat, pre: Seq<u8>, rest: Seq<u8>)
    requires
        w <= 32,
        forall|i: int|
            0 <= i < gs.len() ==> {
                &&& (#[trigger] gs[i]).wf()
                &&& gs[i].qubit1 < (1u64 << (w as u64))
                &&& gs[i].gate_type == OP_CX ==> gs[i].qubit2 < (1u64 << (w as u64))
            },
    ensures
        decode_gates(pre + gates_bytes(gs, w) + rest, pre.len() as int, w, gs.len()) == Some(gs),
        gates_end(pre + gates_bytes(gs, w) + rest, pre.len() as int, w, gs.len()) == pre.len()
            + gates_bytes(gs, w).len(),
    decreases gs.len(),
{
    if gs.len() == 0 {
    } else {
        let g = gs[0];
        let tail = gs.drop_first();
        lemma_gates_bytes_first(gs, w);
        let pre2 = pre + gate_bytes(g, w);
        let b = pre + gates_bytes(gs, w) + rest;
        assert(b =~= pre + gate_bytes(g, w) + (gates_bytes(tail, w) + rest));
        assert(b =~= pre2 + gates_bytes(tail, w) + rest);
        lemma_gate_round_trip(g, w, pre, gates_bytes(tail, w) + rest);
        assert forall|i: int| 0 <= i < tail.len() implies {
            &&& (#[trigger] tail[i]).wf()
            &&& tail[i].qubit1 < (1u64 << (w as u64))
            &&& tail[i].gate_type == OP_CX ==> tail[i].qubit2 < (1u64 << (w as u64))
        } by {
            assert(tail[i] == gs[i + 1]);
        }
        lemma_gates_round_trip(tail, w, pre2, rest);
        assert(seq![g] + tail =~= gs);
        assert(gates_bytes(gs, w).len() == gate_bytes(g, w).len() + gates_bytes(tail, w).len());
    }
}

/// Every qubit of every gate is in the sequence's qubit set.
proof fn lemma_qubits_of_contains(gs: Seq<Gate>, i: int)
    requires
        0 <= i < gs.len(),
    ensures
        gate_qubits(gs[i]).subset_of(qubits_of(gs)),
    decreases gs.len(),
{
    if i < gs.len() - 1 {
        lemma_qubits_of_contains(gs.drop_last(), i);
        assert(gs.drop_last()[i] == gs[i]);
    }
}

/// Round trip: a circuit whose qubits are exactly `0..N` reads back from its
/// bytes as the same gates in the same order, and so with the same qubit set.
pub proof fn lemma_round_trip(c: &Circuit)
    requires
        c.wf(),
        forall|i: int| 0 <= i < c.gates@.len() ==> (#[trigger] c.gates@[i]).wf(),
        c.qubits@.len() <= u32::MAX,
        c.gates@.len() <= u64::MAX,
        forall|q: u32| c.qubits@.contains(q) ==> q < c.qubits@.len(),
    ensures
        decode_circuit(encode_circuit(c.gates@, c.qubits@.len())) == Ok::<Seq<Gate>, DecodeError>(
            c.gates@,
        ),
        decoded_len(encode_circuit(c.gates@, c.qubits@.len())) == encode_circuit(
            c.gates@,
            c.qubits@.len(),
        ).len(),
        qubits_of(c.gates@) == c.qubits@,
{
    let gs = c.gates@;
    let n = c.qubits@.len();
    let w = qubit_width(n);
    let body = gates_bytes(gs, w);
    let b = encode_circuit(gs, n);
    lemma_header_round_trip(n as u32, gs.len() as u64, body);
    assert forall|i: int| 0 <= i < gs.len() implies {
        &&& (#[trigger] gs[i]).wf()
        &&& gs[i].qubit1 < (1u64 << (w as u64))
        &&& gs[i].gate_type == OP_CX ==> gs[i].qubit2 < (1u64 << (w as u64))
    } by {
        lemma_qubits_of_contains(gs, i);
        assert(gate_qubits(gs[i]).contains(gs[i].qubit1));
        lemma_qubit_fits(n, gs[i].qubit1 as nat);
        if gs[i].gate_type == OP_CX {
            assert(gate_qubits(gs[i]).contains(gs[i].qubit2));
            lemma_qubit_fits(n, gs[i].qubit2 as nat);
        }
    }
    if gs.len() > 0 {
        lemma_qubits_of_contains(gs, 0);
        assert(gate_qubits(gs[0]).contains(gs[0].qubit1));
    }
    if n <= 1 {
        assert(0u64 < (1u64 << 0u64)) by (bit_vector);
    } else {
        lemma_qubit_fits(n, 0);
    }
    let hdr = header_bytes(magic_bytes(), 1, n as u32, gs.len() as u64);
    assert(hdr.len() == 20);
    assert(b =~= hdr + body + Seq::<u8>::empty());
    lemma_gates_round_trip(gs, w, hdr, Seq::<u8>::empty());
    assert(b.len() == hdr.len() + body.len());
}

/// A stream whose first bytes are not the magic bytes is refused as such,
/// before any other field is read.
pub proof fn lemma_bad_magic(b: Seq<u8>)
    requires
        b.len() >= 6,
        b.subrange(0, 6) != magic_bytes(),
    ensures
        decode_circuit(b) == Err::<Seq<Gate>, DecodeError>(DecodeError::BadMagic),
{
}

/// The position where the records of `count` gates from `p` on end, as far
/// as they can be decoded.
pub open spec fn gates_end(b: Seq<u8>, p: int, w: nat, count: nat) -> int
    decreases count,
{
    if count == 0 {
        p
    } else {
        match decode_gate(b, p, w) {
            None => p,
            Some(g) => gates_end(b, p + gate_len(g.gate_type, w), w, (count - 1) as nat),
        }
    }
}

/// The number of bytes at the start of `b` that its circuit takes up.
pub open spec fn decoded_len(b: Seq<u8>) -> int {
    match decode_header(b) {
        Err(_) => 0,
        Ok((_, num_qubits, num_gates)) => gates_end(
            b,
            20,
            qubit_width(num_qubits as nat),
            num_gates as nat,
        ),
    }
}

impl Gate {
    /// A gate of one of the four kinds; the second qubit of a
    /// one-qubit gate is zero.
    pub open spec fn wf(&self) -> bool {
        &&& self.gate_type < 4
        &&& self.gate_type != OP_CX ==> self.qubit2 == 0
    }

    fn op_bits() -> (r: usize)
        ensures
            r == 2,
    {
        OP_BITS
    }

    fn new(gate_type: u8, qubit1: u32, qubit2: u32) -> (r: Self)
        ensures
            r == (Gate { gate_type, qubit1, qubit2 }),
    {
        Gate { gate_type, qubit1, qubit2 }
    }

    pub fn t(q: u32) -> (r: Self)
        ensures
            r == (Gate { gate_type: OP_T, qubit1: q, qubit2: 0 }),
    {
        Gate::new(OP_T, q, 0)
    }

    pub fn cx(q1: u32, q2: u32) -> (r: Self)
        ensures
            r == (Gate { gate_type: OP_CX, qubit1: q1, qubit2: q2 }),
    {
        Gate::new(OP_CX, q1, q2)
    }

    pub fn h(q: u32) -> (r: Self)
        ensures
            r == (Gate { gate_type: OP_H, qubit1: q, qubit2: 0 }),
    {
        Gate::new(OP_H, q, 0)
    }

    pub fn s(q: u32) -> (r: Self)
        ensures
            r == (Gate { gate_type: OP_S, qubit1: q, qubit2: 0 }),
    {
        Gate::new(OP_S, q, 0)
    }

    pub fn is_double_qubit(&self) -> (r: bool)
        ensures
            r == (self.gate_type == OP_CX),
    {
        self.gate_type == OP_CX
    }

    /// The first qubit, and the second one for a two-qubit gate.
    pub fn get_qubits(&self) -> (r: (u32, Option<u32>))
        ensures
            r.0 == self.qubit1,
            r.1 == (if self.gate_type == OP_CX {
                Some(self.qubit2)
            } else {
                None::<u32>
            }),
    {
        if self.is_double_qubit() {
            (self.qubit1, Some(self.qubit2))
        } else {
            (self.qubit1, None)
        }
    }

    /// Appends this gate's bytes, with qubit fields as wide as `num_qubits` needs.
    fn write(&self, out: &mut Vec<u8>, num_qubits: u32)
        ensures
            final(out)@ == old(out)@ + gate_bytes(*self, qubit_width(num_qubits as nat)),
    {
        let qb = qubit_bits(num_qubits);
        let mut buf = BitBuffer::new();
        buf.write_bits(self.gate_type as u64, Gate::op_bits());
        buf.write_bits(self.qubit1 as u64, qb);
        if self.is_double_qubit() {
            buf.write_bits(self.qubit2 as u64, qb);
        }
        assert(buf@ =~= gate_bits(*self, qb as nat));
        let bytes = buf.bytes();
        let mut i: usize = 0;
        while i < bytes.len()
            invariant
                i <= bytes@.len(),
                bytes@ == gate_bytes(*self, qb as nat),
                out@ == old(out)@ + bytes@.subrange(0, i as int),
            decreases bytes@.len() - i,
        {
            out.push(bytes[i]);
            i = i + 1;
            assert(out@ =~= old(out)@ + bytes@.subrange(0, i as int));
        }
        assert(bytes@.subrange(0, bytes@.len() as int) =~= bytes@);
    }

    /// Decodes one gate at `pos`; returns it with the position after it.
    fn read(bytes: &[u8], pos: usize, num_qubits: u32) -> (r: Option<(Gate, usize)>)
        ensures
            match r {
                Some((g, next)) => decode_gate(bytes@, pos as int, qubit_width(num_qubits as nat))
                    == Some(g) && next == pos + gate_len(
                    g.gate_type,
                    qubit_width(num_qubits as nat),
                ),
                None => decode_gate(bytes@, pos as int, qubit_width(num_qubits as nat)) == None::<
                    Gate,
                >,
            },
    {
        let ghost w = qubit_width(num_qubits as nat);
        let qb = qubit_bits(num_qubits);
        if pos >= bytes.len() {
            return None;
        }
        let first = bytes[pos];
        let mut first_buf: Vec<u8> = Vec::new();
        first_buf.push(first);
        let mut reader = BitReader::new(first_buf);
        assert(reader.spec_data() =~= seq![first]);
        let op = reader.read_bits(Gate::op_bits());
        proof {
            lemma_bits_value_bound(unpack(seq![first]).subrange(0, 2));
            assert((1u64 << 2u64) == 4) by (bit_vector);
        }
        let gate_type = op as u8;
        let is_double = gate_type == OP_CX;
        let fields: usize = if is_double {
            2
        } else {
            1
        };
        let len = (qb * fields + Gate::op_bits() + 7) / 8;
        assert(len == gate_len(gate_type, w));
        if len > bytes.len() - pos {
            return None;
        }
        let mut rest: Vec<u8> = Vec::new();
        let end = pos + len;
        let mut i: usize = pos + 1;
        while i < end
            invariant
                end == pos + len,
                pos + 1 <= i <= pos + len <= bytes@.len(),
                rest@ == bytes@.subrange(pos + 1, i as int),
            decreases end - i,
        {
            rest.push(bytes[i]);
            i = i + 1;
            assert(rest@ =~= bytes@.subrange(pos + 1, i as int));
        }
        reader.append(&mut rest);
        let ghost rec = bytes@.subrange(pos as int, pos + len);
        assert(reader.spec_data() =~= rec);
        assert(unpack(rec).subrange(2, 2 + w as int) =~= unpack(reader.spec_data()).subrange(2, 2 + w as int));
        let ghost data = unpack(reader.spec_data());
        proof {
            lemma_bits_value_bound(data.subrange(2, 2 + qb as int));
            lemma_shift_below_u32(qb as u64);
        }
        let qubit1 = reader.read_bits(qb) as u32;
        let qubit2 = if is_double {
            proof {
                lemma_bits_value_bound(data.subrange(2 + qb as int, 2 + 2 * qb as int));
            }
            reader.read_bits(qb) as u32
        } else {
            0
        };
        Some((Gate { gate_type, qubit1, qubit2 }, pos + len))
    }
}

/// A circuit: its gates in order, and the set of qubits they act on.
pub struct Circuit {
    pub gates: Vec<Gate>,
    pub qubits: HashSet<u32>,
}

impl Circuit {
    /// The qubit set is exactly the set of qubits that the gates act on.
    pub open spec fn wf(&self) -> bool {
        self.qubits@ == qubits_of(self.gates@)
    }

    pub fn new() -> (r: Self)
        ensures
            r.wf(),
            r.gates@ == Seq::<Gate>::empty(),
    {
        let r = Circuit { gates: Vec::new(), qubits: HashSet::new() };
        assert(qubits_of(Seq::<Gate>::empty()) == Set::<u32>::empty());
        r
    }

    /// Appends a gate and records the qubits it acts on.
    pub fn add_gate(&mut self, gate: Gate)
        requires
            old(self).wf(),
        ensures
            final(self).wf(),
            final(self).gates@ == old(self).gates@.push(gate),
            final(self).qubits@ == old(self).qubits@.union(gate_qubits(gate)),
    {
        let (q0, maybe_q1) = gate.get_qubits();
        self.qubits.insert(q0);
        if let Some(q1) = maybe_q1 {
            self.qubits.insert(q1);
        }
        self.gates.push(gate);
        assert(self.gates@.drop_last() =~= old(self).gates@);
        assert(self.qubits@ =~= old(self).qubits@.union(gate_qubits(gate)));
    }

    /// Appends the circuit's bytes: the header, then each gate's record in order.
    pub fn write(&self, out: &mut Vec<u8>)
        requires
            self.wf(),
            self.qubits@.len() <= u32::MAX,
        ensures
            final(out)@ == old(out)@ + encode_circuit(self.gates@, self.qubits@.len()),
    {
        let num_qubits = self.qubits.len() as u32;
        let header = Header::new(num_qubits, self.gates.len() as u64);
        header.write(out);
        let ghost w = qubit_width(num_qubits as nat);
        let ghost start = out@;
        let mut i: usize = 0;
        while i < self.gates.len()
            invariant
                i <= self.gates@.len(),
                header.num_qubits == num_qubits,
                w == qubit_width(num_qubits as nat),
                out@ == start + gates_bytes(self.gates@.subrange(0, i as int), w),
            decreases self.gates@.len() - i,
        {
            self.gates[i].write(out, header.num_qubits);
            i = i + 1;
            assert(self.gates@.subrange(0, i as int).drop_last() =~= self.gates@.subrange(
                0,
                i - 1,
            ));
            assert(out@ =~= start + gates_bytes(self.gates@.subrange(0, i as int), w));
        }
        assert(self.gates@.subrange(0, self.gates@.len() as int) =~= self.gates@);
        assert(out@ =~= old(out)@ + encode_circuit(self.gates@, self.qubits@.len()));
    }

    /// Reads a circuit from the start of `bytes`; bytes after it are ignored.
    pub fn read(bytes: &[u8]) -> (r: Result<Circuit, DecodeError>)
        ensures
            match r {
                Ok(c) => c.wf() && decode_circuit(bytes@) == Ok::<Seq<Gate>, DecodeError>(
                    c.gates@,
                ),
                Err(e) => decode_circuit(bytes@) == Err::<Seq<Gate>, DecodeError>(e),
            },
    {
        match Circuit::read_prefix(bytes) {
            Ok((c, _)) => Ok(c),
            Err(e) => Err(e),
        }
    }

    /// Reads a circuit from the start of `bytes`; returns it with the number
    /// of bytes it takes up.
    pub fn read_prefix(bytes: &[u8]) -> (r: Result<(Circuit, usize), DecodeError>)
        ensures
            match r {
                Ok((c, end)) => c.wf() && decode_circuit(bytes@) == Ok::<Seq<Gate>, DecodeError>(
                    c.gates@,
                ) && end == decoded_len(bytes@) && end <= bytes@.len(),
                Err(e) => decode_circuit(bytes@) == Err::<Seq<Gate>, DecodeError>(e),
            },
    {
        let header = match Header::read(bytes) {
            Ok(h) => h,
            Err(e) => {
                return Err(e);
            },
        };
        if header.num_qubits == 0 && header.num_gates > 0 {
            return Err(DecodeError::NoQubits);
        }
        let ghost w = qubit_width(header.num_qubits as nat);
        let ghost total = header.num_gates as nat;
        let mut circuit = Circuit::new();
        let mut pos: usize = HEADER_LEN;
        let mut k: u64 = 0;
        while k < header.num_gates
            invariant
                k <= header.num_gates,
                total == header.num_gates,
                decode_header(bytes@) == Ok::<(u16, u32, u64), DecodeError>(
                    (header.version, header.num_qubits, header.num_gates),
                ),
                !(header.num_qubits == 0 && header.num_gates > 0),
                w == qubit_width(header.num_qubits as nat),
                circuit.wf(),
                circuit.gates@.len() == k,
                20 <= pos <= bytes@.len(),
                gates_end(bytes@, 20, w, total) == gates_end(bytes@, pos as int, w, (total - k) as nat),
                decode_gates(bytes@, 20, w, total) == match decode_gates(
                    bytes@,
                    pos as int,
                    w,
                    (total - k) as nat,
                ) {
                    Some(rest) => Some(circuit.gates@ + rest),
                    None => None,
                },
            decreases header.num_gates - k,
        {
            match Gate::read(bytes, pos, header.num_qubits) {
                None => {
                    assert(decode_gates(bytes@, pos as int, w, (total - k) as nat) == None::<
                        Seq<Gate>,
                    >);
                    return Err(DecodeError::Truncated);
                },
                Some((g, next)) => {
                    let ghost before = circuit.gates@;
                    circuit.add_gate(g);
                    pos = next;
                    k = k + 1;
                    proof {
                        match decode_gates(bytes@, pos as int, w, (total - k) as nat) {
                            Some(rest) => {
                                assert(before + (seq![g] + rest) =~= circuit.gates@ + rest);
                            },
                            None => {},
                        }
                    }
                },
            }
        }
        assert(circuit.gates@ + Seq::<Gate>::empty() =~= circuit.gates@);
        Ok((circuit, pos))
    }
}

} // verus!
