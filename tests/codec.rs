use dqasm::bits::{BitBuffer, BitReader};
use dqasm::my_function;
use dqasm::structures::{qubit_bits, Circuit, DecodeError, Gate, Header};

fn sample_circuit() -> Circuit {
    let mut c = Circuit::new();
    c.add_gate(Gate::h(0));
    c.add_gate(Gate::cx(0, 1));
    c.add_gate(Gate::t(1));
    c
}

fn encode(c: &Circuit) -> Vec<u8> {
    let mut out = Vec::new();
    c.write(&mut out);
    out
}

#[test]
fn greeting_is_hello() {
    assert_eq!(my_function(), "Hello");
}

#[test]
fn qubit_width_of_one_qubit_is_zero() {
    assert_eq!(qubit_bits(1), 0);
}

#[test]
fn qubit_width_of_256_is_8() {
    assert_eq!(qubit_bits(256), 8);
}

#[test]
fn qubit_width_of_257_is_9() {
    assert_eq!(qubit_bits(257), 9);
}

#[test]
fn qubit_width_small_counts() {
    assert_eq!(qubit_bits(0), 0);
    assert_eq!(qubit_bits(2), 1);
    assert_eq!(qubit_bits(3), 2);
    assert_eq!(qubit_bits(4), 2);
    assert_eq!(qubit_bits(5), 3);
    assert_eq!(qubit_bits(u32::MAX), 32);
}

#[test]
fn header_new_fields() {
    let h = Header::new(7, 9);
    assert_eq!(&h.magic, b"DQASM\0");
    assert_eq!(h.version, 1);
    assert_eq!(h.num_qubits, 7);
    assert_eq!(h.num_gates, 9);
}

#[test]
fn gate_constructors() {
    assert_eq!(Gate::t(4), Gate { gate_type: 0, qubit1: 4, qubit2: 0 });
    assert_eq!(Gate::cx(1, 2), Gate { gate_type: 1, qubit1: 1, qubit2: 2 });
    assert_eq!(Gate::h(3), Gate { gate_type: 2, qubit1: 3, qubit2: 0 });
    assert_eq!(Gate::s(5), Gate { gate_type: 3, qubit1: 5, qubit2: 0 });
    assert!(Gate::cx(1, 2).is_double_qubit());
    assert!(!Gate::t(1).is_double_qubit());
    assert_eq!(Gate::cx(1, 2).get_qubits(), (1, Some(2)));
    assert_eq!(Gate::s(5).get_qubits(), (5, None));
}

#[test]
fn add_gate_tracks_qubits() {
    let c = sample_circuit();
    assert_eq!(c.gates.len(), 3);
    assert_eq!(c.qubits.len(), 2);
    assert!(c.qubits.contains(&0));
    assert!(c.qubits.contains(&1));
}

#[test]
fn circuit_encoding_bytes() {
    let bytes = encode(&sample_circuit());
    let mut expected: Vec<u8> = b"DQASM\0".to_vec();
    expected.extend_from_slice(&[1, 0]);
    expected.extend_from_slice(&[2, 0, 0, 0]);
    expected.extend_from_slice(&[3, 0, 0, 0, 0, 0, 0, 0]);
    expected.extend_from_slice(&[2, 9, 4]);
    assert_eq!(bytes, expected);
}

#[test]
fn write_appends_to_existing_bytes() {
    let mut out = vec![0xAA];
    Circuit::new().write(&mut out);
    assert_eq!(out.len(), 21);
    assert_eq!(out[0], 0xAA);
    assert_eq!(&out[1..7], b"DQASM\0");
}

#[test]
fn round_trip_sample() {
    let c = sample_circuit();
    let back = Circuit::read(&encode(&c)).unwrap();
    assert_eq!(back.gates, c.gates);
    assert_eq!(back.qubits, c.qubits);
}

#[test]
fn round_trip_wide_circuit() {
    let mut c = Circuit::new();
    for q in 0..300u32 {
        c.add_gate(Gate::h(q));
    }
    c.add_gate(Gate::cx(299, 0));
    c.add_gate(Gate::s(257));
    c.add_gate(Gate::t(3));
    let bytes = encode(&c);
    // 300 qubits need 9-bit fields: 11 bits (2 bytes) per one-qubit gate, 20 bits (3 bytes) for cx.
    assert_eq!(bytes.len(), 20 + 302 * 2 + 3);
    let back = Circuit::read(&bytes).unwrap();
    assert_eq!(back.gates, c.gates);
    assert_eq!(back.qubits, c.qubits);
}

#[test]
fn round_trip_single_qubit() {
    let mut c = Circuit::new();
    c.add_gate(Gate::t(0));
    c.add_gate(Gate::s(0));
    let bytes = encode(&c);
    assert_eq!(bytes.len(), 22);
    let back = Circuit::read(&bytes).unwrap();
    assert_eq!(back.gates, c.gates);
}

#[test]
fn round_trip_empty_circuit() {
    let bytes = encode(&Circuit::new());
    assert_eq!(bytes.len(), 20);
    let back = Circuit::read(&bytes).unwrap();
    assert!(back.gates.is_empty());
    assert!(back.qubits.is_empty());
}

#[test]
fn decode_rejects_bad_magic() {
    let mut bytes = encode(&sample_circuit());
    bytes[0] = b'X';
    assert!(matches!(Circuit::read(&bytes), Err(DecodeError::BadMagic)));
}

#[test]
fn decode_rejects_bad_magic_before_other_fields() {
    // The magic is wrong and nothing follows it: the magic decides.
    assert!(matches!(Circuit::read(b"DQASN\0"), Err(DecodeError::BadMagic)));
}

#[test]
fn decode_rejects_short_header() {
    assert!(matches!(Circuit::read(b"DQA"), Err(DecodeError::Truncated)));
    assert!(matches!(Circuit::read(b"DQASM\0\x01\x00"), Err(DecodeError::Truncated)));
}

#[test]
fn decode_rejects_truncated_gates() {
    let bytes = encode(&sample_circuit());
    assert!(matches!(Circuit::read(&bytes[..bytes.len() - 1]), Err(DecodeError::Truncated)));
}

#[test]
fn decode_rejects_truncated_gate_record() {
    let mut c = Circuit::new();
    for q in 0..300u32 {
        c.add_gate(Gate::h(q));
    }
    let bytes = encode(&c);
    // The last record spans two bytes; its second byte is missing.
    assert!(matches!(Circuit::read(&bytes[..bytes.len() - 1]), Err(DecodeError::Truncated)));
}

#[test]
fn decode_rejects_gates_without_qubits() {
    let mut bytes: Vec<u8> = b"DQASM\0".to_vec();
    bytes.extend_from_slice(&[1, 0, 0, 0, 0, 0, 1, 0, 0, 0, 0, 0, 0, 0, 0]);
    assert!(matches!(Circuit::read(&bytes), Err(DecodeError::NoQubits)));
}

#[test]
fn decode_ignores_trailing_bytes() {
    let mut bytes = encode(&sample_circuit());
    bytes.extend_from_slice(&[0xFF, 0xFF]);
    let back = Circuit::read(&bytes).unwrap();
    assert_eq!(back.gates, sample_circuit().gates);
}

#[test]
fn bit_buffer_packs_lsb_first() {
    let mut buf = BitBuffer::new();
    buf.write_bits(0b10, 2);
    buf.write_bits(0b101, 3);
    buf.write_bits(0xFF, 4);
    assert_eq!(buf.bytes(), &[0b1111_0110, 0b1]);
}

#[test]
fn bit_buffer_drops_high_bits() {
    let mut buf = BitBuffer::new();
    buf.write_bits(0xFF, 3);
    assert_eq!(buf.bytes(), &[0b111]);
}

#[test]
fn bit_reader_reads_back_writes() {
    let mut buf = BitBuffer::new();
    buf.write_bits(3, 2);
    buf.write_bits(300, 9);
    buf.write_bits(0xDEAD_BEEF, 32);
    let mut r = BitReader::new(buf.bytes().to_vec());
    assert_eq!(r.read_bits(2), 3);
    assert_eq!(r.read_bits(9), 300);
    assert_eq!(r.read_bits(32), 0xDEAD_BEEF);
}

#[test]
fn bit_reader_append_extends_data() {
    let mut r = BitReader::new(vec![0b0000_0001]);
    assert_eq!(r.read_bits(1), 1);
    let mut more = vec![0xAB];
    r.append(&mut more);
    assert!(more.is_empty());
    assert_eq!(r.read_bits(7), 0);
    assert_eq!(r.read_bits(8), 0xAB);
}

#[test]
fn bit_fields_up_to_64_bits_round_trip() {
    let fields: [(u64, usize); 6] = [
        (1, 1),
        (0x1_2345_6789, 33),
        (u64::MAX, 64),
        (5, 3),
        ((1u64 << 63) | 7, 64),
        (0x7FFF_FFFF_FFFF_FFFF, 63),
    ];
    let mut buf = BitBuffer::new();
    for &(v, n) in fields.iter() {
        buf.write_bits(v, n);
    }
    let total: usize = fields.iter().map(|f| f.1).sum();
    assert_eq!(buf.bytes().len(), (total + 7) / 8);
    let mut r = BitReader::new(buf.bytes().to_vec());
    for &(v, n) in fields.iter() {
        assert_eq!(r.read_bits(n), v);
    }
}

#[test]
fn bit_buffer_64_bit_field_bytes() {
    let mut buf = BitBuffer::new();
    buf.write_bits(0x0102_0304_0506_0708, 64);
    assert_eq!(buf.bytes(), &[8, 7, 6, 5, 4, 3, 2, 1]);
    let mut r = BitReader::new(vec![0xFF; 9]);
    r.read_bits(4);
    assert_eq!(r.read_bits(64), u64::MAX);
}

#[test]
fn read_prefix_consumes_exactly_the_circuit() {
    let c = sample_circuit();
    let mut bytes = encode(&c);
    let len = bytes.len();
    bytes.extend_from_slice(&[0xAB, 0xCD]);
    let (back, end) = Circuit::read_prefix(&bytes).unwrap();
    assert_eq!(end, len);
    assert_eq!(back.gates, c.gates);
    assert!(matches!(Circuit::read_prefix(b"XQASM\0"), Err(DecodeError::BadMagic)));
}

#[test]
fn header_read_and_write() {
    let mut out = Vec::new();
    Header::new(258, 0x0102_0304_0506_0708).write(&mut out);
    assert_eq!(out.len(), 20);
    let h = Header::read(&out).unwrap();
    assert_eq!(h.version, 1);
    assert_eq!(h.num_qubits, 258);
    assert_eq!(h.num_gates, 0x0102_0304_0506_0708);
    out[5] = 1;
    assert!(matches!(Header::read(&out), Err(DecodeError::BadMagic)));
    assert!(matches!(Header::read(&out[..6]), Err(DecodeError::BadMagic)));
}
