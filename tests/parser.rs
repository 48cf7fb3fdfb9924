use dqasm::qasm::parse_qasm;
use dqasm::qasm_parser::{
    circuit_from_matches, match_gate_line, parallel_parse_qasm, text_lines, ParseError,
    RegisterTable,
};
use dqasm::structures::{Circuit, Gate};

fn lines(text: &str) -> Vec<Vec<u8>> {
    text.lines().map(|l| l.as_bytes().to_vec()).collect()
}

#[test]
fn register_offsets_resolve() {
    let ls = lines("qreg q[2];\nqreg r[3];\n");
    let table = RegisterTable::from_lines(&ls).unwrap();
    assert_eq!(table.lookup(b"q"), Some(0));
    assert_eq!(table.lookup(b"r"), Some(2));
    assert_eq!(table.lookup(b"s"), None);
    assert_eq!(table.next_offset, 5);
    assert_eq!(match_gate_line(&table, b"t q[1];"), Ok(Some(Gate::t(1))));
    assert_eq!(match_gate_line(&table, b"t r[0];"), Ok(Some(Gate::t(2))));
}

#[test]
fn redeclared_register_takes_new_offset() {
    let ls = lines("qreg q[2];\nqreg q[3];\n");
    let table = RegisterTable::from_lines(&ls).unwrap();
    assert_eq!(table.lookup(b"q"), Some(2));
    assert_eq!(table.next_offset, 5);
}

#[test]
fn declaration_grammar() {
    let ls = lines("qreg  _a1[4];\nqreg\tb[2];\nqreg c[2]; \nqregd[2];\nqreg 1x[2];\nqreg e[];\n");
    let table = RegisterTable::from_lines(&ls).unwrap();
    assert_eq!(table.lookup(b"_a1"), Some(0));
    assert_eq!(table.lookup(b"b"), Some(4));
    assert_eq!(table.lookup(b"c"), None);
    assert_eq!(table.lookup(b"d"), None);
    assert_eq!(table.lookup(b"e"), None);
    assert_eq!(table.next_offset, 6);
}

#[test]
fn gate_line_grammar() {
    let ls = lines("qreg q[4];\nqreg rr[4];\n");
    let table = RegisterTable::from_lines(&ls).unwrap();
    assert_eq!(match_gate_line(&table, b"cx q[0],rr[1];"), Ok(Some(Gate::cx(0, 5))));
    assert_eq!(match_gate_line(&table, b"cx  q[3],   q[2];"), Ok(Some(Gate::cx(3, 2))));
    assert_eq!(match_gate_line(&table, b"h rr[3];"), Ok(Some(Gate::h(7))));
    assert_eq!(match_gate_line(&table, b"s q[007];"), Ok(Some(Gate::s(7))));
    assert_eq!(match_gate_line(&table, b"cx q[0] ,q[1];"), Ok(None));
    assert_eq!(match_gate_line(&table, b"cxq[0],q[1];"), Ok(None));
    assert_eq!(match_gate_line(&table, b"t q[0]"), Ok(None));
    assert_eq!(match_gate_line(&table, b"t q[0]; "), Ok(None));
    assert_eq!(match_gate_line(&table, b"t r[0];"), Ok(None));
    assert_eq!(match_gate_line(&table, b"x q[0];"), Ok(None));
    assert_eq!(match_gate_line(&table, b"tdg q[0];"), Ok(None));
    assert_eq!(match_gate_line(&table, b"qreg q[4];"), Ok(None));
    assert_eq!(match_gate_line(&table, b""), Ok(None));
}

#[test]
fn index_too_large_is_an_error() {
    let ls = lines("qreg q[2];\nt q[4294967296];\n");
    assert_eq!(parallel_parse_qasm(&ls).err(), Some(ParseError::NumberTooLarge));
    assert_eq!(parse_qasm(&ls).err(), Some(ParseError::NumberTooLarge));
}

#[test]
fn size_too_large_is_an_error() {
    let ls = lines("qreg q[99999999999];\n");
    assert_eq!(parallel_parse_qasm(&ls).err(), Some(ParseError::NumberTooLarge));
    assert_eq!(parse_qasm(&ls).err(), Some(ParseError::NumberTooLarge));
}

#[test]
fn qubit_space_overflow_is_an_error() {
    let ls = lines("qreg q[4294967295];\nqreg r[1];\n");
    assert_eq!(parallel_parse_qasm(&ls).err(), Some(ParseError::QubitOutOfRange));
    let ls = lines("qreg q[4294967295];\nqreg r[0];\nt r[1];\n");
    assert_eq!(parallel_parse_qasm(&ls).err(), Some(ParseError::QubitOutOfRange));
    assert_eq!(parse_qasm(&ls).err(), Some(ParseError::QubitOutOfRange));
}

#[test]
fn sequential_layering_example() {
    let ls = lines("qreg q[2];\nt q[0];\ncx q[0],q[1];\nt q[1];\n");
    let c = parse_qasm(&ls).unwrap();
    assert_eq!(c.gates, vec![Gate::t(0), Gate::cx(0, 1), Gate::t(1)]);
}

#[test]
fn sequential_groups_by_layer() {
    // Layers: t q[0] -> 0, t q[0] -> 1, h q[1] -> 0, cx -> 2, s q[2] -> 0.
    let ls = lines("qreg q[3];\nt q[0];\nt q[0];\nh q[1];\ncx q[1],q[0];\ns q[2];\n");
    let c = parse_qasm(&ls).unwrap();
    assert_eq!(
        c.gates,
        vec![Gate::t(0), Gate::h(1), Gate::s(2), Gate::t(0), Gate::cx(1, 0)]
    );
    assert_eq!(c.qubits.len(), 3);
}

#[test]
fn sequential_sees_only_earlier_registers() {
    let ls = lines("t q[0];\nqreg q[1];\nh q[0];\n");
    let c = parse_qasm(&ls).unwrap();
    assert_eq!(c.gates, vec![Gate::h(0)]);
}

#[test]
fn parallel_keeps_line_order() {
    let ls = lines("qreg q[3];\nt q[0];\nt q[0];\nh q[1];\ncx q[1],q[0];\ns q[2];\n");
    let c = parallel_parse_qasm(&ls).unwrap();
    assert_eq!(
        c.gates,
        vec![Gate::t(0), Gate::t(0), Gate::h(1), Gate::cx(1, 0), Gate::s(2)]
    );
}

#[test]
fn parallel_sees_later_registers() {
    let ls = lines("t q[0];\nqreg q[1];\nh q[0];\n");
    let c = parallel_parse_qasm(&ls).unwrap();
    assert_eq!(c.gates, vec![Gate::t(0), Gate::h(0)]);
}

#[test]
fn parallel_skips_unrecognised_lines() {
    let ls = lines("OPENQASM 2.0;\ninclude \"qelib1.inc\";\nqreg q[2];\ncreg c[2];\ntdg q[0];\nx q[1];\nmeasure q[0] -> c[0];\ns q[1];\n");
    let c = parallel_parse_qasm(&ls).unwrap();
    assert_eq!(c.gates, vec![Gate::s(1)]);
}

#[test]
fn parallel_of_empty_text() {
    let c = parallel_parse_qasm(&Vec::new()).unwrap();
    assert!(c.gates.is_empty());
    assert!(c.qubits.is_empty());
}

#[test]
fn matches_gather_in_order() {
    let ms = vec![Ok(Some(Gate::h(2))), Ok(None), Ok(Some(Gate::t(0)))];
    let c = circuit_from_matches(&ms).unwrap();
    assert_eq!(c.gates, vec![Gate::h(2), Gate::t(0)]);
    let ms = vec![
        Ok(Some(Gate::h(2))),
        Err(ParseError::QubitOutOfRange),
        Err(ParseError::NumberTooLarge),
    ];
    assert_eq!(circuit_from_matches(&ms).err(), Some(ParseError::QubitOutOfRange));
}

#[test]
fn matches_split_into_chunks_keep_order() {
    let ls = lines("qreg q[4];\nh q[3];\ncx q[3],q[0];\nt q[2];\ns q[1];\n");
    let table = RegisterTable::from_lines(&ls).unwrap();
    let mut ms = Vec::new();
    for chunk in ls.chunks(2).rev() {
        let part: Vec<_> = chunk.iter().map(|l| match_gate_line(&table, l)).collect();
        ms.insert(0, part);
    }
    let ms: Vec<_> = ms.into_iter().flatten().collect();
    let c = circuit_from_matches(&ms).unwrap();
    assert_eq!(c.gates, parallel_parse_qasm(&ls).unwrap().gates);
    assert_eq!(c.gates, vec![Gate::h(3), Gate::cx(3, 0), Gate::t(2), Gate::s(1)]);
}

#[test]
fn text_lines_splits_like_a_reader() {
    let v = |xs: &[&str]| xs.iter().map(|x| x.as_bytes().to_vec()).collect::<Vec<_>>();
    assert_eq!(text_lines(b"a\r\nb\n\nc"), v(&["a", "b", "", "c"]));
    assert_eq!(text_lines(b"x\n"), v(&["x"]));
    assert_eq!(text_lines(b""), v(&[]));
    assert_eq!(text_lines(b"\n"), v(&[""]));
    assert_eq!(text_lines(b"\r\n\r\n"), v(&["", ""]));
    assert_eq!(text_lines(b"end\r"), v(&["end\r"]));
    assert_eq!(text_lines(b"a\rb\n"), v(&["a\rb"]));
}

#[test]
fn text_lines_agrees_with_std_lines() {
    let text = "qreg q[2];\r\nh q[0];\n\ncx q[0],q[1];\nt q[1]";
    assert_eq!(text_lines(text.as_bytes()), lines(text));
}

#[test]
fn end_to_end_text_to_bytes_and_back() {
    let ls = text_lines(b"qreg q[2];\nh q[0];\ncx q[0],q[1];\nt q[1];\n");
    let c = parallel_parse_qasm(&ls).unwrap();
    let mut bytes = Vec::new();
    c.write(&mut bytes);
    let back = Circuit::read(&bytes).unwrap();
    assert_eq!(back.gates.len(), 3);
    assert_eq!(back.qubits, [0u32, 1].into_iter().collect());
    let cx = back.gates.iter().find(|g| g.is_double_qubit()).unwrap();
    assert_eq!(cx.get_qubits(), (0, Some(1)));
    assert_eq!(back.gates, vec![Gate::h(0), Gate::cx(0, 1), Gate::t(1)]);
}
