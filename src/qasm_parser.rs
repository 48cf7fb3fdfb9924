use vstd::prelude::*;

use crate::structures::{Circuit, Gate, OP_CX, OP_H, OP_S, OP_T};

verus! {

/// Why a text could not be turned into a circuit.
#[derive(Debug, Clone, Copy, PartialEq, Eq, Structural)]
pub enum ParseError {
    /// A register size or a qubit index does not fit in 32 bits.
    NumberTooLarge,
    /// A register's end or a resolved qubit lies past the 32-bit qubit space.
    QubitOutOfRange,
}

/// The kinds of characters that the line grammar scans over. All of them are
/// ASCII: a byte outside ASCII, such as part of a no-break space, belongs to
/// no class, so a line holding one where the grammar allows only these
/// classes is no declaration and no gate line.
#[derive(Debug, Clone, Copy, PartialEq, Eq, Structural)]
pub enum CharClass {
    /// Tab, line feed, vertical tab, form feed, carriage return, space.
    Space,
    /// `0` to `9`.
    Digit,
    /// A letter, a digit or `_`.
    NameChar,
}

/// ASCII whitespace: tab, line feed, vertical tab, form feed, carriage return, space.
pub open spec fn is_space(c: u8) -> bool {
    c == 32 || (9 <= c && c <= 13)
}

pub open spec fn is_digit(c: u8) -> bool {
    48 <= c && c <= 57
}

pub open spec fn is_name_start(c: u8) -> bool {
    (65 <= c && c <= 90) || (97 <= c && c <= 122) || c == 95
}

pub open spec fn is_name_char(c: u8) -> bool {
    is_name_start(c) || is_digit(c)
}

pub open spec fn in_class(c: u8, k: CharClass) -> bool {
    match k {
        CharClass::Space => is_space(c),
        CharClass::Digit => is_digit(c),
        CharClass::NameChar => is_name_char(c),
    }
}

/// The end of the longest run of characters of class `k` that starts at `i`.
pub open spec fn scan(l: Seq<u8>, i: int, k: CharClass) -> int
    decreases l.len() - i,
{
    if 0 <= i < l.len() && in_class(l[i], k) {
        scan(l, i + 1, k)
    } else {
        i
    }
}

/// The number written by a run of decimal digits.
pub open spec fn digits_value(d: Seq<u8>) -> nat
    decreases d.len(),
{
    if d.len() == 0 {
        0
    } else {
        digits_value(d.drop_last()) * 10 + (d.last() - 48) as nat
    }
}

/// A register declaration `qreg <name>[<size>];`: where the name starts and
/// ends, and where the size's digits end.
pub open spec fn qreg_decl(l: Seq<u8>) -> Option<(int, int, int)> {
    if l.len() >= 4 && l[0] == 113 && l[1] == 114 && l[2] == 101 && l[3] == 103 {
        let ns = scan(l, 4, CharClass::Space);
        if ns > 4 && ns < l.len() && is_name_start(l[ns]) {
            let ne = scan(l, ns + 1, CharClass::NameChar);
            if ne < l.len() && l[ne] == 91 {
                let de = scan(l, ne + 1, CharClass::Digit);
                if de > ne + 1 && de + 2 == l.len() && l[de] == 93 && l[de + 1] == 59 {
                    Some((ns, ne, de))
                } else {
                    None
                }
            } else {
                None
            }
        } else {
            None
        }
    } else {
        None
    }
}

/// An operand `<name>[<index>]` at `i`: where the name ends and where the
/// index's digits end.
pub open spec fn operand(l: Seq<u8>, i: int) -> Option<(int, int)> {
    let ne = scan(l, i, CharClass::NameChar);
    if ne > i && ne < l.len() && l[ne] == 91 {
        let de = scan(l, ne + 1, CharClass::Digit);
        if de > ne + 1 && de < l.len() && l[de] == 93 {
            Some((ne, de))
        } else {
            None
        }
    } else {
        None
    }
}

/// The opcode of a one-qubit gate's name letter.
pub open spec fn single_op(c: u8) -> Option<u8> {
    if c == 116 {
        Some(OP_T)
    } else if c == 104 {
        Some(OP_H)
    } else if c == 115 {
        Some(OP_S)
    } else {
        None
    }
}

/// A gate line, `cx <a>[<i>], <b>[<j>];` or `<t|h|s> <a>[<i>];`: its opcode,
/// and for each operand where it starts, where its name ends and where its
/// index ends. A one-qubit gate repeats its operand.
pub open spec fn gate_shape(l: Seq<u8>) -> Option<(u8, int, int, int, int, int, int)> {
    if l.len() >= 2 && l[0] == 99 && l[1] == 120 {
        let s1 = scan(l, 2, CharClass::Space);
        if s1 > 2 {
            match operand(l, s1) {
                Some((ne1, de1)) => {
                    let p = de1 + 1;
                    if p < l.len() && l[p] == 44 {
                        let s2 = scan(l, p + 1, CharClass::Space);
                        match operand(l, s2) {
                            Some((ne2, de2)) => if de2 + 2 == l.len() && l[de2 + 1] == 59 {
                                Some((OP_CX, s1, ne1, de1, s2, ne2, de2))
                            } else {
                                None
                            },
                            None => None,
                        }
                    } else {
                        None
                    }
                },
                None => None,
            }
        } else {
            None
        }
    } else if l.len() >= 1 && single_op(l[0]) is Some {
        let s1 = scan(l, 1, CharClass::Space);
        if s1 > 1 {
            match operand(l, s1) {
                Some((ne1, de1)) => if de1 + 2 == l.len() && l[de1 + 1] == 59 {
                    Some((single_op(l[0])->Some_0, s1, ne1, de1, s1, ne1, de1))
                } else {
                    None
                },
                None => None,
            }
        } else {
            None
        }
    } else {
        None
    }
}

/// The offset of the latest register declared under `name`.
pub open spec fn reg_lookup(regs: Seq<(Seq<u8>, u32)>, name: Seq<u8>) -> Option<u32>
    decreases regs.len(),
{
    if regs.len() == 0 {
        None
    } else if regs.last().0 == name {
        Some(regs.last().1)
    } else {
        reg_lookup(regs.drop_last(), name)
    }
}

/// The global qubit for index digits `d` in a register at `offset`.
pub open spec fn resolve(offset: u32, d: Seq<u8>) -> Result<u32, ParseError> {
    if digits_value(d) > u32::MAX {
        Err(ParseError::NumberTooLarge)
    } else if offset + digits_value(d) > u32::MAX {
        Err(ParseError::QubitOutOfRange)
    } else {
        Ok((offset + digits_value(d)) as u32)
    }
}

/// What line `l` holds, read with the registers `regs`: a gate, or none where
/// it is no gate line or where it uses an undeclared register.
pub open spec fn line_gate(regs: Seq<(Seq<u8>, u32)>, l: Seq<u8>) -> Result<Option<Gate>, ParseError> {
    match gate_shape(l) {
        None => Ok(None),
        Some((op, s1, ne1, de1, s2, ne2, de2)) => match (
            reg_lookup(regs, l.subrange(s1, ne1)),
            reg_lookup(regs, l.subrange(s2, ne2)),
        ) {
            (Some(o1), Some(o2)) => match resolve(o1, l.subrange(ne1 + 1, de1)) {
                Err(e) => Err(e),
                Ok(q1) => if op == OP_CX {
                    match resolve(o2, l.subrange(ne2 + 1, de2)) {
                        Err(e) => Err(e),
                        Ok(q2) => Ok(Some(Gate { gate_type: op, qubit1: q1, qubit2: q2 })),
                    }
                } else {
                    Ok(Some(Gate { gate_type: op, qubit1: q1, qubit2: 0 }))
                },
            },
            _ => Ok(None),
        },
    }
}

/// The registers that line `l` adds to `regs`, with the next free offset.
pub open spec fn declare(regs: Seq<(Seq<u8>, u32)>, next: u32, l: Seq<u8>) -> Result<
    (Seq<(Seq<u8>, u32)>, u32),
    ParseError,
> {
    match qreg_decl(l) {
        None => Ok((regs, next)),
        Some((ns, ne, de)) => {
            let size = digits_value(l.subrange(ne + 1, de));
            if size > u32::MAX {
                Err(ParseError::NumberTooLarge)
            } else if next + size > u32::MAX {
                Err(ParseError::QubitOutOfRange)
            } else {
                Ok((regs.push((l.subrange(ns, ne), next)), (next + size) as u32))
            }
        },
    }
}

/// The registers that the lines declare, in order, each at the next free
/// offset, with the offset after the last one.
pub open spec fn declarations(lines: Seq<Seq<u8>>) -> Result<(Seq<(Seq<u8>, u32)>, u32), ParseError>
    decreases lines.len(),
{
    if lines.len() == 0 {
        Ok((Seq::empty(), 0))
    } else {
        match declarations(lines.drop_last()) {
            Err(e) => Err(e),
            Ok((regs, next)) => declare(regs, next, lines.last()),
        }
    }
}

/// The gates of per-line results, in order; the first error if there is one.
pub open spec fn gather(ms: Seq<Result<Option<Gate>, ParseError>>) -> Result<Seq<Gate>, ParseError>
    decreases ms.len(),
{
    if ms.len() == 0 {
        Ok(Seq::empty())
    } else {
        match gather(ms.drop_last()) {
            Err(e) => Err(e),
            Ok(gs) => match ms.last() {
                Err(e) => Err(e),
                Ok(None) => Ok(gs),
                Ok(Some(g)) => Ok(gs.push(g)),
            },
        }
    }
}

/// What each line names, read with the registers `regs`.
pub open spec fn line_results(regs: Seq<(Seq<u8>, u32)>, lines: Seq<Seq<u8>>) -> Seq<
    Result<Option<Gate>, ParseError>,
> {
    Seq::new(lines.len(), |i: int| line_gate(regs, lines[i]))
}

/// The gates of a text in line order: all registers are declared first, and
/// every line is then read with all of them.
pub open spec fn parallel_gates(lines: Seq<Seq<u8>>) -> Result<Seq<Gate>, ParseError> {
    match declarations(lines) {
        Err(e) => Err(e),
        Ok((regs, _)) => gather(line_results(regs, lines)),
    }
}

/// Gathering two runs of results one after the other.
pub open spec fn join(a: Result<Seq<Gate>, ParseError>, b: Result<Seq<Gate>, ParseError>) -> Result<
    Seq<Gate>,
    ParseError,
> {
    match a {
        Err(e) => Err(e),
        Ok(x) => match b {
            Err(e) => Err(e),
            Ok(y) => Ok(x + y),
        },
    }
}

/// However the per-line results are cut into consecutive chunks, gathering
/// each chunk and joining them in order gives what gathering them all gives:
/// the gates keep the order of their lines.
pub proof fn lemma_gather_split(a: Seq<Result<Option<Gate>, ParseError>>, b: Seq<
    Result<Option<Gate>, ParseError>,
>)
    ensures
        gather(a + b) == join(gather(a), gather(b)),
    decreases b.len(),
{
    if b.len() == 0 {
        assert(a + b =~= a);
        if let Ok(x) = gather(a) {
            assert(x + Seq::<Gate>::empty() =~= x);
        }
    } else {
        lemma_gather_split(a, b.drop_last());
        assert((a + b).drop_last() =~= a + b.drop_last());
        assert((a + b).last() == b.last());
        if let (Ok(x), Ok(y)) = (gather(a), gather(b.drop_last())) {
            if let Ok(Some(g)) = b.last() {
                assert((x + y).push(g) =~= x + y.push(g));
            }
        }
    }
}

/// Once gathering fails at some result, it fails with that error whatever follows.
proof fn lemma_gather_err(ms: Seq<Result<Option<Gate>, ParseError>>, i: int)
    requires
        0 <= i <= ms.len(),
        gather(ms.subrange(0, i)) is Err,
    ensures
        gather(ms) == gather(ms.subrange(0, i)),
    decreases ms.len() - i,
{
    if i < ms.len() {
        assert(ms.subrange(0, i + 1).drop_last() =~= ms.subrange(0, i));
        lemma_gather_err(ms, i + 1);
    } else {
        assert(ms.subrange(0, i) =~= ms);
    }
}

/// The lines' bytes.
pub open spec fn lines_view(lines: Seq<Vec<u8>>) -> Seq<Seq<u8>> {
    Seq::new(lines.len(), |i: int| lines[i]@)
}

/// The position of the first line feed at or after `i`, or the end of `t`.
pub open spec fn line_end(t: Seq<u8>, i: int) -> int
    decreases t.len() - i,
{
    if i < 0 || i >= t.len() || t[i] == 10 {
        i
    } else {
        line_end(t, i + 1)
    }
}

/// A line without the carriage return that may end it.
pub open spec fn strip_cr(l: Seq<u8>) -> Seq<u8> {
    if l.len() > 0 && l.last() == 13 {
        l.drop_last()
    } else {
        l
    }
}

/// The lines of `t` from position `pos` on: split at each line feed, and
/// without the carriage return before it; a final line feed ends the last
/// line and starts none.
pub open spec fn lines_from(t: Seq<u8>, pos: int) -> Seq<Seq<u8>>
    decreases t.len() - pos via lines_from_decreases
{
    if pos < 0 || pos >= t.len() {
        Seq::empty()
    } else {
        let e = line_end(t, pos);
        if e >= t.len() {
            seq![t.subrange(pos, e)]
        } else {
            seq![strip_cr(t.subrange(pos, e))] + lines_from(t, e + 1)
        }
    }
}

#[via_fn]
proof fn lines_from_decreases(t: Seq<u8>, pos: int) {
    if 0 <= pos < t.len() {
        lemma_line_end_bound(t, pos);
    }
}

proof fn lemma_line_end_bound(t: Seq<u8>, i: int)
    requires
        0 <= i <= t.len(),
    ensures
        i <= line_end(t, i) <= t.len(),
        line_end(t, i) < t.len() ==> t[line_end(t, i)] == 10,
    decreases t.len() - i,
{
    if i < t.len() && t[i] != 10 {
        lemma_line_end_bound(t, i + 1);
    }
}

/// Splits a text into its lines, as a buffered reader hands them out.
pub fn text_lines(text: &[u8]) -> (r: Vec<Vec<u8>>)
    ensures
        lines_view(r@) == lines_from(text@, 0),
{
    let ghost t = text@;
    let mut out: Vec<Vec<u8>> = Vec::new();
    let mut pos: usize = 0;
    assert(lines_view(out@) =~= Seq::<Seq<u8>>::empty());
    while pos < text.len()
        invariant
            pos <= text@.len(),
            t == text@,
            lines_view(out@) + lines_from(t, pos as int) == lines_from(t, 0),
        decreases text@.len() - pos,
    {
        let mut e = pos;
        while e < text.len() && text[e] != 10
            invariant
                pos <= e <= text@.len(),
                t == text@,
                line_end(t, e as int) == line_end(t, pos as int),
            decreases text@.len() - e,
        {
            e = e + 1;
        }
        let mut end = e;
        if e < text.len() && end > pos && text[end - 1] == 13 {
            end = end - 1;
        }
        let mut line: Vec<u8> = Vec::new();
        let mut i = pos;
        while i < end
            invariant
                pos <= i <= end <= text@.len(),
                t == text@,
                line@ == t.subrange(pos as int, i as int),
            decreases end - i,
        {
            line.push(text[i]);
            i = i + 1;
            assert(line@ =~= t.subrange(pos as int, i as int));
        }
        let ghost l = if e < text.len() {
            strip_cr(t.subrange(pos as int, e as int))
        } else {
            t.subrange(pos as int, e as int)
        };
        assert(line@ =~= l);
        let ghost before = lines_view(out@);
        out.push(line);
        assert(lines_view(out@) =~= before.push(l));
        if e < text.len() {
            assert(lines_from(t, pos as int) == seq![l] + lines_from(t, e + 1));
            assert(before.push(l) + lines_from(t, e + 1) =~= before + (seq![l] + lines_from(
                t,
                e + 1,
            )));
            pos = e + 1;
        } else {
            assert(lines_from(t, pos as int) == seq![l]);
            assert(lines_from(t, e as int) == Seq::<Seq<u8>>::empty());
            assert(before.push(l) + Seq::<Seq<u8>>::empty() =~= before + seq![l]);
            pos = e;
        }
    }
    assert(lines_from(t, pos as int) == Seq::<Seq<u8>>::empty());
    assert(lines_view(out@) + Seq::<Seq<u8>>::empty() =~= lines_view(out@));
    out
}

fn class_has(c: u8, k: CharClass) -> (r: bool)
    ensures
        r == in_class(c, k),
{
    match k {
        CharClass::Space => c == 32 || (9 <= c && c <= 13),
        CharClass::Digit => 48 <= c && c <= 57,
        CharClass::NameChar => (65 <= c && c <= 90) || (97 <= c && c <= 122) || c == 95 || (48 <= c
            && c <= 57),
    }
}

fn scan_exec(l: &[u8], i: usize, k: CharClass) -> (r: usize)
    requires
        i <= l@.len(),
    ensures
        r == scan(l@, i as int, k),
        i <= r <= l@.len(),
        forall|j: int| i <= j < r ==> in_class(#[trigger] l@[j], k),
{
    let mut j = i;
    while j < l.len() && class_has(l[j], k)
        invariant
            i <= j <= l@.len(),
            scan(l@, j as int, k) == scan(l@, i as int, k),
            forall|m: int| i <= m < j ==> in_class(#[trigger] l@[m], k),
        decreases l@.len() - j,
    {
        j = j + 1;
    }
    j
}

proof fn lemma_digits_monotone(d: Seq<u8>, i: int, j: int)
    requires
        0 <= i <= j <= d.len(),
        forall|m: int| 0 <= m < d.len() ==> is_digit(#[trigger] d[m]),
    ensures
        digits_value(d.subrange(0, i)) <= digits_value(d.subrange(0, j)),
    decreases j - i,
{
    if i < j {
        lemma_digits_monotone(d, i, j - 1);
        assert(d.subrange(0, j).drop_last() =~= d.subrange(0, j - 1));
    }
}

/// The number that the digits `l[from..to]` write, or none past `u32::MAX`.
fn digits_u32(l: &[u8], from: usize, to: usize) -> (r: Option<u32>)
    requires
        from <= to <= l@.len(),
        forall|m: int| from <= m < to ==> is_digit(#[trigger] l@[m]),
    ensures
        match r {
            Some(v) => v == digits_value(l@.subrange(from as int, to as int)),
            None => digits_value(l@.subrange(from as int, to as int)) > u32::MAX,
        },
{
    let ghost d = l@.subrange(from as int, to as int);
    let mut v: u64 = 0;
    let mut i = from;
    while i < to
        invariant
            from <= i <= to <= l@.len(),
            d == l@.subrange(from as int, to as int),
            forall|m: int| from <= m < to ==> is_digit(#[trigger] l@[m]),
            v == digits_value(d.subrange(0, i - from)),
            v <= u32::MAX,
        decreases to - i,
    {
        assert(d.subrange(0, i + 1 - from).drop_last() =~= d.subrange(0, i - from));
        assert(is_digit(l@[i as int]));
        v = v * 10 + (l[i] - 48) as u64;
        i = i + 1;
        if v > 0xFFFF_FFFF {
            proof {
                lemma_digits_monotone(d, i - from, d.len() as int);
                assert(d.subrange(0, d.len() as int) =~= d);
            }
            return None;
        }
    }
    assert(d.subrange(0, d.len() as int) =~= d);
    Some(v as u32)
}

/// Whether two byte strings are equal.
fn bytes_eq(a: &[u8], b: &[u8]) -> (r: bool)
    ensures
        r == (a@ == b@),
{
    if a.len() != b.len() {
        return false;
    }
    let mut i: usize = 0;
    while i < a.len()
        invariant
            i <= a@.len() == b@.len(),
            forall|m: int| 0 <= m < i ==> a@[m] == b@[m],
        decreases a@.len() - i,
    {
        if a[i] != b[i] {
            return false;
        }
        i = i + 1;
    }
    assert(a@ =~= b@);
    true
}

fn qreg_decl_exec(l: &[u8]) -> (r: Option<(usize, usize, usize)>)
    ensures
        match r {
            Some((ns, ne, de)) => qreg_decl(l@) == Some((ns as int, ne as int, de as int)),
            None => qreg_decl(l@) is None,
        },
{
    if !(l.len() >= 4 && l[0] == 113 && l[1] == 114 && l[2] == 101 && l[3] == 103) {
        return None;
    }
    let ns = scan_exec(l, 4, CharClass::Space);
    if !(ns > 4 && ns < l.len() && class_has(l[ns], CharClass::NameChar) && !(48 <= l[ns]
        && l[ns] <= 57)) {
        return None;
    }
    let ne = scan_exec(l, ns + 1, CharClass::NameChar);
    if !(ne < l.len() && l[ne] == 91) {
        return None;
    }
    let de = scan_exec(l, ne + 1, CharClass::Digit);
    if de > ne + 1 && de < l.len() && l.len() - de == 2 && l[de] == 93 && l[de + 1] == 59 {
        Some((ns, ne, de))
    } else {
        None
    }
}

fn operand_exec(l: &[u8], i: usize) -> (r: Option<(usize, usize)>)
    requires
        i <= l@.len(),
    ensures
        match r {
            Some((ne, de)) => operand(l@, i as int) == Some((ne as int, de as int)),
            None => operand(l@, i as int) is None,
        },
{
    let ne = scan_exec(l, i, CharClass::NameChar);
    if !(ne > i && ne < l.len() && l[ne] == 91) {
        return None;
    }
    let de = scan_exec(l, ne + 1, CharClass::Digit);
    if de > ne + 1 && de < l.len() && l[de] == 93 {
        Some((ne, de))
    } else {
        None
    }
}

fn single_op_exec(c: u8) -> (r: Option<u8>)
    ensures
        r == single_op(c),
{
    if c == 116 {
        Some(OP_T)
    } else if c == 104 {
        Some(OP_H)
    } else if c == 115 {
        Some(OP_S)
    } else {
        None
    }
}

fn gate_shape_exec(l: &[u8]) -> (r: Option<(u8, usize, usize, usize, usize, usize, usize)>)
    ensures
        match r {
            Some((op, s1, ne1, de1, s2, ne2, de2)) => gate_shape(l@) == Some(
                (
                    op,
                    s1 as int,
                    ne1 as int,
                    de1 as int,
                    s2 as int,
                    ne2 as int,
                    de2 as int,
                ),
            ),
            None => gate_shape(l@) is None,
        },
{
    if l.len() >= 2 && l[0] == 99 && l[1] == 120 {
        let s1 = scan_exec(l, 2, CharClass::Space);
        if s1 <= 2 {
            return None;
        }
        let (ne1, de1) = match operand_exec(l, s1) {
            Some(x) => x,
            None => {
                return None;
            },
        };
        let p = de1 + 1;
        if !(p < l.len() && l[p] == 44) {
            return None;
        }
        let s2 = scan_exec(l, p + 1, CharClass::Space);
        let (ne2, de2) = match operand_exec(l, s2) {
            Some(x) => x,
            None => {
                return None;
            },
        };
        if l.len() - de2 == 2 && l[de2 + 1] == 59 {
            Some((OP_CX, s1, ne1, de1, s2, ne2, de2))
        } else {
            None
        }
    } else if l.len() >= 1 {
        let op = match single_op_exec(l[0]) {
            Some(op) => op,
            None => {
                return None;
            },
        };
        let s1 = scan_exec(l, 1, CharClass::Space);
        if s1 <= 1 {
            return None;
        }
        let (ne1, de1) = match operand_exec(l, s1) {
            Some(x) => x,
            None => {
                return None;
            },
        };
        if l.len() - de1 == 2 && l[de1 + 1] == 59 {
            Some((op, s1, ne1, de1, s1, ne1, de1))
        } else {
            None
        }
    } else {
        None
    }
}

/// The registers declared so far, each with its offset in the global qubit
/// space, and the next free offset.
pub struct RegisterTable {
    pub entries: Vec<(Vec<u8>, u32)>,
    pub next_offset: u32,
}

impl RegisterTable {
    /// The declared registers, oldest first.
    pub open spec fn regs(&self) -> Seq<(Seq<u8>, u32)> {
        Seq::new(self.entries@.len(), |i: int| (self.entries@[i].0@, self.entries@[i].1))
    }

    pub fn new() -> (r: Self)
        ensures
            r.regs() == Seq::<(Seq<u8>, u32)>::empty(),
            r.next_offset == 0,
    {
        let r = RegisterTable { entries: Vec::new(), next_offset: 0 };
        assert(r.regs() =~= Seq::<(Seq<u8>, u32)>::empty());
        r
    }

    /// The offset of the latest register declared under `name`.
    pub fn lookup(&self, name: &[u8]) -> (r: Option<u32>)
        ensures
            r == reg_lookup(self.regs(), name@),
    {
        let mut i = self.entries.len();
        assert(self.regs().subrange(0, i as int) =~= self.regs());
        while i > 0
            invariant
                i <= self.entries@.len(),
                reg_lookup(self.regs(), name@) == reg_lookup(self.regs().subrange(0, i as int), name@),
            decreases i,
        {
            let ghost sub = self.regs().subrange(0, i as int);
            assert(sub.drop_last() =~= self.regs().subrange(0, i - 1));
            if bytes_eq(self.entries[i - 1].0.as_slice(), name) {
                return Some(self.entries[i - 1].1);
            }
            i = i - 1;
        }
        None
    }

    /// Adds the register that line `line` declares, if it is a declaration.
    pub fn declare_line(&mut self, line: &[u8]) -> (r: Result<(), ParseError>)
        ensures
            match declare(old(self).regs(), old(self).next_offset, line@) {
                Ok((regs, next)) => r is Ok && final(self).regs() == regs && final(self).next_offset
                    == next,
                Err(e) => r == Err::<(), ParseError>(e),
            },
    {
        let (ns, ne, de) = match qreg_decl_exec(line) {
            Some(x) => x,
            None => {
                return Ok(());
            },
        };
        proof {
            lemma_scan_class(line@, ns as int + 1, CharClass::NameChar);
            lemma_scan_class(line@, ne as int + 1, CharClass::Digit);
        }
        let size = match digits_u32(line, ne + 1, de) {
            Some(v) => v,
            None => {
                return Err(ParseError::NumberTooLarge);
            },
        };
        if size > u32::MAX - self.next_offset {
            return Err(ParseError::QubitOutOfRange);
        }
        let mut name: Vec<u8> = Vec::new();
        let mut i = ns;
        while i < ne
            invariant
                ns <= i <= ne <= line@.len(),
                name@ == line@.subrange(ns as int, i as int),
            decreases ne - i,
        {
            name.push(line[i]);
            i = i + 1;
            assert(name@ =~= line@.subrange(ns as int, i as int));
        }
        let ghost before = self.regs();
        self.entries.push((name, self.next_offset));
        self.next_offset = self.next_offset + size;
        assert(self.regs() =~= before.push((line@.subrange(ns as int, ne as int), old(self).next_offset)));
        Ok(())
    }

    /// The registers that the lines declare, in order.
    pub fn from_lines(lines: &Vec<Vec<u8>>) -> (r: Result<RegisterTable, ParseError>)
        ensures
            match declarations(lines_view(lines@)) {
                Ok((regs, next)) => r is Ok && r->Ok_0.regs() == regs && r->Ok_0.next_offset == next,
                Err(e) => r is Err && r->Err_0 == e,
            },
    {
        let ghost ls = lines_view(lines@);
        let mut table = RegisterTable::new();
        let mut i: usize = 0;
        while i < lines.len()
            invariant
                i <= lines@.len(),
                ls == lines_view(lines@),
                declarations(ls.subrange(0, i as int)) == Ok::<(Seq<(Seq<u8>, u32)>, u32), ParseError>(
                    (table.regs(), table.next_offset),
                ),
            decreases lines@.len() - i,
        {
            let ghost pre = ls.subrange(0, i + 1);
            assert(pre.drop_last() =~= ls.subrange(0, i as int));
            assert(pre.last() == lines@[i as int]@);
            match table.declare_line(lines[i].as_slice()) {
                Ok(()) => {},
                Err(e) => {
                    proof {
                        lemma_declarations_err(ls, i as int + 1);
                    }
                    return Err(e);
                },
            }
            i = i + 1;
        }
        assert(ls.subrange(0, lines@.len() as int) =~= ls);
        Ok(table)
    }
}

/// Once the declarations fail, they fail with the same error however many
/// lines follow.
proof fn lemma_declarations_err(ls: Seq<Seq<u8>>, i: int)
    requires
        0 <= i <= ls.len(),
        declarations(ls.subrange(0, i)) is Err,
    ensures
        declarations(ls) == declarations(ls.subrange(0, i)),
    decreases ls.len() - i,
{
    if i < ls.len() {
        let pre = ls.subrange(0, i + 1);
        assert(pre.drop_last() =~= ls.subrange(0, i));
        lemma_declarations_err(ls, i + 1);
    } else {
        assert(ls.subrange(0, i) =~= ls);
    }
}

fn resolve_exec(line: &[u8], offset: u32, from: usize, to: usize) -> (r: Result<u32, ParseError>)
    requires
        from <= to <= line@.len(),
        forall|m: int| from <= m < to ==> is_digit(#[trigger] line@[m]),
    ensures
        r == resolve(offset, line@.subrange(from as int, to as int)),
{
    match digits_u32(line, from, to) {
        None => Err(ParseError::NumberTooLarge),
        Some(v) => if v > u32::MAX - offset {
            Err(ParseError::QubitOutOfRange)
        } else {
            Ok(offset + v)
        },
    }
}

proof fn lemma_operand_digits(l: Seq<u8>, i: int)
    requires
        0 <= i <= l.len(),
        operand(l, i) is Some,
    ensures
        forall|m: int|
            operand(l, i)->Some_0.0 + 1 <= m < operand(l, i)->Some_0.1 ==> is_digit(#[trigger] l[m]),
        i < operand(l, i)->Some_0.0 < operand(l, i)->Some_0.1 < l.len(),
{
    let (ne, de) = operand(l, i)->Some_0;
    lemma_scan_class(l, i, CharClass::NameChar);
    lemma_scan_class(l, ne + 1, CharClass::Digit);
}

/// The run that `scan` passes over holds only characters of the class.
proof fn lemma_scan_class(l: Seq<u8>, i: int, k: CharClass)
    requires
        0 <= i <= l.len(),
    ensures
        i <= scan(l, i, k) <= l.len(),
        forall|m: int| i <= m < scan(l, i, k) ==> in_class(#[trigger] l[m], k),
    decreases l.len() - i,
{
    if i < l.len() && in_class(l[i], k) {
        lemma_scan_class(l, i + 1, k);
    }
}

/// What one line holds, read with the registers of `table`.
pub fn match_gate_line(table: &RegisterTable, line: &[u8]) -> (r: Result<Option<Gate>, ParseError>)
    ensures
        r == line_gate(table.regs(), line@),
{
    let (op, s1, ne1, de1, s2, ne2, de2) = match gate_shape_exec(line) {
        Some(x) => x,
        None => {
            return Ok(None);
        },
    };
    proof {
        lemma_operand_digits(line@, s1 as int);
        lemma_operand_digits(line@, s2 as int);
    }
    let o1 = table.lookup(&line[s1..ne1]);
    let o2 = table.lookup(&line[s2..ne2]);
    match (o1, o2) {
        (Some(o1), Some(o2)) => {
            let q1 = match resolve_exec(line, o1, ne1 + 1, de1) {
                Ok(q) => q,
                Err(e) => {
                    return Err(e);
                },
            };
            if op == OP_CX {
                match resolve_exec(line, o2, ne2 + 1, de2) {
                    Ok(q2) => Ok(Some(Gate::cx(q1, q2))),
                    Err(e) => Err(e),
                }
            } else {
                Ok(Some(Gate { gate_type: op, qubit1: q1, qubit2: 0 }))
            }
        },
        _ => Ok(None),
    }
}


/// The circuit of per-line results, in order: their gates, or the first error.
pub fn circuit_from_matches(ms: &Vec<Result<Option<Gate>, ParseError>>) -> (r: Result<Circuit, ParseError>)
    ensures
        match r {
            Ok(c) => c.wf() && gather(ms@) == Ok::<Seq<Gate>, ParseError>(c.gates@),
            Err(e) => gather(ms@) == Err::<Seq<Gate>, ParseError>(e),
        },
{
    let mut circ = Circuit::new();
    let mut i: usize = 0;
    while i < ms.len()
        invariant
            i <= ms@.len(),
            circ.wf(),
            gather(ms@.subrange(0, i as int)) == Ok::<Seq<Gate>, ParseError>(circ.gates@),
        decreases ms@.len() - i,
    {
        assert(ms@.subrange(0, i + 1).drop_last() =~= ms@.subrange(0, i as int));
        match &ms[i] {
            Err(e) => {
                proof {
                    lemma_gather_err(ms@, i + 1);
                }
                return Err(*e);
            },
            Ok(None) => {},
            Ok(Some(g)) => {
                circ.add_gate(*g);
            },
        }
        i = i + 1;
    }
    assert(ms@.subrange(0, ms@.len() as int) =~= ms@);
    Ok(circ)
}

/// Reads a text's lines into a circuit whose gates keep the order of their
/// lines. All register declarations are read first, so a gate may name a
/// register declared below it. Lines of `t`, `h` and `s` on one qubit and of
/// `cx` on two are read, the four gates that the binary format holds; any
/// other line, `tdg` among them, is passed over.
pub fn parallel_parse_qasm(lines: &Vec<Vec<u8>>) -> (r: Result<Circuit, ParseError>)
    ensures
        match r {
            Ok(c) => c.wf() && parallel_gates(lines_view(lines@)) == Ok::<Seq<Gate>, ParseError>(
                c.gates@,
            ),
            Err(e) => parallel_gates(lines_view(lines@)) == Err::<Seq<Gate>, ParseError>(e),
        },
{
    let ghost ls = lines_view(lines@);
    let table = match RegisterTable::from_lines(lines) {
        Ok(t) => t,
        Err(e) => {
            return Err(e);
        },
    };
    let mut ms: Vec<Result<Option<Gate>, ParseError>> = Vec::new();
    let mut i: usize = 0;
    while i < lines.len()
        invariant
            i <= lines@.len(),
            ls == lines_view(lines@),
            ms@ == line_results(table.regs(), ls.subrange(0, i as int)),
        decreases lines@.len() - i,
    {
        ms.push(match_gate_line(&table, lines[i].as_slice()));
        i = i + 1;
        assert(ms@ =~= line_results(table.regs(), ls.subrange(0, i as int)));
    }
    assert(ls.subrange(0, lines@.len() as int) =~= ls);
    circuit_from_matches(&ms)
}

} // verus!
