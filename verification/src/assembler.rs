use vstd::prelude::*;

use crate::labels::{label_map, Labels};
use crate::number::{
    law_parse_reads_back, lemma_render, parse_i32, parse_int, parse_u32, render, IntErrorKind,
};
use crate::text::{
    ascii_lower, chars_of, copy_range, is_ws, lower_eq, split, split_chars, strip_trailing,
    strip_trailing_chars, trim, trim_chars, trim_end, trim_start, views, words, words_of,
};

verus! {

broadcast use vstd::array::group_array_axioms;

/// Why a source text does not assemble.
#[derive(Debug, PartialEq, Eq)]
pub enum AsmError {
    /// A mnemonic outside the supported set, in lower case.
    UnknownInstruction(String),
    /// An operand that names no register.
    InvalidRegister(String),
    /// A memory operand without `(`.
    InvalidMemOperand(String),
    /// An immediate that is not a number of the wanted type.
    BadNumber(IntErrorKind),
    /// A branch target that no label defines.
    UndefinedLabel(String),
}

/// The abstract value of an [`AsmError`].
pub enum AsmFault {
    UnknownInstruction(Seq<char>),
    InvalidRegister(Seq<char>),
    InvalidMemOperand(Seq<char>),
    BadNumber(IntErrorKind),
    UndefinedLabel(Seq<char>),
}

impl View for AsmError {
    type V = AsmFault;

    open spec fn view(&self) -> AsmFault {
        match self {
            AsmError::UnknownInstruction(s) => AsmFault::UnknownInstruction(s@),
            AsmError::InvalidRegister(s) => AsmFault::InvalidRegister(s@),
            AsmError::InvalidMemOperand(s) => AsmFault::InvalidMemOperand(s@),
            AsmError::BadNumber(k) => AsmFault::BadNumber(*k),
            AsmError::UndefinedLabel(s) => AsmFault::UndefinedLabel(s@),
        }
    }
}

/// A `String` holding the given characters (`FromIterator<char>` of std).
#[verifier::external_body]
fn string_of(chars: &[char]) -> (s: String)
    ensures
        s@ == chars@,
{
    chars.iter().collect()
}

/// What `str::to_lowercase` gives for a text.
pub uninterp spec fn lowercase(s: Seq<char>) -> Seq<char>;

/// `str::to_lowercase` of std: the text with each character mapped by the
/// Unicode `Lowercase` mapping. Its result is named [`lowercase`]; nothing
/// more is claimed of it.
#[verifier::external_body]
fn lowercase_of(s: &str) -> (r: String)
    ensures
        r@ == lowercase(s@),
{
    s.to_lowercase()
}

/// The error reported for a fault: an unknown mnemonic is named in lower
/// case, every other fault as it is.
pub open spec fn reported(f: AsmFault) -> AsmFault {
    match f {
        AsmFault::UnknownInstruction(m) => AsmFault::UnknownInstruction(lowercase(m)),
        other => other,
    }
}

/// The register an operand names, taking ASCII letters regardless of case:
/// `r0`..`r7`, with `fp`, `sp`, `z`, `iv`, `ir` for `r3`..`r7`.
///
/// Keywords (register names here, mnemonics below) are matched after
/// mapping ASCII upper case to lower case. For these keywords that is the
/// same as full Unicode lower-casing: the one non-ASCII character whose
/// lower case is ASCII, the Kelvin sign, becomes `k`, which no keyword holds.
pub open spec fn reg_number(s: Seq<char>) -> Option<u8> {
    let l = ascii_lower(s);
    if l == ['r', '0']@ {
        Some(0)
    } else if l == ['r', '1']@ {
        Some(1)
    } else if l == ['r', '2']@ {
        Some(2)
    } else if l == ['r', '3']@ || l == ['f', 'p']@ {
        Some(3)
    } else if l == ['r', '4']@ || l == ['s', 'p']@ {
        Some(4)
    } else if l == ['r', '5']@ || l == ['z']@ {
        Some(5)
    } else if l == ['r', '6']@ || l == ['i', 'v']@ {
        Some(6)
    } else if l == ['r', '7']@ || l == ['i', 'r']@ {
        Some(7)
    } else {
        None
    }
}

/// Parses a register name.
pub fn parse_reg(s: &[char]) -> (r: Result<u8, AsmError>)
    ensures
        r matches Ok(v) ==> reg_number(s@) == Some(v),
        r matches Err(e) ==> reg_number(s@) is None && e@ == AsmFault::InvalidRegister(s@),
{
    if lower_eq(s, &['r', '0']) {
        Ok(0)
    } else if lower_eq(s, &['r', '1']) {
        Ok(1)
    } else if lower_eq(s, &['r', '2']) {
        Ok(2)
    } else if lower_eq(s, &['r', '3']) || lower_eq(s, &['f', 'p']) {
        Ok(3)
    } else if lower_eq(s, &['r', '4']) || lower_eq(s, &['s', 'p']) {
        Ok(4)
    } else if lower_eq(s, &['r', '5']) || lower_eq(s, &['z']) {
        Ok(5)
    } else if lower_eq(s, &['r', '6']) || lower_eq(s, &['i', 'v']) {
        Ok(6)
    } else if lower_eq(s, &['r', '7']) || lower_eq(s, &['i', 'r']) {
        Ok(7)
    } else {
        Err(AsmError::InvalidRegister(string_of(s)))
    }
}

/// The position of the first `c` in `s`, if any.
pub open spec fn find_char(s: Seq<char>, c: char) -> Option<nat>
    decreases s.len(),
{
    if s.len() == 0 {
        None
    } else if s[0] == c {
        Some(0)
    } else {
        match find_char(s.drop_first(), c) {
            Some(i) => Some(i + 1),
            None => None,
        }
    }
}

proof fn lemma_find_char(s: Seq<char>, c: char, i: int)
    requires
        0 <= i <= s.len(),
        forall|j: int| 0 <= j < i ==> #[trigger] s[j] != c,
    ensures
        i == s.len() ==> find_char(s, c) is None,
        i < s.len() && s[i] == c ==> find_char(s, c) == Some(i as nat),
    decreases i,
{
    if i > 0 {
        assert forall|j: int| 0 <= j < i - 1 implies #[trigger] s.drop_first()[j] != c by {
            assert(s.drop_first()[j] == s[j + 1]);
        }
        lemma_find_char(s.drop_first(), c, i - 1);
        if i < s.len() {
            assert(s.drop_first()[i - 1] == s[i]);
        }
    }
}

/// The position of the first `c` in `s`, if any.
pub fn find_in(s: &[char], c: char) -> (r: Option<usize>)
    ensures
        r matches Some(i) ==> find_char(s@, c) == Some(i as nat) && i < s@.len(),
        r is None ==> find_char(s@, c) is None,
{
    let mut i: usize = 0;
    while i < s.len()
        invariant
            i <= s@.len(),
            forall|j: int| 0 <= j < i ==> #[trigger] s@[j] != c,
        decreases s@.len() - i,
    {
        if s[i] == c {
            proof {
                lemma_find_char(s@, c, i as int);
            }
            return Some(i);
        }
        i += 1;
    }
    proof {
        lemma_find_char(s@, c, i as int);
    }
    None
}

/// The digits after a `0x` or `0X` prefix, when there is one.
pub open spec fn hex_digits(t: Seq<char>) -> Option<Seq<char>> {
    if t.len() >= 2 && t[0] == '0' && (t[1] == 'x' || t[1] == 'X') {
        Some(t.skip(2))
    } else {
        None
    }
}

/// An immediate operand as a signed 32-bit number: surrounding white space
/// is ignored; hexadecimal after `0x`/`0X`, decimal otherwise.
pub open spec fn imm_value(s: Seq<char>) -> Result<int, IntErrorKind> {
    let t = trim(s);
    match hex_digits(t) {
        Some(h) => parse_int(h, 16, i32::MIN as int, i32::MAX as int),
        None => parse_int(t, 10, i32::MIN as int, i32::MAX as int),
    }
}

/// A 24-bit immediate operand, read as an unsigned 32-bit number in the
/// same way.
pub open spec fn imm24_value(s: Seq<char>) -> Result<int, IntErrorKind> {
    let t = trim(s);
    match hex_digits(t) {
        Some(h) => parse_int(h, 16, 0, u32::MAX as int),
        None => parse_int(t, 10, 0, u32::MAX as int),
    }
}

/// Parses a signed immediate.
pub fn parse_imm(s: &[char]) -> (r: Result<i32, AsmError>)
    ensures
        r matches Ok(v) ==> imm_value(s@) == Ok::<int, IntErrorKind>(v as int),
        r matches Err(e) ==> imm_value(s@) matches Err(k) && e@ == AsmFault::BadNumber(k),
{
    let t = trim_chars(s);
    let res = if t.len() >= 2 && t[0] == '0' && (t[1] == 'x' || t[1] == 'X') {
        let hex = copy_range(t.as_slice(), 2, t.len());
        assert(hex@ =~= t@.skip(2));
        parse_i32(hex.as_slice(), 16)
    } else {
        parse_i32(t.as_slice(), 10)
    };
    match res {
        Ok(v) => Ok(v),
        Err(k) => Err(AsmError::BadNumber(k)),
    }
}

/// Parses the immediate of `la`. The label table is not consulted: the
/// operand must be a number.
pub fn parse_imm24(s: &[char], _labels: &Labels) -> (r: Result<u32, AsmError>)
    ensures
        r matches Ok(v) ==> imm24_value(s@) == Ok::<int, IntErrorKind>(v as int),
        r matches Err(e) ==> imm24_value(s@) matches Err(k) && e@ == AsmFault::BadNumber(k),
{
    let t = trim_chars(s);
    let res = if t.len() >= 2 && t[0] == '0' && (t[1] == 'x' || t[1] == 'X') {
        let hex = copy_range(t.as_slice(), 2, t.len());
        assert(hex@ =~= t@.skip(2));
        parse_u32(hex.as_slice(), 16)
    } else {
        parse_u32(t.as_slice(), 10)
    };
    match res {
        Ok(v) => Ok(v),
        Err(k) => Err(AsmError::BadNumber(k)),
    }
}

/// A memory operand `offset(reg)` or `(reg)`: the text before the first `(`
/// is the offset (zero when empty), the text after it, without trailing
/// `)`s, names the register.
pub open spec fn mem_operand(s: Seq<char>) -> Result<(int, u8), AsmFault> {
    match find_char(s, '(') {
        None => Err(AsmFault::InvalidMemOperand(s)),
        Some(p) => {
            let offset_text = s.take(p as int);
            let reg_text = strip_trailing(s.skip(p as int + 1), ')');
            let offset = if offset_text.len() == 0 {
                Ok(0int)
            } else {
                imm_value(offset_text)
            };
            match offset {
                Err(k) => Err(AsmFault::BadNumber(k)),
                Ok(o) => match reg_number(reg_text) {
                    None => Err(AsmFault::InvalidRegister(reg_text)),
                    Some(rb) => Ok((o, rb)),
                },
            }
        },
    }
}

/// Parses a memory operand `offset(reg)`.
pub fn parse_mem_operand(s: &[char]) -> (r: Result<(i32, u8), AsmError>)
    ensures
        r matches Ok(v) ==> mem_operand(s@) == Ok::<(int, u8), AsmFault>((v.0 as int, v.1)),
        r matches Err(e) ==> mem_operand(s@) == Err::<(int, u8), AsmFault>(e@),
{
    let n = s.len();
    match find_in(s, '(') {
        Some(paren) => {
            let offset_str = copy_range(s, 0, paren);
            let after = copy_range(s, paren + 1, n);
            let reg_str = strip_trailing_chars(after.as_slice(), ')');
            assert(offset_str@ =~= s@.take(paren as int));
            assert(after@ =~= s@.skip(paren + 1));
            let offset = if offset_str.len() == 0 {
                0
            } else {
                match parse_imm(offset_str.as_slice()) {
                    Ok(v) => v,
                    Err(e) => return Err(e),
                }
            };
            match parse_reg(reg_str.as_slice()) {
                Ok(rb) => Ok((offset, rb)),
                Err(e) => Err(e),
            }
        },
        None => Err(AsmError::InvalidMemOperand(string_of(s))),
    }
}

/// The code of a source line: the text before its first `;`, trimmed.
pub open spec fn code_of(line: Seq<char>) -> Seq<char> {
    match find_char(line, ';') {
        Some(p) => trim(line.take(p as int)),
        None => trim(line),
    }
}

/// The code of a source line.
pub fn line_code(line: &[char]) -> (code: Vec<char>)
    ensures
        code@ == code_of(line@),
{
    match find_in(line, ';') {
        Some(p) => {
            let before = copy_range(line, 0, p);
            assert(before@ =~= line@.take(p as int));
            trim_chars(before.as_slice())
        },
        None => trim_chars(line),
    }
}

/// The operands of an instruction: its second word split at `,`, each
/// piece trimmed (words after the second are not read).
pub open spec fn operands(w: Seq<Seq<char>>) -> Seq<Seq<char>> {
    if w.len() > 1 {
        split(w[1], ',').map_values(|p: Seq<char>| trim(p))
    } else {
        seq![]
    }
}

/// The bytes the first pass reserves for an instruction with mnemonic `m`.
pub open spec fn size_estimate(m: Seq<char>) -> nat {
    let l = ascii_lower(m);
    if l == ['l', 'a']@ || l == ['h', 'a', 'l', 't']@ {
        4
    } else if l == ['a', 'd', 'd']@ || l == ['l', 'c']@ || l == ['l', 'c', 'u']@ || l == [
        's',
        'b',
    ]@ || l == ['l', 'b']@ || l == ['b', 'r', 'a']@ || l == ['b', 'r', 't']@ || l == [
        'b',
        'r',
        'f',
    ]@ {
        2
    } else {
        1
    }
}

/// The bytes the first pass reserves for an instruction with mnemonic `m`.
fn size_estimate_of(m: &[char]) -> (n: u32)
    ensures
        n == size_estimate(m@),
{
    if lower_eq(m, &['l', 'a']) || lower_eq(m, &['h', 'a', 'l', 't']) {
        4
    } else if lower_eq(m, &['a', 'd', 'd']) || lower_eq(m, &['l', 'c']) || lower_eq(
        m,
        &['l', 'c', 'u'],
    ) || lower_eq(m, &['s', 'b']) || lower_eq(m, &['l', 'b']) || lower_eq(m, &['b', 'r', 'a'])
        || lower_eq(m, &['b', 'r', 't']) || lower_eq(m, &['b', 'r', 'f']) {
        2
    } else {
        1
    }
}

/// The codes of the lines of a source text, in order. Lines are split at
/// `\n`; a `\r` before it is white space that trimming removes.
pub open spec fn codes(source: Seq<char>) -> Seq<Seq<char>> {
    split(source, '\n').map_values(|line: Seq<char>| code_of(line))
}

/// The first pass over the codes of the lines: the label definitions in
/// order, with the address each names, and the address after the last line.
/// A code ending in `:` defines the label before the colon (trimmed).
pub open spec fn layout(codes: Seq<Seq<char>>) -> (Seq<(Seq<char>, u32)>, int)
    decreases codes.len(),
{
    if codes.len() == 0 {
        (seq![], 0)
    } else {
        let (entries, addr) = layout(codes.drop_last());
        let code = codes.last();
        if code.len() == 0 {
            (entries, addr)
        } else if code.last() == ':' {
            (entries.push((trim(code.drop_last()), addr as u32)), addr)
        } else {
            let w = words(code);
            if w.len() == 0 {
                (entries, addr)
            } else {
                (entries, addr + size_estimate(w[0]))
            }
        }
    }
}

/// The offset byte of a branch to `addr` whose opcode ends at output
/// position `pos`: `addr - pos - 1` computed on `i32` (both taken with
/// wrap-around), or `None` where that subtraction leaves `i32`.
pub open spec fn branch_offset(addr: u32, pos: int) -> Option<u8> {
    let d = (addr as i32) as int - (pos as i32) as int;
    if d > i32::MAX || d - 1 < i32::MIN {
        None
    } else {
        Some((d - 1) as u8)
    }
}

/// What one line contributes to the second pass.
pub enum LineEffect {
    /// Nothing (blank, comment or label line).
    Skip,
    /// These bytes.
    Emit(Seq<u8>),
    /// These bytes, of which the last is the offset of a branch to a label
    /// not defined anywhere.
    Forward(Seq<u8>, Seq<char>),
    /// An error that stops the assembly.
    Fail(AsmFault),
    /// A missing operand or an offset out of `i32`: the input is outside
    /// what the assembler handles.
    Panic,
}

/// A register operand, or the fault it raises.
pub open spec fn reg_operand(s: Seq<char>) -> Result<u8, AsmFault> {
    match reg_number(s) {
        Some(r) => Ok(r),
        None => Err(AsmFault::InvalidRegister(s)),
    }
}

/// The encoding of an instruction with two operands, the first a register:
/// a missing operand is a panic, faults come in operand order.
pub open spec fn with_two_operands(
    ops: Seq<Seq<char>>,
    second: spec_fn(u8, Seq<char>) -> LineEffect,
) -> LineEffect {
    if ops.len() == 0 {
        LineEffect::Panic
    } else {
        match reg_operand(ops[0]) {
            Err(f) => LineEffect::Fail(f),
            Ok(ra) => if ops.len() < 2 {
                LineEffect::Panic
            } else {
                second(ra, ops[1])
            },
        }
    }
}

/// The encoding of a branch with opcode byte `op` to the label `ops[0]`,
/// given `len` bytes emitted before it.
pub open spec fn branch_effect(
    op: u8,
    ops: Seq<Seq<char>>,
    labels: Map<Seq<char>, u32>,
    len: nat,
) -> LineEffect {
    if ops.len() == 0 {
        LineEffect::Panic
    } else if labels.contains_key(ops[0]) {
        match branch_offset(labels[ops[0]], len + 1int) {
            None => LineEffect::Panic,
            Some(b) => LineEffect::Emit(seq![op, b]),
        }
    } else {
        LineEffect::Forward(seq![op, 0u8], ops[0])
    }
}

/// `lc ra,imm`: opcode byte `0x44 + ra`, then the low byte of the immediate.
pub open spec fn enc_lc(ra: u8, v: int) -> Seq<u8> {
    seq![(0x44 + ra) as u8, v as u8]
}

/// `lcu ra,imm`: opcode byte `0x48 + ra`, then the low byte of the immediate.
pub open spec fn enc_lcu(ra: u8, v: int) -> Seq<u8> {
    seq![(0x48 + ra) as u8, v as u8]
}

/// `la ra,imm`: opcode byte `0x29 + ra`, then the immediate's low three
/// bytes, least significant first.
pub open spec fn enc_la(ra: u8, v: int) -> Seq<u8> {
    seq![(0x29 + ra) as u8, (v % 256) as u8, ((v / 256) % 256) as u8, ((v / 65536) % 256) as u8]
}

/// `sb ra,offset(rb)`: opcode byte `0x81 + 3 * ra + rb` (so `sb r0,0(r1)` is
/// `0x82 0x00`), then the low byte of
/// the offset.
pub open spec fn enc_sb(ra: u8, rb: u8, offset: int) -> Seq<u8> {
    seq![(0x81 + ra * 3 + rb) as u8, offset as u8]
}

/// `shl ra,rb`: the byte `0x88 + 3 * ra + rb`.
pub open spec fn enc_shl(ra: u8, rb: u8) -> Seq<u8> {
    seq![(0x88 + ra * 3 + rb) as u8]
}

/// `clu ra,rb`: `0xCE + rb` when `ra` is `z`, else `0x20 + ra`.
pub open spec fn enc_clu(ra: u8, rb: u8) -> Seq<u8> {
    if ra == 5 {
        seq![(0xCE + rb) as u8]
    } else {
        seq![(0x20 + ra) as u8]
    }
}

/// `halt`: `la ir,0`, a jump to address 0.
pub open spec fn enc_halt() -> Seq<u8> {
    seq![0xC7u8, 0, 0, 0]
}

/// The second pass on the code of one line, with the label table of the
/// first pass and `len` bytes already emitted.
#[verifier::opaque]
pub open spec fn line_effect(code: Seq<char>, labels: Map<Seq<char>, u32>, len: nat) -> LineEffect {
    let w = words(code);
    if code.len() == 0 || code.last() == ':' || w.len() == 0 {
        LineEffect::Skip
    } else {
        let m = ascii_lower(w[0]);
        let ops = operands(w);
        if m == ['l', 'c']@ {
            with_two_operands(
                ops,
                |ra: u8, t: Seq<char>|
                    match imm_value(t) {
                        Err(k) => LineEffect::Fail(AsmFault::BadNumber(k)),
                        Ok(v) => LineEffect::Emit(enc_lc(ra, v)),
                    },
            )
        } else if m == ['l', 'c', 'u']@ {
            with_two_operands(
                ops,
                |ra: u8, t: Seq<char>|
                    match imm_value(t) {
                        Err(k) => LineEffect::Fail(AsmFault::BadNumber(k)),
                        Ok(v) => LineEffect::Emit(enc_lcu(ra, v)),
                    },
            )
        } else if m == ['l', 'a']@ {
            with_two_operands(
                ops,
                |ra: u8, t: Seq<char>|
                    match imm24_value(t) {
                        Err(k) => LineEffect::Fail(AsmFault::BadNumber(k)),
                        Ok(v) => LineEffect::Emit(enc_la(ra, v)),
                    },
            )
        } else if m == ['s', 'b']@ {
            with_two_operands(
                ops,
                |ra: u8, t: Seq<char>|
                    match mem_operand(t) {
                        Err(f) => LineEffect::Fail(f),
                        Ok((offset, rb)) => LineEffect::Emit(enc_sb(ra, rb, offset)),
                    },
            )
        } else if m == ['s', 'h', 'l']@ {
            with_two_operands(
                ops,
                |ra: u8, t: Seq<char>|
                    match reg_operand(t) {
                        Err(f) => LineEffect::Fail(f),
                        Ok(rb) => LineEffect::Emit(enc_shl(ra, rb)),
                    },
            )
        } else if m == ['c', 'l', 'u']@ {
            with_two_operands(
                ops,
                |ra: u8, t: Seq<char>|
                    match reg_operand(t) {
                        Err(f) => LineEffect::Fail(f),
                        Ok(rb) => LineEffect::Emit(enc_clu(ra, rb)),
                    },
            )
        } else if m == ['b', 'r', 'a']@ {
            branch_effect(0x13, ops, labels, len)
        } else if m == ['b', 'r', 'f']@ {
            branch_effect(0x14, ops, labels, len)
        } else if m == ['b', 'r', 't']@ {
            branch_effect(0x15, ops, labels, len)
        } else if m == ['h', 'a', 'l', 't']@ {
            LineEffect::Emit(enc_halt())
        } else {
            LineEffect::Fail(AsmFault::UnknownInstruction(w[0]))
        }
    }
}

/// The operands of an instruction with the given words.
fn operands_of(parts: &Vec<Vec<char>>) -> (ops: Vec<Vec<char>>)
    ensures
        views(ops@) == operands(views(parts@)),
{
    let mut ops: Vec<Vec<char>> = Vec::new();
    if parts.len() > 1 {
        let pieces = split_chars(parts[1].as_slice(), ',');
        let ghost target = split(parts@[1]@, ',').map_values(|p: Seq<char>| trim(p));
        let mut i: usize = 0;
        while i < pieces.len()
            invariant
                parts@.len() > 1,
                i <= pieces@.len(),
                views(pieces@) == split(parts@[1]@, ','),
                target == split(parts@[1]@, ',').map_values(|p: Seq<char>| trim(p)),
                views(ops@) == target.take(i as int),
            decreases pieces@.len() - i,
        {
            let t = trim_chars(pieces[i].as_slice());
            let ghost before = views(ops@);
            ops.push(t);
            assert(views(pieces@)[i as int] == pieces@[i as int]@);
            assert(target[i as int] == t@);
            assert(views(ops@) =~= before.push(t@));
            assert(target.take(i + 1) =~= target.take(i as int).push(target[i as int]));
            i += 1;
        }
        assert(target.take(i as int) =~= target);
    } else {
        assert(views(ops@) =~= Seq::<Seq<char>>::empty());
    }
    ops
}

/// Emits a relative branch with opcode byte `op` to the label `ops[0]`.
fn encode_branch(
    op: u8,
    ops: &Vec<Vec<char>>,
    labels: &Labels,
    output: &mut Vec<u8>,
    unresolved: &mut Vec<Vec<char>>,
) -> (r: Option<Result<(), AsmError>>)
    ensures
        match branch_effect(op, views(ops@), labels@, old(output)@.len()) {
            LineEffect::Emit(b) => r == Some(Ok::<(), AsmError>(())) && final(output)@ == old(
                output,
            )@ + b && final(unresolved)@ == old(unresolved)@,
            LineEffect::Forward(b, l) => r == Some(Ok::<(), AsmError>(())) && final(output)@
                == old(output)@ + b && views(final(unresolved)@) == views(old(unresolved)@).push(
                l,
            ),
            LineEffect::Panic => r is None,
            _ => false,
        },
{
    if ops.len() == 0 {
        return None;
    }
    output.push(op);
    let target = ops[0].as_slice();
    assert(target@ == views(ops@)[0]);
    match labels.get(target) {
        Some(addr) => {
            let current = #[verifier::truncate] (output.len() as i32);
            let a = #[verifier::truncate] (addr as i32);
            let offset = match a.checked_sub(current) {
                Some(d) => match d.checked_sub(1) {
                    Some(o) => o,
                    None => return None,
                },
                None => return None,
            };
            output.push(#[verifier::truncate] (offset as u8));
        },
        None => {
            let ghost before = views(unresolved@);
            let name = copy_range(target, 0, target.len());
            assert(name@ =~= target@);
            unresolved.push(name);
            assert(views(unresolved@) =~= before.push(target@));
            output.push(0);
        },
    }
    Some(Ok(()))
}

/// The second pass on the code of one line: appends its bytes to `output`
/// and the target of a branch to an undefined label to `unresolved`.
/// Returns `None` where the line is outside what the assembler handles.
fn encode_line(
    code: &[char],
    labels: &Labels,
    output: &mut Vec<u8>,
    unresolved: &mut Vec<Vec<char>>,
) -> (r: Option<Result<(), AsmError>>)
    ensures
        match line_effect(code@, labels@, old(output)@.len()) {
            LineEffect::Skip => r == Some(Ok::<(), AsmError>(())) && final(output)@ == old(output)@
                && final(unresolved)@ == old(unresolved)@,
            LineEffect::Emit(b) => r == Some(Ok::<(), AsmError>(())) && final(output)@ == old(
                output,
            )@ + b && final(unresolved)@ == old(unresolved)@,
            LineEffect::Forward(b, l) => r == Some(Ok::<(), AsmError>(())) && final(output)@
                == old(output)@ + b && views(final(unresolved)@) == views(old(unresolved)@).push(
                l,
            ),
            LineEffect::Fail(f) => r matches Some(Err(e)) && e@ == reported(f),
            LineEffect::Panic => r is None,
        },
{
    reveal(line_effect);
    let n = code.len();
    if n == 0 || code[n - 1] == ':' {
        return Some(Ok(()));
    }
    let parts = words_of(code);
    if parts.len() == 0 {
        return Some(Ok(()));
    }
    let ops = operands_of(&parts);
    let m = parts[0].as_slice();
    assert(m@ == views(parts@)[0]);
    if lower_eq(m, &['l', 'c']) {
        if ops.len() == 0 {
            return None;
        }
        let ra = match parse_reg(ops[0].as_slice()) {
            Ok(r) => r,
            Err(e) => return Some(Err(e)),
        };
        if ops.len() < 2 {
            return None;
        }
        let imm = match parse_imm(ops[1].as_slice()) {
            Ok(v) => v,
            Err(e) => return Some(Err(e)),
        };
        output.push(0x44 + ra);
        output.push(#[verifier::truncate] (imm as u8));
    } else if lower_eq(m, &['l', 'c', 'u']) {
        if ops.len() == 0 {
            return None;
        }
        let ra = match parse_reg(ops[0].as_slice()) {
            Ok(r) => r,
            Err(e) => return Some(Err(e)),
        };
        if ops.len() < 2 {
            return None;
        }
        let imm = match parse_imm(ops[1].as_slice()) {
            Ok(v) => v,
            Err(e) => return Some(Err(e)),
        };
        output.push(0x48 + ra);
        output.push(#[verifier::truncate] (imm as u8));
    } else if lower_eq(m, &['l', 'a']) {
        if ops.len() == 0 {
            return None;
        }
        let ra = match parse_reg(ops[0].as_slice()) {
            Ok(r) => r,
            Err(e) => return Some(Err(e)),
        };
        if ops.len() < 2 {
            return None;
        }
        let imm = match parse_imm24(ops[1].as_slice(), labels) {
            Ok(v) => v,
            Err(e) => return Some(Err(e)),
        };
        proof {
            assert((imm & 0xFF) as u8 == imm % 256) by (bit_vector);
            assert(((imm >> 8) & 0xFF) as u8 == (imm / 256) % 256) by (bit_vector);
            assert(((imm >> 16) & 0xFF) as u8 == (imm / 65536) % 256) by (bit_vector);
        }
        output.push(0x29 + ra);
        output.push((imm & 0xFF) as u8);
        output.push(((imm >> 8) & 0xFF) as u8);
        output.push(((imm >> 16) & 0xFF) as u8);
    } else if lower_eq(m, &['s', 'b']) {
        if ops.len() == 0 {
            return None;
        }
        let ra = match parse_reg(ops[0].as_slice()) {
            Ok(r) => r,
            Err(e) => return Some(Err(e)),
        };
        if ops.len() < 2 {
            return None;
        }
        let (offset, rb) = match parse_mem_operand(ops[1].as_slice()) {
            Ok(v) => v,
            Err(e) => return Some(Err(e)),
        };
        // sb r0,0(r1) -> 0x82 0x00
        output.push(0x81 + ra * 3 + rb);
        output.push(#[verifier::truncate] (offset as u8));
    } else if lower_eq(m, &['s', 'h', 'l']) {
        if ops.len() == 0 {
            return None;
        }
        let ra = match parse_reg(ops[0].as_slice()) {
            Ok(r) => r,
            Err(e) => return Some(Err(e)),
        };
        if ops.len() < 2 {
            return None;
        }
        let rb = match parse_reg(ops[1].as_slice()) {
            Ok(r) => r,
            Err(e) => return Some(Err(e)),
        };
        output.push(0x88 + ra * 3 + rb);
    } else if lower_eq(m, &['c', 'l', 'u']) {
        if ops.len() == 0 {
            return None;
        }
        let ra = match parse_reg(ops[0].as_slice()) {
            Ok(r) => r,
            Err(e) => return Some(Err(e)),
        };
        if ops.len() < 2 {
            return None;
        }
        let rb = match parse_reg(ops[1].as_slice()) {
            Ok(r) => r,
            Err(e) => return Some(Err(e)),
        };
        if ra == 5 {
            // clu z,rx
            output.push(0xCE + rb);
        } else {
            output.push(0x20 + ra);
        }
    } else if lower_eq(m, &['b', 'r', 'a']) {
        return encode_branch(0x13, &ops, labels, output, unresolved);
    } else if lower_eq(m, &['b', 'r', 'f']) {
        return encode_branch(0x14, &ops, labels, output, unresolved);
    } else if lower_eq(m, &['b', 'r', 't']) {
        return encode_branch(0x15, &ops, labels, output, unresolved);
    } else if lower_eq(m, &['h', 'a', 'l', 't']) {
        // la ir,0: a jump to address 0
        output.push(0xC7);
        output.push(0);
        output.push(0);
        output.push(0);
    } else {
        let written = string_of(m);
        return Some(Err(AsmError::UnknownInstruction(lowercase_of(written.as_str()))));
    }
    Some(Ok(()))
}

/// The state of the second pass after some lines.
pub enum PassState {
    /// Bytes emitted so far, and the branch targets not found, in order.
    Going(Seq<u8>, Seq<Seq<char>>),
    /// Stopped with an error.
    Failed(AsmFault),
    /// Stopped on input the assembler does not handle.
    Panicked,
}

/// The second pass over the codes of the lines with the label table of the
/// first pass.
pub open spec fn second_pass(codes: Seq<Seq<char>>, labels: Map<Seq<char>, u32>) -> PassState
    decreases codes.len(),
{
    if codes.len() == 0 {
        PassState::Going(seq![], seq![])
    } else {
        match second_pass(codes.drop_last(), labels) {
            PassState::Going(out, unresolved) => match line_effect(
                codes.last(),
                labels,
                out.len(),
            ) {
                LineEffect::Skip => PassState::Going(out, unresolved),
                LineEffect::Emit(b) => PassState::Going(out + b, unresolved),
                LineEffect::Forward(b, l) => PassState::Going(out + b, unresolved.push(l)),
                LineEffect::Fail(f) => PassState::Failed(f),
                LineEffect::Panic => PassState::Panicked,
            },
            other => other,
        }
    }
}

/// What assembling a source text comes to.
pub enum Assembly {
    /// The machine code.
    Program(Seq<u8>),
    /// The error the assembler reports.
    Rejected(AsmFault),
    /// The text is outside what the assembler handles: an operand is
    /// missing, the program outgrows 32-bit addresses, or a branch offset
    /// leaves `i32`.
    Panics,
}

/// The result of the two-pass assembler on a source text: the first pass
/// lays out the labels, the second emits code; a branch to a label that no
/// line defines is reported after the second pass.
pub open spec fn assembly(source: Seq<char>) -> Assembly {
    let lines = codes(source);
    let (entries, size) = layout(lines);
    if size > u32::MAX {
        Assembly::Panics
    } else {
        match second_pass(lines, label_map(entries)) {
            PassState::Going(out, unresolved) => if unresolved.len() > 0 {
                Assembly::Rejected(AsmFault::UndefinedLabel(unresolved[0]))
            } else {
                Assembly::Program(out)
            },
            PassState::Failed(f) => Assembly::Rejected(f),
            PassState::Panicked => Assembly::Panics,
        }
    }
}

proof fn lemma_layout_grows(lines: Seq<Seq<char>>, j: int, k: int)
    requires
        0 <= j <= k <= lines.len(),
    ensures
        0 <= layout(lines.take(j)).1 <= layout(lines.take(k)).1,
    decreases k - j,
{
    lemma_layout_starts_at_zero(lines.take(j));
    if j < k {
        lemma_layout_grows(lines, j, k - 1);
        assert(lines.take(k).drop_last() =~= lines.take(k - 1));
    }
}

pub proof fn lemma_second_pass_stays_stopped(
    lines: Seq<Seq<char>>,
    labels: Map<Seq<char>, u32>,
    j: int,
    k: int,
)
    requires
        0 <= j <= k <= lines.len(),
        !(second_pass(lines.take(j), labels) is Going),
    ensures
        second_pass(lines.take(k), labels) == second_pass(lines.take(j), labels),
    decreases k - j,
{
    if j < k {
        lemma_second_pass_stays_stopped(lines, labels, j, k - 1);
        assert(lines.take(k).drop_last() =~= lines.take(k - 1));
    }
}

pub proof fn lemma_layout_starts_at_zero(lines: Seq<Seq<char>>)
    ensures
        layout(lines).1 >= 0,
    decreases lines.len(),
{
    if lines.len() > 0 {
        lemma_layout_starts_at_zero(lines.drop_last());
    }
}

/// Assembles a source text, or returns `None` where the text is outside
/// what the assembler handles (see [`Assembly::Panics`]).
pub fn try_assemble(source: &str) -> (r: Option<Result<Vec<u8>, AsmError>>)
    ensures
        match assembly(source@) {
            Assembly::Program(code) => r matches Some(Ok(v)) && v@ == code,
            Assembly::Rejected(f) => r matches Some(Err(e)) && e@ == reported(f),
            Assembly::Panics => r is None,
        },
{
    let src = chars_of(source);
    let lines = split_chars(src.as_slice(), '\n');
    let ghost all = codes(source@);
    assert(all =~= views(lines@).map_values(|line: Seq<char>| code_of(line)));
    let mut labels = Labels::new();
    // First pass: collect labels
    let mut addr: u32 = 0;
    let mut i: usize = 0;
    assert(all.take(0) =~= Seq::<Seq<char>>::empty());
    while i < lines.len()
        invariant
            all == views(lines@).map_values(|line: Seq<char>| code_of(line)),
            all == codes(source@),
            i <= lines@.len(),
            labels.entries() == layout(all.take(i as int)).0,
            addr as int == layout(all.take(i as int)).1,
        decreases lines@.len() - i,
    {
        assert(all.take(i + 1).drop_last() =~= all.take(i as int));
        let code = line_code(lines[i].as_slice());
        assert(all.take(i + 1).last() == code@);
        let n = code.len();
        if n > 0 {
            if code[n - 1] == ':' {
                let name_part = copy_range(code.as_slice(), 0, n - 1);
                assert(name_part@ =~= code@.drop_last());
                let name = trim_chars(name_part.as_slice());
                labels.insert(name, addr);
            } else {
                let parts = words_of(code.as_slice());
                if parts.len() > 0 {
                    assert(parts@[0]@ == views(parts@)[0]);
                    let size = size_estimate_of(parts[0].as_slice());
                    match addr.checked_add(size) {
                        Some(a) => {
                            addr = a;
                        },
                        None => {
                            proof {
                                assert(layout(all.take(i + 1)).1 == addr + size);
                                lemma_layout_grows(all, i + 1, all.len() as int);
                                assert(all.take(all.len() as int) =~= all);
                            }
                            return None;
                        },
                    }
                }
            }
        }
        i += 1;
    }
    assert(all.take(i as int) =~= all);
    proof {
        lemma_layout_grows(all, 0, all.len() as int);
    }
    // Second pass: generate code
    let mut output: Vec<u8> = Vec::new();
    let mut unresolved: Vec<Vec<char>> = Vec::new();
    i = 0;
    assert(views(unresolved@) =~= Seq::<Seq<char>>::empty());
    while i < lines.len()
        invariant
            all == views(lines@).map_values(|line: Seq<char>| code_of(line)),
            all == codes(source@),
            i <= lines@.len(),
            labels@ == label_map(layout(all).0),
            layout(all).1 <= u32::MAX,
            second_pass(all.take(i as int), labels@) == PassState::Going(
                output@,
                views(unresolved@),
            ),
        decreases lines@.len() - i,
    {
        assert(all.take(i + 1).drop_last() =~= all.take(i as int));
        let code = line_code(lines[i].as_slice());
        assert(all.take(i + 1).last() == code@);
        let step = encode_line(code.as_slice(), &labels, &mut output, &mut unresolved);
        match step {
            None => {
                proof {
                    lemma_second_pass_stays_stopped(all, labels@, i + 1, all.len() as int);
                    assert(all.take(all.len() as int) =~= all);
                }
                return None;
            },
            Some(Err(e)) => {
                proof {
                    lemma_second_pass_stays_stopped(all, labels@, i + 1, all.len() as int);
                    assert(all.take(all.len() as int) =~= all);
                }
                return Some(Err(e));
            },
            Some(Ok(())) => {},
        }
        i += 1;
    }
    assert(all.take(i as int) =~= all);
    // Every recorded target was missing from the complete label table when
    // its branch was encoded, so the first of them is undefined.
    if unresolved.len() > 0 {
        assert(unresolved@[0]@ == views(unresolved@)[0]);
        return Some(Err(AsmError::UndefinedLabel(string_of(unresolved[0].as_slice()))));
    }
    Some(Ok(output))
}

/// The two-pass assembler: the machine code of a source text, or the error
/// it reports. Inputs it does not handle (see [`Assembly::Panics`]) are
/// left out; [`try_assemble`] takes every input.
pub fn assemble(source: &str) -> (r: Result<Vec<u8>, AsmError>)
    requires
        !(assembly(source@) is Panics),
    ensures
        match assembly(source@) {
            Assembly::Program(code) => r matches Ok(v) && v@ == code,
            Assembly::Rejected(f) => r matches Err(e) && e@ == reported(f),
            Assembly::Panics => false,
        },
{
    match try_assemble(source) {
        Some(r) => r,
        None => {
            assert(false);
            Err(AsmError::BadNumber(IntErrorKind::Empty))
        },
    }
}

pub proof fn lemma_line_size(code: Seq<char>, labels: Map<Seq<char>, u32>, len: nat)
    ensures
        line_effect(code, labels, len) is Skip ==> code.len() == 0 || code.last() == ':' || words(
            code,
        ).len() == 0,
        line_effect(code, labels, len) matches LineEffect::Emit(b) ==> code.len() > 0
            && code.last() != ':' && words(code).len() > 0 && b.len() == size_estimate(
            words(code)[0],
        ),
        line_effect(code, labels, len) matches LineEffect::Forward(b, _) ==> code.len() > 0
            && code.last() != ':' && words(code).len() > 0 && b.len() == size_estimate(
            words(code)[0],
        ),
{
    reveal(line_effect);
}

/// The first pass lays out the code exactly as the second pass emits it:
/// while the second pass goes on, the address the first pass has reached
/// after a line is the number of bytes emitted up to it, so each label
/// names the position of the code that follows its definition.
pub proof fn law_layout_matches_output(
    codes: Seq<Seq<char>>,
    labels: Map<Seq<char>, u32>,
    j: int,
)
    requires
        0 <= j <= codes.len(),
    ensures
        second_pass(codes.take(j), labels) matches PassState::Going(out, _) ==> layout(
            codes.take(j),
        ).1 == out.len(),
    decreases j,
{
    if j > 0 {
        let prev = codes.take(j - 1);
        assert(codes.take(j).drop_last() =~= prev);
        law_layout_matches_output(codes, labels, j - 1);
        if let PassState::Going(out, _) = second_pass(prev, labels) {
            lemma_line_size(codes.take(j).last(), labels, out.len());
        }
    }
}

/// Every register name names its register, in lower or upper case: `rK`
/// names register K for K in 0..8, and `fp`, `sp`, `z`, `iv`, `ir` name
/// r3..r7.
pub proof fn law_register_names()
    ensures
        reg_number(seq!['r', '0']) == Some(0u8),
        reg_number(seq!['R', '0']) == Some(0u8),
        reg_number(seq!['r', '1']) == Some(1u8),
        reg_number(seq!['R', '1']) == Some(1u8),
        reg_number(seq!['r', '2']) == Some(2u8),
        reg_number(seq!['R', '2']) == Some(2u8),
        reg_number(seq!['r', '3']) == Some(3u8),
        reg_number(seq!['R', '3']) == Some(3u8),
        reg_number(seq!['r', '4']) == Some(4u8),
        reg_number(seq!['R', '4']) == Some(4u8),
        reg_number(seq!['r', '5']) == Some(5u8),
        reg_number(seq!['R', '5']) == Some(5u8),
        reg_number(seq!['r', '6']) == Some(6u8),
        reg_number(seq!['R', '6']) == Some(6u8),
        reg_number(seq!['r', '7']) == Some(7u8),
        reg_number(seq!['R', '7']) == Some(7u8),
        reg_number(seq!['f', 'p']) == Some(3u8),
        reg_number(seq!['F', 'P']) == Some(3u8),
        reg_number(seq!['s', 'p']) == Some(4u8),
        reg_number(seq!['S', 'P']) == Some(4u8),
        reg_number(seq!['z']) == Some(5u8),
        reg_number(seq!['Z']) == Some(5u8),
        reg_number(seq!['i', 'v']) == Some(6u8),
        reg_number(seq!['I', 'V']) == Some(6u8),
        reg_number(seq!['i', 'r']) == Some(7u8),
        reg_number(seq!['I', 'R']) == Some(7u8),
{
    assert(ascii_lower(seq!['r', '0']) =~= ['r', '0']@);
    assert(ascii_lower(seq!['R', '0']) =~= ['r', '0']@);
    assert(ascii_lower(seq!['r', '1']) =~= ['r', '1']@);
    assert(ascii_lower(seq!['R', '1']) =~= ['r', '1']@);
    assert(ascii_lower(seq!['r', '2']) =~= ['r', '2']@);
    assert(ascii_lower(seq!['R', '2']) =~= ['r', '2']@);
    assert(ascii_lower(seq!['r', '3']) =~= ['r', '3']@);
    assert(ascii_lower(seq!['R', '3']) =~= ['r', '3']@);
    assert(ascii_lower(seq!['r', '4']) =~= ['r', '4']@);
    assert(ascii_lower(seq!['R', '4']) =~= ['r', '4']@);
    assert(ascii_lower(seq!['r', '5']) =~= ['r', '5']@);
    assert(ascii_lower(seq!['R', '5']) =~= ['r', '5']@);
    assert(ascii_lower(seq!['r', '6']) =~= ['r', '6']@);
    assert(ascii_lower(seq!['R', '6']) =~= ['r', '6']@);
    assert(ascii_lower(seq!['r', '7']) =~= ['r', '7']@);
    assert(ascii_lower(seq!['R', '7']) =~= ['r', '7']@);
    assert(ascii_lower(seq!['f', 'p']) =~= ['f', 'p']@);
    assert(ascii_lower(seq!['F', 'P']) =~= ['f', 'p']@);
    assert(ascii_lower(seq!['s', 'p']) =~= ['s', 'p']@);
    assert(ascii_lower(seq!['S', 'P']) =~= ['s', 'p']@);
    assert(ascii_lower(seq!['z']) =~= ['z']@);
    assert(ascii_lower(seq!['Z']) =~= ['z']@);
    assert(ascii_lower(seq!['i', 'v']) =~= ['i', 'v']@);
    assert(ascii_lower(seq!['I', 'V']) =~= ['i', 'v']@);
    assert(ascii_lower(seq!['i', 'r']) =~= ['i', 'r']@);
    assert(ascii_lower(seq!['I', 'R']) =~= ['i', 'r']@);
}

/// A register operand names one of the eight registers, and which one
/// depends only on the text with ASCII letters taken regardless of case.
pub proof fn law_register_operand(s: Seq<char>, t: Seq<char>)
    ensures
        reg_number(s) matches Some(g) ==> g < 8,
        ascii_lower(s) == ascii_lower(t) ==> reg_number(s) == reg_number(t),
{
}

/// The mnemonics the second pass knows, in lower case.
pub open spec fn known_mnemonic(m: Seq<char>) -> bool {
    ||| m == ['l', 'c']@
    ||| m == ['l', 'c', 'u']@
    ||| m == ['l', 'a']@
    ||| m == ['s', 'b']@
    ||| m == ['s', 'h', 'l']@
    ||| m == ['c', 'l', 'u']@
    ||| m == ['b', 'r', 'a']@
    ||| m == ['b', 'r', 'f']@
    ||| m == ['b', 'r', 't']@
    ||| m == ['h', 'a', 'l', 't']@
}

/// Mnemonics are taken regardless of ASCII case: two instruction lines
/// whose first words agree but for the case of ASCII letters, and whose
/// operands agree, have the same effect (but for the unknown-instruction
/// fault, which names the word as written). A line is an unknown
/// instruction exactly when its mnemonic, so taken, is none of the known
/// ones.
pub proof fn law_mnemonic_case(
    c1: Seq<char>,
    c2: Seq<char>,
    labels: Map<Seq<char>, u32>,
    len: nat,
)
    requires
        c1.len() > 0 && c1.last() != ':' && words(c1).len() > 0,
        c2.len() > 0 && c2.last() != ':' && words(c2).len() > 0,
        ascii_lower(words(c1)[0]) == ascii_lower(words(c2)[0]),
        operands(words(c1)) == operands(words(c2)),
    ensures
        known_mnemonic(ascii_lower(words(c1)[0])) ==> line_effect(c1, labels, len) == line_effect(
            c2,
            labels,
            len,
        ),
        !known_mnemonic(ascii_lower(words(c1)[0])) <==> line_effect(c1, labels, len)
            == LineEffect::Fail(AsmFault::UnknownInstruction(words(c1)[0])),
{
    reveal(line_effect);
    assert(['l', 'c', 'u']@.len() != ['l', 'c']@.len());
}

proof fn lemma_trim_plain(x: Seq<char>)
    requires
        x.len() > 0,
        !is_ws(x[0]),
        !is_ws(x.last()),
    ensures
        trim(x) == x,
{
    assert(trim_start(x) == x);
    assert(trim_end(x) == x);
}

/// An immediate operand reads back every number in range: written in
/// decimal, in hexadecimal after `0x` or `0X`, or in decimal after `-` for
/// a negative one; the immediate of `la` reads back every 32-bit number in
/// decimal or hexadecimal.
pub proof fn law_immediate_reads_back(n: nat)
    ensures
        n <= i32::MAX ==> imm_value(render(n, 10)) == Ok::<int, IntErrorKind>(n as int),
        n <= i32::MAX ==> imm_value(seq!['0', 'x'] + render(n, 16)) == Ok::<int, IntErrorKind>(
            n as int,
        ),
        n <= i32::MAX ==> imm_value(seq!['0', 'X'] + render(n, 16)) == Ok::<int, IntErrorKind>(
            n as int,
        ),
        n <= 0x8000_0000 ==> imm_value(seq!['-'] + render(n, 10)) == Ok::<int, IntErrorKind>(
            -n,
        ),
        n <= u32::MAX ==> imm24_value(render(n, 10)) == Ok::<int, IntErrorKind>(n as int),
        n <= u32::MAX ==> imm24_value(seq!['0', 'x'] + render(n, 16)) == Ok::<int, IntErrorKind>(
            n as int,
        ),
{
    let d = render(n, 10);
    let h = render(n, 16);
    lemma_render(n, 10);
    lemma_render(n, 16);
    law_parse_reads_back(n, 10, i32::MIN as int, i32::MAX as int);
    law_parse_reads_back(n, 16, i32::MIN as int, i32::MAX as int);
    law_parse_reads_back(n, 10, 0, u32::MAX as int);
    law_parse_reads_back(n, 16, 0, u32::MAX as int);
    assert(d.last() == d[d.len() - 1]);
    assert(h.last() == h[h.len() - 1]);
    lemma_trim_plain(d);
    if d.len() >= 2 {
        assert(d[1] != 'x' && d[1] != 'X');
    }
    let hx = seq!['0', 'x'] + h;
    let h_upper = seq!['0', 'X'] + h;
    assert(hx.last() == h.last() && h_upper.last() == h.last());
    lemma_trim_plain(hx);
    lemma_trim_plain(h_upper);
    assert(hx.skip(2) =~= h);
    assert(h_upper.skip(2) =~= h);
    let m = seq!['-'] + d;
    assert(m.last() == d.last());
    lemma_trim_plain(m);
}

/// Operands are read in order for the instructions that take a register
/// first (`lc`, `lcu`, `la`, `sb`, `shl`, `clu`): with no operand the line
/// is not handled; a first operand that names no register is reported as
/// such whatever follows; with a register but no second operand the line
/// is not handled. A branch without a target is not handled, and a branch
/// to a label not in the table is left for after the second pass.
pub proof fn law_operand_order(code: Seq<char>, labels: Map<Seq<char>, u32>, len: nat)
    requires
        code.len() > 0 && code.last() != ':' && words(code).len() > 0,
    ensures
        ({
            let m = ascii_lower(words(code)[0]);
            let ops = operands(words(code));
            (m == ['l', 'c']@ || m == ['l', 'c', 'u']@ || m == ['l', 'a']@ || m == ['s', 'b']@ || m
                == ['s', 'h', 'l']@ || m == ['c', 'l', 'u']@) ==> {
                &&& ops.len() == 0 ==> line_effect(code, labels, len) == LineEffect::Panic
                &&& ops.len() > 0 && reg_number(ops[0]) is None ==> line_effect(code, labels, len)
                    == LineEffect::Fail(AsmFault::InvalidRegister(ops[0]))
                &&& ops.len() == 1 && reg_number(ops[0]) is Some ==> line_effect(code, labels, len)
                    == LineEffect::Panic
            }
        }),
        ({
            let m = ascii_lower(words(code)[0]);
            let ops = operands(words(code));
            (m == ['b', 'r', 'a']@ || m == ['b', 'r', 'f']@ || m == ['b', 'r', 't']@) ==> {
                &&& ops.len() == 0 ==> line_effect(code, labels, len) == LineEffect::Panic
                &&& ops.len() > 0 && !labels.contains_key(ops[0]) ==> (line_effect(
                    code,
                    labels,
                    len,
                ) matches LineEffect::Forward(b, l) && l == ops[0] && b.len() == 2 && b[1] == 0)
            }
        }),
{
    reveal(line_effect);
    assert(['l', 'c', 'u']@.len() != ['l', 'c']@.len());
}

} // verus!
