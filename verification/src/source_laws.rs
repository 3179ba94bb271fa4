//! Laws of the assembler over its source text: only the non-blank codes of
//! the lines matter, and without labels the code of two joined sources is
//! the code of the first followed by the code of the second.

use vstd::prelude::*;

use crate::assembler::{
    assembly, code_of, codes, find_char, imm_value, mem_operand, reg_number, AsmFault, law_layout_matches_output, layout, lemma_line_size,
    line_effect,
    second_pass, Assembly, LineEffect, PassState,
};
use crate::labels::label_map;
use crate::text::{is_ws, split, split_from, strip_trailing, trim, trim_end, trim_start};

verus! {

/// The codes that are not blank.
pub open spec fn nonblank(codes: Seq<Seq<char>>) -> Seq<Seq<char>> {
    codes.filter(|c: Seq<char>| c.len() > 0)
}

proof fn lemma_layout_nonblank(cs: Seq<Seq<char>>)
    ensures
        layout(cs) == layout(nonblank(cs)),
    decreases cs.len(),
{
    reveal(Seq::filter);
    if cs.len() > 0 {
        lemma_layout_nonblank(cs.drop_last());
        let f = nonblank(cs.drop_last());
        if cs.last().len() > 0 {
            assert(nonblank(cs) == f.push(cs.last()));
            assert(f.push(cs.last()).drop_last() =~= f);
        } else {
            assert(nonblank(cs) == f);
        }
    }
}

proof fn lemma_second_pass_nonblank(cs: Seq<Seq<char>>, labels: Map<Seq<char>, u32>)
    ensures
        second_pass(cs, labels) == second_pass(nonblank(cs), labels),
    decreases cs.len(),
{
    reveal(Seq::filter);
    if cs.len() > 0 {
        lemma_second_pass_nonblank(cs.drop_last(), labels);
        let f = nonblank(cs.drop_last());
        if cs.last().len() > 0 {
            assert(nonblank(cs) == f.push(cs.last()));
            assert(f.push(cs.last()).drop_last() =~= f);
        } else {
            assert(nonblank(cs) == f);
            reveal(line_effect);
        }
    }
}

/// Only the non-blank codes of the lines, in order, decide what a source
/// assembles to: comments, blank and comment-only lines, and blanks around
/// the code of a line change nothing.
pub proof fn law_only_code_matters(a: Seq<char>, b: Seq<char>)
    requires
        nonblank(codes(a)) == nonblank(codes(b)),
    ensures
        assembly(a) == assembly(b),
{
    lemma_layout_nonblank(codes(a));
    lemma_layout_nonblank(codes(b));
    let labels = label_map(layout(codes(a)).0);
    lemma_second_pass_nonblank(codes(a), labels);
    lemma_second_pass_nonblank(codes(b), labels);
}

/// A comment appended to a line leaves its code as it was.
pub proof fn law_comment_keeps_code(line: Seq<char>, comment: Seq<char>)
    ensures
        code_of(line + seq![';'] + comment) == code_of(line),
{
    let s = line + seq![';'] + comment;
    lemma_find_in_extension(line, seq![';'] + comment, ';');
    assert(s =~= line + (seq![';'] + comment));
    lemma_find_bound(line, ';');
    match find_char(line, ';') {
        Some(p) => {
            assert(s.take(p as int) =~= line.take(p as int));
        },
        None => {
            assert((seq![';'] + comment)[0] == ';');
            assert(s.take(line.len() as int) =~= line);
        },
    }
}

proof fn lemma_find_in_extension(s: Seq<char>, t: Seq<char>, c: char)
    requires
        t.len() > 0,
        t[0] == c,
    ensures
        find_char(s + t, c) == (match find_char(s, c) {
            Some(p) => Some(p),
            None => Some(s.len()),
        }),
    decreases s.len(),
{
    if s.len() == 0 {
        assert(s + t =~= t);
    } else {
        assert((s + t).drop_first() =~= s.drop_first() + t);
        lemma_find_in_extension(s.drop_first(), t, c);
    }
}

proof fn lemma_trim_start_ws_prefix(w: Seq<char>, x: Seq<char>)
    requires
        forall|i: int| 0 <= i < w.len() ==> is_ws(#[trigger] w[i]),
    ensures
        trim_start(w + x) == trim_start(x),
    decreases w.len(),
{
    if w.len() > 0 {
        assert((w + x).drop_first() =~= w.drop_first() + x);
        assert(forall|i: int| 0 <= i < w.drop_first().len() ==> w.drop_first()[i] == w[i + 1]);
        lemma_trim_start_ws_prefix(w.drop_first(), x);
    } else {
        assert(w + x =~= x);
    }
}

proof fn lemma_trim_end_ws_suffix(x: Seq<char>, w: Seq<char>)
    requires
        forall|i: int| 0 <= i < w.len() ==> is_ws(#[trigger] w[i]),
    ensures
        trim_end(x + w) == trim_end(x),
    decreases w.len(),
{
    if w.len() > 0 {
        assert((x + w).drop_last() =~= x + w.drop_last());
        assert((x + w).last() == w.last());
        lemma_trim_end_ws_suffix(x, w.drop_last());
    } else {
        assert(x + w =~= x);
    }
}

proof fn lemma_trim_start_append_ws(x: Seq<char>, w: Seq<char>)
    requires
        forall|i: int| 0 <= i < w.len() ==> is_ws(#[trigger] w[i]),
    ensures
        trim_start(x).len() > 0 ==> trim_start(x + w) == trim_start(x) + w,
        trim_start(x).len() == 0 ==> trim_start(x + w).len() == 0,
    decreases x.len(),
{
    if x.len() == 0 {
        assert(x + w =~= w);
        lemma_trim_start_ws_prefix(w, seq![]);
        assert(w + Seq::<char>::empty() =~= w);
    } else {
        assert((x + w).drop_first() =~= x.drop_first() + w);
        assert((x + w)[0] == x[0]);
        lemma_trim_start_append_ws(x.drop_first(), w);
    }
}

proof fn lemma_trim_ws_around(w1: Seq<char>, x: Seq<char>, w2: Seq<char>)
    requires
        forall|i: int| 0 <= i < w1.len() ==> is_ws(#[trigger] w1[i]),
        forall|i: int| 0 <= i < w2.len() ==> is_ws(#[trigger] w2[i]),
    ensures
        trim(w1 + x + w2) == trim(x),
{
    assert(w1 + x + w2 =~= w1 + (x + w2));
    lemma_trim_start_ws_prefix(w1, x + w2);
    lemma_trim_start_append_ws(x, w2);
    if trim_start(x).len() > 0 {
        lemma_trim_end_ws_suffix(trim_start(x), w2);
    } else {
        assert(trim_end(trim_start(x + w2)) == trim_start(x + w2)) by {
            assert(trim_start(x + w2).len() == 0);
        }
        assert(trim_end(trim_start(x)) == trim_start(x));
        assert(trim_start(x + w2) =~= trim_start(x));
    }
}

/// Blanks around a line leave its code as it was.
pub proof fn law_blanks_keep_code(w1: Seq<char>, line: Seq<char>, w2: Seq<char>)
    requires
        forall|i: int| 0 <= i < w1.len() ==> is_ws(#[trigger] w1[i]),
        forall|i: int| 0 <= i < w2.len() ==> is_ws(#[trigger] w2[i]),
    ensures
        code_of(w1 + line + w2) == code_of(line),
{
    let s = w1 + line + w2;
    assert(!is_ws(';'));
    lemma_no_find_in_ws(w1, ';');
    lemma_no_find_in_ws(w2, ';');
    lemma_find_concat(w1, line + w2, ';');
    assert(s =~= w1 + (line + w2));
    lemma_find_concat(line, w2, ';');
    lemma_find_bound(line, ';');
    match find_char(line, ';') {
        Some(p) => {
            assert(s.take(w1.len() + p as int) =~= w1 + line.take(p as int));
            lemma_trim_ws_around(w1, line.take(p as int), seq![]);
            assert(w1 + line.take(p as int) + Seq::<char>::empty() =~= w1 + line.take(p as int));
        },
        None => {
            lemma_trim_ws_around(w1, line, w2);
        },
    }
}

proof fn lemma_find_bound(s: Seq<char>, c: char)
    ensures
        find_char(s, c) matches Some(p) ==> p < s.len() && s[p as int] == c,
    decreases s.len(),
{
    if s.len() > 0 {
        lemma_find_bound(s.drop_first(), c);
    }
}

proof fn lemma_no_find_in_ws(w: Seq<char>, c: char)
    requires
        !is_ws(c),
        forall|i: int| 0 <= i < w.len() ==> is_ws(#[trigger] w[i]),
    ensures
        find_char(w, c) is None,
    decreases w.len(),
{
    if w.len() > 0 {
        assert(forall|i: int| 0 <= i < w.drop_first().len() ==> w.drop_first()[i] == w[i + 1]);
        lemma_no_find_in_ws(w.drop_first(), c);
    }
}

proof fn lemma_find_concat(s: Seq<char>, t: Seq<char>, c: char)
    ensures
        find_char(s + t, c) == (match find_char(s, c) {
            Some(p) => Some(p),
            None => match find_char(t, c) {
                Some(q) => Some(s.len() + q),
                None => None,
            },
        }),
    decreases s.len(),
{
    if s.len() == 0 {
        assert(s + t =~= t);
    } else {
        assert((s + t).drop_first() =~= s.drop_first() + t);
        lemma_find_concat(s.drop_first(), t, c);
    }
}

/// Whether no line of a source defines a label.
pub open spec fn defines_no_label(source: Seq<char>) -> bool {
    forall|i: int|
        0 <= i < codes(source).len() ==> !(#[trigger] codes(source)[i].len() > 0
            && codes(source)[i].last() == ':')
}

proof fn lemma_split_concat(a: Seq<char>, b: Seq<char>, sep: char, cur: Seq<char>)
    ensures
        split_from(a + seq![sep] + b, sep, cur) == split_from(a, sep, cur) + split(b, sep),
    decreases a.len(),
{
    let s = a + seq![sep] + b;
    if a.len() == 0 {
        assert(s[0] == sep);
        assert(s.drop_first() =~= b);
        assert(seq![cur] + split(b, sep) =~= split_from(a, sep, cur) + split(b, sep));
    } else {
        assert(s.drop_first() =~= a.drop_first() + seq![sep] + b);
        assert(s[0] == a[0]);
        if a[0] == sep {
            lemma_split_concat(a.drop_first(), b, sep, seq![]);
            assert(seq![cur] + (split_from(a.drop_first(), sep, seq![]) + split(b, sep)) =~= (
            seq![cur] + split_from(a.drop_first(), sep, seq![])) + split(b, sep));
        } else {
            lemma_split_concat(a.drop_first(), b, sep, cur.push(a[0]));
        }
    }
}

proof fn lemma_codes_concat(a: Seq<char>, b: Seq<char>)
    ensures
        codes(a + seq!['\n'] + b) == codes(a) + codes(b),
{
    lemma_split_concat(a, b, '\n', seq![]);
    assert(codes(a + seq!['\n'] + b) =~= codes(a) + codes(b));
}

proof fn lemma_layout_without_labels(cs: Seq<Seq<char>>)
    requires
        forall|i: int| 0 <= i < cs.len() ==> !(#[trigger] cs[i].len() > 0 && cs[i].last() == ':'),
    ensures
        layout(cs).0 == Seq::<(Seq<char>, u32)>::empty(),
    decreases cs.len(),
{
    if cs.len() > 0 {
        assert(cs.last() == cs[cs.len() - 1]);
        lemma_layout_without_labels(cs.drop_last());
    }
}

proof fn lemma_layout_concat(ca: Seq<Seq<char>>, cb: Seq<Seq<char>>)
    requires
        forall|i: int| 0 <= i < cb.len() ==> !(#[trigger] cb[i].len() > 0 && cb[i].last() == ':'),
    ensures
        layout(ca + cb).0 == layout(ca).0,
        layout(ca + cb).1 == layout(ca).1 + layout(cb).1,
    decreases cb.len(),
{
    if cb.len() == 0 {
        assert(ca + cb =~= ca);
    } else {
        assert((ca + cb).drop_last() =~= ca + cb.drop_last());
        assert((ca + cb).last() == cb.last());
        assert(cb.last() == cb[cb.len() - 1]);
        lemma_layout_concat(ca, cb.drop_last());
    }
}

proof fn lemma_line_effect_without_labels(code: Seq<char>, l1: nat, l2: nat)
    ensures
        line_effect(code, Map::empty(), l1) == line_effect(code, Map::empty(), l2),
{
    reveal(line_effect);
}

proof fn lemma_second_pass_concat(
    ca: Seq<Seq<char>>,
    cb: Seq<Seq<char>>,
    x: Seq<u8>,
    ua: Seq<Seq<char>>,
)
    requires
        second_pass(ca, Map::empty()) == PassState::Going(x, ua),
    ensures
        second_pass(cb, Map::empty()) matches PassState::Going(y, ub) ==> second_pass(
            ca + cb,
            Map::empty(),
        ) == PassState::Going(x + y, ua + ub),
    decreases cb.len(),
{
    if cb.len() == 0 {
        assert(ca + cb =~= ca);
        assert(x + Seq::<u8>::empty() =~= x);
        assert(ua + Seq::<Seq<char>>::empty() =~= ua);
    } else {
        assert((ca + cb).drop_last() =~= ca + cb.drop_last());
        assert((ca + cb).last() == cb.last());
        lemma_second_pass_concat(ca, cb.drop_last(), x, ua);
        if let PassState::Going(y1, ub1) = second_pass(cb.drop_last(), Map::empty()) {
            lemma_line_effect_without_labels(cb.last(), (x + y1).len(), y1.len());
            match line_effect(cb.last(), Map::empty(), y1.len()) {
                LineEffect::Emit(bytes) => {
                    assert(x + y1 + bytes =~= x + (y1 + bytes));
                },
                LineEffect::Forward(bytes, l) => {
                    assert(x + y1 + bytes =~= x + (y1 + bytes));
                    assert((ua + ub1).push(l) =~= ua + ub1.push(l));
                },
                _ => {},
            }
        }
    }
}

/// Without labels, two sources joined by a line break assemble to the code
/// of the first followed by the code of the second (as long as the whole
/// fits 32-bit addresses).
pub proof fn law_concatenation(a: Seq<char>, b: Seq<char>, x: Seq<u8>, y: Seq<u8>)
    requires
        defines_no_label(a),
        defines_no_label(b),
        assembly(a) == Assembly::Program(x),
        assembly(b) == Assembly::Program(y),
        x.len() + y.len() <= u32::MAX,
    ensures
        assembly(a + seq!['\n'] + b) == Assembly::Program(x + y),
{
    let ca = codes(a);
    let cb = codes(b);
    lemma_codes_concat(a, b);
    lemma_layout_without_labels(ca);
    lemma_layout_without_labels(cb);
    lemma_layout_concat(ca, cb);
    let empty = label_map(Seq::<(Seq<char>, u32)>::empty());
    assert(empty =~= Map::<Seq<char>, u32>::empty());
    law_layout_matches_output(ca, empty, ca.len() as int);
    law_layout_matches_output(cb, empty, cb.len() as int);
    assert(ca.take(ca.len() as int) =~= ca);
    assert(cb.take(cb.len() as int) =~= cb);
    if let PassState::Going(xa, ua) = second_pass(ca, empty) {
        if let PassState::Going(yb, ub) = second_pass(cb, empty) {
            lemma_second_pass_concat(ca, cb, xa, ua);
            assert(ua =~= Seq::<Seq<char>>::empty());
            assert(ub =~= Seq::<Seq<char>>::empty());
            assert(ua + ub =~= Seq::<Seq<char>>::empty());
        }
    }
}

/// A source whose only non-blank code is one instruction assembles to the
/// bytes that line emits in the second pass, with no labels and nothing
/// emitted before it.
pub proof fn law_single_line(source: Seq<char>, code: Seq<char>, out: Seq<u8>)
    requires
        nonblank(codes(source)) == seq![code],
        code.last() != ':',
        assembly(source) == Assembly::Program(out),
    ensures
        line_effect(code, Map::empty(), 0) == LineEffect::Emit(out) || (line_effect(
            code,
            Map::empty(),
            0,
        ) is Skip && out.len() == 0),
{
    let cs = codes(source);
    let one = seq![code];
    cs.lemma_filter_pred(|c: Seq<char>| c.len() > 0, 0);
    assert(one[0] == code);
    assert(code.len() > 0);
    lemma_layout_nonblank(cs);
    assert(one.drop_last() =~= Seq::<Seq<char>>::empty());
    assert(one.last() == code);
    assert(layout(one.drop_last()).0 =~= Seq::<(Seq<char>, u32)>::empty());
    assert(layout(one).0 =~= Seq::<(Seq<char>, u32)>::empty());
    let empty = label_map(Seq::<(Seq<char>, u32)>::empty());
    assert(empty =~= Map::<Seq<char>, u32>::empty());
    lemma_second_pass_nonblank(cs, empty);
    lemma_line_size(code, empty, 0);
    assert(nonblank(cs) == one);
    assert(layout(cs) == layout(one));
    assert(second_pass(cs, empty) == second_pass(one, empty));
    assert(second_pass(one.drop_last(), empty) == PassState::Going(
        Seq::<u8>::empty(),
        Seq::<Seq<char>>::empty(),
    ));
    match line_effect(code, empty, 0) {
        LineEffect::Emit(b) => {
            assert(Seq::<u8>::empty() + b =~= b);
        },
        _ => {},
    }
}

/// A memory operand `t(r)` reads its offset `t` exactly as an immediate
/// operand (zero when `t` is empty) and its base `r` as a register operand:
/// for every `t` without `(` and every `r` not ending in `)`.
pub proof fn law_mem_operand_parts(t: Seq<char>, r: Seq<char>)
    requires
        find_char(t, '(') is None,
        r.len() == 0 || r.last() != ')',
    ensures
        mem_operand(t + seq!['('] + r + seq![')']) == (match (if t.len() == 0 {
            Ok(0int)
        } else {
            imm_value(t)
        }) {
            Err(k) => Err(AsmFault::BadNumber(k)),
            Ok(v) => match reg_number(r) {
                Some(g) => Ok((v, g)),
                None => Err(AsmFault::InvalidRegister(r)),
            },
        }),
{
    let tail = seq!['('] + r + seq![')'];
    let s = t + tail;
    assert(t + seq!['('] + r + seq![')'] =~= s);
    assert(tail[0] == '(');
    lemma_find_in_extension(t, tail, '(');
    assert(s.take(t.len() as int) =~= t);
    let after = s.skip(t.len() + 1int);
    assert(after =~= r.push(')'));
    assert(after.drop_last() =~= r);
    assert(strip_trailing(after, ')') == strip_trailing(r, ')'));
    assert(strip_trailing(r, ')') == r);
}

} // verus!
