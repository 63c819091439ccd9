//! The textual form of the IR: registers as `v0`, blocks as `bb0`, locals
//! as `local0`, functions as `fn0`, one instruction per line, and string
//! constants quoted with their characters escaped.
use vstd::prelude::*;

use crate::mir::{Block, BlockId, CapturedVar, FuncId, Function, Inst, LocalId, Module, Operand, VReg};
use crate::text::{first_index_of, lemma_first_index_of, string_from_chars};

verus! {

/// The character of a digit below sixteen: `0`-`9`, then `a`-`f`.
pub open spec fn digit_char(d: nat) -> char {
    if d == 0 { '0' } else if d == 1 { '1' } else if d == 2 { '2' } else if d == 3 { '3' }
    else if d == 4 { '4' } else if d == 5 { '5' } else if d == 6 { '6' } else if d == 7 { '7' }
    else if d == 8 { '8' } else if d == 9 { '9' } else if d == 10 { 'a' } else if d == 11 { 'b' }
    else if d == 12 { 'c' } else if d == 13 { 'd' } else if d == 14 { 'e' } else { 'f' }
}

/// The digits of `n` in `radix`, most significant first, without leading
/// zeros (`0` is one digit).
pub open spec fn digits_in(n: nat, radix: nat) -> Seq<char>
    decreases n,
{
    if radix < 2 || n < radix {
        seq![digit_char(n)]
    } else {
        proof {
            vstd::arithmetic::div_mod::lemma_div_decreases(n as int, radix as int);
        }
        digits_in(n / radix, radix).push(digit_char(n % radix))
    }
}

/// The decimal form of an integer, with `-` before a negative one.
pub open spec fn signed_decimal(i: int) -> Seq<char> {
    if i < 0 {
        seq!['-'] + digits_in((-i) as nat, 10)
    } else {
        digits_in(i as nat, 10)
    }
}

fn digit(d: u64) -> (c: char)
    requires
        d < 16,
    ensures
        c == digit_char(d as nat),
{
    match d {
        0 => '0', 1 => '1', 2 => '2', 3 => '3', 4 => '4', 5 => '5', 6 => '6', 7 => '7',
        8 => '8', 9 => '9', 10 => 'a', 11 => 'b', 12 => 'c', 13 => 'd', 14 => 'e', _ => 'f',
    }
}

/// Appends the digits of `n` in `radix`.
fn push_digits(out: &mut Vec<char>, n: u64, radix: u64)
    requires
        2 <= radix <= 16,
    ensures
        final(out)@ == old(out)@ + digits_in(n as nat, radix as nat),
    decreases n,
{
    if n >= radix {
        proof {
            vstd::arithmetic::div_mod::lemma_div_decreases(n as int, radix as int);
        }
        push_digits(out, n / radix, radix);
    }
    out.push(digit(n % radix));
    proof {
        if n < radix {
            vstd::arithmetic::div_mod::lemma_small_mod(n as nat, radix as nat);
        }
    }
    assert(out@ =~= old(out)@ + digits_in(n as nat, radix as nat));
}

/// Appends the decimal form of `n`.
fn push_signed(out: &mut Vec<char>, n: i64)
    ensures
        final(out)@ == old(out)@ + signed_decimal(n as int),
{
    if n < 0 {
        out.push('-');
        let m: u64 = (0i128 - (n as i128)) as u64;
        push_digits(out, m, 10);
        assert(final(out)@ =~= old(out)@ + signed_decimal(n as int));
    } else {
        push_digits(out, n as u64, 10);
    }
}

/// `char::escape_default`: tab, carriage return and line feed as `\t`, `\r`,
/// `\n`; backslash and both quotes behind a backslash; the other printable
/// ASCII characters (`0x20` to `0x7e`) as they are; every other character
/// as `\u{..}` with its code in lower-case hexadecimal digits.
pub open spec fn escape_char(c: char) -> Seq<char> {
    if c == '\t' {
        seq!['\\', 't']
    } else if c == '\r' {
        seq!['\\', 'r']
    } else if c == '\n' {
        seq!['\\', 'n']
    } else if c == '\\' || c == '\'' || c == '"' {
        seq!['\\', c]
    } else if 0x20 <= (c as u32) && (c as u32) <= 0x7e {
        seq![c]
    } else {
        seq!['\\', 'u', '{'] + digits_in(c as u32 as nat, 16) + seq!['}']
    }
}

/// `str::escape_default`: each character escaped in turn.
pub open spec fn escape_text(s: Seq<char>) -> Seq<char>
    decreases s.len(),
{
    if s.len() == 0 {
        seq![]
    } else {
        escape_text(s.drop_last()) + escape_char(s.last())
    }
}

fn push_escaped_char(out: &mut Vec<char>, c: char)
    ensures
        final(out)@ == old(out)@ + escape_char(c),
{
    if c == '\t' {
        out.push('\\');
        out.push('t');
    } else if c == '\r' {
        out.push('\\');
        out.push('r');
    } else if c == '\n' {
        out.push('\\');
        out.push('n');
    } else if c == '\\' || c == '\'' || c == '"' {
        out.push('\\');
        out.push(c);
    } else if 0x20 <= (c as u32) && (c as u32) <= 0x7e {
        out.push(c);
    } else {
        out.push('\\');
        out.push('u');
        out.push('{');
        push_digits(out, c as u32 as u64, 16);
        out.push('}');
    }
    assert(out@ =~= old(out)@ + escape_char(c));
}

/// Appends the characters of `s`.
fn push_str(out: &mut Vec<char>, s: &str)
    ensures
        final(out)@ == old(out)@ + s@,
{
    broadcast use vstd::string::axiom_spec_iter;

    let ghost start = out@;
    for c in it: s.chars()
        invariant
            out@ == start + it.seq().take(it.index() as int),
            it.seq() == s@,
    {
        out.push(c);
        assert(out@ =~= start + it.seq().take(it.index() as int + 1));
    }
    assert(out@ =~= start + s@);
}

/// Appends the escaped characters of `s`.
fn push_escaped(out: &mut Vec<char>, s: &str)
    ensures
        final(out)@ == old(out)@ + escape_text(s@),
{
    broadcast use vstd::string::axiom_spec_iter;

    let ghost start = out@;
    for c in it: s.chars()
        invariant
            out@ == start + escape_text(it.seq().take(it.index() as int)),
            it.seq() == s@,
    {
        let ghost before = it.seq().take(it.index() as int);
        let ghost after = it.seq().take(it.index() as int + 1);
        push_escaped_char(out, c);
        assert(after.drop_last() =~= before);
        assert(out@ =~= start + escape_text(after));
    }
    assert(s@.take(s@.len() as int) =~= s@);
}

/// `v` and the register number.
pub open spec fn vreg_text(v: VReg) -> Seq<char> {
    seq!['v'] + digits_in(v.0 as nat, 10)
}

/// `bb` and the block number.
pub open spec fn block_id_text(b: BlockId) -> Seq<char> {
    seq!['b', 'b'] + digits_in(b.0 as nat, 10)
}

/// `local` and the slot number.
pub open spec fn local_text(l: LocalId) -> Seq<char> {
    "local"@ + digits_in(l.0 as nat, 10)
}

/// `fn` and the function number.
pub open spec fn func_id_text(f: FuncId) -> Seq<char> {
    seq!['f', 'n'] + digits_in(f.0 as nat, 10)
}

/// `true` or `false`.
pub open spec fn bool_text(b: bool) -> Seq<char> {
    if b { "true"@ } else { "false"@ }
}

/// A register as its name, an integer in decimal, a float as the text it
/// was written with, a boolean as `true` or `false`, a string in double
/// quotes with its characters escaped.
pub open spec fn operand_text(o: Operand) -> Seq<char> {
    match o {
        Operand::VReg(v) => vreg_text(v),
        Operand::IntConst(n) => signed_decimal(n as int),
        Operand::FloatConst(s) => s@,
        Operand::BoolConst(b) => bool_text(b),
        Operand::StringConst(s) => seq!['"'] + escape_text(s@) + seq!['"'],
    }
}

fn push_vreg(out: &mut Vec<char>, v: VReg)
    ensures
        final(out)@ == old(out)@ + vreg_text(v),
{
    out.push('v');
    push_digits(out, v.0 as u64, 10);
    assert(out@ =~= old(out)@ + vreg_text(v));
}

fn push_block_id(out: &mut Vec<char>, b: BlockId)
    ensures
        final(out)@ == old(out)@ + block_id_text(b),
{
    out.push('b');
    out.push('b');
    push_digits(out, b.0 as u64, 10);
    assert(out@ =~= old(out)@ + block_id_text(b));
}

fn push_local(out: &mut Vec<char>, l: LocalId)
    ensures
        final(out)@ == old(out)@ + local_text(l),
{
    push_str(out, "local");
    push_digits(out, l.0 as u64, 10);
    assert(out@ =~= old(out)@ + local_text(l));
}

fn push_func_id(out: &mut Vec<char>, f: FuncId)
    ensures
        final(out)@ == old(out)@ + func_id_text(f),
{
    out.push('f');
    out.push('n');
    push_digits(out, f.0 as u64, 10);
    assert(out@ =~= old(out)@ + func_id_text(f));
}

fn push_bool(out: &mut Vec<char>, b: bool)
    ensures
        final(out)@ == old(out)@ + bool_text(b),
{
    if b {
        push_str(out, "true");
    } else {
        push_str(out, "false");
    }
}

fn push_operand(out: &mut Vec<char>, o: &Operand)
    ensures
        final(out)@ == old(out)@ + operand_text(*o),
{
    match o {
        Operand::VReg(v) => push_vreg(out, *v),
        Operand::IntConst(n) => push_signed(out, *n),
        Operand::FloatConst(s) => push_str(out, s.as_str()),
        Operand::BoolConst(b) => push_bool(out, *b),
        Operand::StringConst(s) => {
            out.push('"');
            push_escaped(out, s.as_str());
            out.push('"');
            assert(out@ =~= old(out)@ + operand_text(*o));
        },
    }
}

/// `dst = op lhs rhs`.
pub open spec fn binary_text(dst: VReg, op: Seq<char>, lhs: Operand, rhs: Operand) -> Seq<char> {
    vreg_text(dst) + " = "@ + op + seq![' '] + operand_text(lhs) + seq![' '] + operand_text(rhs)
}

/// `dst = op src`.
pub open spec fn unary_text(dst: VReg, op: Seq<char>, src: Operand) -> Seq<char> {
    vreg_text(dst) + " = "@ + op + seq![' '] + operand_text(src)
}

/// Each operand with a space before it.
pub open spec fn operands_text(ops: Seq<Operand>) -> Seq<char>
    decreases ops.len(),
{
    if ops.len() == 0 {
        seq![]
    } else {
        operands_text(ops.drop_last()) + seq![' '] + operand_text(ops.last())
    }
}

/// `dst = ` when a call has a destination, nothing otherwise.
pub open spec fn call_prefix(dst: Option<VReg>) -> Seq<char> {
    match dst {
        Some(d) => vreg_text(d) + " = "@,
        None => seq![],
    }
}

/// The one-line form of an instruction.
pub open spec fn inst_text(i: Inst) -> Seq<char> {
    match i {
        Inst::AddInt { dst, lhs, rhs } => binary_text(dst, "add.i"@, lhs, rhs),
        Inst::SubInt { dst, lhs, rhs } => binary_text(dst, "sub.i"@, lhs, rhs),
        Inst::MulInt { dst, lhs, rhs } => binary_text(dst, "mul.i"@, lhs, rhs),
        Inst::DivInt { dst, lhs, rhs } => binary_text(dst, "div.i"@, lhs, rhs),
        Inst::ModInt { dst, lhs, rhs } => binary_text(dst, "mod.i"@, lhs, rhs),
        Inst::NegInt { dst, src } => unary_text(dst, "neg.i"@, src),
        Inst::AddFloat { dst, lhs, rhs } => binary_text(dst, "add.f"@, lhs, rhs),
        Inst::SubFloat { dst, lhs, rhs } => binary_text(dst, "sub.f"@, lhs, rhs),
        Inst::MulFloat { dst, lhs, rhs } => binary_text(dst, "mul.f"@, lhs, rhs),
        Inst::DivFloat { dst, lhs, rhs } => binary_text(dst, "div.f"@, lhs, rhs),
        Inst::NegFloat { dst, src } => unary_text(dst, "neg.f"@, src),
        Inst::EqInt { dst, lhs, rhs } => binary_text(dst, "eq.i"@, lhs, rhs),
        Inst::NeInt { dst, lhs, rhs } => binary_text(dst, "ne.i"@, lhs, rhs),
        Inst::LtInt { dst, lhs, rhs } => binary_text(dst, "lt.i"@, lhs, rhs),
        Inst::LeInt { dst, lhs, rhs } => binary_text(dst, "le.i"@, lhs, rhs),
        Inst::GtInt { dst, lhs, rhs } => binary_text(dst, "gt.i"@, lhs, rhs),
        Inst::GeInt { dst, lhs, rhs } => binary_text(dst, "ge.i"@, lhs, rhs),
        Inst::LtFloat { dst, lhs, rhs } => binary_text(dst, "lt.f"@, lhs, rhs),
        Inst::LeFloat { dst, lhs, rhs } => binary_text(dst, "le.f"@, lhs, rhs),
        Inst::GtFloat { dst, lhs, rhs } => binary_text(dst, "gt.f"@, lhs, rhs),
        Inst::GeFloat { dst, lhs, rhs } => binary_text(dst, "ge.f"@, lhs, rhs),
        Inst::Not { dst, src } => unary_text(dst, "not"@, src),
        Inst::Copy { dst, src } => unary_text(dst, "copy"@, src),
        Inst::StoreLocal { local, src } =>
            "store "@ + local_text(local) + seq![' '] + operand_text(src),
        Inst::LoadLocal { dst, local } => vreg_text(dst) + " = load "@ + local_text(local),
        Inst::Jump { target } => "jump "@ + block_id_text(target),
        Inst::Branch { cond, then_bb, else_bb } =>
            "branch "@ + operand_text(cond) + seq![' '] + block_id_text(then_bb) + seq![' ']
                + block_id_text(else_bb),
        Inst::Return { value } => match value {
            Some(v) => "ret "@ + operand_text(v),
            None => "ret"@,
        },
        Inst::Call { dst, func, args } =>
            call_prefix(dst) + "call "@ + func_id_text(func) + operands_text(args@),
        Inst::CallIndirect { dst, callee, args } =>
            call_prefix(dst) + "call_indirect "@ + operand_text(callee) + operands_text(args@),
        Inst::MakeClosure { dst, func, captures } =>
            vreg_text(dst) + " = make_closure "@ + func_id_text(func) + operands_text(captures@),
        Inst::LoadCapture { dst, index } =>
            vreg_text(dst) + " = load_capture "@ + digits_in(index as nat, 10),
        Inst::StoreCapture { index, src } =>
            "store_capture "@ + digits_in(index as nat, 10) + seq![' '] + operand_text(src),
        Inst::Echo { src } => "echo "@ + operand_text(src),
    }
}

/// Each arithmetic, comparison, negation, `not` and copy instruction is
/// printed with its own mnemonic: the operation (`add`, `sub`, `mul`, `div`,
/// `mod`, `eq`, `ne`, `lt`, `le`, `gt`, `ge`, `neg`) and, after a dot, `i` for
/// integers or `f` for floats; `not` and `copy` as they are.
pub proof fn law_instruction_mnemonics(dst: VReg, lhs: Operand, rhs: Operand, src: Operand)
    ensures
        inst_text((Inst::AddInt { dst, lhs, rhs })) == binary_text(dst, seq!['a', 'd', 'd', '.', 'i'], lhs, rhs),
        inst_text((Inst::SubInt { dst, lhs, rhs })) == binary_text(dst, seq!['s', 'u', 'b', '.', 'i'], lhs, rhs),
        inst_text((Inst::MulInt { dst, lhs, rhs })) == binary_text(dst, seq!['m', 'u', 'l', '.', 'i'], lhs, rhs),
        inst_text((Inst::DivInt { dst, lhs, rhs })) == binary_text(dst, seq!['d', 'i', 'v', '.', 'i'], lhs, rhs),
        inst_text((Inst::ModInt { dst, lhs, rhs })) == binary_text(dst, seq!['m', 'o', 'd', '.', 'i'], lhs, rhs),
        inst_text((Inst::AddFloat { dst, lhs, rhs })) == binary_text(dst, seq!['a', 'd', 'd', '.', 'f'], lhs, rhs),
        inst_text((Inst::SubFloat { dst, lhs, rhs })) == binary_text(dst, seq!['s', 'u', 'b', '.', 'f'], lhs, rhs),
        inst_text((Inst::MulFloat { dst, lhs, rhs })) == binary_text(dst, seq!['m', 'u', 'l', '.', 'f'], lhs, rhs),
        inst_text((Inst::DivFloat { dst, lhs, rhs })) == binary_text(dst, seq!['d', 'i', 'v', '.', 'f'], lhs, rhs),
        inst_text((Inst::EqInt { dst, lhs, rhs })) == binary_text(dst, seq!['e', 'q', '.', 'i'], lhs, rhs),
        inst_text((Inst::NeInt { dst, lhs, rhs })) == binary_text(dst, seq!['n', 'e', '.', 'i'], lhs, rhs),
        inst_text((Inst::LtInt { dst, lhs, rhs })) == binary_text(dst, seq!['l', 't', '.', 'i'], lhs, rhs),
        inst_text((Inst::LeInt { dst, lhs, rhs })) == binary_text(dst, seq!['l', 'e', '.', 'i'], lhs, rhs),
        inst_text((Inst::GtInt { dst, lhs, rhs })) == binary_text(dst, seq!['g', 't', '.', 'i'], lhs, rhs),
        inst_text((Inst::GeInt { dst, lhs, rhs })) == binary_text(dst, seq!['g', 'e', '.', 'i'], lhs, rhs),
        inst_text((Inst::LtFloat { dst, lhs, rhs })) == binary_text(dst, seq!['l', 't', '.', 'f'], lhs, rhs),
        inst_text((Inst::LeFloat { dst, lhs, rhs })) == binary_text(dst, seq!['l', 'e', '.', 'f'], lhs, rhs),
        inst_text((Inst::GtFloat { dst, lhs, rhs })) == binary_text(dst, seq!['g', 't', '.', 'f'], lhs, rhs),
        inst_text((Inst::GeFloat { dst, lhs, rhs })) == binary_text(dst, seq!['g', 'e', '.', 'f'], lhs, rhs),
        inst_text((Inst::NegInt { dst, src })) == unary_text(dst, seq!['n', 'e', 'g', '.', 'i'], src),
        inst_text((Inst::NegFloat { dst, src })) == unary_text(dst, seq!['n', 'e', 'g', '.', 'f'], src),
        inst_text((Inst::Not { dst, src })) == unary_text(dst, seq!['n', 'o', 't'], src),
        inst_text((Inst::Copy { dst, src })) == unary_text(dst, seq!['c', 'o', 'p', 'y'], src),
{
    reveal_strlit("add.i");
    assert("add.i"@ =~= seq!['a', 'd', 'd', '.', 'i']);
    reveal_strlit("sub.i");
    assert("sub.i"@ =~= seq!['s', 'u', 'b', '.', 'i']);
    reveal_strlit("mul.i");
    assert("mul.i"@ =~= seq!['m', 'u', 'l', '.', 'i']);
    reveal_strlit("div.i");
    assert("div.i"@ =~= seq!['d', 'i', 'v', '.', 'i']);
    reveal_strlit("mod.i");
    assert("mod.i"@ =~= seq!['m', 'o', 'd', '.', 'i']);
    reveal_strlit("add.f");
    assert("add.f"@ =~= seq!['a', 'd', 'd', '.', 'f']);
    reveal_strlit("sub.f");
    assert("sub.f"@ =~= seq!['s', 'u', 'b', '.', 'f']);
    reveal_strlit("mul.f");
    assert("mul.f"@ =~= seq!['m', 'u', 'l', '.', 'f']);
    reveal_strlit("div.f");
    assert("div.f"@ =~= seq!['d', 'i', 'v', '.', 'f']);
    reveal_strlit("eq.i");
    assert("eq.i"@ =~= seq!['e', 'q', '.', 'i']);
    reveal_strlit("ne.i");
    assert("ne.i"@ =~= seq!['n', 'e', '.', 'i']);
    reveal_strlit("lt.i");
    assert("lt.i"@ =~= seq!['l', 't', '.', 'i']);
    reveal_strlit("le.i");
    assert("le.i"@ =~= seq!['l', 'e', '.', 'i']);
    reveal_strlit("gt.i");
    assert("gt.i"@ =~= seq!['g', 't', '.', 'i']);
    reveal_strlit("ge.i");
    assert("ge.i"@ =~= seq!['g', 'e', '.', 'i']);
    reveal_strlit("lt.f");
    assert("lt.f"@ =~= seq!['l', 't', '.', 'f']);
    reveal_strlit("le.f");
    assert("le.f"@ =~= seq!['l', 'e', '.', 'f']);
    reveal_strlit("gt.f");
    assert("gt.f"@ =~= seq!['g', 't', '.', 'f']);
    reveal_strlit("ge.f");
    assert("ge.f"@ =~= seq!['g', 'e', '.', 'f']);
    reveal_strlit("neg.i");
    assert("neg.i"@ =~= seq!['n', 'e', 'g', '.', 'i']);
    reveal_strlit("neg.f");
    assert("neg.f"@ =~= seq!['n', 'e', 'g', '.', 'f']);
    reveal_strlit("not");
    assert("not"@ =~= seq!['n', 'o', 't']);
    reveal_strlit("copy");
    assert("copy"@ =~= seq!['c', 'o', 'p', 'y']);
}

/// The other instructions are printed as a keyword and their parts:
/// `store`, `load`, `jump`, `branch`, `ret`, `call`, `call_indirect`,
/// `make_closure`, `load_capture`, `store_capture` and `echo`.
pub proof fn law_instruction_keywords(
    dst: VReg,
    local: LocalId,
    src: Operand,
    target: BlockId,
    else_bb: BlockId,
    func: FuncId,
    args: Vec<Operand>,
    index: u32,
)
    ensures
        inst_text((Inst::StoreLocal { local, src })) == seq!['s', 't', 'o', 'r', 'e', ' '] + local_text(local) + seq![' ']
            + operand_text(src),
        inst_text((Inst::LoadLocal { dst, local })) == vreg_text(dst) + seq![' ', '=', ' ', 'l', 'o', 'a', 'd', ' '] + local_text(local),
        inst_text((Inst::Jump { target })) == seq!['j', 'u', 'm', 'p', ' '] + block_id_text(target),
        inst_text((Inst::Branch { cond: src, then_bb: target, else_bb })) == seq!['b', 'r', 'a', 'n', 'c', 'h', ' '] + operand_text(src)
            + seq![' '] + block_id_text(target) + seq![' '] + block_id_text(else_bb),
        inst_text((Inst::Return { value: Some(src) })) == seq!['r', 'e', 't', ' '] + operand_text(src),
        inst_text((Inst::Return { value: None })) == seq!['r', 'e', 't'],
        inst_text((Inst::Call { dst: Some(dst), func, args })) == vreg_text(dst) + seq![' ', '=', ' ']
            + seq!['c', 'a', 'l', 'l', ' '] + func_id_text(func) + operands_text(args@),
        inst_text((Inst::CallIndirect { dst: None, callee: src, args })) == seq!['c', 'a', 'l', 'l', '_', 'i', 'n', 'd', 'i', 'r', 'e', 'c', 't', ' ']
            + operand_text(src) + operands_text(args@),
        inst_text((Inst::MakeClosure { dst, func, captures: args })) == vreg_text(dst) + seq![' ', '=', ' ', 'm', 'a', 'k', 'e', '_', 'c', 'l', 'o', 's', 'u', 'r', 'e', ' ']
            + func_id_text(func) + operands_text(args@),
        inst_text((Inst::LoadCapture { dst, index })) == vreg_text(dst) + seq![' ', '=', ' ', 'l', 'o', 'a', 'd', '_', 'c', 'a', 'p', 't', 'u', 'r', 'e', ' '] + digits_in(
            index as nat,
            10,
        ),
        inst_text((Inst::StoreCapture { index, src })) == seq!['s', 't', 'o', 'r', 'e', '_', 'c', 'a', 'p', 't', 'u', 'r', 'e', ' '] + digits_in(index as nat, 10)
            + seq![' '] + operand_text(src),
        inst_text((Inst::Echo { src })) == seq!['e', 'c', 'h', 'o', ' '] + operand_text(src),
{
    reveal_strlit("store ");
    assert("store "@ =~= seq!['s', 't', 'o', 'r', 'e', ' ']);
    reveal_strlit(" = load ");
    assert(" = load "@ =~= seq![' ', '=', ' ', 'l', 'o', 'a', 'd', ' ']);
    reveal_strlit("jump ");
    assert("jump "@ =~= seq!['j', 'u', 'm', 'p', ' ']);
    reveal_strlit("branch ");
    assert("branch "@ =~= seq!['b', 'r', 'a', 'n', 'c', 'h', ' ']);
    reveal_strlit("ret ");
    assert("ret "@ =~= seq!['r', 'e', 't', ' ']);
    reveal_strlit("ret");
    assert("ret"@ =~= seq!['r', 'e', 't']);
    reveal_strlit("call ");
    assert("call "@ =~= seq!['c', 'a', 'l', 'l', ' ']);
    reveal_strlit("call_indirect ");
    assert("call_indirect "@ =~= seq!['c', 'a', 'l', 'l', '_', 'i', 'n', 'd', 'i', 'r', 'e', 'c', 't', ' ']);
    reveal_strlit(" = make_closure ");
    assert(" = make_closure "@ =~= seq![' ', '=', ' ', 'm', 'a', 'k', 'e', '_', 'c', 'l', 'o', 's', 'u', 'r', 'e', ' ']);
    reveal_strlit(" = load_capture ");
    assert(" = load_capture "@ =~= seq![' ', '=', ' ', 'l', 'o', 'a', 'd', '_', 'c', 'a', 'p', 't', 'u', 'r', 'e', ' ']);
    reveal_strlit("store_capture ");
    assert("store_capture "@ =~= seq!['s', 't', 'o', 'r', 'e', '_', 'c', 'a', 'p', 't', 'u', 'r', 'e', ' ']);
    reveal_strlit("echo ");
    assert("echo "@ =~= seq!['e', 'c', 'h', 'o', ' ']);
    reveal_strlit(" = ");
    assert(" = "@ =~= seq![' ', '=', ' ']);
    assert(call_prefix(Some(dst)) + "call "@ + func_id_text(func) + operands_text(args@) =~= vreg_text(dst)
        + seq![' ', '=', ' '] + seq!['c', 'a', 'l', 'l', ' '] + func_id_text(func) + operands_text(args@));
    assert(call_prefix(None) + "call_indirect "@ + operand_text(src) + operands_text(args@) =~= seq![
        'c', 'a', 'l', 'l', '_', 'i', 'n', 'd', 'i', 'r', 'e', 'c', 't', ' ',
    ] + operand_text(src) + operands_text(args@));
}

fn push_binary(out: &mut Vec<char>, dst: VReg, op: &str, lhs: &Operand, rhs: &Operand)
    ensures
        final(out)@ == old(out)@ + binary_text(dst, op@, *lhs, *rhs),
{
    push_vreg(out, dst);
    push_str(out, " = ");
    push_str(out, op);
    out.push(' ');
    push_operand(out, lhs);
    out.push(' ');
    push_operand(out, rhs);
    assert(out@ =~= old(out)@ + binary_text(dst, op@, *lhs, *rhs));
}

fn push_unary(out: &mut Vec<char>, dst: VReg, op: &str, src: &Operand)
    ensures
        final(out)@ == old(out)@ + unary_text(dst, op@, *src),
{
    push_vreg(out, dst);
    push_str(out, " = ");
    push_str(out, op);
    out.push(' ');
    push_operand(out, src);
    assert(out@ =~= old(out)@ + unary_text(dst, op@, *src));
}

fn push_operands(out: &mut Vec<char>, ops: &Vec<Operand>)
    ensures
        final(out)@ == old(out)@ + operands_text(ops@),
{
    let ghost start = out@;
    let mut i: usize = 0;
    while i < ops.len()
        invariant
            i <= ops@.len(),
            out@ == start + operands_text(ops@.take(i as int)),
        decreases ops@.len() - i,
    {
        let ghost before = out@;
        out.push(' ');
        push_operand(out, &ops[i]);
        assert(ops@.take(i as int + 1).drop_last() =~= ops@.take(i as int));
        assert(out@ =~= start + operands_text(ops@.take(i as int + 1)));
        i = i + 1;
    }
    assert(ops@.take(ops@.len() as int) =~= ops@);
}

fn push_call_prefix(out: &mut Vec<char>, dst: Option<VReg>)
    ensures
        final(out)@ == old(out)@ + call_prefix(dst),
{
    match dst {
        Some(d) => {
            push_vreg(out, d);
            push_str(out, " = ");
            assert(out@ =~= old(out)@ + call_prefix(dst));
        },
        None => {
            assert(out@ =~= old(out)@ + call_prefix(dst));
        },
    }
}

/// Appends the one-line form of an instruction.
#[verifier::rlimit(40)]
fn push_inst(out: &mut Vec<char>, i: &Inst)
    ensures
        final(out)@ == old(out)@ + inst_text(*i),
{
    match i {
        Inst::AddInt { dst, lhs, rhs } => push_binary(out, *dst, "add.i", lhs, rhs),
        Inst::SubInt { dst, lhs, rhs } => push_binary(out, *dst, "sub.i", lhs, rhs),
        Inst::MulInt { dst, lhs, rhs } => push_binary(out, *dst, "mul.i", lhs, rhs),
        Inst::DivInt { dst, lhs, rhs } => push_binary(out, *dst, "div.i", lhs, rhs),
        Inst::ModInt { dst, lhs, rhs } => push_binary(out, *dst, "mod.i", lhs, rhs),
        Inst::NegInt { dst, src } => push_unary(out, *dst, "neg.i", src),
        Inst::AddFloat { dst, lhs, rhs } => push_binary(out, *dst, "add.f", lhs, rhs),
        Inst::SubFloat { dst, lhs, rhs } => push_binary(out, *dst, "sub.f", lhs, rhs),
        Inst::MulFloat { dst, lhs, rhs } => push_binary(out, *dst, "mul.f", lhs, rhs),
        Inst::DivFloat { dst, lhs, rhs } => push_binary(out, *dst, "div.f", lhs, rhs),
        Inst::NegFloat { dst, src } => push_unary(out, *dst, "neg.f", src),
        Inst::EqInt { dst, lhs, rhs } => push_binary(out, *dst, "eq.i", lhs, rhs),
        Inst::NeInt { dst, lhs, rhs } => push_binary(out, *dst, "ne.i", lhs, rhs),
        Inst::LtInt { dst, lhs, rhs } => push_binary(out, *dst, "lt.i", lhs, rhs),
        Inst::LeInt { dst, lhs, rhs } => push_binary(out, *dst, "le.i", lhs, rhs),
        Inst::GtInt { dst, lhs, rhs } => push_binary(out, *dst, "gt.i", lhs, rhs),
        Inst::GeInt { dst, lhs, rhs } => push_binary(out, *dst, "ge.i", lhs, rhs),
        Inst::LtFloat { dst, lhs, rhs } => push_binary(out, *dst, "lt.f", lhs, rhs),
        Inst::LeFloat { dst, lhs, rhs } => push_binary(out, *dst, "le.f", lhs, rhs),
        Inst::GtFloat { dst, lhs, rhs } => push_binary(out, *dst, "gt.f", lhs, rhs),
        Inst::GeFloat { dst, lhs, rhs } => push_binary(out, *dst, "ge.f", lhs, rhs),
        Inst::Not { dst, src } => push_unary(out, *dst, "not", src),
        Inst::Copy { dst, src } => push_unary(out, *dst, "copy", src),
        Inst::StoreLocal { local, src } => {
            push_str(out, "store ");
            push_local(out, *local);
            out.push(' ');
            push_operand(out, src);
            assert(out@ =~= old(out)@ + inst_text(*i));
        },
        Inst::LoadLocal { dst, local } => {
            push_vreg(out, *dst);
            push_str(out, " = load ");
            push_local(out, *local);
            assert(out@ =~= old(out)@ + inst_text(*i));
        },
        Inst::Jump { target } => {
            push_str(out, "jump ");
            push_block_id(out, *target);
            assert(out@ =~= old(out)@ + inst_text(*i));
        },
        Inst::Branch { cond, then_bb, else_bb } => {
            push_str(out, "branch ");
            push_operand(out, cond);
            out.push(' ');
            push_block_id(out, *then_bb);
            out.push(' ');
            push_block_id(out, *else_bb);
            assert(out@ =~= old(out)@ + inst_text(*i));
        },
        Inst::Return { value } => match value {
            Some(v) => {
                push_str(out, "ret ");
                push_operand(out, v);
                assert(out@ =~= old(out)@ + inst_text(*i));
            },
            None => push_str(out, "ret"),
        },
        Inst::Call { dst, func, args } => {
            push_call_prefix(out, *dst);
            push_str(out, "call ");
            push_func_id(out, *func);
            push_operands(out, args);
            assert(out@ =~= old(out)@ + inst_text(*i));
        },
        Inst::CallIndirect { dst, callee, args } => {
            push_call_prefix(out, *dst);
            push_str(out, "call_indirect ");
            push_operand(out, callee);
            push_operands(out, args);
            assert(out@ =~= old(out)@ + inst_text(*i));
        },
        Inst::MakeClosure { dst, func, captures } => {
            push_vreg(out, *dst);
            push_str(out, " = make_closure ");
            push_func_id(out, *func);
            push_operands(out, captures);
            assert(out@ =~= old(out)@ + inst_text(*i));
        },
        Inst::LoadCapture { dst, index } => {
            push_vreg(out, *dst);
            push_str(out, " = load_capture ");
            push_digits(out, *index as u64, 10);
            assert(out@ =~= old(out)@ + inst_text(*i));
        },
        Inst::StoreCapture { index, src } => {
            push_str(out, "store_capture ");
            push_digits(out, *index as u64, 10);
            out.push(' ');
            push_operand(out, src);
            assert(out@ =~= old(out)@ + inst_text(*i));
        },
        Inst::Echo { src } => {
            push_str(out, "echo ");
            push_operand(out, src);
            assert(out@ =~= old(out)@ + inst_text(*i));
        },
    }
}

/// Each instruction on a line of its own, indented by four spaces.
pub open spec fn inst_lines(insts: Seq<Inst>) -> Seq<char>
    decreases insts.len(),
{
    if insts.len() == 0 {
        seq![]
    } else {
        inst_lines(insts.drop_last()) + "    "@ + inst_text(insts.last()) + seq!['\n']
    }
}

/// The block's label line, then its instructions.
pub open spec fn block_text(b: Block) -> Seq<char> {
    block_id_text(b.id) + seq![':', '\n'] + inst_lines(b.insts@)
}

/// `str::lines` with each line indented by two spaces and ended by a line
/// feed: a line ends at a line feed, and a carriage return just before that
/// line feed is dropped; a last line without a line feed is kept whole.
pub open spec fn indent_lines(s: Seq<char>) -> Seq<char>
    decreases s.len(),
{
    if s.len() == 0 {
        seq![]
    } else {
        let k = first_index_of(s, '\n');
        if k >= s.len() {
            seq![' ', ' '] + s + seq!['\n']
        } else {
            let line = s.take(k as int);
            let line = if line.len() > 0 && line.last() == '\r' { line.drop_last() } else { line };
            seq![' ', ' '] + line + seq!['\n'] + indent_lines(s.skip(k + 1 as int))
        }
    }
}

/// The parameter slots, separated by `, `.
pub open spec fn params_text(ps: Seq<LocalId>) -> Seq<char>
    decreases ps.len(),
{
    if ps.len() == 0 {
        seq![]
    } else if ps.len() == 1 {
        local_text(ps[0])
    } else {
        params_text(ps.drop_last()) + ", "@ + local_text(ps.last())
    }
}

/// Each captured variable as ` name@slot`.
pub open spec fn capture_list_text(cs: Seq<CapturedVar>) -> Seq<char>
    decreases cs.len(),
{
    if cs.len() == 0 {
        seq![]
    } else {
        capture_list_text(cs.drop_last()) + seq![' '] + cs.last().name@ + seq!['@']
            + local_text(cs.last().outer_local)
    }
}

/// The captures comment line, present only when there are captures.
pub open spec fn captures_text(cs: Seq<CapturedVar>) -> Seq<char> {
    if cs.len() == 0 {
        seq![]
    } else {
        "  ; captures:"@ + capture_list_text(cs) + seq!['\n']
    }
}

/// Each block's lines, indented by two spaces.
pub open spec fn blocks_text(bs: Seq<Block>) -> Seq<char>
    decreases bs.len(),
{
    if bs.len() == 0 {
        seq![]
    } else {
        blocks_text(bs.drop_last()) + indent_lines(block_text(bs.last()))
    }
}

/// The function's name, `anon` for an unnamed one.
pub open spec fn name_text(name: Option<String>) -> Seq<char> {
    match name {
        Some(n) => n@,
        None => "anon"@,
    }
}

/// The header line and the counts comment.
pub open spec fn function_head_text(f: Function) -> Seq<char> {
    "fn "@ + func_id_text(f.id) + seq![' '] + name_text(f.name) + " ("@ + params_text(f.params@)
        + ") {\n"@ + "  ; locals: "@ + digits_in(f.local_count as nat, 10) + ", vregs: "@
        + digits_in(f.vreg_count as nat, 10) + ", closure: "@ + bool_text(f.is_closure)
        + seq!['\n']
}

/// The header line, the counts comment, the captures comment, the blocks
/// and the closing brace.
pub open spec fn function_text(f: Function) -> Seq<char> {
    function_head_text(f) + captures_text(f.captures@) + blocks_text(f.blocks@) + seq!['}', '\n']
}

/// Every function's text, in order.
pub open spec fn functions_text(fs: Seq<Function>) -> Seq<char>
    decreases fs.len(),
{
    if fs.len() == 0 {
        seq![]
    } else {
        functions_text(fs.drop_last()) + function_text(fs.last())
    }
}

/// The entry comment line, then the functions.
pub open spec fn module_text(m: Module) -> Seq<char> {
    "; main: "@ + func_id_text(m.main_id) + seq!['\n'] + functions_text(m.functions@)
}

fn push_block(out: &mut Vec<char>, b: &Block)
    ensures
        final(out)@ == old(out)@ + block_text(*b),
{
    let ghost start = out@;
    push_block_id(out, b.id);
    out.push(':');
    out.push('\n');
    let ghost head = out@;
    assert(head =~= start + block_id_text(b.id) + seq![':', '\n']);
    let mut i: usize = 0;
    while i < b.insts.len()
        invariant
            i <= b.insts@.len(),
            out@ == head + inst_lines(b.insts@.take(i as int)),
        decreases b.insts@.len() - i,
    {
        push_str(out, "    ");
        push_inst(out, &b.insts[i]);
        out.push('\n');
        assert(b.insts@.take(i as int + 1).drop_last() =~= b.insts@.take(i as int));
        assert(out@ =~= head + inst_lines(b.insts@.take(i as int + 1)));
        i = i + 1;
    }
    assert(b.insts@.take(b.insts@.len() as int) =~= b.insts@);
    assert(out@ =~= start + block_text(*b));
}

/// Appends `s[from..to]`.
fn push_range(out: &mut Vec<char>, s: &Vec<char>, from: usize, to: usize)
    requires
        from <= to <= s@.len(),
    ensures
        final(out)@ == old(out)@ + s@.subrange(from as int, to as int),
{
    let mut j: usize = from;
    while j < to
        invariant
            from <= j <= to,
            to <= s@.len(),
            out@ == old(out)@ + s@.subrange(from as int, j as int),
        decreases to - j,
    {
        out.push(s[j]);
        assert(out@ =~= old(out)@ + s@.subrange(from as int, j as int + 1));
        j = j + 1;
    }
}

/// Appends the lines of `s[start..]`, each indented.
fn push_indented(out: &mut Vec<char>, s: &Vec<char>, start: usize)
    requires
        start <= s@.len(),
    ensures
        final(out)@ == old(out)@ + indent_lines(s@.skip(start as int)),
    decreases s@.len() - start,
{
    let ghost rest = s@.skip(start as int);
    if start == s.len() {
        assert(rest =~= Seq::<char>::empty());
        return;
    }
    let mut k: usize = start;
    while k < s.len() && s[k] != '\n'
        invariant
            start <= k <= s@.len(),
            forall|t: int| start <= t < k ==> s@[t] != '\n',
        decreases s@.len() - k,
    {
        k = k + 1;
    }
    proof {
        lemma_first_index_of(rest, '\n', k - start);
    }
    out.push(' ');
    out.push(' ');
    if k == s.len() {
        push_range(out, s, start, k);
        out.push('\n');
        assert(s@.subrange(start as int, k as int) =~= rest);
        assert(out@ =~= old(out)@ + indent_lines(rest));
    } else {
        let end: usize = if k > start && s[k - 1] == '\r' { k - 1 } else { k };
        push_range(out, s, start, end);
        out.push('\n');
        let ghost mid = out@;
        push_indented(out, s, k + 1);
        proof {
            let line = rest.take(k - start);
            assert(line =~= s@.subrange(start as int, k as int));
            if k > start && s@[k - 1] == '\r' {
                assert(line.drop_last() =~= s@.subrange(start as int, end as int));
            } else {
                assert(line =~= s@.subrange(start as int, end as int));
            }
            assert(rest.skip(k - start + 1) =~= s@.skip(k + 1));
        }
        assert(out@ =~= old(out)@ + indent_lines(rest));
    }
}

fn push_params(out: &mut Vec<char>, ps: &Vec<LocalId>)
    ensures
        final(out)@ == old(out)@ + params_text(ps@),
{
    let mut i: usize = 0;
    while i < ps.len()
        invariant
            i <= ps@.len(),
            out@ == old(out)@ + params_text(ps@.take(i as int)),
        decreases ps@.len() - i,
    {
        if i > 0 {
            push_str(out, ", ");
        }
        push_local(out, ps[i]);
        let ghost next = ps@.take(i as int + 1);
        assert(next.drop_last() =~= ps@.take(i as int));
        if i == 0 {
            assert(next.len() == 1 && next[0] == ps@[0]);
        }
        assert(out@ =~= old(out)@ + params_text(next));
        i = i + 1;
    }
    assert(ps@.take(ps@.len() as int) =~= ps@);
}

fn push_captures(out: &mut Vec<char>, cs: &Vec<CapturedVar>)
    ensures
        final(out)@ == old(out)@ + captures_text(cs@),
{
    if cs.len() == 0 {
        assert(out@ =~= old(out)@ + captures_text(cs@));
        return;
    }
    push_str(out, "  ; captures:");
    let ghost head = out@;
    let mut i: usize = 0;
    while i < cs.len()
        invariant
            i <= cs@.len(),
            out@ == head + capture_list_text(cs@.take(i as int)),
        decreases cs@.len() - i,
    {
        out.push(' ');
        push_str(out, cs[i].name.as_str());
        out.push('@');
        push_local(out, cs[i].outer_local);
        assert(cs@.take(i as int + 1).drop_last() =~= cs@.take(i as int));
        assert(out@ =~= head + capture_list_text(cs@.take(i as int + 1)));
        i = i + 1;
    }
    out.push('\n');
    assert(cs@.take(cs@.len() as int) =~= cs@);
    assert(out@ =~= old(out)@ + captures_text(cs@));
}

fn push_function_head(out: &mut Vec<char>, f: &Function)
    ensures
        final(out)@ == old(out)@ + function_head_text(*f),
{
    push_str(out, "fn ");
    push_func_id(out, f.id);
    out.push(' ');
    match &f.name {
        Some(n) => push_str(out, n.as_str()),
        None => push_str(out, "anon"),
    }
    push_str(out, " (");
    push_params(out, &f.params);
    push_str(out, ") {\n");
    push_str(out, "  ; locals: ");
    push_digits(out, f.local_count as u64, 10);
    push_str(out, ", vregs: ");
    push_digits(out, f.vreg_count as u64, 10);
    push_str(out, ", closure: ");
    push_bool(out, f.is_closure);
    out.push('\n');
    assert(out@ =~= old(out)@ + function_head_text(*f));
}

fn push_blocks(out: &mut Vec<char>, bs: &Vec<Block>)
    ensures
        final(out)@ == old(out)@ + blocks_text(bs@),
{
    let mut i: usize = 0;
    while i < bs.len()
        invariant
            i <= bs@.len(),
            out@ == old(out)@ + blocks_text(bs@.take(i as int)),
        decreases bs@.len() - i,
    {
        let mut lines: Vec<char> = Vec::new();
        push_block(&mut lines, &bs[i]);
        assert(lines@.skip(0) =~= lines@);
        push_indented(out, &lines, 0);
        assert(bs@.take(i as int + 1).drop_last() =~= bs@.take(i as int));
        assert(out@ =~= old(out)@ + blocks_text(bs@.take(i as int + 1)));
        i = i + 1;
    }
    assert(bs@.take(bs@.len() as int) =~= bs@);
}

fn push_function(out: &mut Vec<char>, f: &Function)
    ensures
        final(out)@ == old(out)@ + function_text(*f),
{
    push_function_head(out, f);
    push_captures(out, &f.captures);
    push_blocks(out, &f.blocks);
    out.push('}');
    out.push('\n');
    assert(out@ =~= old(out)@ + function_text(*f));
}

fn push_module(out: &mut Vec<char>, m: &Module)
    ensures
        final(out)@ == old(out)@ + module_text(*m),
{
    push_str(out, "; main: ");
    push_func_id(out, m.main_id);
    out.push('\n');
    let ghost head = out@;
    let mut i: usize = 0;
    while i < m.functions.len()
        invariant
            i <= m.functions@.len(),
            out@ == head + functions_text(m.functions@.take(i as int)),
        decreases m.functions@.len() - i,
    {
        push_function(out, &m.functions[i]);
        assert(m.functions@.take(i as int + 1).drop_last() =~= m.functions@.take(i as int));
        assert(out@ =~= head + functions_text(m.functions@.take(i as int + 1)));
        i = i + 1;
    }
    assert(m.functions@.take(m.functions@.len() as int) =~= m.functions@);
    assert(out@ =~= old(out)@ + module_text(*m));
}

impl VReg {
    /// The register's name, `v` and its number.
    pub fn to_string(&self) -> (r: String)
        ensures
            r@ == vreg_text(*self),
    {
        let mut out: Vec<char> = Vec::new();
        push_vreg(&mut out, *self);
        assert(out@ =~= vreg_text(*self));
        string_from_chars(&out)
    }
}

impl BlockId {
    /// The block's label, `bb` and its number.
    pub fn to_string(&self) -> (r: String)
        ensures
            r@ == block_id_text(*self),
    {
        let mut out: Vec<char> = Vec::new();
        push_block_id(&mut out, *self);
        assert(out@ =~= block_id_text(*self));
        string_from_chars(&out)
    }
}

impl LocalId {
    /// The slot's name, `local` and its number.
    pub fn to_string(&self) -> (r: String)
        ensures
            r@ == local_text(*self),
    {
        let mut out: Vec<char> = Vec::new();
        push_local(&mut out, *self);
        assert(out@ =~= local_text(*self));
        string_from_chars(&out)
    }
}

impl FuncId {
    /// The function's name, `fn` and its number.
    pub fn to_string(&self) -> (r: String)
        ensures
            r@ == func_id_text(*self),
    {
        let mut out: Vec<char> = Vec::new();
        push_func_id(&mut out, *self);
        assert(out@ =~= func_id_text(*self));
        string_from_chars(&out)
    }
}

impl Operand {
    /// The operand's text.
    pub fn to_string(&self) -> (r: String)
        ensures
            r@ == operand_text(*self),
    {
        let mut out: Vec<char> = Vec::new();
        push_operand(&mut out, self);
        assert(out@ =~= operand_text(*self));
        string_from_chars(&out)
    }
}

impl Inst {
    /// The instruction's one-line text.
    pub fn to_string(&self) -> (r: String)
        ensures
            r@ == inst_text(*self),
    {
        let mut out: Vec<char> = Vec::new();
        push_inst(&mut out, self);
        assert(out@ =~= inst_text(*self));
        string_from_chars(&out)
    }
}

impl Block {
    /// The block's label line and its instructions, one per line.
    pub fn to_string(&self) -> (r: String)
        ensures
            r@ == block_text(*self),
    {
        let mut out: Vec<char> = Vec::new();
        push_block(&mut out, self);
        assert(out@ =~= block_text(*self));
        string_from_chars(&out)
    }
}

impl Function {
    /// The function's full text.
    pub fn to_string(&self) -> (r: String)
        ensures
            r@ == function_text(*self),
    {
        let mut out: Vec<char> = Vec::new();
        push_function(&mut out, self);
        assert(out@ =~= function_text(*self));
        string_from_chars(&out)
    }
}

impl Module {
    /// The module's full text.
    pub fn to_string(&self) -> (r: String)
        ensures
            r@ == module_text(*self),
    {
        let mut out: Vec<char> = Vec::new();
        push_module(&mut out, self);
        assert(out@ =~= module_text(*self));
        string_from_chars(&out)
    }
}

} // verus!
