use toy_lang::mir::{Block, BlockId, CapturedVar, FuncId, Function, Inst, LocalId, Module, Operand, VReg};

fn v(n: u32) -> Operand {
    Operand::VReg(VReg(n))
}

#[test]
fn ids_print_with_their_prefixes() {
    assert_eq!(VReg(0).to_string(), "v0");
    assert_eq!(VReg(42).to_string(), "v42");
    assert_eq!(BlockId(3).to_string(), "bb3");
    assert_eq!(LocalId(7).to_string(), "local7");
    assert_eq!(FuncId(4294967295).to_string(), "fn4294967295");
}

#[test]
fn operands_print_as_constants() {
    assert_eq!(Operand::IntConst(0).to_string(), "0");
    assert_eq!(Operand::IntConst(-42).to_string(), "-42");
    assert_eq!(Operand::IntConst(i64::MIN).to_string(), "-9223372036854775808");
    assert_eq!(Operand::IntConst(i64::MAX).to_string(), "9223372036854775807");
    assert_eq!(Operand::BoolConst(true).to_string(), "true");
    assert_eq!(Operand::BoolConst(false).to_string(), "false");
    assert_eq!(Operand::FloatConst("2.5".to_string()).to_string(), "2.5");
    assert_eq!(v(9).to_string(), "v9");
}

#[test]
fn string_constants_are_escaped() {
    let s = "a\"b\n\t\\'\u{1}é~ ";
    let printed = Operand::StringConst(s.to_string()).to_string();
    assert_eq!(printed, format!("\"{}\"", s.escape_default()));
    assert_eq!(printed, "\"a\\\"b\\n\\t\\\\\\'\\u{1}\\u{e9}~ \"");
}

#[test]
fn instructions_print_on_one_line() {
    let add = Inst::AddInt { dst: VReg(2), lhs: v(0), rhs: Operand::IntConst(1) };
    assert_eq!(add.to_string(), "v2 = add.i v0 1");
    let ge = Inst::GeFloat { dst: VReg(1), lhs: v(0), rhs: Operand::FloatConst("1.0".to_string()) };
    assert_eq!(ge.to_string(), "v1 = ge.f v0 1.0");
    assert_eq!(Inst::NegInt { dst: VReg(1), src: v(0) }.to_string(), "v1 = neg.i v0");
    assert_eq!(Inst::Not { dst: VReg(1), src: Operand::BoolConst(true) }.to_string(), "v1 = not true");
    assert_eq!(Inst::StoreLocal { local: LocalId(0), src: v(1) }.to_string(), "store local0 v1");
    assert_eq!(Inst::LoadLocal { dst: VReg(1), local: LocalId(0) }.to_string(), "v1 = load local0");
    assert_eq!(Inst::Jump { target: BlockId(2) }.to_string(), "jump bb2");
    assert_eq!(
        Inst::Branch { cond: v(0), then_bb: BlockId(1), else_bb: BlockId(2) }.to_string(),
        "branch v0 bb1 bb2"
    );
    assert_eq!(Inst::Return { value: None }.to_string(), "ret");
    assert_eq!(Inst::Return { value: Some(v(3)) }.to_string(), "ret v3");
    assert_eq!(
        Inst::Call { dst: Some(VReg(3)), func: FuncId(1), args: vec![v(0), Operand::IntConst(5)] }.to_string(),
        "v3 = call fn1 v0 5"
    );
    assert_eq!(Inst::Call { dst: None, func: FuncId(1), args: vec![] }.to_string(), "call fn1");
    assert_eq!(
        Inst::CallIndirect { dst: None, callee: v(2), args: vec![v(0)] }.to_string(),
        "call_indirect v2 v0"
    );
    assert_eq!(
        Inst::MakeClosure { dst: VReg(1), func: FuncId(2), captures: vec![v(0)] }.to_string(),
        "v1 = make_closure fn2 v0"
    );
    assert_eq!(Inst::LoadCapture { dst: VReg(4), index: 0 }.to_string(), "v4 = load_capture 0");
    assert_eq!(Inst::StoreCapture { index: 12, src: v(4) }.to_string(), "store_capture 12 v4");
    assert_eq!(Inst::Echo { src: Operand::StringConst("hi".to_string()) }.to_string(), "echo \"hi\"");
}

#[test]
fn block_prints_label_then_indented_instructions() {
    let mut b = Block::new(BlockId(0));
    b.push(Inst::Copy { dst: VReg(0), src: Operand::IntConst(1) });
    b.push(Inst::Return { value: Some(v(0)) });
    assert_eq!(b.to_string(), "bb0:\n    v0 = copy 1\n    ret v0\n");
    assert_eq!(Block::new(BlockId(5)).to_string(), "bb5:\n");
}

#[test]
fn function_prints_header_counts_and_blocks() {
    let mut f = Function::new(FuncId(0), Some("main".to_string()));
    f.params = vec![LocalId(0), LocalId(1)];
    f.param_count = 2;
    f.local_count = 2;
    f.vreg_count = 3;
    let mut b = Block::new(BlockId(0));
    b.push(Inst::Return { value: Some(v(0)) });
    f.blocks.push(b);
    assert_eq!(
        f.to_string(),
        "fn fn0 main (local0, local1) {\n  ; locals: 2, vregs: 3, closure: false\n  bb0:\n      ret v0\n}\n"
    );
}

#[test]
fn closure_prints_its_captures() {
    let mut f = Function::new(FuncId(1), None);
    f.is_closure = true;
    f.captures = vec![
        CapturedVar { name: "x".to_string(), outer_local: LocalId(0) },
        CapturedVar { name: "y".to_string(), outer_local: LocalId(2) },
    ];
    assert_eq!(
        f.to_string(),
        "fn fn1 anon () {\n  ; locals: 0, vregs: 0, closure: true\n  ; captures: x@local0 y@local2\n}\n"
    );
}

#[test]
fn block_lines_split_at_line_feeds() {
    let mut f = Function::new(FuncId(0), Some("f".to_string()));
    let mut b = Block::new(BlockId(0));
    b.push(Inst::Copy { dst: VReg(0), src: Operand::FloatConst("1\r\n2".to_string()) });
    f.blocks.push(b);
    assert_eq!(
        f.to_string(),
        "fn fn0 f () {\n  ; locals: 0, vregs: 0, closure: false\n  bb0:\n      v0 = copy 1\n  2\n}\n"
    );
}

#[test]
fn module_prints_entry_then_functions() {
    let m = Module {
        functions: vec![Function::new(FuncId(0), Some("main".to_string()))],
        main_id: FuncId(0),
    };
    assert_eq!(
        m.to_string(),
        "; main: fn0\nfn fn0 main () {\n  ; locals: 0, vregs: 0, closure: false\n}\n"
    );
}
