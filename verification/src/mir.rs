//! The mid-level IR: functions made of basic blocks of instructions over
//! virtual registers, local slots and constants.
use vstd::prelude::*;

verus! {

/// Virtual register.
#[derive(Debug, Clone, Copy, PartialEq, Eq, Hash, Structural)]
pub struct VReg(pub u32);

/// Basic block identifier.
#[derive(Debug, Clone, Copy, PartialEq, Eq, Hash, Structural)]
pub struct BlockId(pub u32);

/// Local variable slot.
#[derive(Debug, Clone, Copy, PartialEq, Eq, Hash, Structural)]
pub struct LocalId(pub u32);

/// Unique function identifier.
#[derive(Debug, Clone, Copy, PartialEq, Eq, Hash, Structural)]
pub struct FuncId(pub u32);

/// A variable captured by a closure, with its slot in the enclosing function.
#[derive(Debug, Clone)]
pub struct CapturedVar {
    pub name: String,
    pub outer_local: LocalId,
}


/// An instruction operand: a virtual register or a constant. A float
/// constant is kept as the text of its literal.
#[derive(Debug, Clone, PartialEq, Eq)]
pub enum Operand {
    VReg(VReg),
    IntConst(i64),
    FloatConst(String),
    BoolConst(bool),
    StringConst(String),
}

/// Instructions.
#[derive(Debug, Clone, PartialEq, Eq)]
pub enum Inst {
    AddInt { dst: VReg, lhs: Operand, rhs: Operand },
    SubInt { dst: VReg, lhs: Operand, rhs: Operand },
    MulInt { dst: VReg, lhs: Operand, rhs: Operand },
    DivInt { dst: VReg, lhs: Operand, rhs: Operand },
    ModInt { dst: VReg, lhs: Operand, rhs: Operand },
    NegInt { dst: VReg, src: Operand },
    AddFloat { dst: VReg, lhs: Operand, rhs: Operand },
    SubFloat { dst: VReg, lhs: Operand, rhs: Operand },
    MulFloat { dst: VReg, lhs: Operand, rhs: Operand },
    DivFloat { dst: VReg, lhs: Operand, rhs: Operand },
    NegFloat { dst: VReg, src: Operand },
    EqInt { dst: VReg, lhs: Operand, rhs: Operand },
    NeInt { dst: VReg, lhs: Operand, rhs: Operand },
    LtInt { dst: VReg, lhs: Operand, rhs: Operand },
    LeInt { dst: VReg, lhs: Operand, rhs: Operand },
    GtInt { dst: VReg, lhs: Operand, rhs: Operand },
    GeInt { dst: VReg, lhs: Operand, rhs: Operand },
    LtFloat { dst: VReg, lhs: Operand, rhs: Operand },
    LeFloat { dst: VReg, lhs: Operand, rhs: Operand },
    GtFloat { dst: VReg, lhs: Operand, rhs: Operand },
    GeFloat { dst: VReg, lhs: Operand, rhs: Operand },
    Not { dst: VReg, src: Operand },
    /// Copies an operand into a register.
    Copy { dst: VReg, src: Operand },
    StoreLocal { local: LocalId, src: Operand },
    LoadLocal { dst: VReg, local: LocalId },
    Jump { target: BlockId },
    Branch { cond: Operand, then_bb: BlockId, else_bb: BlockId },
    Return { value: Option<Operand> },
    /// Direct call of a known function.
    Call { dst: Option<VReg>, func: FuncId, args: Vec<Operand> },
    /// Call through a function value.
    CallIndirect { dst: Option<VReg>, callee: Operand, args: Vec<Operand> },
    /// Creates a closure: a function with its captured values.
    MakeClosure { dst: VReg, func: FuncId, captures: Vec<Operand> },
    /// Loads a captured value inside a closure body.
    LoadCapture { dst: VReg, index: u32 },
    /// Stores into a captured value.
    StoreCapture { index: u32, src: Operand },
    /// Prints a value.
    Echo { src: Operand },
}

impl Inst {
    /// Jumps, branches and returns end a block.
    pub open spec fn spec_is_terminator(self) -> bool {
        self is Jump || self is Branch || self is Return
    }

    /// Whether the instruction ends a block.
    pub fn is_terminator(&self) -> (r: bool)
        ensures
            r == self.spec_is_terminator(),
    {
        match self {
            Inst::Jump { .. } | Inst::Branch { .. } | Inst::Return { .. } => true,
            _ => false,
        }
    }
}

/// A basic block: its identifier and its instructions in order.
#[derive(Debug, Clone)]
pub struct Block {
    pub id: BlockId,
    pub insts: Vec<Inst>,
}

impl Block {
    /// An empty block.
    pub fn new(id: BlockId) -> (r: Block)
        ensures
            r.id == id,
            r.insts@.len() == 0,
    {
        Block { id, insts: Vec::new() }
    }

    /// Appends an instruction.
    pub fn push(&mut self, inst: Inst)
        ensures
            final(self).id == old(self).id,
            final(self).insts@ == old(self).insts@.push(inst),
    {
        self.insts.push(inst);
    }

    /// Whether the block ends with a terminator.
    pub fn is_terminated(&self) -> (r: bool)
        ensures
            r == (self.insts@.len() > 0 && self.insts@.last().spec_is_terminator()),
    {
        if self.insts.len() == 0 {
            false
        } else {
            self.insts[self.insts.len() - 1].is_terminator()
        }
    }
}

/// A function: its blocks (the first is the entry), parameter slots and the
/// numbers of locals and registers it uses; a closure also lists its
/// captured variables.
#[derive(Debug, Clone)]
pub struct Function {
    pub id: FuncId,
    pub name: Option<String>,
    pub params: Vec<LocalId>,
    pub param_count: u32,
    pub blocks: Vec<Block>,
    pub local_count: u32,
    pub vreg_count: u32,
    pub captures: Vec<CapturedVar>,
    pub is_closure: bool,
}

impl Function {
    /// A function with no parameters, blocks, locals or registers.
    pub fn new(id: FuncId, name: Option<String>) -> (r: Function)
        ensures
            r.id == id,
            r.name == name,
            r.params@.len() == 0,
            r.param_count == 0,
            r.blocks@.len() == 0,
            r.local_count == 0,
            r.vreg_count == 0,
            r.captures@.len() == 0,
            !r.is_closure,
    {
        Function {
            id,
            name,
            params: Vec::new(),
            param_count: 0,
            blocks: Vec::new(),
            local_count: 0,
            vreg_count: 0,
            captures: Vec::new(),
            is_closure: false,
        }
    }

    /// The entry block: the first one.
    pub fn entry_block(&self) -> (r: Option<&Block>)
        ensures
            self.blocks@.len() == 0 ==> r is None,
            self.blocks@.len() > 0 ==> r == Some(&self.blocks@[0]),
    {
        if self.blocks.len() == 0 {
            None
        } else {
            Some(&self.blocks[0])
        }
    }
}

/// A module: its functions and the identifier of its entry function.
#[derive(Debug, Clone)]
pub struct Module {
    pub functions: Vec<Function>,
    pub main_id: FuncId,
}

impl Module {
    /// The entry function, stored at the position of its identifier.
    pub fn main(&self) -> (r: &Function)
        requires
            self.main_id.0 < self.functions@.len(),
        ensures
            *r == self.functions@[self.main_id.0 as int],
    {
        &self.functions[self.main_id.0 as usize]
    }

    /// The function stored at the position of `id`.
    pub fn get_func(&self, id: FuncId) -> (r: &Function)
        requires
            id.0 < self.functions@.len(),
        ensures
            *r == self.functions@[id.0 as int],
    {
        &self.functions[id.0 as usize]
    }
}

} // verus!
