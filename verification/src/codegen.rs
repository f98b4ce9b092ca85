//! Bytecode, compiled programs and the compiler from the syntax tree.
use vstd::prelude::*;
use crate::ast::{expr_view, exprs_view, stmt_view, stmts_view, Expression, SExpr, SStmt, Statement};
use crate::strings::str_eq;
use crate::lexer::{symbol, KindView};

verus! {

/// One instruction of the stack machine.
#[derive(Debug, Clone, PartialEq)]
pub enum Instruction {
    LoadConst(usize),
    LoadVar(String),
    StoreVar(String),
    Pop,
    Add,
    Sub,
    Mul,
    Div,
    Mod,
    Eq,
    Ne,
    Lt,
    Gt,
    Le,
    Ge,
    Jump(usize),
    JumpIfFalse(usize),
    Call(String, usize),
    Return,
    Print,
}

/// The mathematical form of an instruction: names are character sequences.
pub enum InstrView {
    LoadConst(usize),
    LoadVar(Seq<char>),
    StoreVar(Seq<char>),
    Pop,
    Add,
    Sub,
    Mul,
    Div,
    Mod,
    Eq,
    Ne,
    Lt,
    Gt,
    Le,
    Ge,
    Jump(usize),
    JumpIfFalse(usize),
    Call(Seq<char>, usize),
    Return,
    Print,
}

impl View for Instruction {
    type V = InstrView;

    open spec fn view(&self) -> InstrView {
        match self {
            Instruction::LoadConst(i) => InstrView::LoadConst(*i),
            Instruction::LoadVar(n) => InstrView::LoadVar(n@),
            Instruction::StoreVar(n) => InstrView::StoreVar(n@),
            Instruction::Pop => InstrView::Pop,
            Instruction::Add => InstrView::Add,
            Instruction::Sub => InstrView::Sub,
            Instruction::Mul => InstrView::Mul,
            Instruction::Div => InstrView::Div,
            Instruction::Mod => InstrView::Mod,
            Instruction::Eq => InstrView::Eq,
            Instruction::Ne => InstrView::Ne,
            Instruction::Lt => InstrView::Lt,
            Instruction::Gt => InstrView::Gt,
            Instruction::Le => InstrView::Le,
            Instruction::Ge => InstrView::Ge,
            Instruction::Jump(t) => InstrView::Jump(*t),
            Instruction::JumpIfFalse(t) => InstrView::JumpIfFalse(*t),
            Instruction::Call(n, k) => InstrView::Call(n@, *k),
            Instruction::Return => InstrView::Return,
            Instruction::Print => InstrView::Print,
        }
    }
}

impl Instruction {
    /// A copy of this instruction.
    pub fn duplicate(&self) -> (r: Instruction)
        ensures
            r@ == self@,
    {
        match self {
            Instruction::LoadConst(i) => Instruction::LoadConst(*i),
            Instruction::LoadVar(n) => Instruction::LoadVar(n.clone()),
            Instruction::StoreVar(n) => Instruction::StoreVar(n.clone()),
            Instruction::Pop => Instruction::Pop,
            Instruction::Add => Instruction::Add,
            Instruction::Sub => Instruction::Sub,
            Instruction::Mul => Instruction::Mul,
            Instruction::Div => Instruction::Div,
            Instruction::Mod => Instruction::Mod,
            Instruction::Eq => Instruction::Eq,
            Instruction::Ne => Instruction::Ne,
            Instruction::Lt => Instruction::Lt,
            Instruction::Gt => Instruction::Gt,
            Instruction::Le => Instruction::Le,
            Instruction::Ge => Instruction::Ge,
            Instruction::Jump(t) => Instruction::Jump(*t),
            Instruction::JumpIfFalse(t) => Instruction::JumpIfFalse(*t),
            Instruction::Call(n, k) => Instruction::Call(n.clone(), *k),
            Instruction::Return => Instruction::Return,
            Instruction::Print => Instruction::Print,
        }
    }
}

/// The view of a sequence of instructions.
pub open spec fn code_view(v: Seq<Instruction>) -> Seq<InstrView> {
    v.map_values(|i: Instruction| i@)
}

/// A copy of a sequence of instructions.
pub fn copy_code(v: &Vec<Instruction>) -> (r: Vec<Instruction>)
    ensures
        code_view(r@) == code_view(v@),
{
    let mut r: Vec<Instruction> = Vec::new();
    let mut i: usize = 0;
    while i < v.len()
        invariant
            i <= v@.len(),
            r@.len() == i,
            forall|j: int| 0 <= j < i ==> (#[trigger] r@[j])@ == v@[j]@,
        decreases v.len() - i,
    {
        r.push(v[i].duplicate());
        i += 1;
    }
    assert(code_view(r@) =~= code_view(v@));
    r
}

/// A constant of the constant pool.
#[derive(Debug, Clone, PartialEq)]
pub enum Constant {
    /// A number, by the bit pattern of its IEEE-754 binary64 value.
    Number(u64),
    String(String),
    Boolean(bool),
    Nil,
}

/// The mathematical form of a constant.
pub enum ConstView {
    Number(u64),
    Str(Seq<char>),
    Boolean(bool),
    Nil,
}

impl View for Constant {
    type V = ConstView;

    open spec fn view(&self) -> ConstView {
        match self {
            Constant::Number(n) => ConstView::Number(*n),
            Constant::String(s) => ConstView::Str(s@),
            Constant::Boolean(b) => ConstView::Boolean(*b),
            Constant::Nil => ConstView::Nil,
        }
    }
}

/// The view of a constant pool.
pub open spec fn consts_view(v: Seq<Constant>) -> Seq<ConstView> {
    v.map_values(|c: Constant| c@)
}

/// A compiled function.
#[derive(Debug, Clone, PartialEq)]
pub struct FunctionData {
    pub name: String,
    pub params: Vec<String>,
    pub instructions: Vec<Instruction>,
}

/// The mathematical form of a compiled function.
pub struct FunctionView {
    pub name: Seq<char>,
    pub params: Seq<Seq<char>>,
    pub code: Seq<InstrView>,
}

/// The view of a list of names.
pub open spec fn names_view(v: Seq<String>) -> Seq<Seq<char>> {
    v.map_values(|s: String| s@)
}

impl View for FunctionData {
    type V = FunctionView;

    open spec fn view(&self) -> FunctionView {
        FunctionView {
            name: self.name@,
            params: names_view(self.params@),
            code: code_view(self.instructions@),
        }
    }
}

/// The view of a list of compiled functions.
pub open spec fn funcs_view(v: Seq<FunctionData>) -> Seq<FunctionView> {
    v.map_values(|f: FunctionData| f@)
}

/// A copy of a list of names.
pub fn copy_names(v: &Vec<String>) -> (r: Vec<String>)
    ensures
        names_view(r@) == names_view(v@),
{
    let mut r: Vec<String> = Vec::new();
    let mut i: usize = 0;
    while i < v.len()
        invariant
            i <= v@.len(),
            r@.len() == i,
            forall|j: int| 0 <= j < i ==> (#[trigger] r@[j])@ == v@[j]@,
        decreases v.len() - i,
    {
        r.push(v[i].clone());
        i += 1;
    }
    assert(names_view(r@) =~= names_view(v@));
    r
}

impl FunctionData {
    /// A copy of this function.
    pub fn duplicate(&self) -> (r: FunctionData)
        ensures
            r@ == self@,
    {
        FunctionData {
            name: self.name.clone(),
            params: copy_names(&self.params),
            instructions: copy_code(&self.instructions),
        }
    }
}

/// A compiled program: constant pool, functions and the main code.
#[derive(Debug, Clone, PartialEq)]
pub struct CompiledProgram {
    pub constants: Vec<Constant>,
    pub functions: Vec<FunctionData>,
    pub instructions: Vec<Instruction>,
}

/// The mathematical form of a compiled program.
pub struct ProgramView {
    pub constants: Seq<ConstView>,
    pub functions: Seq<FunctionView>,
    pub code: Seq<InstrView>,
}

impl View for CompiledProgram {
    type V = ProgramView;

    open spec fn view(&self) -> ProgramView {
        ProgramView {
            constants: consts_view(self.constants@),
            functions: funcs_view(self.functions@),
            code: code_view(self.instructions@),
        }
    }
}

// ---------------------------------------------------------------------------
// Compilation
// ---------------------------------------------------------------------------

/// A compile error.
#[derive(Debug, Clone, PartialEq)]
pub enum CompileError {
    /// A binary operation whose operator the machine does not have.
    UnknownOperator(String),
    /// `print` called with other than one argument.
    PrintArity,
}

pub enum CompileErrorView {
    UnknownOperator(Seq<char>),
    PrintArity,
}

impl View for CompileError {
    type V = CompileErrorView;

    open spec fn view(&self) -> CompileErrorView {
        match self {
            CompileError::UnknownOperator(s) => CompileErrorView::UnknownOperator(s@),
            CompileError::PrintArity => CompileErrorView::PrintArity,
        }
    }
}

/// The state of a compilation: the constant pool, the compiled functions and
/// the code emitted so far.
pub struct CState {
    pub consts: Seq<ConstView>,
    pub funcs: Seq<FunctionView>,
    pub code: Seq<InstrView>,
}

pub type Compiled = Result<CState, CompileErrorView>;

/// Whether the binary64 value with these bits is a NaN: all exponent bits
/// set and a mantissa that is not zero.
pub open spec fn nan_bits(b: u64) -> bool {
    (b >> 52u64) & 0x7ffu64 == 0x7ffu64 && b & 0xf_ffff_ffff_ffffu64 != 0u64
}

/// Whether two constants are one constant of the pool: the same kind and the
/// same contents, numbers by their bits, except that every NaN is one
/// constant (each prints as `NaN`).
pub open spec fn same_const(a: ConstView, b: ConstView) -> bool {
    match (a, b) {
        (ConstView::Number(x), ConstView::Number(y)) => x == y || (nan_bits(x) && nan_bits(y)),
        _ => a == b,
    }
}

/// The index of the first constant at or after `i` that is one constant with
/// `c`, or -1.
pub open spec fn const_pos(cs: Seq<ConstView>, c: ConstView, i: int) -> int
    decreases cs.len() - i,
{
    if i < 0 || i >= cs.len() {
        -1
    } else if same_const(cs[i], c) {
        i
    } else {
        const_pos(cs, c, i + 1)
    }
}

/// The pool index of `c`, adding it to the pool if it is not there.
pub open spec fn add_const(st: CState, c: ConstView) -> (CState, int) {
    let k = const_pos(st.consts, c, 0);
    if k >= 0 {
        (st, k)
    } else {
        (CState { consts: st.consts.push(c), ..st }, st.consts.len() as int)
    }
}

pub open spec fn emit(st: CState, i: InstrView) -> CState {
    CState { code: st.code.push(i), ..st }
}

pub open spec fn load_const(st: CState, c: ConstView) -> CState {
    let (st1, k) = add_const(st, c);
    emit(st1, InstrView::LoadConst(k as usize))
}

pub open spec fn patch(st: CState, at: int, i: InstrView) -> CState {
    CState { code: st.code.update(at, i), ..st }
}

/// The instruction of a binary operator.
pub open spec fn binary_instr(op: Seq<char>) -> Option<InstrView> {
    if op == "+"@ {
        Some(InstrView::Add)
    } else if op == "-"@ {
        Some(InstrView::Sub)
    } else if op == "*"@ {
        Some(InstrView::Mul)
    } else if op == "/"@ {
        Some(InstrView::Div)
    } else if op == "%"@ {
        Some(InstrView::Mod)
    } else if op == "=="@ {
        Some(InstrView::Eq)
    } else if op == "!="@ {
        Some(InstrView::Ne)
    } else if op == "<"@ {
        Some(InstrView::Lt)
    } else if op == ">"@ {
        Some(InstrView::Gt)
    } else if op == "<="@ {
        Some(InstrView::Le)
    } else if op == ">="@ {
        Some(InstrView::Ge)
    } else {
        None
    }
}

/// Law: the instruction compiled for a binary operator is the one its source
/// token names. Wherever the lexer reads an operator token from
/// `s[i..i + n]`, that text compiles to the instruction of the same name:
/// `+` to `Add`, `<` to `Lt`, `>=` to `Ge`, and so on; `=`, `|>` and
/// punctuation compile to none.
pub proof fn law_operator_instruction(s: Seq<char>, i: int)
    requires
        0 <= i < s.len(),
    ensures
        symbol(s, i) matches Some((k, n)) ==> ({
            let op = binary_instr(s.subrange(i, i + n));
            &&& k == KindView::Plus ==> op == Some(InstrView::Add)
            &&& k == KindView::Minus ==> op == Some(InstrView::Sub)
            &&& k == KindView::Asterisk ==> op == Some(InstrView::Mul)
            &&& k == KindView::Slash ==> op == Some(InstrView::Div)
            &&& k == KindView::Percent ==> op == Some(InstrView::Mod)
            &&& k == KindView::Eq ==> op == Some(InstrView::Eq)
            &&& k == KindView::Ne ==> op == Some(InstrView::Ne)
            &&& k == KindView::Lt ==> op == Some(InstrView::Lt)
            &&& k == KindView::Gt ==> op == Some(InstrView::Gt)
            &&& k == KindView::Le ==> op == Some(InstrView::Le)
            &&& k == KindView::Ge ==> op == Some(InstrView::Ge)
            &&& (k == KindView::Assign || k == KindView::Pipeline || k == KindView::LParen || k
                == KindView::RParen || k == KindView::LBrace || k == KindView::RBrace || k
                == KindView::Comma || k == KindView::Semicolon) ==> op is None
        }),
{
    reveal_strlit("+");
    reveal_strlit("-");
    reveal_strlit("*");
    reveal_strlit("/");
    reveal_strlit("%");
    reveal_strlit("==");
    reveal_strlit("!=");
    reveal_strlit("<");
    reveal_strlit(">");
    reveal_strlit("<=");
    reveal_strlit(">=");
    if let Some((k, n)) = symbol(s, i) {
        let t = s.subrange(i, i + n);
        if n == 1 {
            assert(t =~= seq![s[i]]);
        } else {
            assert(t =~= seq![s[i], s[i + 1]]);
        }
        assert(t.len() == n);
        if n == 1 {
            assert(t[0] == s[i]);
        } else {
            assert(t[0] == s[i] && t[1] == s[i + 1]);
        }
        if k == KindView::Plus { assert(t =~= "+"@); }
        if k == KindView::Minus { assert(t =~= "-"@); }
        if k == KindView::Asterisk { assert(t =~= "*"@); }
        if k == KindView::Slash { assert(t =~= "/"@); }
        if k == KindView::Percent { assert(t =~= "%"@); }
        if k == KindView::Eq { assert(t =~= "=="@); }
        if k == KindView::Ne { assert(t =~= "!="@); }
        if k == KindView::Lt { assert(t =~= "<"@); }
        if k == KindView::Gt { assert(t =~= ">"@); }
        if k == KindView::Le { assert(t =~= "<="@); }
        if k == KindView::Ge { assert(t =~= ">="@); }
    }
}

/// Compiles an expression: its code leaves its value on the stack.
pub open spec fn compile_expr(st: CState, e: SExpr) -> Compiled
    decreases e, 0int,
{
    match e {
        SExpr::Number(n) => Ok(load_const(st, ConstView::Number(n))),
        SExpr::Str(s) => Ok(load_const(st, ConstView::Str(s))),
        SExpr::Boolean(b) => Ok(load_const(st, ConstView::Boolean(b))),
        SExpr::Identifier(n) => Ok(emit(st, InstrView::LoadVar(n))),
        SExpr::BinaryOp(op, l, r) => match compile_expr(st, *l) {
            Err(x) => Err(x),
            Ok(st1) => match compile_expr(st1, *r) {
                Err(x) => Err(x),
                Ok(st2) => match binary_instr(op) {
                    Some(i) => Ok(emit(st2, i)),
                    None => Err(CompileErrorView::UnknownOperator(op)),
                },
            },
        },
        SExpr::Block(ss, t) => match compile_stmts(st, ss, 0) {
            Err(x) => Err(x),
            Ok(st1) => match t {
                Some(x) => compile_expr(st1, *x),
                None => Ok(load_const(st1, ConstView::Nil)),
            },
        },
        SExpr::Call(name, args) => if name == "print"@ {
            if args.len() != 1 {
                Err(CompileErrorView::PrintArity)
            } else {
                match compile_expr(st, args[0]) {
                    Err(x) => Err(x),
                    Ok(st1) => Ok(load_const(emit(st1, InstrView::Print), ConstView::Nil)),
                }
            }
        } else {
            match compile_exprs(st, args, 0) {
                Err(x) => Err(x),
                Ok(st1) => Ok(emit(st1, InstrView::Call(name, args.len() as usize))),
            }
        },
        SExpr::If(c, t, f) => match compile_expr(st, *c) {
            Err(x) => Err(x),
            Ok(st1) => {
                let j = st1.code.len() as int;
                match compile_expr(emit(st1, InstrView::JumpIfFalse(0)), *t) {
                    Err(x) => Err(x),
                    Ok(st3) => {
                        let k = st3.code.len() as int;
                        let st4 = emit(st3, InstrView::Jump(0));
                        let st5 = patch(st4, j, InstrView::JumpIfFalse(st4.code.len() as usize));
                        match compile_expr(st5, *f) {
                            Err(x) => Err(x),
                            Ok(st6) => Ok(patch(st6, k, InstrView::Jump(st6.code.len() as usize))),
                        }
                    },
                }
            },
        },
    }
}

/// Compiles the expressions `es[i..]` in order.
pub open spec fn compile_exprs(st: CState, es: Seq<SExpr>, i: int) -> Compiled
    decreases es, es.len() - i,
{
    if i < 0 || i >= es.len() {
        Ok(st)
    } else {
        match compile_expr(st, es[i]) {
            Err(x) => Err(x),
            Ok(st1) => compile_exprs(st1, es, i + 1),
        }
    }
}

/// Compiles the statements `ss[i..]` in order.
pub open spec fn compile_stmts(st: CState, ss: Seq<SStmt>, i: int) -> Compiled
    decreases ss, ss.len() - i,
{
    if i < 0 || i >= ss.len() {
        Ok(st)
    } else {
        match compile_stmt(st, ss[i]) {
            Err(x) => Err(x),
            Ok(st1) => compile_stmts(st1, ss, i + 1),
        }
    }
}

/// Compiles a statement: its code leaves the stack as it found it. A
/// function declaration is compiled on its own, sharing the constant pool,
/// and added to the functions; the functions declared inside its body are
/// not kept.
pub open spec fn compile_stmt(st: CState, s: SStmt) -> Compiled
    decreases s, 0int,
{
    match s {
        SStmt::Let(name, e) => match compile_expr(st, e) {
            Err(x) => Err(x),
            Ok(st1) => Ok(emit(st1, InstrView::StoreVar(name))),
        },
        SStmt::FnDecl(name, params, body) => match compile_expr(
            CState { consts: st.consts, funcs: Seq::empty(), code: Seq::empty() },
            body,
        ) {
            Err(x) => Err(x),
            Ok(inner) => Ok(
                CState {
                    consts: inner.consts,
                    funcs: st.funcs.push(
                        FunctionView { name, params, code: inner.code.push(InstrView::Return) },
                    ),
                    code: st.code,
                },
            ),
        },
        SStmt::While(c, body) => {
            let start = st.code.len() as usize;
            match compile_expr(st, c) {
                Err(x) => Err(x),
                Ok(st1) => {
                    let j = st1.code.len() as int;
                    match compile_expr(emit(st1, InstrView::JumpIfFalse(0)), body) {
                        Err(x) => Err(x),
                        Ok(st3) => {
                            let st4 = emit(emit(st3, InstrView::Pop), InstrView::Jump(start));
                            Ok(patch(st4, j, InstrView::JumpIfFalse(st4.code.len() as usize)))
                        },
                    }
                },
            }
        },
        SStmt::Expr(e) => match compile_expr(st, e) {
            Err(x) => Err(x),
            Ok(st1) => Ok(emit(st1, InstrView::Pop)),
        },
    }
}

/// The compiler: the constant pool, the compiled functions and the code
/// emitted so far.
pub struct Codegen {
    constants: Vec<Constant>,
    functions: Vec<FunctionData>,
    instructions: Vec<Instruction>,
}

impl View for Codegen {
    type V = CState;

    closed spec fn view(&self) -> CState {
        CState {
            consts: consts_view(self.constants@),
            funcs: funcs_view(self.functions@),
            code: code_view(self.instructions@),
        }
    }
}

/// Whether the binary64 value with these bits is a NaN.
fn is_nan_bits(b: u64) -> (r: bool)
    ensures
        r == nan_bits(b),
{
    (b >> 52u64) & 0x7ffu64 == 0x7ffu64 && b & 0xf_ffff_ffff_ffffu64 != 0u64
}

/// Whether two constants are one constant of the pool.
fn same_constant(a: &Constant, b: &Constant) -> (r: bool)
    ensures
        r == same_const(a@, b@),
{
    match (a, b) {
        (Constant::Number(x), Constant::Number(y)) => *x == *y || (is_nan_bits(*x) && is_nan_bits(*y)),
        (Constant::String(x), Constant::String(y)) => *x == *y,
        (Constant::Boolean(x), Constant::Boolean(y)) => *x == *y,
        (Constant::Nil, Constant::Nil) => true,
        _ => false,
    }
}

impl Codegen {
    /// A compiler with an empty pool, no functions and no code.
    pub fn new() -> (g: Self)
        ensures
            g@ == (CState { consts: Seq::empty(), funcs: Seq::empty(), code: Seq::empty() }),
    {
        let g = Codegen { constants: Vec::new(), functions: Vec::new(), instructions: Vec::new() };
        assert(g@.consts =~= Seq::<ConstView>::empty());
        assert(g@.funcs =~= Seq::<FunctionView>::empty());
        assert(g@.code =~= Seq::<InstrView>::empty());
        g
    }

    /// The pool index of `constant`, which is added if it is not there yet.
    fn add_constant(&mut self, constant: Constant) -> (k: usize)
        ensures
            (final(self)@, k as int) == add_const(old(self)@, constant@),
    {
        let ghost cs = self@.consts;
        let mut i: usize = 0;
        while i < self.constants.len()
            invariant
                i <= self.constants@.len(),
                cs == consts_view(self.constants@),
                self == old(self),
                const_pos(cs, constant@, 0) == const_pos(cs, constant@, i as int),
            decreases self.constants.len() - i,
        {
            if same_constant(&self.constants[i], &constant) {
                return i;
            }
            i += 1;
        }
        let k = self.constants.len();
        let ghost cv = constant@;
        self.constants.push(constant);
        assert(consts_view(self.constants@) =~= cs.push(cv));
        k
    }

    fn emit(&mut self, i: Instruction)
        ensures
            final(self)@ == emit(old(self)@, i@),
            final(self)@.code.len() == old(self)@.code.len() + 1,
    {
        let ghost iv = i@;
        self.instructions.push(i);
        assert(code_view(self.instructions@) =~= code_view(old(self).instructions@).push(iv));
    }

    fn load_constant(&mut self, constant: Constant)
        ensures
            final(self)@ == load_const(old(self)@, constant@),
            final(self)@.code.len() == old(self)@.code.len() + 1,
    {
        let k = self.add_constant(constant);
        self.emit(Instruction::LoadConst(k));
    }

    /// Replaces the instruction at `at`.
    fn patch(&mut self, at: usize, i: Instruction)
        requires
            at < old(self)@.code.len(),
        ensures
            final(self)@ == patch(old(self)@, at as int, i@),
            final(self)@.code.len() == old(self)@.code.len(),
    {
        let ghost iv = i@;
        self.instructions.set(at, i);
        assert(code_view(self.instructions@) =~= code_view(old(self).instructions@).update(
            at as int,
            iv,
        ));
    }

    /// Compiles the program `statements`.
    pub fn compile_program(self, statements: &[Statement]) -> (r: Result<CompiledProgram, CompileError>)
        ensures
            match compile_stmts(self@, statements@.map_values(|s: Statement| stmt_view(s)), 0) {
                Ok(st) => r matches Ok(p) && p@ == (ProgramView {
                    constants: st.consts,
                    functions: st.funcs,
                    code: st.code,
                }),
                Err(e) => r matches Err(x) && x@ == e,
            },
    {
        let mut g = self;
        let ghost ss = statements@.map_values(|s: Statement| stmt_view(s));
        let mut i: usize = 0;
        while i < statements.len()
            invariant
                i <= statements@.len(),
                ss == statements@.map_values(|s: Statement| stmt_view(s)),
                compile_stmts(self@, ss, 0) == compile_stmts(g@, ss, i as int),
            decreases statements.len() - i,
        {
            match g.compile_statement(&statements[i]) {
                Ok(()) => {},
                Err(x) => return Err(x),
            }
            i += 1;
        }
        Ok(CompiledProgram { constants: g.constants, functions: g.functions, instructions: g.instructions })
    }

    fn compile_statement(&mut self, stmt: &Statement) -> (r: Result<(), CompileError>)
        ensures
            match compile_stmt(old(self)@, stmt_view(*stmt)) {
                Ok(st) => r is Ok && final(self)@ == st,
                Err(e) => r matches Err(x) && x@ == e,
            },
            old(self)@.code.len() <= final(self)@.code.len(),
        decreases stmt, 0int,
    {
        match stmt {
            Statement::Let(name, expr) => {
                match self.compile_expression(expr) {
                    Ok(()) => {},
                    Err(x) => return Err(x),
                }
                self.emit(Instruction::StoreVar(name.clone()));
                Ok(())
            },
            Statement::FnDecl(name, params, body) => {
                let mut inner = Codegen::new();
                core::mem::swap(&mut inner.constants, &mut self.constants);
                proof {
                    assert(inner@ == (CState { consts: old(self)@.consts, funcs: Seq::empty(), code: Seq::empty() }));
                }
                match inner.compile_expression(body) {
                    Ok(()) => {},
                    Err(x) => return Err(x),
                }
                inner.emit(Instruction::Return);
                let Codegen { constants, functions: _, instructions } = inner;
                self.constants = constants;
                let f = FunctionData {
                    name: name.clone(),
                    params: copy_names(params),
                    instructions,
                };
                let ghost fv = f@;
                self.functions.push(f);
                proof {
                    assert(funcs_view(self.functions@) =~= funcs_view(old(self).functions@).push(fv));
                    assert(names_view(params@) == params@.map_values(|p: String| p@));
                }
                Ok(())
            },
            Statement::While(cond, body) => {
                let start = self.instructions.len();
                match self.compile_expression(cond) {
                    Ok(()) => {},
                    Err(x) => return Err(x),
                }
                let j = self.instructions.len();
                self.emit(Instruction::JumpIfFalse(0));
                match self.compile_expression(body) {
                    Ok(()) => {},
                    Err(x) => return Err(x),
                }
                self.emit(Instruction::Pop);
                self.emit(Instruction::Jump(start));
                let end = self.instructions.len();
                self.patch(j, Instruction::JumpIfFalse(end));
                Ok(())
            },
            Statement::Expr(expr) => {
                match self.compile_expression(expr) {
                    Ok(()) => {},
                    Err(x) => return Err(x),
                }
                self.emit(Instruction::Pop);
                Ok(())
            },
        }
    }

    fn compile_expression(&mut self, expr: &Expression) -> (r: Result<(), CompileError>)
        ensures
            match compile_expr(old(self)@, expr_view(*expr)) {
                Ok(st) => r is Ok && final(self)@ == st,
                Err(e) => r matches Err(x) && x@ == e,
            },
            old(self)@.code.len() <= final(self)@.code.len(),
        decreases expr, 0int,
    {
        match expr {
            Expression::Number(v) => {
                self.load_constant(Constant::Number(*v));
                Ok(())
            },
            Expression::String(v) => {
                self.load_constant(Constant::String(v.clone()));
                Ok(())
            },
            Expression::Boolean(v) => {
                self.load_constant(Constant::Boolean(*v));
                Ok(())
            },
            Expression::Identifier(name) => {
                self.emit(Instruction::LoadVar(name.clone()));
                Ok(())
            },
            Expression::BinaryOp(op, left, right) => {
                match self.compile_expression(left) {
                    Ok(()) => {},
                    Err(x) => return Err(x),
                }
                match self.compile_expression(right) {
                    Ok(()) => {},
                    Err(x) => return Err(x),
                }
                let o = op.as_str();
                let inst = if str_eq(o, "+") {
                    Instruction::Add
                } else if str_eq(o, "-") {
                    Instruction::Sub
                } else if str_eq(o, "*") {
                    Instruction::Mul
                } else if str_eq(o, "/") {
                    Instruction::Div
                } else if str_eq(o, "%") {
                    Instruction::Mod
                } else if str_eq(o, "==") {
                    Instruction::Eq
                } else if str_eq(o, "!=") {
                    Instruction::Ne
                } else if str_eq(o, "<") {
                    Instruction::Lt
                } else if str_eq(o, ">") {
                    Instruction::Gt
                } else if str_eq(o, "<=") {
                    Instruction::Le
                } else if str_eq(o, ">=") {
                    Instruction::Ge
                } else {
                    return Err(CompileError::UnknownOperator(op.clone()));
                };
                self.emit(inst);
                Ok(())
            },
            Expression::Block(statements, trailing) => {
                let ghost ss = stmts_view(statements@);
                proof {
                    crate::ast::lemma_block_view(*statements, *trailing);
                }
                let ghost st0 = self@;
                let mut i: usize = 0;
                while i < statements.len()
                    invariant
                        i <= statements@.len(),
                        ss == stmts_view(statements@),
                        compile_stmts(st0, ss, 0) == compile_stmts(self@, ss, i as int),
                        st0.code.len() <= self@.code.len(),
                        st0 == old(self)@,
                        match *expr {
                            Expression::Block(s2, _) => s2 == *statements,
                            _ => false,
                        },
                    decreases statements.len() - i,
                {
                    proof {
                        assert(decreases_to!(*expr => *statements));
                        assert(decreases_to!(*statements => statements@));
                        assert(decreases_to!(statements@ => statements@[i as int]));
                    }
                    match self.compile_statement(&statements[i]) {
                        Ok(()) => {},
                        Err(x) => {
                            proof {
                                crate::ast::lemma_block_view(*statements, *trailing);
                            }
                            return Err(x);
                        },
                    }
                    i += 1;
                }
                match trailing {
                    Some(t) => self.compile_expression(t),
                    None => {
                        self.load_constant(Constant::Nil);
                        Ok(())
                    },
                }
            },
            Expression::Call(name, args) => {
                let ghost es = exprs_view(args@);
                proof {
                    crate::ast::lemma_call_view(*name, *args);
                }
                if str_eq(name.as_str(), "print") {
                    if args.len() != 1 {
                        return Err(CompileError::PrintArity);
                    }
                    proof {
                        assert(decreases_to!(*expr => *args));
                        assert(decreases_to!(*args => args@));
                        assert(decreases_to!(args@ => args@[0]));
                    }
                    match self.compile_expression(&args[0]) {
                        Ok(()) => {},
                        Err(x) => return Err(x),
                    }
                    self.emit(Instruction::Print);
                    self.load_constant(Constant::Nil);
                    Ok(())
                } else {
                    let ghost st0 = self@;
                    let mut i: usize = 0;
                    while i < args.len()
                        invariant
                            i <= args@.len(),
                            es == exprs_view(args@),
                            compile_exprs(st0, es, 0) == compile_exprs(self@, es, i as int),
                            st0.code.len() <= self@.code.len(),
                            !(name@ == "print"@),
                            st0 == old(self)@,
                            match *expr {
                                Expression::Call(n2, a2) => a2 == *args && n2 == *name,
                                _ => false,
                            },
                        decreases args.len() - i,
                    {
                        proof {
                            assert(decreases_to!(*expr => *args));
                            assert(decreases_to!(*args => args@));
                            assert(decreases_to!(args@ => args@[i as int]));
                        }
                        match self.compile_expression(&args[i]) {
                            Ok(()) => {},
                            Err(x) => {
                                proof {
                                    crate::ast::lemma_call_view(*name, *args);
                                }
                                return Err(x);
                            },
                        }
                        i += 1;
                    }
                    self.emit(Instruction::Call(name.clone(), args.len()));
                    Ok(())
                }
            },
            Expression::If(cond, then_branch, else_branch) => {
                match self.compile_expression(cond) {
                    Ok(()) => {},
                    Err(x) => return Err(x),
                }
                let jump_false = self.instructions.len();
                self.emit(Instruction::JumpIfFalse(0));
                match self.compile_expression(then_branch) {
                    Ok(()) => {},
                    Err(x) => return Err(x),
                }
                let jump_end = self.instructions.len();
                self.emit(Instruction::Jump(0));
                let else_pc = self.instructions.len();
                self.patch(jump_false, Instruction::JumpIfFalse(else_pc));
                match self.compile_expression(else_branch) {
                    Ok(()) => {},
                    Err(x) => return Err(x),
                }
                let end = self.instructions.len();
                self.patch(jump_end, Instruction::Jump(end));
                Ok(())
            },
        }
    }
}

/// The compiled form of a whole program.
pub open spec fn compile_spec(ss: Seq<SStmt>) -> Result<ProgramView, CompileErrorView> {
    match compile_stmts(CState { consts: Seq::empty(), funcs: Seq::empty(), code: Seq::empty() }, ss, 0) {
        Err(x) => Err(x),
        Ok(st) => Ok(ProgramView { constants: st.consts, functions: st.funcs, code: st.code }),
    }
}


// ---------------------------------------------------------------------------
// Well-formed bytecode
// ---------------------------------------------------------------------------

/// An instruction fits a pool of `n` constants and a code of length `len`:
/// the constant it loads exists, and its jump lands inside the code or just
/// past its end.
pub open spec fn instr_ok(i: InstrView, n: int, len: int) -> bool {
    match i {
        InstrView::LoadConst(k) => k < n,
        InstrView::Jump(t) => t <= len,
        InstrView::JumpIfFalse(t) => t <= len,
        _ => true,
    }
}

/// Every instruction of `code` fits a pool of `n` constants and the code.
pub open spec fn code_ok(code: Seq<InstrView>, n: int) -> bool {
    forall|k: int| 0 <= k < code.len() ==> instr_ok(#[trigger] code[k], n, code.len() as int)
}

/// No constant occurs twice in the pool (all NaNs being one constant).
pub open spec fn distinct_consts(cs: Seq<ConstView>) -> bool {
    forall|i: int, j: int| 0 <= i < j < cs.len() ==> !same_const(cs[i], cs[j])
}

/// The code of a compiled function fits the pool and ends with `Return`.
pub open spec fn function_ok(f: FunctionView, n: int) -> bool {
    &&& code_ok(f.code, n)
    &&& f.code.len() > 0
    &&& f.code.last() is Return
}

/// A compilation state whose pool has no duplicates and whose code and
/// functions fit the pool.
pub open spec fn state_ok(st: CState) -> bool {
    &&& distinct_consts(st.consts)
    &&& code_ok(st.code, st.consts.len() as int)
    &&& forall|f: int|
        0 <= f < st.funcs.len() ==> function_ok(#[trigger] st.funcs[f], st.consts.len() as int)
}

/// A well-formed compiled program.
pub open spec fn program_ok(p: ProgramView) -> bool {
    state_ok(CState { consts: p.constants, funcs: p.functions, code: p.code })
}

/// `st2` is well formed, and its pool and code are no shorter than those of `st`.
pub open spec fn grows_ok(st: CState, st2: CState) -> bool {
    &&& state_ok(st2)
    &&& st.consts.len() <= st2.consts.len()
    &&& st.code.len() <= st2.code.len()
}

proof fn lemma_const_pos(cs: Seq<ConstView>, c: ConstView, i: int)
    requires
        0 <= i,
    ensures
        const_pos(cs, c, i) == -1 || (i <= const_pos(cs, c, i) < cs.len() && same_const(
            cs[const_pos(cs, c, i)],
            c,
        )),
        const_pos(cs, c, i) == -1 ==> forall|j: int| i <= j < cs.len() ==> !same_const(cs[j], c),
    decreases cs.len() - i,
{
    if i < cs.len() && cs[i] != c {
        lemma_const_pos(cs, c, i + 1);
    }
}

proof fn lemma_code_ok_more(code: Seq<InstrView>, n: int, n2: int)
    requires
        code_ok(code, n),
        n <= n2,
    ensures
        code_ok(code, n2),
{
    assert forall|k: int| 0 <= k < code.len() implies instr_ok(
        #[trigger] code[k],
        n2,
        code.len() as int,
    ) by {
        assert(instr_ok(code[k], n, code.len() as int));
    }
}

/// A well-formed state stays well formed when its pool grows to `n2` entries
/// that keep no duplicates.
proof fn lemma_state_more(st: CState, consts: Seq<ConstView>)
    requires
        state_ok(st),
        distinct_consts(consts),
        st.consts.len() <= consts.len(),
    ensures
        state_ok(CState { consts, ..st }),
{
    let n = st.consts.len() as int;
    let n2 = consts.len() as int;
    lemma_code_ok_more(st.code, n, n2);
    assert forall|f: int| 0 <= f < st.funcs.len() implies function_ok(
        #[trigger] st.funcs[f],
        n2,
    ) by {
        assert(function_ok(st.funcs[f], n));
        lemma_code_ok_more(st.funcs[f].code, n, n2);
    }
}

proof fn lemma_add_const_ok(st: CState, c: ConstView)
    requires
        state_ok(st),
    ensures
        state_ok(add_const(st, c).0),
        add_const(st, c).0.code == st.code,
        add_const(st, c).0.funcs == st.funcs,
        st.consts.len() <= add_const(st, c).0.consts.len(),
        0 <= add_const(st, c).1 < add_const(st, c).0.consts.len(),
{
    lemma_const_pos(st.consts, c, 0);
    if const_pos(st.consts, c, 0) < 0 {
        let cs = st.consts.push(c);
        assert forall|i: int, j: int| 0 <= i < j < cs.len() implies !same_const(cs[i], cs[j]) by {
            if j == st.consts.len() {
                assert(!same_const(st.consts[i], c));
            } else {
                assert(!same_const(st.consts[i], st.consts[j]));
            }
        }
        lemma_state_more(st, cs);
    }
}

proof fn lemma_emit_ok(st: CState, i: InstrView)
    requires
        state_ok(st),
        instr_ok(i, st.consts.len() as int, st.code.len() + 1int),
    ensures
        grows_ok(st, emit(st, i)),
        emit(st, i).code.len() == st.code.len() + 1,
{
    let n = st.consts.len() as int;
    let c2 = st.code.push(i);
    assert forall|k: int| 0 <= k < c2.len() implies instr_ok(#[trigger] c2[k], n, c2.len() as int) by {
        if k < st.code.len() {
            assert(instr_ok(st.code[k], n, st.code.len() as int));
        }
    }
}

proof fn lemma_load_const_ok(st: CState, c: ConstView)
    requires
        state_ok(st),
    ensures
        grows_ok(st, load_const(st, c)),
        load_const(st, c).code.len() == st.code.len() + 1,
{
    lemma_add_const_ok(st, c);
    let (st1, k) = add_const(st, c);
    lemma_emit_ok(st1, InstrView::LoadConst(k as usize));
}

proof fn lemma_patch_ok(st: CState, at: int, i: InstrView)
    requires
        state_ok(st),
        0 <= at < st.code.len(),
        instr_ok(i, st.consts.len() as int, st.code.len() as int),
    ensures
        grows_ok(st, patch(st, at, i)),
        patch(st, at, i).code.len() == st.code.len(),
{
    let n = st.consts.len() as int;
    let c2 = st.code.update(at, i);
    assert forall|k: int| 0 <= k < c2.len() implies instr_ok(#[trigger] c2[k], n, c2.len() as int) by {
        if k != at {
            assert(instr_ok(st.code[k], n, st.code.len() as int));
        }
    }
}

/// Compiling an expression keeps the state well formed.
pub proof fn lemma_compile_expr_ok(st: CState, e: SExpr)
    requires
        state_ok(st),
    ensures
        compile_expr(st, e) matches Ok(st2) ==> grows_ok(st, st2),
    decreases e, 0int,
{
    match e {
        SExpr::Number(n) => lemma_load_const_ok(st, ConstView::Number(n)),
        SExpr::Str(s) => lemma_load_const_ok(st, ConstView::Str(s)),
        SExpr::Boolean(b) => lemma_load_const_ok(st, ConstView::Boolean(b)),
        SExpr::Identifier(n) => lemma_emit_ok(st, InstrView::LoadVar(n)),
        SExpr::BinaryOp(op, l, r) => {
            lemma_compile_expr_ok(st, *l);
            match compile_expr(st, *l) {
                Ok(st1) => {
                    lemma_compile_expr_ok(st1, *r);
                    match compile_expr(st1, *r) {
                        Ok(st2) => match binary_instr(op) {
                            Some(i) => lemma_emit_ok(st2, i),
                            None => {},
                        },
                        Err(_) => {},
                    }
                },
                Err(_) => {},
            }
        },
        SExpr::Block(ss, t) => {
            lemma_compile_stmts_ok(st, ss, 0);
            match compile_stmts(st, ss, 0) {
                Ok(st1) => match t {
                    Some(x) => lemma_compile_expr_ok(st1, *x),
                    None => lemma_load_const_ok(st1, ConstView::Nil),
                },
                Err(_) => {},
            }
        },
        SExpr::Call(name, args) => {
            if name == "print"@ {
                if args.len() == 1 {
                    lemma_compile_expr_ok(st, args[0]);
                    match compile_expr(st, args[0]) {
                        Ok(st1) => {
                            lemma_emit_ok(st1, InstrView::Print);
                            lemma_load_const_ok(emit(st1, InstrView::Print), ConstView::Nil);
                        },
                        Err(_) => {},
                    }
                }
            } else {
                lemma_compile_exprs_ok(st, args, 0);
                match compile_exprs(st, args, 0) {
                    Ok(st1) => lemma_emit_ok(st1, InstrView::Call(name, args.len() as usize)),
                    Err(_) => {},
                }
            }
        },
        SExpr::If(c, t, f) => {
            lemma_compile_expr_ok(st, *c);
            match compile_expr(st, *c) {
                Ok(st1) => {
                    let j = st1.code.len() as int;
                    let st2 = emit(st1, InstrView::JumpIfFalse(0));
                    lemma_emit_ok(st1, InstrView::JumpIfFalse(0));
                    lemma_compile_expr_ok(st2, *t);
                    match compile_expr(st2, *t) {
                        Ok(st3) => {
                            let k = st3.code.len() as int;
                            let st4 = emit(st3, InstrView::Jump(0));
                            lemma_emit_ok(st3, InstrView::Jump(0));
                            let st5 = patch(st4, j, InstrView::JumpIfFalse(st4.code.len() as usize));
                            lemma_patch_ok(st4, j, InstrView::JumpIfFalse(st4.code.len() as usize));
                            lemma_compile_expr_ok(st5, *f);
                            match compile_expr(st5, *f) {
                                Ok(st6) => lemma_patch_ok(
                                    st6,
                                    k,
                                    InstrView::Jump(st6.code.len() as usize),
                                ),
                                Err(_) => {},
                            }
                        },
                        Err(_) => {},
                    }
                },
                Err(_) => {},
            }
        },
    }
}

/// Compiling a list of expressions keeps the state well formed.
pub proof fn lemma_compile_exprs_ok(st: CState, es: Seq<SExpr>, i: int)
    requires
        state_ok(st),
    ensures
        compile_exprs(st, es, i) matches Ok(st2) ==> grows_ok(st, st2),
    decreases es, es.len() - i,
{
    if 0 <= i < es.len() {
        lemma_compile_expr_ok(st, es[i]);
        match compile_expr(st, es[i]) {
            Ok(st1) => lemma_compile_exprs_ok(st1, es, i + 1),
            Err(_) => {},
        }
    }
}

/// Compiling a list of statements keeps the state well formed.
pub proof fn lemma_compile_stmts_ok(st: CState, ss: Seq<SStmt>, i: int)
    requires
        state_ok(st),
    ensures
        compile_stmts(st, ss, i) matches Ok(st2) ==> grows_ok(st, st2),
    decreases ss, ss.len() - i,
{
    if 0 <= i < ss.len() {
        lemma_compile_stmt_ok(st, ss[i]);
        match compile_stmt(st, ss[i]) {
            Ok(st1) => lemma_compile_stmts_ok(st1, ss, i + 1),
            Err(_) => {},
        }
    }
}

/// Compiling a statement keeps the state well formed.
pub proof fn lemma_compile_stmt_ok(st: CState, s: SStmt)
    requires
        state_ok(st),
    ensures
        compile_stmt(st, s) matches Ok(st2) ==> grows_ok(st, st2),
    decreases s, 0int,
{
    match s {
        SStmt::Let(name, e) => {
            lemma_compile_expr_ok(st, e);
            match compile_expr(st, e) {
                Ok(st1) => lemma_emit_ok(st1, InstrView::StoreVar(name)),
                Err(_) => {},
            }
        },
        SStmt::FnDecl(name, params, body) => {
            let inner0 = CState { consts: st.consts, funcs: Seq::empty(), code: Seq::empty() };
            lemma_compile_expr_ok(inner0, body);
            match compile_expr(inner0, body) {
                Ok(inner) => {
                    lemma_emit_ok(inner, InstrView::Return);
                    let fv = FunctionView { name, params, code: inner.code.push(InstrView::Return) };
                    let funcs = st.funcs.push(fv);
                    let n2 = inner.consts.len() as int;
                    lemma_state_more(st, inner.consts);
                    assert forall|f: int| 0 <= f < funcs.len() implies function_ok(
                        #[trigger] funcs[f],
                        n2,
                    ) by {
                        if f < st.funcs.len() {
                            assert(funcs[f] == CState { consts: inner.consts, ..st }.funcs[f]);
                        }
                    }
                },
                Err(_) => {},
            }
        },
        SStmt::While(c, body) => {
            let start = st.code.len() as usize;
            lemma_compile_expr_ok(st, c);
            match compile_expr(st, c) {
                Ok(st1) => {
                    let j = st1.code.len() as int;
                    let st2 = emit(st1, InstrView::JumpIfFalse(0));
                    lemma_emit_ok(st1, InstrView::JumpIfFalse(0));
                    lemma_compile_expr_ok(st2, body);
                    match compile_expr(st2, body) {
                        Ok(st3) => {
                            lemma_emit_ok(st3, InstrView::Pop);
                            lemma_emit_ok(emit(st3, InstrView::Pop), InstrView::Jump(start));
                            let st4 = emit(emit(st3, InstrView::Pop), InstrView::Jump(start));
                            lemma_patch_ok(st4, j, InstrView::JumpIfFalse(st4.code.len() as usize));
                        },
                        Err(_) => {},
                    }
                },
                Err(_) => {},
            }
        },
        SStmt::Expr(e) => {
            lemma_compile_expr_ok(st, e);
            match compile_expr(st, e) {
                Ok(st1) => lemma_emit_ok(st1, InstrView::Pop),
                Err(_) => {},
            }
        },
    }
}

/// Law: a compiled program is well formed. No constant occurs twice in its
/// pool, every `LoadConst` names a constant of the pool, every jump lands
/// inside its code or just past the end, and every function ends with
/// `Return`.
pub proof fn law_compiled_program_well_formed(ss: Seq<SStmt>)
    ensures
        compile_spec(ss) matches Ok(p) ==> program_ok(p),
{
    let st0 = CState { consts: Seq::empty(), funcs: Seq::empty(), code: Seq::empty() };
    lemma_compile_stmts_ok(st0, ss, 0);
}

proof fn lemma_const_pos_push(cs: Seq<ConstView>, c: ConstView, i: int)
    requires
        0 <= i <= cs.len(),
        forall|j: int| i <= j < cs.len() ==> !same_const(cs[j], c),
    ensures
        const_pos(cs.push(c), c, i) == cs.len(),
    decreases cs.len() - i,
{
    let cs2 = cs.push(c);
    if i < cs.len() {
        assert(cs2[i] == cs[i]);
        lemma_const_pos_push(cs, c, i + 1);
    } else {
        assert(cs2[i] == c);
    }
}

/// Law: a constant is stored once and found again. Adding it a second time
/// gives the index that the first time gave and leaves the pool unchanged.
pub proof fn law_add_const_again(st: CState, c: ConstView)
    ensures
        add_const(add_const(st, c).0, c) == add_const(st, c),
{
    lemma_const_pos(st.consts, c, 0);
    if const_pos(st.consts, c, 0) < 0 {
        lemma_const_pos_push(st.consts, c, 0);
    }
}

/// Law: a constant is shared only with itself. The pool index that adding
/// `c` gives holds `c`, or, for a NaN, another NaN: two different values
/// (true and false, two strings, two numbers that are not both NaN) never
/// share an entry.
pub proof fn law_add_const_holds_it(st: CState, c: ConstView)
    ensures
        0 <= add_const(st, c).1 < add_const(st, c).0.consts.len(),
        ({
            let d = add_const(st, c).0.consts[add_const(st, c).1];
            ||| d == c
            ||| (c matches ConstView::Number(x) && d matches ConstView::Number(y) && nan_bits(x)
                && nan_bits(y))
        }),
        add_const(st, c).0.consts.subrange(0, st.consts.len() as int) == st.consts,
{
    lemma_const_pos(st.consts, c, 0);
    let (st1, k) = add_const(st, c);
    assert(st1.consts.subrange(0, st.consts.len() as int) =~= st.consts);
}

/// Law: the code of a literal loads a constant of the pool whose value is
/// the literal (every NaN standing for each other).
pub proof fn law_literal_loads_itself(st: CState, e: SExpr)
    requires
        e is Number || e is Str || e is Boolean,
        st.consts.len() < usize::MAX,
    ensures
        compile_expr(st, e) matches Ok(st2) && st2.code.last() matches InstrView::LoadConst(k) && {
            let d = st2.consts[k as int];
            ||| (e matches SExpr::Number(x) && (d == ConstView::Number(x) || (d matches ConstView::Number(
                y,
            ) && nan_bits(x) && nan_bits(y))))
            ||| (e matches SExpr::Str(t) && d == ConstView::Str(t))
            ||| (e matches SExpr::Boolean(b) && d == ConstView::Boolean(b))
        },
{
    let c = match e {
        SExpr::Number(x) => ConstView::Number(x),
        SExpr::Str(t) => ConstView::Str(t),
        _ => ConstView::Boolean(e->Boolean_0),
    };
    law_add_const_holds_it(st, c);
}

/// Law: an `if` runs its condition, and jumps past the `then` branch when
/// it is false: the false-jump right after the condition's code lands just
/// past the jump that ends the `then` branch, and that jump lands at the end
/// of the whole `if` (for code that a `Vec` can hold).
pub proof fn law_if_jumps(st: CState, c: SExpr, t: SExpr, f: SExpr)
    ensures
        compile_expr(st, SExpr::If(Box::new(c), Box::new(t), Box::new(f))) matches Ok(st7) ==> (
        st7.code.len() <= usize::MAX ==> (compile_expr(st, c) matches Ok(st1) && compile_expr(
            emit(st1, InstrView::JumpIfFalse(0)),
            t,
        ) matches Ok(st3) && {
            let j = st1.code.len() as int;
            let k = st3.code.len() as int;
            &&& j < k < st7.code.len()
            &&& st7.code[j] == InstrView::JumpIfFalse((k + 1) as usize)
            &&& st7.code[k] == InstrView::Jump(st7.code.len() as usize)
        })),
{
    if let Ok(st1) = compile_expr(st, c) {
        let st2 = emit(st1, InstrView::JumpIfFalse(0));
        lemma_compile_expr_len(st2, t);
        if let Ok(st3) = compile_expr(st2, t) {
            let st4 = emit(st3, InstrView::Jump(0));
            let st5 = patch(st4, st1.code.len() as int, InstrView::JumpIfFalse(st4.code.len() as usize));
            lemma_compile_expr_len(st5, f);
            if let Ok(st6) = compile_expr(st5, f) {
                lemma_compile_expr_prefix(st5, f);
                assert(st6.code[st1.code.len() as int] == st5.code[st1.code.len() as int]);
            }
        }
    }
}

/// Law: a `while` loop ends by dropping the body's value and jumping back to
/// the start of its condition, and the false-jump right after the
/// condition's code leaves the loop at its end (for code that a `Vec` can
/// hold).
pub proof fn law_while_jumps(st: CState, c: SExpr, body: SExpr)
    ensures
        compile_stmt(st, SStmt::While(c, body)) matches Ok(st2) ==> (st2.code.len() <= usize::MAX
            ==> (compile_expr(st, c) matches Ok(st1) && {
            let j = st1.code.len() as int;
            let n = st2.code.len() as int;
            &&& st.code.len() < j < n - 2
            &&& st2.code[j] == InstrView::JumpIfFalse(n as usize)
            &&& st2.code[n - 2] == InstrView::Pop
            &&& st2.code[n - 1] == InstrView::Jump(st.code.len() as usize)
        })),
{
    lemma_compile_expr_len(st, c);
    if let Ok(st1) = compile_expr(st, c) {
        let st2 = emit(st1, InstrView::JumpIfFalse(0));
        lemma_compile_expr_len(st2, body);
    }
}

/// Law: a call of a function other than `print` runs its arguments' code
/// and then calls the function with as many arguments as were written.
pub proof fn law_call_argument_count(st: CState, name: Seq<char>, args: Seq<SExpr>)
    requires
        name != "print"@,
    ensures
        compile_expr(st, SExpr::Call(name, args)) matches Ok(st2) ==> (st2.code.len() <= usize::MAX
            ==> st2.code.last() == InstrView::Call(name, args.len() as usize) && args.len()
            < st2.code.len()),
{
    if let Ok(st1) = compile_exprs(st, args, 0) {
        crate::balance::lemma_exprs_fits(st, args, 0, 0);
    }
}

proof fn lemma_compile_expr_len(st: CState, e: SExpr)
    ensures
        compile_expr(st, e) matches Ok(st2) ==> st2.code.len() > st.code.len(),
{
    crate::balance::lemma_expr_fits(st, e, 0);
}

proof fn lemma_compile_expr_prefix(st: CState, e: SExpr)
    ensures
        compile_expr(st, e) matches Ok(st2) ==> crate::balance::prefix_kept(st.code, st2.code),
{
    crate::balance::lemma_expr_fits(st, e, 0);
}

/// Law: `print(x)` evaluates to nil. Its code is the code of `x`, then
/// `Print`, then a load of the constant nil (for a pool that an index can
/// address).
pub proof fn law_print_yields_nil(st: CState, x: SExpr)
    ensures
        compile_expr(st, SExpr::Call("print"@, seq![x])) matches Ok(st2) ==> (st2.consts.len()
            <= usize::MAX ==> {
            &&& compile_expr(st, x) matches Ok(st1)
            &&& st2.code == st1.code.push(InstrView::Print).push(st2.code.last())
            &&& st2.code.last() matches InstrView::LoadConst(k) && k < st2.consts.len()
                && st2.consts[k as int] is Nil
        }),
{
    assert(seq![x][0] == x);
    if let Ok(st1) = compile_expr(st, x) {
        let st1p = emit(st1, InstrView::Print);
        lemma_const_pos(st1p.consts, ConstView::Nil, 0);
        let st2 = load_const(st1p, ConstView::Nil);
        assert(st2.code == st1.code.push(InstrView::Print).push(st2.code.last()));
    }
}

} // verus!
