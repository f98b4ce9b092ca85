//! The stack virtual machine.
//!
//! The machine is driven one instruction at a time by [`VM::step`]. Every
//! operation on the value of a number (arithmetic, comparison, equality,
//! rendering as text) and every output is handed to the host as a
//! [`HostRequest`]; the host answers with [`VM::resume`]. The decisions of the
//! machine (stack discipline, variables, calls, jumps, type errors) are made
//! here and are specified by [`step_spec`] and [`resume_spec`].
use vstd::prelude::*;
use crate::codegen::{
    code_ok, code_view, copy_code, function_ok, program_ok, CompiledProgram, ConstView, Constant,
    FunctionData, FunctionView, InstrView, Instruction, ProgramView,
};
use crate::strings::concat;
use crate::table::{lemma_find_key, law_lookup_store_other, law_lookup_store_same, lookup, store, Table};

verus! {

/// A run-time value.
#[derive(Debug, Clone, PartialEq)]
pub enum Value {
    /// A number, by the bit pattern of its IEEE-754 binary64 value.
    Number(u64),
    String(String),
    Boolean(bool),
    Nil,
}

/// The mathematical form of a value.
pub enum ValueView {
    Number(u64),
    Str(Seq<char>),
    Boolean(bool),
    Nil,
}

impl View for Value {
    type V = ValueView;

    open spec fn view(&self) -> ValueView {
        match self {
            Value::Number(n) => ValueView::Number(*n),
            Value::String(s) => ValueView::Str(s@),
            Value::Boolean(b) => ValueView::Boolean(*b),
            Value::Nil => ValueView::Nil,
        }
    }
}

impl Value {
    /// A copy of this value.
    pub fn duplicate(&self) -> (r: Value)
        ensures
            r@ == self@,
    {
        match self {
            Value::Number(n) => Value::Number(*n),
            Value::String(s) => Value::String(s.clone()),
            Value::Boolean(b) => Value::Boolean(*b),
            Value::Nil => Value::Nil,
        }
    }

    /// The text that `print` shows for this value: a string as it is,
    /// `true`, `false`, `nil`, and a number as `number_text` renders its
    /// binary64 value.
    pub fn print_str<F: Fn(u64) -> String>(&self, number_text: F) -> (r: String)
        requires
            forall|n: u64| number_text.requires((n,)),
        ensures
            match self {
                Value::Number(n) => number_text.ensures((*n,), r),
                Value::String(s) => r@ == s@,
                Value::Boolean(b) => r@ == (if *b {
                    "true"@
                } else {
                    "false"@
                }),
                Value::Nil => r@ == "nil"@,
            },
    {
        match self {
            Value::Number(n) => number_text(*n),
            Value::String(s) => s.clone(),
            Value::Boolean(b) => if *b {
                String::from_str("true")
            } else {
                String::from_str("false")
            },
            Value::Nil => String::from_str("nil"),
        }
    }

    /// The value of a constant of the pool.
    pub fn from_constant(c: &Constant) -> (r: Value)
        ensures
            r@ == const_value(c@),
    {
        match c {
            Constant::Number(n) => Value::Number(*n),
            Constant::String(s) => Value::String(s.clone()),
            Constant::Boolean(b) => Value::Boolean(*b),
            Constant::Nil => Value::Nil,
        }
    }
}

/// The run-time value of a constant.
pub open spec fn const_value(c: ConstView) -> ValueView {
    match c {
        ConstView::Number(n) => ValueView::Number(n),
        ConstView::Str(s) => ValueView::Str(s),
        ConstView::Boolean(b) => ValueView::Boolean(b),
        ConstView::Nil => ValueView::Nil,
    }
}

/// The view of a sequence of values.
pub open spec fn values_view(v: Seq<Value>) -> Seq<ValueView> {
    v.map_values(|x: Value| x@)
}

/// An operation on binary64 values that the host performs.
#[derive(Debug, Clone, Copy, PartialEq, Eq)]
pub enum FloatOp {
    Add,
    Sub,
    Mul,
    Div,
    Rem,
    Eq,
    Lt,
    Gt,
    Le,
    Ge,
}

/// Work that the machine asks of its host.
#[derive(Debug, Clone, PartialEq)]
pub enum HostRequest {
    /// Apply the operation to the two binary64 values; arithmetic answers
    /// `HostReply::Number`, comparisons and equality answer `HostReply::Truth`.
    Float(FloatOp, u64, u64),
    /// Render the binary64 value as text; answer `HostReply::Text`.
    Text(u64),
    /// Print the value on its own line; answer `HostReply::Done`.
    Print(Value),
}

/// The host's answer to a request.
#[derive(Debug, Clone, PartialEq)]
pub enum HostReply {
    Number(u64),
    Truth(bool),
    Text(String),
    Done,
}

/// What a step of the machine produced.
#[derive(Debug, Clone, PartialEq)]
pub enum Action {
    /// The step is done; step again.
    Continue,
    /// The host must perform this request and answer with `VM::resume`.
    Request(HostRequest),
    /// The program has ended with this result.
    Halt(Value),
}

/// The kind of operation whose operands had the wrong types.
#[derive(Debug, Clone, Copy, PartialEq, Eq)]
pub enum OperandUse {
    Add,
    Subtract,
    Multiply,
    Divide,
    Modulo,
    Compare,
}

/// A run-time error of the machine.
#[derive(Debug, Clone, PartialEq)]
pub enum VmError {
    StackUnderflow,
    ConstantOutOfBounds(usize),
    UndefinedVariable(String),
    TypeMismatch(OperandUse, Value, Value),
    DivisionByZero,
    UndefinedFunction(String),
    /// Function name, number of parameters, number of arguments.
    ArityMismatch(String, usize, usize),
    /// The reply does not answer the pending request.
    UnexpectedReply,
    /// A reply is pending; the machine cannot step.
    AwaitingReply,
    /// The program has already ended.
    Finished,
}

/// A call frame: the code being run, the next instruction and the locals.
pub struct CallFrame {
    name: String,
    code: Vec<Instruction>,
    pc: usize,
    locals: Table<Value>,
}

/// What the machine does with the host's next reply.
pub enum Waiting {
    /// No request is pending.
    Ready,
    /// Push the number that the host computed.
    PushNumber,
    /// Push the truth value that the host computed, negated if the flag is set.
    PushTruth(bool),
    /// Push the text of this string followed by the host's text.
    AppendText(String),
    /// Push the host's text followed by this string.
    PrependText(String),
    /// The host says whether the divisor is zero; divide these numbers if not.
    DivideCheck(u64, u64),
    /// Wait for the host to finish printing.
    Printing,
    /// The program has ended.
    Finished,
}

/// The state of one run of a compiled program.
pub struct Execution {
    constants: Vec<Value>,
    frames: Vec<CallFrame>,
    waiting: Waiting,
}

/// The virtual machine: global variables, the function table and the stack.
pub struct VM {
    pub globals: Table<Value>,
    pub functions: Table<FunctionData>,
    pub stack: Vec<Value>,
}

// ---------------------------------------------------------------------------
// Mathematical model
// ---------------------------------------------------------------------------

pub enum RequestView {
    Float(FloatOp, u64, u64),
    Text(u64),
    Print(ValueView),
}

pub enum ReplyView {
    Number(u64),
    Truth(bool),
    Text(Seq<char>),
    Done,
}

pub enum ActionView {
    Continue,
    Request(RequestView),
    Halt(ValueView),
}

pub enum ErrorView {
    StackUnderflow,
    ConstantOutOfBounds(usize),
    UndefinedVariable(Seq<char>),
    TypeMismatch(OperandUse, ValueView, ValueView),
    DivisionByZero,
    UndefinedFunction(Seq<char>),
    ArityMismatch(Seq<char>, usize, usize),
    UnexpectedReply,
    AwaitingReply,
    Finished,
}

pub enum WaitView {
    Ready,
    PushNumber,
    PushTruth(bool),
    AppendText(Seq<char>),
    PrependText(Seq<char>),
    DivideCheck(u64, u64),
    Printing,
    Finished,
}

pub struct FrameView {
    pub name: Seq<char>,
    pub code: Seq<InstrView>,
    pub pc: int,
    pub locals: Seq<(Seq<char>, ValueView)>,
}

/// The whole state of a running machine.
pub struct MachineView {
    pub globals: Seq<(Seq<char>, ValueView)>,
    pub functions: Seq<(Seq<char>, FunctionView)>,
    pub stack: Seq<ValueView>,
    pub constants: Seq<ValueView>,
    pub frames: Seq<FrameView>,
    pub waiting: WaitView,
}

impl View for HostRequest {
    type V = RequestView;

    open spec fn view(&self) -> RequestView {
        match self {
            HostRequest::Float(op, a, b) => RequestView::Float(*op, *a, *b),
            HostRequest::Text(a) => RequestView::Text(*a),
            HostRequest::Print(v) => RequestView::Print(v@),
        }
    }
}

impl View for HostReply {
    type V = ReplyView;

    open spec fn view(&self) -> ReplyView {
        match self {
            HostReply::Number(n) => ReplyView::Number(*n),
            HostReply::Truth(b) => ReplyView::Truth(*b),
            HostReply::Text(s) => ReplyView::Text(s@),
            HostReply::Done => ReplyView::Done,
        }
    }
}

impl View for Action {
    type V = ActionView;

    open spec fn view(&self) -> ActionView {
        match self {
            Action::Continue => ActionView::Continue,
            Action::Request(r) => ActionView::Request(r@),
            Action::Halt(v) => ActionView::Halt(v@),
        }
    }
}

impl View for VmError {
    type V = ErrorView;

    open spec fn view(&self) -> ErrorView {
        match self {
            VmError::StackUnderflow => ErrorView::StackUnderflow,
            VmError::ConstantOutOfBounds(i) => ErrorView::ConstantOutOfBounds(*i),
            VmError::UndefinedVariable(n) => ErrorView::UndefinedVariable(n@),
            VmError::TypeMismatch(u, l, r) => ErrorView::TypeMismatch(*u, l@, r@),
            VmError::DivisionByZero => ErrorView::DivisionByZero,
            VmError::UndefinedFunction(n) => ErrorView::UndefinedFunction(n@),
            VmError::ArityMismatch(n, a, b) => ErrorView::ArityMismatch(n@, *a, *b),
            VmError::UnexpectedReply => ErrorView::UnexpectedReply,
            VmError::AwaitingReply => ErrorView::AwaitingReply,
            VmError::Finished => ErrorView::Finished,
        }
    }
}

impl View for Waiting {
    type V = WaitView;

    open spec fn view(&self) -> WaitView {
        match self {
            Waiting::Ready => WaitView::Ready,
            Waiting::PushNumber => WaitView::PushNumber,
            Waiting::PushTruth(b) => WaitView::PushTruth(*b),
            Waiting::AppendText(s) => WaitView::AppendText(s@),
            Waiting::PrependText(s) => WaitView::PrependText(s@),
            Waiting::DivideCheck(a, b) => WaitView::DivideCheck(*a, *b),
            Waiting::Printing => WaitView::Printing,
            Waiting::Finished => WaitView::Finished,
        }
    }
}

impl View for CallFrame {
    type V = FrameView;

    closed spec fn view(&self) -> FrameView {
        FrameView {
            name: self.name@,
            code: code_view(self.code@),
            pc: self.pc as int,
            locals: self.locals@,
        }
    }
}

/// The view of a sequence of frames.
pub open spec fn frames_view(v: Seq<CallFrame>) -> Seq<FrameView> {
    v.map_values(|f: CallFrame| f@)
}

/// The state of the machine `vm` running `ex`.
pub closed spec fn machine(vm: VM, ex: Execution) -> MachineView {
    MachineView {
        globals: vm.globals@,
        functions: vm.functions@,
        stack: values_view(vm.stack@),
        constants: values_view(ex.constants@),
        frames: frames_view(ex.frames@),
        waiting: ex.waiting@,
    }
}

// ---------------------------------------------------------------------------
// Semantics
// ---------------------------------------------------------------------------

/// The outcome of a transition: the next state and what it produced.
pub type Outcome = (MachineView, Result<ActionView, ErrorView>);

pub open spec fn proceed(m: MachineView) -> Outcome {
    (m, Ok(ActionView::Continue))
}

pub open spec fn fail(m: MachineView, e: ErrorView) -> Outcome {
    (m, Err(e))
}

pub open spec fn ask(m: MachineView, w: WaitView, r: RequestView) -> Outcome {
    (MachineView { waiting: w, ..m }, Ok(ActionView::Request(r)))
}

pub open spec fn push(m: MachineView, v: ValueView) -> MachineView {
    MachineView { stack: m.stack.push(v), ..m }
}

pub open spec fn drop_values(m: MachineView, n: int) -> MachineView {
    MachineView { stack: m.stack.subrange(0, m.stack.len() - n), ..m }
}

pub open spec fn top(m: MachineView) -> FrameView {
    m.frames.last()
}

pub open spec fn set_top(m: MachineView, f: FrameView) -> MachineView {
    MachineView { frames: m.frames.update(m.frames.len() - 1, f), ..m }
}

pub open spec fn jump_to(m: MachineView, target: usize) -> MachineView {
    set_top(m, FrameView { pc: target as int, ..top(m) })
}

/// Whether a value counts as true for a conditional jump.
pub open spec fn truthy(v: ValueView) -> bool {
    match v {
        ValueView::Boolean(b) => b,
        ValueView::Nil => false,
        _ => true,
    }
}

/// The locals of a call after binding the arguments `args` to `params`,
/// `k` bindings made, from the last parameter down.
pub open spec fn bind_args(params: Seq<Seq<char>>, args: Seq<ValueView>, k: int) -> Seq<
    (Seq<char>, ValueView),
>
    decreases k,
{
    if k <= 0 {
        Seq::empty()
    } else {
        let i = params.len() - k;
        store(bind_args(params, args, k - 1), params[i], args[i])
    }
}

/// A binary instruction on the two topmost values `l` (below) and `r` (top),
/// already removed from the stack of `m`.
pub open spec fn binary(m: MachineView, op: InstrView, l: ValueView, r: ValueView) -> Outcome {
    match op {
        InstrView::Add => match (l, r) {
            (ValueView::Number(a), ValueView::Number(b)) => ask(
                m,
                WaitView::PushNumber,
                RequestView::Float(FloatOp::Add, a, b),
            ),
            (ValueView::Str(a), ValueView::Str(b)) => proceed(push(m, ValueView::Str(a + b))),
            (ValueView::Str(a), ValueView::Number(b)) => ask(
                m,
                WaitView::AppendText(a),
                RequestView::Text(b),
            ),
            (ValueView::Number(a), ValueView::Str(b)) => ask(
                m,
                WaitView::PrependText(b),
                RequestView::Text(a),
            ),
            _ => fail(m, ErrorView::TypeMismatch(OperandUse::Add, l, r)),
        },
        InstrView::Sub => arith(m, FloatOp::Sub, OperandUse::Subtract, l, r),
        InstrView::Mul => arith(m, FloatOp::Mul, OperandUse::Multiply, l, r),
        InstrView::Mod => arith(m, FloatOp::Rem, OperandUse::Modulo, l, r),
        InstrView::Div => match (l, r) {
            (ValueView::Number(a), ValueView::Number(b)) => ask(
                m,
                WaitView::DivideCheck(a, b),
                RequestView::Float(FloatOp::Eq, b, 0),
            ),
            _ => fail(m, ErrorView::TypeMismatch(OperandUse::Divide, l, r)),
        },
        InstrView::Eq => equality(m, false, l, r),
        InstrView::Ne => equality(m, true, l, r),
        InstrView::Lt => compare(m, FloatOp::Lt, l, r),
        InstrView::Gt => compare(m, FloatOp::Gt, l, r),
        InstrView::Le => compare(m, FloatOp::Le, l, r),
        _ => compare(m, FloatOp::Ge, l, r),
    }
}

pub open spec fn arith(m: MachineView, op: FloatOp, u: OperandUse, l: ValueView, r: ValueView) -> Outcome {
    match (l, r) {
        (ValueView::Number(a), ValueView::Number(b)) => ask(
            m,
            WaitView::PushNumber,
            RequestView::Float(op, a, b),
        ),
        _ => fail(m, ErrorView::TypeMismatch(u, l, r)),
    }
}

pub open spec fn compare(m: MachineView, op: FloatOp, l: ValueView, r: ValueView) -> Outcome {
    match (l, r) {
        (ValueView::Number(a), ValueView::Number(b)) => ask(
            m,
            WaitView::PushTruth(false),
            RequestView::Float(op, a, b),
        ),
        _ => fail(m, ErrorView::TypeMismatch(OperandUse::Compare, l, r)),
    }
}

/// `==` (or `!=` when `negate`): numbers are compared by the host, other
/// values are equal when they are the same kind with the same contents.
pub open spec fn equality(m: MachineView, negate: bool, l: ValueView, r: ValueView) -> Outcome {
    match (l, r) {
        (ValueView::Number(a), ValueView::Number(b)) => ask(
            m,
            WaitView::PushTruth(negate),
            RequestView::Float(FloatOp::Eq, a, b),
        ),
        _ => proceed(push(m, ValueView::Boolean((l == r) != negate))),
    }
}

pub open spec fn is_binary(i: InstrView) -> bool {
    match i {
        InstrView::Add | InstrView::Sub | InstrView::Mul | InstrView::Div | InstrView::Mod
        | InstrView::Eq | InstrView::Ne | InstrView::Lt | InstrView::Gt | InstrView::Le
        | InstrView::Ge => true,
        _ => false,
    }
}

/// Executes `inst`, the instruction of the top frame of `m`, whose counter has
/// already moved past it.
pub open spec fn execute(m: MachineView, inst: InstrView) -> Outcome {
    let s = m.stack;
    let n = s.len();
    if is_binary(inst) {
        if n < 2 {
            fail(drop_values(m, n as int), ErrorView::StackUnderflow)
        } else {
            binary(drop_values(m, 2), inst, s[n - 2], s[n - 1])
        }
    } else {
        match inst {
            InstrView::LoadConst(idx) => if idx >= m.constants.len() {
                fail(m, ErrorView::ConstantOutOfBounds(idx))
            } else {
                proceed(push(m, m.constants[idx as int]))
            },
            InstrView::LoadVar(name) => match lookup(top(m).locals, name) {
                Some(v) => proceed(push(m, v)),
                None => match lookup(m.globals, name) {
                    Some(v) => proceed(push(m, v)),
                    None => fail(m, ErrorView::UndefinedVariable(name)),
                },
            },
            InstrView::StoreVar(name) => if n < 1 {
                fail(m, ErrorView::StackUnderflow)
            } else {
                let m1 = drop_values(m, 1);
                if m.frames.len() > 1 {
                    proceed(
                        set_top(m1, FrameView { locals: store(top(m).locals, name, s[n - 1]), ..top(m) }),
                    )
                } else {
                    proceed(MachineView { globals: store(m.globals, name, s[n - 1]), ..m1 })
                }
            },
            InstrView::Pop => if n < 1 {
                fail(m, ErrorView::StackUnderflow)
            } else {
                proceed(drop_values(m, 1))
            },
            InstrView::Jump(t) => proceed(jump_to(m, t)),
            InstrView::JumpIfFalse(t) => if n < 1 {
                fail(m, ErrorView::StackUnderflow)
            } else if truthy(s[n - 1]) {
                proceed(drop_values(m, 1))
            } else {
                proceed(jump_to(drop_values(m, 1), t))
            },
            InstrView::Call(name, argc) => match lookup(m.functions, name) {
                None => fail(m, ErrorView::UndefinedFunction(name)),
                Some(f) => if f.params.len() != argc {
                    fail(m, ErrorView::ArityMismatch(name, f.params.len() as usize, argc))
                } else if n < argc {
                    fail(drop_values(m, n as int), ErrorView::StackUnderflow)
                } else {
                    let args = s.subrange(n - argc, n as int);
                    let frame = FrameView {
                        name,
                        code: f.code,
                        pc: 0,
                        locals: bind_args(f.params, args, argc as int),
                    };
                    let m1 = drop_values(m, argc as int);
                    proceed(MachineView { frames: m1.frames.push(frame), ..m1 })
                },
            },
            InstrView::Return => proceed(MachineView { frames: m.frames.drop_last(), ..m }),
            _ => if n < 1 {
                fail(m, ErrorView::StackUnderflow)
            } else {
                ask(drop_values(m, 1), WaitView::Printing, RequestView::Print(s[n - 1]))
            },
        }
    }
}

/// Whether the program has run to its end: no frame is left, or the main
/// frame has run past its last instruction.
pub open spec fn at_end(m: MachineView) -> bool {
    m.frames.len() == 0 || (m.frames.len() == 1 && top(m).pc >= top(m).code.len())
}

/// One step of the machine.
pub open spec fn step_spec(m: MachineView) -> Outcome {
    match m.waiting {
        WaitView::Ready => if at_end(m) {
            let done = MachineView { frames: Seq::empty(), waiting: WaitView::Finished, ..m };
            if m.stack.len() == 0 {
                (done, Ok(ActionView::Halt(ValueView::Nil)))
            } else {
                (drop_values(done, 1), Ok(ActionView::Halt(m.stack.last())))
            }
        } else if top(m).pc >= top(m).code.len() {
            proceed(MachineView { frames: m.frames.drop_last(), ..m })
        } else {
            let f = top(m);
            execute(set_top(m, FrameView { pc: f.pc + 1, ..f }), f.code[f.pc])
        },
        WaitView::Finished => fail(m, ErrorView::Finished),
        _ => fail(m, ErrorView::AwaitingReply),
    }
}

/// Taking the host's reply to the pending request.
pub open spec fn resume_spec(m: MachineView, reply: ReplyView) -> Outcome {
    let ready = MachineView { waiting: WaitView::Ready, ..m };
    match (m.waiting, reply) {
        (WaitView::PushNumber, ReplyView::Number(x)) => proceed(push(ready, ValueView::Number(x))),
        (WaitView::PushTruth(neg), ReplyView::Truth(b)) => proceed(
            push(ready, ValueView::Boolean(b != neg)),
        ),
        (WaitView::AppendText(s), ReplyView::Text(t)) => proceed(push(ready, ValueView::Str(s + t))),
        (WaitView::PrependText(s), ReplyView::Text(t)) => proceed(
            push(ready, ValueView::Str(t + s)),
        ),
        (WaitView::DivideCheck(a, b), ReplyView::Truth(zero)) => if zero {
            fail(ready, ErrorView::DivisionByZero)
        } else {
            ask(ready, WaitView::PushNumber, RequestView::Float(FloatOp::Div, a, b))
        },
        (WaitView::Printing, ReplyView::Done) => proceed(ready),
        _ => fail(m, ErrorView::UnexpectedReply),
    }
}

/// The function table after loading `fs` in order: a later function replaces
/// an earlier one of the same name.
pub open spec fn load_functions(
    table: Seq<(Seq<char>, FunctionView)>,
    fs: Seq<FunctionView>,
) -> Seq<(Seq<char>, FunctionView)>
    decreases fs.len(),
{
    if fs.len() == 0 {
        table
    } else {
        store(load_functions(table, fs.drop_last()), fs.last().name, fs.last())
    }
}

/// The state in which a run of `p` begins.
pub open spec fn start_spec(m: MachineView, p: ProgramView) -> MachineView {
    MachineView {
        functions: load_functions(m.functions, p.functions),
        constants: p.constants.map_values(|c: ConstView| const_value(c)),
        frames: seq![FrameView { name: "main"@, code: p.code, pc: 0, locals: Seq::empty() }],
        waiting: WaitView::Ready,
        ..m
    }
}

/// An outcome matches a transition of the model.
pub open spec fn matches_outcome(
    after: MachineView,
    r: Result<Action, VmError>,
    expected: Outcome,
) -> bool {
    match r {
        Ok(a) => expected.1 == Ok::<ActionView, ErrorView>(a@) && after == expected.0,
        Err(e) => expected.1 == Err::<ActionView, ErrorView>(e@) && after == expected.0,
    }
}

/// The state of a machine with no run in progress.
pub open spec fn idle(vm: VM) -> MachineView {
    MachineView {
        globals: vm.globals@,
        functions: vm.functions@,
        stack: values_view(vm.stack@),
        constants: Seq::empty(),
        frames: Seq::empty(),
        waiting: WaitView::Ready,
    }
}

/// The globals, functions and stack of the state of `vm` running `ex` are
/// those of `vm`, and its pending request is that of `ex`.
pub proof fn lemma_machine_parts(vm: VM, ex: Execution)
    ensures
        machine(vm, ex).globals == vm.globals@,
        machine(vm, ex).functions == vm.functions@,
        machine(vm, ex).stack == values_view(vm.stack@),
        machine(vm, ex).waiting == ex@,
{
}

/// The state of `vm` running `ex`, with `frame` on top of the frames of `ex`.
pub closed spec fn machine_with(vm: VM, ex: Execution, frame: CallFrame) -> MachineView {
    MachineView { frames: frames_view(ex.frames@.push(frame)), ..machine(vm, ex) }
}

/// Whether two values, not both numbers, are equal.
fn plain_equal(l: &Value, r: &Value) -> (b: bool)
    requires
        !(l is Number && r is Number),
    ensures
        b == (l@ == r@),
{
    match (l, r) {
        (Value::String(a), Value::String(b)) => *a == *b,
        (Value::Boolean(a), Value::Boolean(b)) => *a == *b,
        (Value::Nil, Value::Nil) => true,
        _ => false,
    }
}

impl Execution {
    /// Whether the run has ended.
    pub fn is_finished(&self) -> (b: bool)
        ensures
            b == (self@ is Finished),
    {
        match self.waiting {
            Waiting::Finished => true,
            _ => false,
        }
    }
}

impl View for Execution {
    type V = WaitView;

    closed spec fn view(&self) -> WaitView {
        self.waiting@
    }
}

impl VM {
    /// A machine with no globals, no functions and an empty stack.
    pub fn new() -> (vm: VM)
        ensures
            vm.globals@ == Seq::<(Seq<char>, ValueView)>::empty(),
            vm.functions@ == Seq::<(Seq<char>, FunctionView)>::empty(),
            vm.stack@ == Seq::<Value>::empty(),
    {
        VM { globals: Table::new(), functions: Table::new(), stack: Vec::new() }
    }

    /// Begins a run of `program`: its functions are added to the function
    /// table, and the main code is ready to run from its first instruction.
    pub fn start(&mut self, program: CompiledProgram) -> (ex: Execution)
        ensures
            machine(*final(self), ex) == start_spec(idle(*old(self)), program@),
    {
        let ghost p = program@;
        let CompiledProgram { constants, functions, instructions } = program;
        let mut i: usize = 0;
        while i < functions.len()
            invariant
                i <= functions@.len(),
                p.functions == crate::codegen::funcs_view(functions@),
                self.globals@ == old(self).globals@,
                self.stack@ == old(self).stack@,
                self.functions@ == load_functions(
                    old(self).functions@,
                    p.functions.subrange(0, i as int),
                ),
            decreases functions.len() - i,
        {
            let f = functions[i].duplicate();
            let name = f.name.clone();
            self.functions.insert(name, f);
            i += 1;
            assert(p.functions.subrange(0, i as int).drop_last() =~= p.functions.subrange(
                0,
                i - 1,
            ));
        }
        assert(p.functions.subrange(0, functions@.len() as int) =~= p.functions);
        let mut values: Vec<Value> = Vec::new();
        let mut j: usize = 0;
        while j < constants.len()
            invariant
                j <= constants@.len(),
                values@.len() == j,
                forall|k: int| 0 <= k < j ==> (#[trigger] values@[k])@ == const_value(
                    constants@[k]@,
                ),
            decreases constants.len() - j,
        {
            values.push(Value::from_constant(&constants[j]));
            j += 1;
        }
        let main = CallFrame {
            name: String::from_str("main"),
            code: instructions,
            pc: 0,
            locals: Table::new(),
        };
        let ex = Execution { constants: values, frames: vec![main], waiting: Waiting::Ready };
        assert(values_view(ex.constants@) =~= p.constants.map_values(
            |c: ConstView| const_value(c),
        ));
        assert(frames_view(ex.frames@) =~= seq![
            FrameView { name: "main"@, code: p.code, pc: 0, locals: Seq::empty() },
        ]);
        ex
    }

    /// Gives the host's reply to the pending request of the run `ex`.
    pub fn resume(&mut self, ex: &mut Execution, reply: HostReply) -> (r: Result<Action, VmError>)
        ensures
            matches_outcome(
                machine(*final(self), *final(ex)),
                r,
                resume_spec(machine(*old(self), *old(ex)), reply@),
            ),
    {
        let ghost m = machine(*self, *ex);
        let mut waiting = Waiting::Ready;
        core::mem::swap(&mut waiting, &mut ex.waiting);
        match (waiting, reply) {
            (Waiting::PushNumber, HostReply::Number(x)) => {
                self.stack.push(Value::Number(x));
                proof {
                    assert(values_view(self.stack@) =~= m.stack.push(ValueView::Number(x)));
                }
                Ok(Action::Continue)
            },
            (Waiting::PushTruth(negate), HostReply::Truth(b)) => {
                self.stack.push(Value::Boolean(b != negate));
                proof {
                    assert(values_view(self.stack@) =~= m.stack.push(ValueView::Boolean(b != negate)));
                }
                Ok(Action::Continue)
            },
            (Waiting::AppendText(left), HostReply::Text(t)) => {
                let joined = concat(&left, &t);
                self.stack.push(Value::String(joined));
                proof {
                    assert(values_view(self.stack@) =~= m.stack.push(ValueView::Str(left@ + t@)));
                }
                Ok(Action::Continue)
            },
            (Waiting::PrependText(right), HostReply::Text(t)) => {
                let joined = concat(&t, &right);
                self.stack.push(Value::String(joined));
                proof {
                    assert(values_view(self.stack@) =~= m.stack.push(ValueView::Str(t@ + right@)));
                }
                Ok(Action::Continue)
            },
            (Waiting::DivideCheck(a, b), HostReply::Truth(zero)) => {
                if zero {
                    Err(VmError::DivisionByZero)
                } else {
                    ex.waiting = Waiting::PushNumber;
                    Ok(Action::Request(HostRequest::Float(FloatOp::Div, a, b)))
                }
            },
            (Waiting::Printing, HostReply::Done) => Ok(Action::Continue),
            (w, _) => {
                ex.waiting = w;
                Err(VmError::UnexpectedReply)
            },
        }
    }

    /// Performs one step of the run `ex`: ends the run, leaves a finished
    /// function, or executes one instruction.
    pub fn step(&mut self, ex: &mut Execution) -> (r: Result<Action, VmError>)
        ensures
            matches_outcome(
                machine(*final(self), *final(ex)),
                r,
                step_spec(machine(*old(self), *old(ex))),
            ),
    {
        match ex.waiting {
            Waiting::Ready => {},
            Waiting::Finished => return Err(VmError::Finished),
            _ => return Err(VmError::AwaitingReply),
        }
        let nframes = ex.frames.len();
        if nframes == 0 || (nframes == 1 && ex.frames[0].pc >= ex.frames[0].code.len()) {
            ex.frames = Vec::new();
            ex.waiting = Waiting::Finished;
            let ghost m = machine(*self, *ex);
            let result = match self.stack.pop() {
                Some(v) => v,
                None => Value::Nil,
            };
            proof {
                assert(frames_view(ex.frames@) =~= Seq::<FrameView>::empty());
                if old(self).stack@.len() > 0 {
                    assert(values_view(self.stack@) =~= values_view(old(self).stack@).subrange(
                        0,
                        old(self).stack@.len() - 1,
                    ));
                }
            }
            return Ok(Action::Halt(result));
        }
        let mut frame = ex.frames.pop().unwrap();
        proof {
            assert(frames_view(old(ex).frames@).drop_last() =~= frames_view(ex.frames@));
        }
        if frame.pc >= frame.code.len() {
            return Ok(Action::Continue);
        }
        let inst = frame.code[frame.pc].duplicate();
        frame.pc = frame.pc + 1;
        proof {
            assert(frames_view(ex.frames@.push(frame)) =~= frames_view(old(ex).frames@).update(
                old(ex).frames@.len() - 1,
                frame@,
            ));
        }
        self.execute(ex, frame, inst)
    }

    /// Executes `inst`, taken from `frame`, the top frame of the run.
    fn execute(&mut self, ex: &mut Execution, frame: CallFrame, inst: Instruction) -> (r: Result<
        Action,
        VmError,
    >)
        requires
            old(ex).waiting is Ready,
        ensures
            matches_outcome(
                machine(*final(self), *final(ex)),
                r,
                execute(machine_with(*old(self), *old(ex), frame), inst@),
            ),
    {
        let mut frame = frame;
        let ghost m = machine_with(*self, *ex, frame);
        proof {
            assert(top(m) == frame@);
        }
        match inst {
            Instruction::LoadConst(idx) => {
                if idx >= ex.constants.len() {
                    ex.frames.push(frame);
                    return Err(VmError::ConstantOutOfBounds(idx));
                }
                let v = ex.constants[idx].duplicate();
                self.stack.push(v);
                ex.frames.push(frame);
                proof {
                    assert(values_view(self.stack@) =~= m.stack.push(m.constants[idx as int]));
                }
                Ok(Action::Continue)
            },
            Instruction::LoadVar(name) => {
                let found = match frame.locals.get_key(&name) {
                    Some(v) => v.duplicate(),
                    None => match self.globals.get_key(&name) {
                        Some(v) => v.duplicate(),
                        None => {
                            ex.frames.push(frame);
                            return Err(VmError::UndefinedVariable(name));
                        },
                    },
                };
                self.stack.push(found);
                ex.frames.push(frame);
                proof {
                    assert(values_view(self.stack@) =~= values_view(old(self).stack@).push(found@));
                }
                Ok(Action::Continue)
            },
            Instruction::StoreVar(name) => {
                let v = match self.stack.pop() {
                    Some(v) => v,
                    None => {
                        ex.frames.push(frame);
                        return Err(VmError::StackUnderflow);
                    },
                };
                proof {
                    assert(values_view(self.stack@) =~= m.stack.subrange(0, m.stack.len() - 1));
                }
                if ex.frames.len() > 0 {
                    frame.locals.insert(name, v);
                } else {
                    self.globals.insert(name, v);
                }
                ex.frames.push(frame);
                proof {
                    assert(frames_view(ex.frames@) =~= m.frames.update(m.frames.len() - 1, frame@));
                }
                Ok(Action::Continue)
            },
            Instruction::Pop => {
                match self.stack.pop() {
                    Some(_) => {},
                    None => {
                        ex.frames.push(frame);
                        return Err(VmError::StackUnderflow);
                    },
                }
                ex.frames.push(frame);
                proof {
                    assert(values_view(self.stack@) =~= m.stack.subrange(0, m.stack.len() - 1));
                }
                Ok(Action::Continue)
            },
            Instruction::Jump(target) => {
                frame.pc = target;
                ex.frames.push(frame);
                proof {
                    assert(frames_view(ex.frames@) =~= m.frames.update(m.frames.len() - 1, frame@));
                }
                Ok(Action::Continue)
            },
            Instruction::JumpIfFalse(target) => {
                let v = match self.stack.pop() {
                    Some(v) => v,
                    None => {
                        ex.frames.push(frame);
                        return Err(VmError::StackUnderflow);
                    },
                };
                proof {
                    assert(values_view(self.stack@) =~= m.stack.subrange(0, m.stack.len() - 1));
                }
                let cond = match v {
                    Value::Boolean(b) => b,
                    Value::Nil => false,
                    _ => true,
                };
                if !cond {
                    frame.pc = target;
                }
                ex.frames.push(frame);
                proof {
                    assert(frames_view(ex.frames@) =~= m.frames.update(m.frames.len() - 1, frame@));
                }
                Ok(Action::Continue)
            },
            Instruction::Call(name, argc) => self.call(ex, frame, name, argc),
            Instruction::Return => {
                proof {
                    assert(frames_view(ex.frames@) =~= m.frames.drop_last());
                }
                Ok(Action::Continue)
            },
            Instruction::Print => {
                let v = match self.stack.pop() {
                    Some(v) => v,
                    None => {
                        ex.frames.push(frame);
                        return Err(VmError::StackUnderflow);
                    },
                };
                proof {
                    assert(values_view(self.stack@) =~= m.stack.subrange(0, m.stack.len() - 1));
                }
                ex.frames.push(frame);
                ex.waiting = Waiting::Printing;
                Ok(Action::Request(HostRequest::Print(v)))
            },
            _ => self.binary(ex, frame, inst),
        }
    }

    /// Calls the function `name` with the `argc` topmost values as arguments.
    fn call(&mut self, ex: &mut Execution, frame: CallFrame, name: String, argc: usize) -> (r: Result<
        Action,
        VmError,
    >)
        requires
            old(ex).waiting is Ready,
        ensures
            matches_outcome(
                machine(*final(self), *final(ex)),
                r,
                execute(
                    machine_with(*old(self), *old(ex), frame),
                    InstrView::Call(name@, argc),
                ),
            ),
    {
        let ghost m = machine_with(*self, *ex, frame);
        let (params, code) = match self.functions.get_key(&name) {
            Some(f) => {
                if f.params.len() != argc {
                    let k = f.params.len();
                    ex.frames.push(frame);
                    return Err(VmError::ArityMismatch(name, k, argc));
                }
                (crate::codegen::copy_names(&f.params), copy_code(&f.instructions))
            },
            None => {
                ex.frames.push(frame);
                return Err(VmError::UndefinedFunction(name));
            },
        };
        let ghost fv = lookup(m.functions, name@)->Some_0;
        let ghost pv = fv.params;
        let n = self.stack.len();
        if n < argc {
            self.stack.clear();
            ex.frames.push(frame);
            proof {
                assert(values_view(self.stack@) =~= m.stack.subrange(0, 0));
                assert(frames_view(ex.frames@) =~= m.frames);
            }
            return Err(VmError::StackUnderflow);
        }
        let ghost args = m.stack.subrange(n - argc, n as int);
        let mut locals: Table<Value> = Table::new();
        let mut i: usize = argc;
        while i > 0
            invariant
                i <= argc,
                argc <= n,
                n == old(self).stack@.len(),
                m.stack == values_view(old(self).stack@),
                args == m.stack.subrange(n - argc, n as int),
                crate::codegen::names_view(params@) == pv,
                pv.len() == argc,
                self.stack@.len() == n - argc + i,
                values_view(self.stack@) == m.stack.subrange(0, n - argc + i),
                locals@ == bind_args(pv, args, argc - i),
                self.globals == old(self).globals,
                self.functions == old(self).functions,
            decreases i,
        {
            i -= 1;
            let ghost before = self.stack@;
            proof {
                assert(values_view(before)[n - argc + i] == m.stack[n - argc + i]);
            }
            let v = self.stack.pop().unwrap();
            proof {
                assert(values_view(self.stack@) =~= m.stack.subrange(0, n - argc + i));
                assert(v@ == m.stack[n - argc + i]);
                assert(args[i as int] == m.stack[n - argc + i]);
                assert(pv[i as int] == params@[i as int]@);
            }
            locals.insert(params[i].clone(), v);
        }
        let callee = CallFrame { name, code, pc: 0, locals };
        ex.frames.push(frame);
        ex.frames.push(callee);
        proof {
            assert(frames_view(ex.frames@) =~= m.frames.push(
                FrameView {
                    name: name@,
                    code: fv.code,
                    pc: 0,
                    locals: bind_args(pv, args, argc as int),
                },
            ));
        }
        Ok(Action::Continue)
    }

    /// Executes a binary instruction on the two topmost values.
    fn binary(&mut self, ex: &mut Execution, frame: CallFrame, inst: Instruction) -> (r: Result<
        Action,
        VmError,
    >)
        requires
            old(ex).waiting is Ready,
            is_binary(inst@),
        ensures
            matches_outcome(
                machine(*final(self), *final(ex)),
                r,
                execute(machine_with(*old(self), *old(ex), frame), inst@),
            ),
    {
        let ghost m = machine_with(*self, *ex, frame);
        let right = match self.stack.pop() {
            Some(v) => v,
            None => {
                ex.frames.push(frame);
                proof {
                    assert(values_view(self.stack@) =~= m.stack.subrange(0, 0));
                }
                return Err(VmError::StackUnderflow);
            },
        };
        let left = match self.stack.pop() {
            Some(v) => v,
            None => {
                ex.frames.push(frame);
                proof {
                    assert(values_view(self.stack@) =~= m.stack.subrange(0, 0));
                }
                return Err(VmError::StackUnderflow);
            },
        };
        ex.frames.push(frame);
        proof {
            assert(values_view(self.stack@) =~= m.stack.subrange(0, m.stack.len() - 2));
        }
        let ghost m2 = drop_values(m, 2);
        assert(machine(*self, *ex) == m2);
        match inst {
            Instruction::Add => match (left, right) {
                (Value::Number(a), Value::Number(b)) => {
                    ex.waiting = Waiting::PushNumber;
                    Ok(Action::Request(HostRequest::Float(FloatOp::Add, a, b)))
                },
                (Value::String(a), Value::String(b)) => {
                    let joined = concat(&a, &b);
                    self.stack.push(Value::String(joined));
                    proof {
                        assert(values_view(self.stack@) =~= m2.stack.push(ValueView::Str(a@ + b@)));
                    }
                    Ok(Action::Continue)
                },
                (Value::String(a), Value::Number(b)) => {
                    ex.waiting = Waiting::AppendText(a);
                    Ok(Action::Request(HostRequest::Text(b)))
                },
                (Value::Number(a), Value::String(b)) => {
                    ex.waiting = Waiting::PrependText(b);
                    Ok(Action::Request(HostRequest::Text(a)))
                },
                (l, r) => Err(VmError::TypeMismatch(OperandUse::Add, l, r)),
            },
            Instruction::Sub => self.arith(ex, FloatOp::Sub, OperandUse::Subtract, left, right),
            Instruction::Mul => self.arith(ex, FloatOp::Mul, OperandUse::Multiply, left, right),
            Instruction::Mod => self.arith(ex, FloatOp::Rem, OperandUse::Modulo, left, right),
            Instruction::Div => match (left, right) {
                (Value::Number(a), Value::Number(b)) => {
                    ex.waiting = Waiting::DivideCheck(a, b);
                    Ok(Action::Request(HostRequest::Float(FloatOp::Eq, b, 0)))
                },
                (l, r) => Err(VmError::TypeMismatch(OperandUse::Divide, l, r)),
            },
            Instruction::Eq => self.equality(ex, false, left, right),
            Instruction::Ne => self.equality(ex, true, left, right),
            Instruction::Lt => self.compare(ex, FloatOp::Lt, left, right),
            Instruction::Gt => self.compare(ex, FloatOp::Gt, left, right),
            Instruction::Le => self.compare(ex, FloatOp::Le, left, right),
            _ => self.compare(ex, FloatOp::Ge, left, right),
        }
    }

    fn arith(&mut self, ex: &mut Execution, op: FloatOp, u: OperandUse, left: Value, right: Value) -> (r:
        Result<Action, VmError>)
        ensures
            matches_outcome(
                machine(*final(self), *final(ex)),
                r,
                arith(machine(*old(self), *old(ex)), op, u, left@, right@),
            ),
    {
        match (left, right) {
            (Value::Number(a), Value::Number(b)) => {
                ex.waiting = Waiting::PushNumber;
                Ok(Action::Request(HostRequest::Float(op, a, b)))
            },
            (l, r) => Err(VmError::TypeMismatch(u, l, r)),
        }
    }

    fn compare(&mut self, ex: &mut Execution, op: FloatOp, left: Value, right: Value) -> (r: Result<
        Action,
        VmError,
    >)
        ensures
            matches_outcome(
                machine(*final(self), *final(ex)),
                r,
                compare(machine(*old(self), *old(ex)), op, left@, right@),
            ),
    {
        match (left, right) {
            (Value::Number(a), Value::Number(b)) => {
                ex.waiting = Waiting::PushTruth(false);
                Ok(Action::Request(HostRequest::Float(op, a, b)))
            },
            (l, r) => Err(VmError::TypeMismatch(OperandUse::Compare, l, r)),
        }
    }

    fn equality(&mut self, ex: &mut Execution, negate: bool, left: Value, right: Value) -> (r:
        Result<Action, VmError>)
        ensures
            matches_outcome(
                machine(*final(self), *final(ex)),
                r,
                equality(machine(*old(self), *old(ex)), negate, left@, right@),
            ),
    {
        match (&left, &right) {
            (Value::Number(a), Value::Number(b)) => {
                ex.waiting = Waiting::PushTruth(negate);
                return Ok(Action::Request(HostRequest::Float(FloatOp::Eq, *a, *b)));
            },
            _ => {},
        }
        let same = plain_equal(&left, &right);
        self.stack.push(Value::Boolean(same != negate));
        proof {
            assert(values_view(self.stack@) =~= values_view(old(self).stack@).push(
                ValueView::Boolean((left@ == right@) != negate),
            ));
        }
        Ok(Action::Continue)
    }
}


// ---------------------------------------------------------------------------
// Runs of well-formed code
// ---------------------------------------------------------------------------

/// Every function of the table fits a pool of `n` constants.
pub open spec fn table_ok(t: Seq<(Seq<char>, FunctionView)>, n: int) -> bool {
    forall|i: int| 0 <= i < t.len() ==> code_ok(#[trigger] t[i].1.code, n)
}

/// The code of every frame and of every function of the table fits the
/// constants of the run.
pub open spec fn machine_ok(m: MachineView) -> bool {
    &&& forall|i: int|
        0 <= i < m.frames.len() ==> code_ok(#[trigger] m.frames[i].code, m.constants.len() as int)
            && m.frames[i].pc >= 0
    &&& table_ok(m.functions, m.constants.len() as int)
}

/// A transition outcome that is not a missing constant.
pub open spec fn no_missing_constant(r: Result<ActionView, ErrorView>) -> bool {
    !(r matches Err(ErrorView::ConstantOutOfBounds(_)))
}

/// `m2` runs the same code as `m`, with the same constants and functions.
pub open spec fn same_code(m: MachineView, m2: MachineView) -> bool {
    &&& m2.frames == m.frames
    &&& m2.functions == m.functions
    &&& m2.constants == m.constants
}

proof fn lemma_binary_same_code(m: MachineView, op: InstrView, l: ValueView, r: ValueView)
    ensures
        same_code(m, binary(m, op, l, r).0),
        no_missing_constant(binary(m, op, l, r).1),
{
}

proof fn lemma_same_code_ok(m: MachineView, m2: MachineView)
    requires
        machine_ok(m),
        same_code(m, m2),
    ensures
        machine_ok(m2),
{
    assert forall|i: int| 0 <= i < m2.frames.len() implies code_ok(
        #[trigger] m2.frames[i].code,
        m2.constants.len() as int,
    ) && m2.frames[i].pc >= 0 by {
        assert(0 <= i < m.frames.len());
        let c = m.frames[i].code;
        assert(m.frames[i].pc >= 0);
        assert(code_ok(c, m.constants.len() as int));
    }
}

proof fn lemma_set_top_ok(m: MachineView, f: FrameView)
    requires
        machine_ok(m),
        m.frames.len() > 0,
        f.code == top(m).code,
        f.pc >= 0,
    ensures
        machine_ok(set_top(m, f)),
{
    let fs = set_top(m, f).frames;
    assert forall|i: int| 0 <= i < fs.len() implies code_ok(
        #[trigger] fs[i].code,
        m.constants.len() as int,
    ) && fs[i].pc >= 0 by {
        if i != m.frames.len() - 1 {
            assert(fs[i] == m.frames[i]);
        }
    }
}

proof fn lemma_drop_frame_ok(m: MachineView)
    requires
        machine_ok(m),
        m.frames.len() > 0,
    ensures
        machine_ok(MachineView { frames: m.frames.drop_last(), ..m }),
{
    let fs = m.frames.drop_last();
    assert forall|i: int| 0 <= i < fs.len() implies code_ok(
        #[trigger] fs[i].code,
        m.constants.len() as int,
    ) && fs[i].pc >= 0 by {
        assert(fs[i] == m.frames[i]);
        let c = m.frames[i].code;
        assert(m.frames[i].pc >= 0);
        assert(code_ok(c, m.constants.len() as int));
    }
}

/// Executing an instruction whose constant exists keeps the run well formed.
proof fn lemma_execute_ok(m: MachineView, inst: InstrView)
    requires
        machine_ok(m),
        m.frames.len() > 0,
        inst matches InstrView::LoadConst(k) ==> k < m.constants.len(),
    ensures
        no_missing_constant(execute(m, inst).1),
        execute(m, inst).1 is Ok ==> machine_ok(execute(m, inst).0),
{
    let n = m.constants.len() as int;
    let s = m.stack;
    let len = s.len();
    if same_code(m, execute(m, inst).0) {
        lemma_same_code_ok(m, execute(m, inst).0);
    }
    if is_binary(inst) {
        if len >= 2 {
            lemma_binary_same_code(drop_values(m, 2), inst, s[len - 2], s[len - 1]);
        }
    } else {
        match inst {
            InstrView::StoreVar(name) => {
                if len >= 1 && m.frames.len() > 1 {
                    let m1 = drop_values(m, 1);
                    lemma_same_code_ok(m, m1);
                    lemma_set_top_ok(
                        m1,
                        FrameView { locals: store(top(m).locals, name, s[len - 1]), ..top(m) },
                    );
                }
            },
            InstrView::Jump(t) => {
                lemma_set_top_ok(m, FrameView { pc: t as int, ..top(m) });
            },
            InstrView::JumpIfFalse(t) => {
                if len >= 1 && !truthy(s[len - 1]) {
                    let m1 = drop_values(m, 1);
                    lemma_same_code_ok(m, m1);
                    lemma_set_top_ok(m1, FrameView { pc: t as int, ..top(m1) });
                }
            },
            InstrView::Call(name, argc) => {
                lemma_find_key(m.functions, name);
                match crate::table::find_key(m.functions, name) {
                    Some(j) => {
                        let f = m.functions[j].1;
                        assert(code_ok(f.code, n));
                        if f.params.len() == argc && len >= argc {
                            let args = s.subrange(len - argc, len as int);
                            let frame = FrameView {
                                name,
                                code: f.code,
                                pc: 0,
                                locals: bind_args(f.params, args, argc as int),
                            };
                            let fs = m.frames.push(frame);
                            assert forall|i: int| 0 <= i < fs.len() implies code_ok(
                                #[trigger] fs[i].code,
                                n,
                            ) && fs[i].pc >= 0 by {
                                if i < m.frames.len() {
                                    assert(fs[i] == m.frames[i]);
                                    let c = m.frames[i].code;
                                    assert(m.frames[i].pc >= 0);
                                    assert(code_ok(c, n));
                                }
                            }
                        }
                    },
                    None => {},
                }
            },
            InstrView::Return => {
                lemma_drop_frame_ok(m);
            },
            _ => {},
        }
    }
}

/// Law: in a run whose code fits its constants, a step never fails on a
/// missing constant, and a step that succeeds leaves the run with code that
/// fits its constants.
pub proof fn law_step_keeps_code_ok(m: MachineView)
    requires
        machine_ok(m),
    ensures
        no_missing_constant(step_spec(m).1),
        step_spec(m).1 is Ok ==> machine_ok(step_spec(m).0),
{
    if m.waiting is Ready && !at_end(m) {
        let f = top(m);
        assert(code_ok(m.frames[m.frames.len() - 1].code, m.constants.len() as int)
            && m.frames[m.frames.len() - 1].pc >= 0);
        if f.pc < f.code.len() {
            let m1 = set_top(m, FrameView { pc: f.pc + 1, ..f });
            lemma_set_top_ok(m, FrameView { pc: f.pc + 1, ..f });
            assert(code_ok(m.frames[m.frames.len() - 1].code, m.constants.len() as int));
            assert(crate::codegen::instr_ok(
                f.code[f.pc],
                m.constants.len() as int,
                f.code.len() as int,
            ));
            lemma_execute_ok(m1, f.code[f.pc]);
        } else {
            lemma_drop_frame_ok(m);
        }
    } else if m.waiting is Ready {
        let done = MachineView { frames: Seq::empty(), waiting: WaitView::Finished, ..m };
        assert(machine_ok(done));
    }
}

/// Law: a reply of the host never changes the code, the constants or the
/// functions of the run.
pub proof fn law_resume_keeps_code(m: MachineView, reply: ReplyView)
    ensures
        same_code(m, resume_spec(m, reply).0),
        no_missing_constant(resume_spec(m, reply).1),
{
}

proof fn lemma_load_functions_ok(
    table: Seq<(Seq<char>, FunctionView)>,
    fs: Seq<FunctionView>,
    n: int,
)
    requires
        table_ok(table, n),
        forall|i: int| 0 <= i < fs.len() ==> function_ok(#[trigger] fs[i], n),
    ensures
        table_ok(load_functions(table, fs), n),
    decreases fs.len(),
{
    if fs.len() > 0 {
        let rest = fs.drop_last();
        assert forall|i: int| 0 <= i < rest.len() implies function_ok(#[trigger] rest[i], n) by {
            assert(rest[i] == fs[i]);
        }
        lemma_load_functions_ok(table, rest, n);
        let t = load_functions(table, rest);
        let f = fs.last();
        assert(function_ok(fs[fs.len() - 1], n));
        lemma_find_key(t, f.name);
        let t2 = store(t, f.name, f);
        assert forall|i: int| 0 <= i < t2.len() implies code_ok(#[trigger] t2[i].1.code, n) by {
            if i < t.len() && t2[i] == t[i] {
            } else {
                assert(t2[i].1 == f);
            }
        }
    }
}

/// Law: a run of a well-formed program, begun on a machine whose function
/// table fits the program's constants (an empty table does), has code that
/// fits its constants.
pub proof fn law_start_code_ok(m: MachineView, p: ProgramView)
    requires
        program_ok(p),
        table_ok(m.functions, p.constants.len() as int),
    ensures
        machine_ok(start_spec(m, p)),
{
    let n = p.constants.len() as int;
    let st = crate::codegen::CState { consts: p.constants, funcs: p.functions, code: p.code };
    assert forall|i: int| 0 <= i < p.functions.len() implies function_ok(
        #[trigger] p.functions[i],
        n,
    ) by {
        assert(st.funcs[i] == p.functions[i]);
    }
    lemma_load_functions_ok(m.functions, p.functions, n);
    let m2 = start_spec(m, p);
    assert(m2.constants.len() == n);
    assert(m2.frames[0].code == p.code);
}

/// Law: a run of a compiled program, begun on a machine with an empty
/// function table, starts with code that fits its constants; with
/// `law_step_keeps_code_ok` and `law_resume_keeps_code`, no step of the run
/// ever fails on a missing constant.
pub proof fn law_compiled_run_start_ok(ss: Seq<crate::ast::SStmt>, m: MachineView)
    requires
        m.functions.len() == 0,
    ensures
        crate::codegen::compile_spec(ss) matches Ok(p) ==> machine_ok(start_spec(m, p)),
{
    crate::codegen::law_compiled_program_well_formed(ss);
    if let Ok(p) = crate::codegen::compile_spec(ss) {
        law_start_code_ok(m, p);
    }
}

/// The state after the outcome `o` of an equality test, once the host has
/// answered the pending request, if any, with `answer`.
pub open spec fn settled(o: Outcome, answer: bool) -> MachineView {
    match o.1 {
        Ok(ActionView::Request(_)) => resume_spec(o.0, ReplyView::Truth(answer)).0,
        _ => o.0,
    }
}

/// Law: `!=` gives the negation of what `==` gives on the same operands: both
/// make the same request of the host (for two numbers) or none, and, with the
/// same answer, push opposite truth values.
pub proof fn law_ne_negates_eq(m: MachineView, l: ValueView, r: ValueView, answer: bool)
    ensures
        equality(m, true, l, r).1 == equality(m, false, l, r).1,
        ({
            let eq = settled(equality(m, false, l, r), answer);
            let ne = settled(equality(m, true, l, r), answer);
            &&& eq.stack.drop_last() == m.stack
            &&& ne.stack.drop_last() == m.stack
            &&& eq.stack.len() == m.stack.len() + 1
            &&& ne.stack.len() == m.stack.len() + 1
            &&& eq.stack.last() matches ValueView::Boolean(b) && ne.stack.last()
                == ValueView::Boolean(!b)
        }),
{
    let eq = settled(equality(m, false, l, r), answer);
    let ne = settled(equality(m, true, l, r), answer);
    assert(eq.stack.drop_last() =~= m.stack);
    assert(ne.stack.drop_last() =~= m.stack);
}

// ---------------------------------------------------------------------------
// What the instructions do
// ---------------------------------------------------------------------------

/// Law: `+` on two strings pushes the lower one followed by the upper one,
/// in place of the two.
pub proof fn law_add_joins_strings(m: MachineView, a: Seq<char>, b: Seq<char>)
    requires
        m.stack.len() >= 2,
        m.stack[m.stack.len() - 2] == ValueView::Str(a),
        m.stack[m.stack.len() - 1] == ValueView::Str(b),
    ensures
        execute(m, InstrView::Add) == (
            MachineView {
                stack: m.stack.subrange(0, m.stack.len() - 2).push(ValueView::Str(a + b)),
                ..m
            },
            Ok::<ActionView, ErrorView>(ActionView::Continue),
        ),
        execute(m, InstrView::Add).0.stack.last() matches ValueView::Str(t) && t.subrange(
            0,
            a.len() as int,
        ) == a && t.subrange(a.len() as int, t.len() as int) == b,
{
    let t = a + b;
    assert(t.subrange(0, a.len() as int) =~= a);
    assert(t.subrange(a.len() as int, t.len() as int) =~= b);
}

/// No name occurs twice.
pub open spec fn distinct_names(ps: Seq<Seq<char>>) -> bool {
    forall|i: int, j: int| 0 <= i < j < ps.len() ==> ps[i] != ps[j]
}

proof fn lemma_bind_args(params: Seq<Seq<char>>, args: Seq<ValueView>, k: int)
    requires
        distinct_names(params),
        args.len() == params.len(),
        0 <= k <= params.len(),
    ensures
        forall|j: int|
            params.len() - k <= j < params.len() ==> lookup(
                #[trigger] bind_args(params, args, k),
                params[j],
            ) == Some(args[j]),
    decreases k,
{
    if k > 0 {
        lemma_bind_args(params, args, k - 1);
        let i = params.len() - k;
        let prev = bind_args(params, args, k - 1);
        assert(bind_args(params, args, k) == store(prev, params[i], args[i]));
        assert forall|j: int| params.len() - k <= j < params.len() implies lookup(
            #[trigger] bind_args(params, args, k),
            params[j],
        ) == Some(args[j]) by {
            if j == i {
                law_lookup_store_same(prev, params[i], args[i]);
            } else {
                assert(params[i] != params[j]);
                law_lookup_store_other(prev, params[i], args[i], params[j]);
            }
        }
    }
}

/// Law: a call of a function with distinct parameters binds each parameter
/// to its argument: the `j`-th parameter to the value `argc - j` places from
/// the top of the stack, the arguments being pushed in order. The arguments
/// leave the stack, and the function runs in a new frame from its start.
pub proof fn law_call_binds_arguments(m: MachineView, name: Seq<char>, argc: usize)
    requires
        m.frames.len() > 0,
        lookup(m.functions, name) matches Some(f) && f.params.len() == argc && distinct_names(
            f.params,
        ),
        m.stack.len() >= argc,
    ensures
        ({
            let f = lookup(m.functions, name)->Some_0;
            let r = execute(m, InstrView::Call(name, argc));
            let n = m.stack.len();
            let callee = r.0.frames.last();
            &&& r.1 == Ok::<ActionView, ErrorView>(ActionView::Continue)
            &&& r.0.stack == m.stack.subrange(0, n - argc)
            &&& r.0.globals == m.globals
            &&& r.0.frames.len() == m.frames.len() + 1
            &&& r.0.frames.drop_last() == m.frames
            &&& callee.code == f.code
            &&& callee.pc == 0
            &&& forall|j: int|
                0 <= j < argc ==> lookup(callee.locals, #[trigger] f.params[j]) == Some(
                    m.stack[n - argc + j],
                )
        }),
{
    let f = lookup(m.functions, name)->Some_0;
    let n = m.stack.len();
    let args = m.stack.subrange(n - argc, n as int);
    lemma_bind_args(f.params, args, argc as int);
    let r = execute(m, InstrView::Call(name, argc));
    assert(r.0.frames.drop_last() =~= m.frames);
    assert forall|j: int| 0 <= j < argc implies lookup(
        r.0.frames.last().locals,
        #[trigger] f.params[j],
    ) == Some(m.stack[n - argc + j]) by {
        assert(lookup(bind_args(f.params, args, argc as int), f.params[j]) == Some(args[j]));
    }
}

/// Law: `StoreVar` takes the top value off the stack and stores it under its
/// name: in a function's frame among that frame's locals, leaving the
/// globals and the frames below as they are; in the main frame among the
/// globals, leaving the frames as they are. Every other name keeps its value.
pub proof fn law_store_var_scope(m: MachineView, name: Seq<char>)
    requires
        m.frames.len() > 0,
        m.stack.len() >= 1,
    ensures
        ({
            let r = execute(m, InstrView::StoreVar(name));
            let v = m.stack.last();
            &&& r.1 == Ok::<ActionView, ErrorView>(ActionView::Continue)
            &&& r.0.stack == m.stack.drop_last()
            &&& r.0.functions == m.functions
            &&& m.frames.len() > 1 ==> {
                &&& r.0.globals == m.globals
                &&& r.0.frames.len() == m.frames.len()
                &&& r.0.frames.drop_last() == m.frames.drop_last()
                &&& r.0.frames.last().code == top(m).code
                &&& r.0.frames.last().pc == top(m).pc
                &&& lookup(r.0.frames.last().locals, name) == Some(v)
                &&& forall|k: Seq<char>|
                    k != name ==> lookup(r.0.frames.last().locals, k) == lookup(top(m).locals, k)
            }
            &&& m.frames.len() == 1 ==> {
                &&& r.0.frames == m.frames
                &&& lookup(r.0.globals, name) == Some(v)
                &&& forall|k: Seq<char>| k != name ==> lookup(r.0.globals, k) == lookup(m.globals, k)
            }
        }),
{
    let r = execute(m, InstrView::StoreVar(name));
    let v = m.stack.last();
    assert(r.0.stack =~= m.stack.drop_last());
    if m.frames.len() > 1 {
        assert(r.0.frames.drop_last() =~= m.frames.drop_last());
        law_lookup_store_same(top(m).locals, name, v);
        assert forall|k: Seq<char>| k != name implies lookup(r.0.frames.last().locals, k) == lookup(
            top(m).locals,
            k,
        ) by {
            law_lookup_store_other(top(m).locals, name, v, k);
        }
    } else {
        law_lookup_store_same(m.globals, name, v);
        assert forall|k: Seq<char>| k != name implies lookup(r.0.globals, k) == lookup(m.globals, k) by {
            law_lookup_store_other(m.globals, name, v, k);
        }
    }
}

/// The state after a binary instruction on two numbers: both operands off
/// the stack and `w` pending.
pub open spec fn operands_taken(m: MachineView, w: WaitView) -> MachineView {
    MachineView { stack: m.stack.subrange(0, m.stack.len() - 2), waiting: w, ..m }
}

/// Law: a binary instruction on two numbers `a` (below) and `b` (on top)
/// takes both off the stack and asks the host the operation it names, on
/// `a` then `b`: `+ - * %` ask for the number `a op b`; `< > <= >=` and `==`
/// ask whether `a op b` holds; `!=` asks whether `a == b` holds and pushes the
/// opposite; `/` first asks whether `b` is zero.
pub proof fn law_binary_on_numbers(m: MachineView, inst: InstrView, a: u64, b: u64)
    requires
        is_binary(inst),
        m.stack.len() >= 2,
        m.stack[m.stack.len() - 2] == ValueView::Number(a),
        m.stack[m.stack.len() - 1] == ValueView::Number(b),
    ensures
        ({
            let r = execute(m, inst);
            let ask_number = |op: FloatOp|
                r == (operands_taken(m, WaitView::PushNumber), Ok::<ActionView, ErrorView>(
                    ActionView::Request(RequestView::Float(op, a, b)),
                ));
            let ask_truth = |op: FloatOp, negate: bool|
                r == (operands_taken(m, WaitView::PushTruth(negate)), Ok::<ActionView, ErrorView>(
                    ActionView::Request(RequestView::Float(op, a, b)),
                ));
            &&& inst == InstrView::Add ==> ask_number(FloatOp::Add)
            &&& inst == InstrView::Sub ==> ask_number(FloatOp::Sub)
            &&& inst == InstrView::Mul ==> ask_number(FloatOp::Mul)
            &&& inst == InstrView::Mod ==> ask_number(FloatOp::Rem)
            &&& inst == InstrView::Lt ==> ask_truth(FloatOp::Lt, false)
            &&& inst == InstrView::Gt ==> ask_truth(FloatOp::Gt, false)
            &&& inst == InstrView::Le ==> ask_truth(FloatOp::Le, false)
            &&& inst == InstrView::Ge ==> ask_truth(FloatOp::Ge, false)
            &&& inst == InstrView::Eq ==> ask_truth(FloatOp::Eq, false)
            &&& inst == InstrView::Ne ==> ask_truth(FloatOp::Eq, true)
            &&& inst == InstrView::Div ==> r == (
                operands_taken(m, WaitView::DivideCheck(a, b)),
                Ok::<ActionView, ErrorView>(ActionView::Request(RequestView::Float(FloatOp::Eq, b, 0))),
            )
        }),
{
    let n = m.stack.len();
    assert(m.stack.subrange(0, n - 2) == drop_values(m, 2).stack);
}

/// Law: the host's answers are taken as asked. A number answer is pushed; a
/// truth answer is pushed, or its opposite for `!=`; the text of a number is
/// joined after the string that stood below it, or before the string that
/// stood above it; to the question whether
/// the divisor is zero, yes fails with a division by zero, and no asks for
/// the quotient of the two numbers, in their order.
pub proof fn law_replies_taken(
    m: MachineView,
    x: u64,
    t: bool,
    s: Seq<char>,
    u: Seq<char>,
    a: u64,
    b: u64,
)
    ensures
        m.waiting == WaitView::PushNumber ==> resume_spec(m, ReplyView::Number(x)) == (
            MachineView { stack: m.stack.push(ValueView::Number(x)), waiting: WaitView::Ready, ..m },
            Ok::<ActionView, ErrorView>(ActionView::Continue),
        ),
        m.waiting == WaitView::PushTruth(false) ==> resume_spec(m, ReplyView::Truth(t)).0.stack
            == m.stack.push(ValueView::Boolean(t)),
        m.waiting == WaitView::PushTruth(true) ==> resume_spec(m, ReplyView::Truth(t)).0.stack
            == m.stack.push(ValueView::Boolean(!t)),
        m.waiting == WaitView::AppendText(s) ==> resume_spec(m, ReplyView::Text(u)).0.stack
            == m.stack.push(ValueView::Str(s + u)),
        m.waiting == WaitView::PrependText(s) ==> resume_spec(m, ReplyView::Text(u)).0.stack
            == m.stack.push(ValueView::Str(u + s)),
        m.waiting == WaitView::DivideCheck(a, b) ==> resume_spec(m, ReplyView::Truth(true)).1
            == Err::<ActionView, ErrorView>(ErrorView::DivisionByZero),
        m.waiting == WaitView::DivideCheck(a, b) ==> resume_spec(m, ReplyView::Truth(false)) == (
            MachineView { waiting: WaitView::PushNumber, ..m },
            Ok::<ActionView, ErrorView>(ActionView::Request(RequestView::Float(FloatOp::Div, a, b))),
        ),
{
}

/// Law: `==` and `!=` on two values that are not both numbers compare them
/// as values: the same kind with the same contents are equal.
pub proof fn law_equality_on_values(m: MachineView, inst: InstrView, l: ValueView, r: ValueView)
    requires
        inst == InstrView::Eq || inst == InstrView::Ne,
        !(l is Number && r is Number),
        m.stack.len() >= 2,
        m.stack[m.stack.len() - 2] == l,
        m.stack[m.stack.len() - 1] == r,
    ensures
        execute(m, inst) == (
            MachineView {
                stack: m.stack.subrange(0, m.stack.len() - 2).push(
                    ValueView::Boolean(if inst == InstrView::Eq {
                        l == r
                    } else {
                        l != r
                    }),
                ),
                ..m
            },
            Ok::<ActionView, ErrorView>(ActionView::Continue),
        ),
{
}

/// Law: `JumpIfFalse` takes the top value off the stack and jumps exactly
/// when it is `false` or nil; otherwise the frame goes on where it stands.
pub proof fn law_jump_if_false(m: MachineView, t: usize)
    requires
        m.frames.len() > 0,
        m.stack.len() >= 1,
    ensures
        ({
            let r = execute(m, InstrView::JumpIfFalse(t));
            let v = m.stack.last();
            let jumps = v == ValueView::Boolean(false) || v == ValueView::Nil;
            &&& r.1 == Ok::<ActionView, ErrorView>(ActionView::Continue)
            &&& r.0.stack == m.stack.drop_last()
            &&& r.0.frames.len() == m.frames.len()
            &&& r.0.frames.drop_last() == m.frames.drop_last()
            &&& r.0.frames.last().code == top(m).code
            &&& r.0.frames.last().locals == top(m).locals
            &&& r.0.frames.last().pc == if jumps {
                t as int
            } else {
                top(m).pc
            }
        }),
{
    let r = execute(m, InstrView::JumpIfFalse(t));
    assert(r.0.stack =~= m.stack.drop_last());
    assert(r.0.frames.drop_last() =~= m.frames.drop_last());
}

/// Law: `LoadVar` pushes the value of the name among the top frame's
/// locals, or else among the globals, and fails when neither holds it.
pub proof fn law_load_var(m: MachineView, name: Seq<char>)
    requires
        m.frames.len() > 0,
    ensures
        ({
            let r = execute(m, InstrView::LoadVar(name));
            match lookup(top(m).locals, name) {
                Some(v) => r == (MachineView { stack: m.stack.push(v), ..m }, Ok::<ActionView, ErrorView>(ActionView::Continue)),
                None => match lookup(m.globals, name) {
                    Some(v) => r == (MachineView { stack: m.stack.push(v), ..m }, Ok::<ActionView, ErrorView>(ActionView::Continue)),
                    None => r.1 == Err::<ActionView, ErrorView>(ErrorView::UndefinedVariable(name)),
                },
            }
        }),
{
}

/// Law: `+` on a string and a number asks the host for the text of the
/// number and joins it on the side where the number stood.
pub proof fn law_add_string_and_number(m: MachineView, a: Seq<char>, x: u64)
    requires
        m.stack.len() >= 2,
    ensures
        m.stack[m.stack.len() - 2] == ValueView::Str(a) && m.stack[m.stack.len() - 1]
            == ValueView::Number(x) ==> execute(m, InstrView::Add) == (
            operands_taken(m, WaitView::AppendText(a)),
            Ok::<ActionView, ErrorView>(ActionView::Request(RequestView::Text(x))),
        ),
        m.stack[m.stack.len() - 2] == ValueView::Number(x) && m.stack[m.stack.len() - 1]
            == ValueView::Str(a) ==> execute(m, InstrView::Add) == (
            operands_taken(m, WaitView::PrependText(a)),
            Ok::<ActionView, ErrorView>(ActionView::Request(RequestView::Text(x))),
        ),
{
}

/// Law: `- * / %` and the order comparisons need two numbers; on anything
/// else they fail, naming the operation and both operands, lower first.
/// `+` fails unless it has two numbers, two strings, or a string and a
/// number.
pub proof fn law_binary_type_errors(m: MachineView, inst: InstrView, l: ValueView, r: ValueView)
    requires
        m.stack.len() >= 2,
        m.stack[m.stack.len() - 2] == l,
        m.stack[m.stack.len() - 1] == r,
        !(l is Number && r is Number),
    ensures
        ({
            let e = execute(m, inst).1;
            &&& inst == InstrView::Sub ==> e == Err::<ActionView, ErrorView>(
                ErrorView::TypeMismatch(OperandUse::Subtract, l, r),
            )
            &&& inst == InstrView::Mul ==> e == Err::<ActionView, ErrorView>(
                ErrorView::TypeMismatch(OperandUse::Multiply, l, r),
            )
            &&& inst == InstrView::Div ==> e == Err::<ActionView, ErrorView>(
                ErrorView::TypeMismatch(OperandUse::Divide, l, r),
            )
            &&& inst == InstrView::Mod ==> e == Err::<ActionView, ErrorView>(
                ErrorView::TypeMismatch(OperandUse::Modulo, l, r),
            )
            &&& (inst == InstrView::Lt || inst == InstrView::Gt || inst == InstrView::Le || inst
                == InstrView::Ge) ==> e == Err::<ActionView, ErrorView>(
                ErrorView::TypeMismatch(OperandUse::Compare, l, r),
            )
            &&& (inst == InstrView::Add && !(l is Str && r is Str) && !(l is Str && r is Number)
                && !(l is Number && r is Str)) ==> e == Err::<ActionView, ErrorView>(
                ErrorView::TypeMismatch(OperandUse::Add, l, r),
            )
        }),
{
}

/// Law: the instructions that move values and control. `LoadConst` pushes
/// the constant at its index; `Pop` drops the top value; `Print` takes the
/// top value off and asks the host to print it; `Jump` moves the frame's
/// counter to its target; `Return` leaves the function's frame, keeping its
/// result on the stack.
pub proof fn law_simple_instructions(m: MachineView, k: usize, t: usize)
    requires
        m.frames.len() > 0,
    ensures
        k < m.constants.len() ==> execute(m, InstrView::LoadConst(k)) == (
            MachineView { stack: m.stack.push(m.constants[k as int]), ..m },
            Ok::<ActionView, ErrorView>(ActionView::Continue),
        ),
        m.stack.len() >= 1 ==> execute(m, InstrView::Pop) == (
            MachineView { stack: m.stack.drop_last(), ..m },
            Ok::<ActionView, ErrorView>(ActionView::Continue),
        ),
        m.stack.len() >= 1 ==> execute(m, InstrView::Print) == (
            MachineView { stack: m.stack.drop_last(), waiting: WaitView::Printing, ..m },
            Ok::<ActionView, ErrorView>(ActionView::Request(RequestView::Print(m.stack.last()))),
        ),
        ({
            let r = execute(m, InstrView::Jump(t));
            &&& r.1 == Ok::<ActionView, ErrorView>(ActionView::Continue)
            &&& r.0.stack == m.stack
            &&& r.0.frames.drop_last() == m.frames.drop_last()
            &&& r.0.frames.last() == FrameView { pc: t as int, ..top(m) }
        }),
        execute(m, InstrView::Return) == (
            MachineView { frames: m.frames.drop_last(), ..m },
            Ok::<ActionView, ErrorView>(ActionView::Continue),
        ),
{
    assert(drop_values(m, 1).stack =~= m.stack.drop_last());
    let r = execute(m, InstrView::Jump(t));
    assert(r.0.frames.drop_last() =~= m.frames.drop_last());
}

} // verus!
