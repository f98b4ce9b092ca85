//! The stack discipline of compiled code.
//!
//! A height map `hs` gives, for each position of a code, how many values the
//! code has pushed in its frame when it reaches that position. Code fits a
//! height map when every instruction finds the values it takes and leaves the
//! height that each of its successors expects. The compiler's output fits
//! such a map, and a run of code that fits never finds its stack too short.
use vstd::prelude::*;
use crate::ast::{SExpr, SStmt};
use crate::codegen::{
    add_const, binary_instr, compile_expr, compile_exprs, compile_spec, compile_stmt,
    compile_stmts, emit, load_const, patch, CState, ConstView, FunctionView, InstrView,
    ProgramView,
};
use crate::table::{lemma_find_key, store};
use crate::vm::{
    at_end, binary, drop_values, execute, is_binary, load_functions, resume_spec, set_top,
    start_spec, step_spec, top, ActionView, ErrorView, FrameView, MachineView, ReplyView, ValueView,
    WaitView,
};

verus! {

/// The instruction `i` at `pc`, reached with `hs(pc)` values pushed, finds the
/// values it takes, and leaves at each successor the height that `hs` gives
/// there; its jump stays within `[lo, hi]`, and it is a `Return` only where
/// `ret` allows one, with exactly the result left.
pub open spec fn step_fits(
    i: InstrView,
    pc: int,
    hs: spec_fn(int) -> int,
    lo: int,
    hi: int,
    ret: bool,
) -> bool {
    let h = hs(pc);
    match i {
        InstrView::LoadConst(_) => hs(pc + 1) == h + 1,
        InstrView::LoadVar(_) => hs(pc + 1) == h + 1,
        InstrView::StoreVar(_) => h >= 1 && hs(pc + 1) == h - 1,
        InstrView::Pop => h >= 1 && hs(pc + 1) == h - 1,
        InstrView::Print => h >= 1 && hs(pc + 1) == h - 1,
        InstrView::Jump(t) => lo <= t <= hi && hs(t as int) == h,
        InstrView::JumpIfFalse(t) => h >= 1 && lo <= t <= hi && hs(t as int) == h - 1 && hs(pc + 1)
            == h - 1,
        InstrView::Call(_, argc) => h >= argc && hs(pc + 1) == h - argc + 1,
        InstrView::Return => ret && h == 1,
        _ => h >= 2 && hs(pc + 1) == h - 1,
    }
}

/// The instructions of `code` at `[lo, hi)` fit the height map `hs`.
pub open spec fn fits(
    code: Seq<InstrView>,
    lo: int,
    hi: int,
    hs: spec_fn(int) -> int,
    ret: bool,
) -> bool {
    &&& 0 <= lo <= hi <= code.len()
    &&& forall|pc: int| lo <= pc < hi ==> step_fits(#[trigger] code[pc], pc, hs, lo, hi, ret)
}

/// `b` begins with `a`.
pub open spec fn prefix_kept(a: Seq<InstrView>, b: Seq<InstrView>) -> bool {
    &&& a.len() <= b.len()
    &&& forall|k: int| 0 <= k < a.len() ==> #[trigger] b[k] == a[k]
}

/// A height map for a whole code that starts at zero. The code of a function
/// (`callee`) ends, like every `Return` in it, at one: the function leaves
/// exactly its result. Main code has no `Return` and ends at zero.
pub open spec fn cert_ok(code: Seq<InstrView>, callee: bool, hs: spec_fn(int) -> int) -> bool {
    &&& fits(code, 0, code.len() as int, hs, callee)
    &&& hs(0) == 0
    &&& hs(code.len() as int) == if callee {
        1int
    } else {
        0int
    }
}

/// The code has a height map: it keeps its stack in order.
pub open spec fn balanced(code: Seq<InstrView>, callee: bool) -> bool {
    exists|hs: spec_fn(int) -> int| #[trigger] cert_ok(code, callee, hs)
}

/// A height map of the code, where it has one.
pub open spec fn cert(code: Seq<InstrView>, callee: bool) -> spec_fn(int) -> int {
    choose|hs: spec_fn(int) -> int| cert_ok(code, callee, hs)
}

/// Every function whose code a `Vec` can hold is balanced.
pub open spec fn funcs_balanced(fs: Seq<FunctionView>) -> bool {
    forall|i: int|
        0 <= i < fs.len() && fs[i].code.len() <= usize::MAX ==> balanced(#[trigger] fs[i].code, true)
}

/// The number of items from index `i` on, in a list of `n` items.
pub open spec fn remaining(n: int, i: int) -> int {
    if 0 <= i < n {
        n - i
    } else {
        0
    }
}

/// Part of a fitting code, kept inside a larger code and a larger height map
/// that agree with it, still fits.
proof fn lemma_fits_part(
    code: Seq<InstrView>,
    lo: int,
    hi: int,
    hs: spec_fn(int) -> int,
    big: Seq<InstrView>,
    hs2: spec_fn(int) -> int,
    lo2: int,
    hi2: int,
    ret: bool,
)
    requires
        fits(code, lo, hi, hs, false),
        hi <= big.len(),
        forall|k: int| lo <= k < hi ==> big[k] == code[k],
        forall|k: int| lo <= k <= hi ==> #[trigger] hs2(k) == hs(k),
        lo2 <= lo,
        hi <= hi2,
    ensures
        forall|pc: int| lo <= pc < hi ==> step_fits(#[trigger] big[pc], pc, hs2, lo2, hi2, ret),
{
    assert forall|pc: int| lo <= pc < hi implies step_fits(
        #[trigger] big[pc],
        pc,
        hs2,
        lo2,
        hi2,
        ret,
    ) by {
        assert(big[pc] == code[pc]);
        assert(step_fits(code[pc], pc, hs, lo, hi, false));
        assert(hs2(pc) == hs(pc));
        assert(hs2(pc + 1) == hs(pc + 1));
        match code[pc] {
            InstrView::Jump(t) => {
                assert(hs2(t as int) == hs(t as int));
            },
            InstrView::JumpIfFalse(t) => {
                assert(hs2(t as int) == hs(t as int));
            },
            _ => {},
        }
    }
}

/// Appending one instruction keeps the code before it.
proof fn lemma_push_kept(code: Seq<InstrView>, i: InstrView)
    ensures
        prefix_kept(code, code.push(i)),
{
}

/// A code that ends with one more instruction `i` at `at`, reached with height
/// `hs(at)`, still fits when the instruction fits.
proof fn lemma_fits_one(code: Seq<InstrView>, lo: int, hs: spec_fn(int) -> int, ret: bool)
    requires
        0 <= lo < code.len(),
        forall|pc: int|
            lo <= pc < code.len() - 1 ==> step_fits(#[trigger] code[pc], pc, hs, lo, code.len() as int, ret),
        step_fits(code[code.len() - 1], code.len() - 1, hs, lo, code.len() as int, ret),
    ensures
        fits(code, lo, code.len() as int, hs, ret),
{
    assert forall|pc: int| lo <= pc < code.len() implies step_fits(
        #[trigger] code[pc],
        pc,
        hs,
        lo,
        code.len() as int,
        ret,
    ) by {
        if pc < code.len() - 1 {
        } else {
            assert(pc == code.len() - 1);
        }
    }
}

/// Loading a constant appends one instruction that pushes one value.
proof fn lemma_load_const_fits(st: CState, c: ConstView, h: int)
    ensures
        prefix_kept(st.code, load_const(st, c).code),
        load_const(st, c).code.len() == st.code.len() + 1,
        load_const(st, c).funcs == st.funcs,
        fits(
            load_const(st, c).code,
            st.code.len() as int,
            st.code.len() + 1int,
            |k: int|
                if k <= st.code.len() {
                    h
                } else {
                    h + 1
                },
            false,
        ),
{
    let st1 = add_const(st, c).0;
    let code = load_const(st, c).code;
    assert(code == st.code.push(code.last()));
    lemma_push_kept(st.code, code.last());
    let hs = |k: int|
        if k <= st.code.len() {
            h
        } else {
            h + 1
        };
    lemma_fits_one(code, st.code.len() as int, hs, false);
}

/// Compiling an expression appends code that pushes exactly one value.
pub proof fn lemma_expr_fits(st: CState, e: SExpr, h: int) -> (hs: spec_fn(int) -> int)
    requires
        h >= 0,
    ensures
        compile_expr(st, e) matches Ok(st2) ==> {
            &&& prefix_kept(st.code, st2.code)
            &&& st2.code.len() > st.code.len()
            &&& funcs_balanced(st.funcs) ==> funcs_balanced(st2.funcs)
            &&& st2.code.len() <= usize::MAX ==> {
                &&& fits(st2.code, st.code.len() as int, st2.code.len() as int, hs, false)
                &&& hs(st.code.len() as int) == h
                &&& hs(st2.code.len() as int) == h + 1
            }
        },
    decreases e, 0int,
{
    let l0 = st.code.len() as int;
    let one = |k: int|
        if k <= l0 {
            h
        } else {
            h + 1
        };
    match e {
        SExpr::Number(n) => {
            lemma_load_const_fits(st, ConstView::Number(n), h);
            one
        },
        SExpr::Str(s) => {
            lemma_load_const_fits(st, ConstView::Str(s), h);
            one
        },
        SExpr::Boolean(b) => {
            lemma_load_const_fits(st, ConstView::Boolean(b), h);
            one
        },
        SExpr::Identifier(n) => {
            let code = emit(st, InstrView::LoadVar(n)).code;
            lemma_push_kept(st.code, InstrView::LoadVar(n));
            lemma_fits_one(code, l0, one, false);
            one
        },
        SExpr::BinaryOp(op, l, r) => {
            let hs1 = lemma_expr_fits(st, *l, h);
            match compile_expr(st, *l) {
                Ok(st1) => {
                    let l1 = st1.code.len() as int;
                    let hs2 = lemma_expr_fits(st1, *r, h + 1);
                    match compile_expr(st1, *r) {
                        Ok(st2) => {
                            let l2 = st2.code.len() as int;
                            match binary_instr(op) {
                                Some(i) => {
                                    let st3 = emit(st2, i);
                                    lemma_push_kept(st2.code, i);
                                    let hs = |k: int|
                                        if k <= l1 {
                                            hs1(k)
                                        } else if k <= l2 {
                                            hs2(k)
                                        } else {
                                            h + 1
                                        };
                                    if st3.code.len() <= usize::MAX {
                                        lemma_fits_part(st1.code, l0, l1, hs1, st3.code, hs, l0, l2 + 1, false);
                                        lemma_fits_part(st2.code, l1, l2, hs2, st3.code, hs, l0, l2 + 1, false);
                                        lemma_fits_one(st3.code, l0, hs, false);
                                    }
                                    return hs;
                                },
                                None => {},
                            }
                        },
                        Err(_) => {},
                    }
                },
                Err(_) => {},
            }
            hs1
        },
        SExpr::Block(ss, t) => {
            let hs1 = lemma_stmts_fits(st, ss, 0, h);
            match compile_stmts(st, ss, 0) {
                Ok(st1) => {
                    let l1 = st1.code.len() as int;
                    match t {
                        Some(x) => {
                            let hs2 = lemma_expr_fits(st1, *x, h);
                            let hs = |k: int|
                                if k <= l1 {
                                    hs1(k)
                                } else {
                                    hs2(k)
                                };
                            if let Ok(st2) = compile_expr(st1, *x) {
                                if st2.code.len() <= usize::MAX {
                                    let l2 = st2.code.len() as int;
                                    lemma_fits_part(st1.code, l0, l1, hs1, st2.code, hs, l0, l2, false);
                                    lemma_fits_part(st2.code, l1, l2, hs2, st2.code, hs, l0, l2, false);
                                    assert forall|pc: int| l0 <= pc < l2 implies step_fits(
                                        #[trigger] st2.code[pc],
                                        pc,
                                        hs,
                                        l0,
                                        l2,
                                        false,
                                    ) by {
                                        if pc < l1 {
                                        }
                                    }
                                }
                            }
                            hs
                        },
                        None => {
                            let st2 = load_const(st1, ConstView::Nil);
                            lemma_load_const_fits(st1, ConstView::Nil, h);
                            let hs_nil = |k: int|
                                if k <= l1 {
                                    h
                                } else {
                                    h + 1
                                };
                            let hs = |k: int|
                                if k <= l1 {
                                    hs1(k)
                                } else {
                                    h + 1
                                };
                            if st2.code.len() <= usize::MAX {
                                let l2 = st2.code.len() as int;
                                lemma_fits_part(st1.code, l0, l1, hs1, st2.code, hs, l0, l2, false);
                                lemma_fits_part(st2.code, l1, l2, hs_nil, st2.code, hs, l0, l2, false);
                                assert forall|pc: int| l0 <= pc < l2 implies step_fits(
                                    #[trigger] st2.code[pc],
                                    pc,
                                    hs,
                                    l0,
                                    l2,
                                    false,
                                ) by {
                                    if pc < l1 {
                                    }
                                }
                            }
                            hs
                        },
                    }
                },
                Err(_) => hs1,
            }
        },
        SExpr::Call(name, args) => {
            if name == "print"@ {
                if args.len() == 1 {
                    let hs1 = lemma_expr_fits(st, args[0], h);
                    match compile_expr(st, args[0]) {
                        Ok(st1) => {
                            let l1 = st1.code.len() as int;
                            let stp = emit(st1, InstrView::Print);
                            lemma_push_kept(st1.code, InstrView::Print);
                            let st2 = load_const(stp, ConstView::Nil);
                            lemma_load_const_fits(stp, ConstView::Nil, h);
                            let hs = |k: int|
                                if k <= l1 {
                                    hs1(k)
                                } else if k == l1 + 1 {
                                    h
                                } else {
                                    h + 1
                                };
                            if st2.code.len() <= usize::MAX {
                                let l2 = st2.code.len() as int;
                                lemma_fits_part(st1.code, l0, l1, hs1, st2.code, hs, l0, l2, false);
                                assert(st2.code[l1] == InstrView::Print);
                                assert forall|pc: int| l0 <= pc < l2 implies step_fits(
                                    #[trigger] st2.code[pc],
                                    pc,
                                    hs,
                                    l0,
                                    l2,
                                    false,
                                ) by {
                                    if pc < l1 {
                                    } else if pc == l1 {
                                    } else {
                                        assert(pc == l1 + 1);
                                        assert(st2.code[pc] is LoadConst);
                                    }
                                }
                            }
                            hs
                        },
                        Err(_) => hs1,
                    }
                } else {
                    one
                }
            } else {
                let hs1 = lemma_exprs_fits(st, args, 0, h);
                match compile_exprs(st, args, 0) {
                    Ok(st1) => {
                        let l1 = st1.code.len() as int;
                        let i = InstrView::Call(name, args.len() as usize);
                        let st2 = emit(st1, i);
                        lemma_push_kept(st1.code, i);
                        let hs = |k: int|
                            if k <= l1 {
                                hs1(k)
                            } else {
                                h + 1
                            };
                        if st2.code.len() <= usize::MAX {
                            let l2 = st2.code.len() as int;
                            lemma_fits_part(st1.code, l0, l1, hs1, st2.code, hs, l0, l2, false);
                            assert(args.len() <= l1 - l0);
                            lemma_fits_one(st2.code, l0, hs, false);
                        }
                        hs
                    },
                    Err(_) => hs1,
                }
            }
        },
        SExpr::If(c, t, f) => {
            let hs1 = lemma_expr_fits(st, *c, h);
            match compile_expr(st, *c) {
                Ok(st1) => {
                    let l1 = st1.code.len() as int;
                    let st2 = emit(st1, InstrView::JumpIfFalse(0));
                    lemma_push_kept(st1.code, InstrView::JumpIfFalse(0));
                    let hs3 = lemma_expr_fits(st2, *t, h);
                    match compile_expr(st2, *t) {
                        Ok(st3) => {
                            let l3 = st3.code.len() as int;
                            let st4 = emit(st3, InstrView::Jump(0));
                            lemma_push_kept(st3.code, InstrView::Jump(0));
                            let l4 = l3 + 1;
                            let st5 = patch(st4, l1, InstrView::JumpIfFalse(l4 as usize));
                            let hs6 = lemma_expr_fits(st5, *f, h);
                            match compile_expr(st5, *f) {
                                Ok(st6) => {
                                    let l6 = st6.code.len() as int;
                                    let st7 = patch(st6, l3, InstrView::Jump(l6 as usize));
                                    let hs = |k: int|
                                        if k <= l1 {
                                            hs1(k)
                                        } else if k <= l3 {
                                            hs3(k)
                                        } else {
                                            hs6(k)
                                        };
                                    let code = st7.code;
                                    assert(code.len() == l6);
                                    assert forall|k: int| 0 <= k < l0 implies #[trigger] code[k]
                                        == st.code[k] by {
                                        assert(st2.code[k] == st1.code[k]);
                                        assert(st3.code[k] == st2.code[k]);
                                        assert(st6.code[k] == st5.code[k]);
                                    }
                                    if l6 <= usize::MAX {
                                        assert forall|k: int| l0 <= k < l1 implies #[trigger] code[k]
                                            == st1.code[k] by {
                                            assert(st2.code[k] == st1.code[k]);
                                            assert(st3.code[k] == st2.code[k]);
                                            assert(st6.code[k] == st5.code[k]);
                                        }
                                        assert forall|k: int| l1 + 1 <= k < l3 implies #[trigger] code[k]
                                            == st3.code[k] by {
                                            assert(st6.code[k] == st5.code[k]);
                                        }
                                        lemma_fits_part(st1.code, l0, l1, hs1, code, hs, l0, l6, false);
                                        lemma_fits_part(st3.code, l1 + 1, l3, hs3, code, hs, l0, l6, false);
                                        lemma_fits_part(st6.code, l4, l6, hs6, code, hs, l0, l6, false);
                                        assert(st6.code[l1] == st5.code[l1]);
                                        assert(code[l1] == InstrView::JumpIfFalse(l4 as usize));
                                        assert(code[l3] == InstrView::Jump(l6 as usize));
                                        assert forall|pc: int| l0 <= pc < l6 implies step_fits(
                                            #[trigger] code[pc],
                                            pc,
                                            hs,
                                            l0,
                                            l6,
                                            false,
                                        ) by {
                                            if pc < l1 {
                                            } else if pc == l1 {
                                            } else if pc < l3 {
                                            } else if pc == l3 {
                                            } else {
                                            }
                                        }
                                    }
                                    hs
                                },
                                Err(_) => hs6,
                            }
                        },
                        Err(_) => hs3,
                    }
                },
                Err(_) => hs1,
            }
        },
    }
}

/// Compiling the expressions `es[i..]` appends code that pushes one value for
/// each.
pub proof fn lemma_exprs_fits(st: CState, es: Seq<SExpr>, i: int, h: int) -> (hs: spec_fn(int) -> int)
    requires
        h >= 0,
    ensures
        compile_exprs(st, es, i) matches Ok(st2) ==> {
            &&& prefix_kept(st.code, st2.code)
            &&& st2.code.len() >= st.code.len() + remaining(es.len() as int, i)
            &&& funcs_balanced(st.funcs) ==> funcs_balanced(st2.funcs)
            &&& st2.code.len() <= usize::MAX ==> {
                &&& fits(st2.code, st.code.len() as int, st2.code.len() as int, hs, false)
                &&& hs(st.code.len() as int) == h
                &&& hs(st2.code.len() as int) == h + remaining(es.len() as int, i)
            }
        },
    decreases es, es.len() - i,
{
    let l0 = st.code.len() as int;
    if 0 <= i < es.len() {
        let hs1 = lemma_expr_fits(st, es[i], h);
        match compile_expr(st, es[i]) {
            Ok(st1) => {
                let l1 = st1.code.len() as int;
                let hs2 = lemma_exprs_fits(st1, es, i + 1, h + 1);
                let hs = |k: int|
                    if k <= l1 {
                        hs1(k)
                    } else {
                        hs2(k)
                    };
                if let Ok(st2) = compile_exprs(st1, es, i + 1) {
                    assert(prefix_kept(st.code, st2.code)) by {
                        assert forall|k: int| 0 <= k < l0 implies #[trigger] st2.code[k] == st.code[k] by {
                            assert(st1.code[k] == st.code[k]);
                        }
                    }
                    if st2.code.len() <= usize::MAX {
                        let l2 = st2.code.len() as int;
                        assert forall|k: int| l0 <= k < l1 implies #[trigger] st2.code[k] == st1.code[k] by {
                        }
                        lemma_fits_part(st1.code, l0, l1, hs1, st2.code, hs, l0, l2, false);
                        lemma_fits_part(st2.code, l1, l2, hs2, st2.code, hs, l0, l2, false);
                        assert forall|pc: int| l0 <= pc < l2 implies step_fits(
                            #[trigger] st2.code[pc],
                            pc,
                            hs,
                            l0,
                            l2,
                            false,
                        ) by {
                            if pc < l1 {
                            }
                        }
                    }
                }
                hs
            },
            Err(_) => hs1,
        }
    } else {
        |k: int| h
    }
}

/// Compiling the statements `ss[i..]` appends code that leaves the stack as
/// it found it.
pub proof fn lemma_stmts_fits(st: CState, ss: Seq<SStmt>, i: int, h: int) -> (hs: spec_fn(int) -> int)
    requires
        h >= 0,
    ensures
        compile_stmts(st, ss, i) matches Ok(st2) ==> {
            &&& prefix_kept(st.code, st2.code)
            &&& funcs_balanced(st.funcs) ==> funcs_balanced(st2.funcs)
            &&& st2.code.len() <= usize::MAX ==> {
                &&& fits(st2.code, st.code.len() as int, st2.code.len() as int, hs, false)
                &&& hs(st.code.len() as int) == h
                &&& hs(st2.code.len() as int) == h
            }
        },
    decreases ss, ss.len() - i,
{
    let l0 = st.code.len() as int;
    if 0 <= i < ss.len() {
        let hs1 = lemma_stmt_fits(st, ss[i], h);
        match compile_stmt(st, ss[i]) {
            Ok(st1) => {
                let l1 = st1.code.len() as int;
                let hs2 = lemma_stmts_fits(st1, ss, i + 1, h);
                let hs = |k: int|
                    if k <= l1 {
                        hs1(k)
                    } else {
                        hs2(k)
                    };
                if let Ok(st2) = compile_stmts(st1, ss, i + 1) {
                    assert(prefix_kept(st.code, st2.code)) by {
                        assert forall|k: int| 0 <= k < l0 implies #[trigger] st2.code[k] == st.code[k] by {
                            assert(st1.code[k] == st.code[k]);
                        }
                    }
                    if st2.code.len() <= usize::MAX {
                        let l2 = st2.code.len() as int;
                        assert forall|k: int| l0 <= k < l1 implies #[trigger] st2.code[k] == st1.code[k] by {
                        }
                        lemma_fits_part(st1.code, l0, l1, hs1, st2.code, hs, l0, l2, false);
                        lemma_fits_part(st2.code, l1, l2, hs2, st2.code, hs, l0, l2, false);
                        assert forall|pc: int| l0 <= pc < l2 implies step_fits(
                            #[trigger] st2.code[pc],
                            pc,
                            hs,
                            l0,
                            l2,
                            false,
                        ) by {
                            if pc < l1 {
                            }
                        }
                    }
                }
                hs
            },
            Err(_) => hs1,
        }
    } else {
        |k: int| h
    }
}

/// Compiling a statement appends code that leaves the stack as it found it;
/// a declared function is balanced.
pub proof fn lemma_stmt_fits(st: CState, s: SStmt, h: int) -> (hs: spec_fn(int) -> int)
    requires
        h >= 0,
    ensures
        compile_stmt(st, s) matches Ok(st2) ==> {
            &&& prefix_kept(st.code, st2.code)
            &&& funcs_balanced(st.funcs) ==> funcs_balanced(st2.funcs)
            &&& st2.code.len() <= usize::MAX ==> {
                &&& fits(st2.code, st.code.len() as int, st2.code.len() as int, hs, false)
                &&& hs(st.code.len() as int) == h
                &&& hs(st2.code.len() as int) == h
            }
        },
    decreases s, 0int,
{
    let l0 = st.code.len() as int;
    match s {
        SStmt::Let(name, e) => {
            let hs1 = lemma_expr_fits(st, e, h);
            match compile_expr(st, e) {
                Ok(st1) => {
                    let l1 = st1.code.len() as int;
                    let i = InstrView::StoreVar(name);
                    let st2 = emit(st1, i);
                    lemma_push_kept(st1.code, i);
                    let hs = |k: int|
                        if k <= l1 {
                            hs1(k)
                        } else {
                            h
                        };
                    if st2.code.len() <= usize::MAX {
                        lemma_fits_part(st1.code, l0, l1, hs1, st2.code, hs, l0, l1 + 1, false);
                        lemma_fits_one(st2.code, l0, hs, false);
                    }
                    hs
                },
                Err(_) => hs1,
            }
        },
        SStmt::Expr(e) => {
            let hs1 = lemma_expr_fits(st, e, h);
            match compile_expr(st, e) {
                Ok(st1) => {
                    let l1 = st1.code.len() as int;
                    let st2 = emit(st1, InstrView::Pop);
                    lemma_push_kept(st1.code, InstrView::Pop);
                    let hs = |k: int|
                        if k <= l1 {
                            hs1(k)
                        } else {
                            h
                        };
                    if st2.code.len() <= usize::MAX {
                        lemma_fits_part(st1.code, l0, l1, hs1, st2.code, hs, l0, l1 + 1, false);
                        lemma_fits_one(st2.code, l0, hs, false);
                    }
                    hs
                },
                Err(_) => hs1,
            }
        },
        SStmt::FnDecl(name, params, body) => {
            let inner0 = CState { consts: st.consts, funcs: Seq::empty(), code: Seq::empty() };
            let hb = lemma_expr_fits(inner0, body, 0);
            match compile_expr(inner0, body) {
                Ok(inner) => {
                    let lb = inner.code.len() as int;
                    let code = inner.code.push(InstrView::Return);
                    lemma_push_kept(inner.code, InstrView::Return);
                    let fv = FunctionView { name, params, code };
                    let hf = |k: int|
                        if k <= lb {
                            hb(k)
                        } else {
                            1
                        };
                    if code.len() <= usize::MAX {
                        lemma_fits_part(inner.code, 0, lb, hb, code, hf, 0, lb + 1, true);
                        lemma_fits_one(code, 0, hf, true);
                        assert(cert_ok(code, true, hf));
                    }
                    let funcs = st.funcs.push(fv);
                    if funcs_balanced(st.funcs) {
                        assert forall|j: int|
                            0 <= j < funcs.len() && funcs[j].code.len() <= usize::MAX implies balanced(
                            #[trigger] funcs[j].code,
                            true,
                        ) by {
                            if j < st.funcs.len() {
                                assert(funcs[j] == st.funcs[j]);
                            }
                        }
                    }
                    |k: int| h
                },
                Err(_) => |k: int| h,
            }
        },
        SStmt::While(c, body) => {
            let start = st.code.len() as usize;
            let hs1 = lemma_expr_fits(st, c, h);
            match compile_expr(st, c) {
                Ok(st1) => {
                    let l1 = st1.code.len() as int;
                    let st2 = emit(st1, InstrView::JumpIfFalse(0));
                    lemma_push_kept(st1.code, InstrView::JumpIfFalse(0));
                    let hs3 = lemma_expr_fits(st2, body, h);
                    match compile_expr(st2, body) {
                        Ok(st3) => {
                            let l3 = st3.code.len() as int;
                            let st4 = emit(emit(st3, InstrView::Pop), InstrView::Jump(start));
                            let l4 = l3 + 2;
                            let st5 = patch(st4, l1, InstrView::JumpIfFalse(l4 as usize));
                            let code = st5.code;
                            let hs = |k: int|
                                if k <= l1 {
                                    hs1(k)
                                } else if k <= l3 {
                                    hs3(k)
                                } else if k == l3 + 1 {
                                    h
                                } else {
                                    h
                                };
                            assert(code.len() == l4);
                            assert forall|k: int| 0 <= k < l0 implies #[trigger] code[k]
                                == st.code[k] by {
                                assert(st2.code[k] == st1.code[k]);
                                assert(st3.code[k] == st2.code[k]);
                            }
                            if l4 <= usize::MAX {
                                assert forall|k: int| l0 <= k < l1 implies #[trigger] code[k]
                                    == st1.code[k] by {
                                    assert(st2.code[k] == st1.code[k]);
                                    assert(st3.code[k] == st2.code[k]);
                                }
                                assert forall|k: int| l1 + 1 <= k < l3 implies #[trigger] code[k]
                                    == st3.code[k] by {
                                }
                                lemma_fits_part(st1.code, l0, l1, hs1, code, hs, l0, l4, false);
                                lemma_fits_part(st3.code, l1 + 1, l3, hs3, code, hs, l0, l4, false);
                                assert(code[l1] == InstrView::JumpIfFalse(l4 as usize));
                                assert(code[l3] == InstrView::Pop);
                                assert(code[l3 + 1] == InstrView::Jump(start));
                                assert forall|pc: int| l0 <= pc < l4 implies step_fits(
                                    #[trigger] code[pc],
                                    pc,
                                    hs,
                                    l0,
                                    l4,
                                    false,
                                ) by {
                                    if pc < l1 {
                                    } else if pc == l1 {
                                    } else if pc < l3 {
                                    } else if pc == l3 {
                                    } else {
                                        assert(pc == l3 + 1);
                                    }
                                }
                            }
                            hs
                        },
                        Err(_) => hs3,
                    }
                },
                Err(_) => hs1,
            }
        },
    }
}

/// Law: a compiled program keeps its stack in order. Its main code pushes
/// nothing it does not pop, every instruction finds the values it takes, and
/// every function leaves exactly its result (for code that a `Vec` can hold).
pub proof fn law_compiled_program_balanced(ss: Seq<SStmt>)
    ensures
        compile_spec(ss) matches Ok(p) ==> {
            &&& p.code.len() <= usize::MAX ==> balanced(p.code, false)
            &&& funcs_balanced(p.functions)
        },
{
    let st0 = CState { consts: Seq::empty(), funcs: Seq::empty(), code: Seq::empty() };
    let hs = lemma_stmts_fits(st0, ss, 0, 0);
    if let Ok(st) = compile_stmts(st0, ss, 0) {
        if st.code.len() <= usize::MAX {
            assert(cert_ok(st.code, false, hs));
        }
    }
}

// ---------------------------------------------------------------------------
// Runs of balanced code
// ---------------------------------------------------------------------------

/// The height of frame `i`: what its code has pushed when it reaches its
/// counter. Frame 0 runs main code; the others run functions.
pub open spec fn frame_height(fs: Seq<FrameView>, i: int) -> int {
    cert(fs[i].code, i > 0)(fs[i].pc)
}

/// The values that the first `k` frames, all waiting on a call, hold on the
/// stack: each holds its height less the result it waits for.
pub open spec fn suspended(fs: Seq<FrameView>, k: int) -> int
    decreases k,
{
    if k <= 0 {
        0
    } else {
        suspended(fs, k - 1) + frame_height(fs, k - 1) - 1
    }
}

/// Whether the host's reply will push a value.
pub open spec fn pending(w: WaitView) -> int {
    match w {
        WaitView::PushNumber => 1,
        WaitView::PushTruth(_) => 1,
        WaitView::AppendText(_) => 1,
        WaitView::PrependText(_) => 1,
        WaitView::DivideCheck(_, _) => 1,
        _ => 0,
    }
}

/// The number of values that the frames of the run account for.
pub open spec fn accounted(m: MachineView) -> int {
    let n = m.frames.len() as int;
    (if n == 0 {
        0
    } else {
        suspended(m.frames, n - 1) + frame_height(m.frames, n - 1)
    }) - pending(m.waiting)
}

/// A run of balanced code: every frame runs balanced code with its counter
/// inside it, every frame that waits on a call expects a result, every
/// function of the table is balanced, and the stack holds at least what the
/// frames account for.
pub open spec fn stack_ok(m: MachineView) -> bool {
    &&& forall|i: int|
        0 <= i < m.frames.len() ==> balanced(#[trigger] m.frames[i].code, i > 0) && 0
            <= m.frames[i].pc <= m.frames[i].code.len()
    &&& forall|i: int| 0 <= i < m.frames.len() - 1 ==> #[trigger] frame_height(m.frames, i) >= 1
    &&& forall|i: int| 0 <= i < m.functions.len() ==> balanced(#[trigger] m.functions[i].1.code, true)
    &&& accounted(m) <= m.stack.len()
}

proof fn lemma_cert(code: Seq<InstrView>, callee: bool)
    requires
        balanced(code, callee),
    ensures
        cert_ok(code, callee, cert(code, callee)),
{
}

proof fn lemma_suspended_nonneg(fs: Seq<FrameView>, k: int)
    requires
        forall|i: int| 0 <= i < k ==> #[trigger] frame_height(fs, i) >= 1,
    ensures
        suspended(fs, k) >= 0,
    decreases k,
{
    if k > 0 {
        assert(frame_height(fs, k - 1) >= 1);
        lemma_suspended_nonneg(fs, k - 1);
    }
}

proof fn lemma_suspended_same(fs: Seq<FrameView>, fs2: Seq<FrameView>, k: int)
    requires
        k <= fs.len(),
        k <= fs2.len(),
        forall|i: int| 0 <= i < k ==> #[trigger] fs2[i] == fs[i],
    ensures
        suspended(fs2, k) == suspended(fs, k),
    decreases k,
{
    if k > 0 {
        assert(fs2[k - 1] == fs[k - 1]);
        lemma_suspended_same(fs, fs2, k - 1);
    }
}

/// The outcome of a binary instruction, once its operands are off the stack:
/// it pushes its value at once, or waits for the host to push it.
proof fn lemma_binary_shape(m: MachineView, op: InstrView, l: ValueView, r: ValueView)
    requires
        m.waiting is Ready,
    ensures
        binary(m, op, l, r).1 is Ok ==> {
            let m2 = binary(m, op, l, r).0;
            &&& m2.frames == m.frames
            &&& m2.functions == m.functions
            &&& (m2.stack.len() == m.stack.len() + 1 && m2.waiting is Ready) || (m2.stack
                == m.stack && pending(m2.waiting) == 1)
        },
{
}

/// The stack is at least as high as the top frame's height, when nothing is
/// pending.
proof fn lemma_top_height(m: MachineView)
    requires
        stack_ok(m),
        m.frames.len() > 0,
        pending(m.waiting) == 0,
    ensures
        frame_height(m.frames, m.frames.len() - 1) <= m.stack.len(),
{
    lemma_suspended_nonneg(m.frames, m.frames.len() - 1);
}

/// A state whose frames keep those of `m` below the top, and whose top frame
/// runs the same code as the old top, is in order when the stack and the
/// new top's height match.
proof fn lemma_new_top(m: MachineView, m2: MachineView)
    requires
        stack_ok(m),
        m.frames.len() > 0,
        m2.frames.len() == m.frames.len(),
        m2.functions == m.functions,
        forall|i: int| 0 <= i < m.frames.len() - 1 ==> #[trigger] m2.frames[i] == m.frames[i],
        m2.frames.last().code == m.frames.last().code,
        0 <= m2.frames.last().pc <= m2.frames.last().code.len(),
        suspended(m.frames, m.frames.len() - 1) + frame_height(m2.frames, m2.frames.len() - 1)
            - pending(m2.waiting) <= m2.stack.len(),
    ensures
        stack_ok(m2),
        accounted(m2) == suspended(m.frames, m.frames.len() - 1) + frame_height(
            m2.frames,
            m2.frames.len() - 1,
        ) - pending(m2.waiting),
{
    let n = m.frames.len() as int;
    lemma_suspended_same(m.frames, m2.frames, n - 1);
    assert forall|i: int| 0 <= i < m2.frames.len() implies balanced(
        #[trigger] m2.frames[i].code,
        i > 0,
    ) && 0 <= m2.frames[i].pc <= m2.frames[i].code.len() by {
        if i < n - 1 {
            assert(m2.frames[i] == m.frames[i]);
            assert(balanced(m.frames[i].code, i > 0));
        } else {
            assert(balanced(m.frames[n - 1].code, n - 1 > 0));
        }
    }
    assert forall|i: int| 0 <= i < m2.frames.len() - 1 implies #[trigger] frame_height(
        m2.frames,
        i,
    ) >= 1 by {
        assert(m2.frames[i] == m.frames[i]);
        assert(frame_height(m.frames, i) >= 1);
    }
}

/// The first `n - 1` frames of a run hold their part of the stack.
proof fn lemma_drop_top(m: MachineView, m2: MachineView)
    requires
        stack_ok(m),
        m.frames.len() > 1,
        m2.frames == m.frames.drop_last(),
        m2.functions == m.functions,
        frame_height(m.frames, m.frames.len() - 1) == 1,
        pending(m.waiting) == 0,
        pending(m2.waiting) == 0,
        m2.stack.len() == m.stack.len(),
    ensures
        stack_ok(m2),
        accounted(m2) == accounted(m),
{
    let n = m.frames.len() as int;
    lemma_suspended_same(m.frames, m2.frames, n - 2);
    assert(frame_height(m2.frames, n - 2) == frame_height(m.frames, n - 2));
    assert forall|i: int| 0 <= i < m2.frames.len() implies balanced(
        #[trigger] m2.frames[i].code,
        i > 0,
    ) && 0 <= m2.frames[i].pc <= m2.frames[i].code.len() by {
        assert(m2.frames[i] == m.frames[i]);
        assert(balanced(m.frames[i].code, i > 0));
    }
    assert forall|i: int| 0 <= i < m2.frames.len() - 1 implies #[trigger] frame_height(
        m2.frames,
        i,
    ) >= 1 by {
        assert(m2.frames[i] == m.frames[i]);
        assert(frame_height(m.frames, i) >= 1);
    }
}

/// Executing the instruction of the top frame of a run in order never finds
/// the stack too short, and leaves the run in order.
proof fn lemma_execute_stack(m: MachineView, m1: MachineView, inst: InstrView)
    requires
        stack_ok(m),
        m.waiting is Ready,
        m.frames.len() > 0,
        top(m).pc < top(m).code.len(),
        inst == top(m).code[top(m).pc],
        m1 == set_top(m, FrameView { pc: top(m).pc + 1, ..top(m) }),
    ensures
        execute(m1, inst).1 != Err::<ActionView, ErrorView>(ErrorView::StackUnderflow),
        execute(m1, inst).1 is Ok ==> stack_ok(execute(m1, inst).0),
        execute(m1, inst).1 is Ok ==> execute(m1, inst).0.stack.len() - accounted(
            execute(m1, inst).0,
        ) == m.stack.len() - accounted(m),
{
    let n = m.frames.len() as int;
    let f = top(m);
    let callee = n - 1 > 0;
    assert(balanced(m.frames[n - 1].code, n - 1 > 0));
    lemma_cert(f.code, callee);
    let hs = cert(f.code, callee);
    let pc = f.pc;
    assert(step_fits(f.code[pc], pc, hs, 0, f.code.len() as int, callee));
    let h = hs(pc);
    assert(frame_height(m.frames, n - 1) == h);
    lemma_top_height(m);
    lemma_suspended_nonneg(m.frames, n - 1);
    let b = suspended(m.frames, n - 1);
    assert(b + h <= m.stack.len());
    let s = m1.stack;
    let len = s.len();
    assert(len == m.stack.len());
    let r = execute(m1, inst);
    if is_binary(inst) {
        assert(h >= 2);
        let m2 = drop_values(m1, 2);
        lemma_binary_shape(m2, inst, s[len - 2], s[len - 1]);
        if r.1 is Ok {
            lemma_new_top(m, r.0);
        }
        assert(r.1 is Ok ==> stack_ok(r.0));
    } else {
        match inst {
            InstrView::LoadConst(_) => {
                if r.1 is Ok {
                    lemma_new_top(m, r.0);
                }
            },
            InstrView::LoadVar(_) => {
                if r.1 is Ok {
                    lemma_new_top(m, r.0);
                }
            },
            InstrView::StoreVar(name) => {
                assert(len >= 1);
                lemma_new_top(m, r.0);
            },
            InstrView::Pop => {
                lemma_new_top(m, r.0);
            },
            InstrView::Print => {
                lemma_new_top(m, r.0);
            },
            InstrView::Jump(t) => {
                lemma_new_top(m, r.0);
            },
            InstrView::JumpIfFalse(t) => {
                lemma_new_top(m, r.0);
            },
            InstrView::Call(name, argc) => {
                lemma_find_key(m1.functions, name);
                match crate::table::find_key(m1.functions, name) {
                    Some(j) => {
                        let fv = m1.functions[j].1;
                        assert(balanced(m.functions[j].1.code, true));
                        if fv.params.len() == argc {
                            assert(len >= argc);
                            let m2 = r.0;
                            let caller = FrameView { pc: pc + 1, ..f };
                            let fs = m2.frames;
                            assert(fs.len() == n + 1);
                            assert(fs[n - 1] == caller);
                            assert(fs[n].code == fv.code);
                            assert(fs[n].pc == 0);
                            lemma_cert(fv.code, true);
                            assert(frame_height(fs, n) == 0);
                            assert(frame_height(fs, n - 1) == h - argc + 1);
                            lemma_suspended_same(m.frames, fs, n - 1);
                            assert(suspended(fs, n) == b + h - argc);
                            assert forall|i: int| 0 <= i < fs.len() implies balanced(
                                #[trigger] fs[i].code,
                                i > 0,
                            ) && 0 <= fs[i].pc <= fs[i].code.len() by {
                                if i < n - 1 {
                                    assert(fs[i] == m.frames[i]);
                                    assert(balanced(m.frames[i].code, i > 0));
                                } else if i == n - 1 {
                                } else {
                                    assert(fs[i].code.len() >= 0);
                                }
                            }
                            assert forall|i: int| 0 <= i < fs.len() - 1 implies #[trigger] frame_height(
                                fs,
                                i,
                            ) >= 1 by {
                                if i < n - 1 {
                                    assert(fs[i] == m.frames[i]);
                                    assert(frame_height(m.frames, i) >= 1);
                                }
                            }
                            assert(accounted(m2) == b + h - argc);
                            assert(m2.stack.len() == len - argc);
                            assert(stack_ok(m2));
                        }
                    },
                    None => {},
                }
            },
            InstrView::Return => {
                if n > 1 {
                    assert(h == 1);
                    assert(m1.frames.drop_last() =~= m.frames.drop_last());
                    lemma_drop_top(m, r.0);
                } else {
                    assert(r.0.frames.len() == 0);
                }
            },
            _ => {},
        }
    }
}

/// Law: in a run of balanced code whose stack holds what its frames account
/// for, a step never finds the stack too short; a step that succeeds leaves
/// the run in that order, with as many values below those the frames account
/// for as before. When there are none, the run halts with nil and an empty
/// stack.
pub proof fn law_step_keeps_stack(m: MachineView)
    requires
        stack_ok(m),
    ensures
        step_spec(m).1 != Err::<ActionView, ErrorView>(ErrorView::StackUnderflow),
        step_spec(m).1 is Ok ==> stack_ok(step_spec(m).0),
        step_spec(m).1 matches Ok(a) ==> (a is Halt || step_spec(m).0.stack.len() - accounted(
            step_spec(m).0,
        ) == m.stack.len() - accounted(m)),
        step_spec(m).1 matches Ok(ActionView::Halt(v)) ==> (m.stack.len() == accounted(m) ==> (v
            == ValueView::Nil && step_spec(m).0.stack.len() == 0)),
{
    if m.waiting is Ready {
        let r = step_spec(m);
        if at_end(m) {
            assert(r.0.frames.len() == 0);
            if m.frames.len() == 1 {
                assert(balanced(m.frames[0].code, false) && m.frames[0].pc <= m.frames[0].code.len());
                lemma_cert(m.frames[0].code, false);
                assert(frame_height(m.frames, 0) == 0);
                assert(accounted(m) == 0);
            }
        } else {
            let n = m.frames.len() as int;
            let f = top(m);
            assert(balanced(m.frames[n - 1].code, n - 1 > 0) && 0 <= m.frames[n - 1].pc
                <= m.frames[n - 1].code.len());
            if f.pc >= f.code.len() {
                lemma_cert(f.code, true);
                assert(frame_height(m.frames, n - 1) == 1);
                lemma_drop_top(m, r.0);
            } else {
                let m1 = set_top(m, FrameView { pc: f.pc + 1, ..f });
                lemma_execute_stack(m, m1, f.code[f.pc]);
            }
        }
    }
}

/// Law: a reply of the host keeps a run of balanced code in order.
pub proof fn law_resume_keeps_stack(m: MachineView, reply: ReplyView)
    requires
        stack_ok(m),
    ensures
        resume_spec(m, reply).1 is Ok ==> stack_ok(resume_spec(m, reply).0),
        resume_spec(m, reply).1 is Ok ==> resume_spec(m, reply).0.stack.len() - accounted(
            resume_spec(m, reply).0,
        ) == m.stack.len() - accounted(m),
{
    let r = resume_spec(m, reply);
    if r.1 is Ok {
        assert(r.0.frames == m.frames);
        let n = m.frames.len() as int;
        if n > 0 {
            assert(frame_height(r.0.frames, n - 1) == frame_height(m.frames, n - 1));
        }
        assert forall|i: int| 0 <= i < r.0.frames.len() - 1 implies #[trigger] frame_height(
            r.0.frames,
            i,
        ) >= 1 by {
            assert(frame_height(m.frames, i) >= 1);
        }
    }
}

proof fn lemma_load_functions_balanced(
    table: Seq<(Seq<char>, FunctionView)>,
    fs: Seq<FunctionView>,
)
    requires
        forall|i: int| 0 <= i < table.len() ==> balanced(#[trigger] table[i].1.code, true),
        forall|i: int| 0 <= i < fs.len() ==> balanced(#[trigger] fs[i].code, true),
    ensures
        forall|i: int|
            0 <= i < load_functions(table, fs).len() ==> balanced(
                #[trigger] load_functions(table, fs)[i].1.code,
                true,
            ),
    decreases fs.len(),
{
    if fs.len() > 0 {
        let rest = fs.drop_last();
        assert forall|i: int| 0 <= i < rest.len() implies balanced(#[trigger] rest[i].code, true) by {
            assert(rest[i] == fs[i]);
        }
        lemma_load_functions_balanced(table, rest);
        let t = load_functions(table, rest);
        let f = fs.last();
        assert(balanced(fs[fs.len() - 1].code, true));
        lemma_find_key(t, f.name);
        let t2 = store(t, f.name, f);
        assert forall|i: int| 0 <= i < t2.len() implies balanced(#[trigger] t2[i].1.code, true) by {
            if i < t.len() && t2[i] == t[i] {
            } else {
                assert(t2[i].1 == f);
            }
        }
    }
}

/// Law: a run of a balanced program, begun on a machine whose function table
/// is balanced (an empty table is), is in order.
pub proof fn law_start_stack_ok(m: MachineView, p: ProgramView)
    requires
        balanced(p.code, false),
        forall|i: int| 0 <= i < p.functions.len() ==> balanced(#[trigger] p.functions[i].code, true),
        forall|i: int| 0 <= i < m.functions.len() ==> balanced(#[trigger] m.functions[i].1.code, true),
    ensures
        stack_ok(start_spec(m, p)),
        accounted(start_spec(m, p)) == 0,
{
    lemma_load_functions_balanced(m.functions, p.functions);
    let m2 = start_spec(m, p);
    lemma_cert(p.code, false);
    assert(m2.frames[0].code == p.code);
    assert(frame_height(m2.frames, 0) == 0);
    assert(suspended(m2.frames, 0) == 0);
}

/// Law: a run of a compiled program on a machine with an empty function
/// table never finds its stack too short: it starts in order, with no frame
/// accounting for any value, and `law_step_keeps_stack` and
/// `law_resume_keeps_stack` keep it so; begun on an empty stack, it halts, if
/// it halts, with nil and an empty stack (for code that a `Vec` can hold).
pub proof fn law_compiled_run_stack_ok(ss: Seq<SStmt>, m: MachineView)
    requires
        m.functions.len() == 0,
    ensures
        compile_spec(ss) matches Ok(p) ==> (p.code.len() <= usize::MAX && (forall|i: int|
            0 <= i < p.functions.len() ==> #[trigger] p.functions[i].code.len() <= usize::MAX)
            ==> stack_ok(start_spec(m, p)) && accounted(start_spec(m, p)) == 0),
{
    law_compiled_program_balanced(ss);
    if let Ok(p) = compile_spec(ss) {
        if p.code.len() <= usize::MAX && (forall|i: int|
            0 <= i < p.functions.len() ==> #[trigger] p.functions[i].code.len() <= usize::MAX) {
            assert forall|i: int| 0 <= i < p.functions.len() implies balanced(
                #[trigger] p.functions[i].code,
                true,
            ) by {
                assert(p.functions[i].code.len() <= usize::MAX);
            }
            law_start_stack_ok(m, p);
        }
    }
}

/// One move of a run: a step of the machine, or its taking of a reply of the
/// host, that succeeds.
pub open spec fn moves_to(m: MachineView, m2: MachineView) -> bool {
    ||| step_spec(m).1 is Ok && step_spec(m).0 == m2
    ||| exists|reply: ReplyView|
        (#[trigger] resume_spec(m, reply)).1 is Ok && resume_spec(m, reply).0 == m2
}

/// A run: each state moves to the next.
pub open spec fn is_run(ms: Seq<MachineView>) -> bool {
    forall|i: int| 0 <= i < ms.len() - 1 ==> #[trigger] moves_to(ms[i], ms[i + 1])
}

/// The stack of a state in order holds exactly what its frames account for.
pub open spec fn stack_exact(m: MachineView) -> bool {
    stack_ok(m) && m.stack.len() == accounted(m)
}

proof fn lemma_move_keeps_exact(m: MachineView, m2: MachineView)
    requires
        stack_exact(m),
        moves_to(m, m2),
    ensures
        stack_exact(m2),
{
    if step_spec(m).1 is Ok && step_spec(m).0 == m2 {
        law_step_keeps_stack(m);
        if step_spec(m).1 matches Ok(ActionView::Halt(_)) {
            assert(m2.frames.len() == 0);
            assert(m2.waiting is Finished);
        }
    } else {
        let reply = choose|reply: ReplyView|
            (#[trigger] resume_spec(m, reply)).1 is Ok && resume_spec(m, reply).0 == m2;
        law_resume_keeps_stack(m, reply);
    }
}

proof fn lemma_run_exact(ms: Seq<MachineView>, i: int)
    requires
        is_run(ms),
        0 <= i < ms.len(),
        stack_exact(ms[0]),
    ensures
        stack_exact(ms[i]),
    decreases i,
{
    if i > 0 {
        lemma_run_exact(ms, i - 1);
        let j = i - 1;
        assert(moves_to(ms[j], ms[j + 1]));
        assert(j + 1 == i);
        lemma_move_keeps_exact(ms[j], ms[i]);
    }
}

/// Law: a whole run of a compiled program, begun on a machine with an empty
/// stack and no functions, never finds its stack too short, and if it halts,
/// it halts with nil and leaves the stack empty (for code that a `Vec` can
/// hold).
pub proof fn law_compiled_run_never_underflows(
    ss: Seq<SStmt>,
    m: MachineView,
    ms: Seq<MachineView>,
)
    requires
        m.functions.len() == 0,
        m.stack.len() == 0,
        compile_spec(ss) matches Ok(p) && p.code.len() <= usize::MAX && (forall|i: int|
            0 <= i < p.functions.len() ==> #[trigger] p.functions[i].code.len() <= usize::MAX)
            && ms.len() > 0 && ms[0] == start_spec(m, p),
        is_run(ms),
    ensures
        forall|i: int|
            0 <= i < ms.len() ==> step_spec(#[trigger] ms[i]).1 != Err::<ActionView, ErrorView>(
                ErrorView::StackUnderflow,
            ),
        forall|i: int|
            0 <= i < ms.len() ==> (step_spec(#[trigger] ms[i]).1 matches Ok(ActionView::Halt(v))
                ==> v == ValueView::Nil && step_spec(ms[i]).0.stack.len() == 0),
{
    law_compiled_run_stack_ok(ss, m);
    assert(stack_exact(ms[0]));
    assert forall|i: int| 0 <= i < ms.len() implies step_spec(#[trigger] ms[i]).1
        != Err::<ActionView, ErrorView>(ErrorView::StackUnderflow) && (step_spec(ms[i]).1 matches Ok(
        ActionView::Halt(v),
    ) ==> v == ValueView::Nil && step_spec(ms[i]).0.stack.len() == 0) by {
        lemma_run_exact(ms, i);
        law_step_keeps_stack(ms[i]);
    }
}

} // verus!
