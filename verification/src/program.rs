use vstd::prelude::*;

use crate::environment::Environment;
use crate::environment::SpecFrame;
use crate::environment::env_get;
use crate::environment::env_set;
use crate::environment::env_wf;
use crate::environment::frame_set;
use crate::num::Num;
use crate::parser::ParseErrorKind;
use crate::parser::parse;
use crate::parser::sp_parse;
use crate::value::SpecVal;
use crate::value::Value;
use crate::value::dv_seq;
use crate::value::lemma_dv_seq;
use crate::value::lemma_svs_wf;
use crate::value::names_dv;
use crate::value::sv_wf;
use crate::value::svs_wf;

verus! {

broadcast use vstd::std_specs::vec::group_vec_axioms;

/// How far nested function application may go before the evaluator
/// gives up: the verified analogue of the host's call stack limit.
pub const CALL_DEPTH: u64 = 1000;

/// Why an evaluation failed.
#[derive(Debug, PartialEq, Eq)]
pub enum EvalError {
    /// The text did not parse.
    Parse(ParseErrorKind),
    /// A symbol with no binding in any reachable frame.
    Unbound(String),
    /// A special form applied to the wrong number of arguments.
    Arity,
    /// An operand that did not reduce to a number.
    NotANumber,
    /// The binding name of a `let` form was not a symbol.
    LetName,
    /// A `fn` form whose parameter list or body is not the right shape.
    FnShape,
    /// A call through a name bound to something other than a function.
    NotALambda(String),
    /// A call with fewer arguments than the function has parameters.
    MissingArg,
    /// A `cond` clause list too short to hold a test and a result.
    CondClause,
    /// An arithmetic result too large for the numeric type.
    Overflow,
    /// A division whose divisor reduced to zero.
    DivByZero,
    /// Nesting of calls deeper than the evaluator allows.
    Depth,
}

/// The mathematical shape of an evaluation error.
pub enum SErr {
    Parse(ParseErrorKind),
    Unbound(Seq<char>),
    Arity,
    NotANumber,
    LetName,
    FnShape,
    NotALambda(Seq<char>),
    MissingArg,
    CondClause,
    Overflow,
    DivByZero,
    Depth,
}

impl EvalError {
    pub open spec fn dv(&self) -> SErr {
        match self {
            EvalError::Parse(k) => SErr::Parse(*k),
            EvalError::Unbound(s) => SErr::Unbound(s@),
            EvalError::Arity => SErr::Arity,
            EvalError::NotANumber => SErr::NotANumber,
            EvalError::LetName => SErr::LetName,
            EvalError::FnShape => SErr::FnShape,
            EvalError::NotALambda(s) => SErr::NotALambda(s@),
            EvalError::MissingArg => SErr::MissingArg,
            EvalError::CondClause => SErr::CondClause,
            EvalError::Overflow => SErr::Overflow,
            EvalError::DivByZero => SErr::DivByZero,
            EvalError::Depth => SErr::Depth,
        }
    }
}

/// The nine symbols the evaluator folds over operand lists.
#[derive(Clone, Copy, Debug, PartialEq, Eq, Structural)]
pub enum Op {
    Add,
    Sub,
    Mul,
    Div,
    Gt,
    Gte,
    Lt,
    Lte,
    Eq,
}

/// The operator named by a symbol, if any.
pub open spec fn op_of(s: Seq<char>) -> Option<Op> {
    if s == "+"@ {
        Some(Op::Add)
    } else if s == "-"@ {
        Some(Op::Sub)
    } else if s == "*"@ {
        Some(Op::Mul)
    } else if s == "/"@ {
        Some(Op::Div)
    } else if s == "gt"@ {
        Some(Op::Gt)
    } else if s == "gte"@ {
        Some(Op::Gte)
    } else if s == "lt"@ {
        Some(Op::Lt)
    } else if s == "lte"@ {
        Some(Op::Lte)
    } else if s == "eq"@ {
        Some(Op::Eq)
    } else {
        None
    }
}

/// Comparisons yield one for true and zero for false.
pub open spec fn bool_num(b: bool) -> Num {
    if b {
        Num { n: 1, d: 1 }
    } else {
        Num { n: 0, d: 1 }
    }
}

/// One step of the left fold.
pub open spec fn sp_apply(op: Op, a: Num, b: Num) -> Result<Num, SErr> {
    match op {
        Op::Add => match Num::spec_add(a, b) {
            Some(q) => Ok(q),
            None => Err(SErr::Overflow),
        },
        Op::Sub => match Num::spec_sub(a, b) {
            Some(q) => Ok(q),
            None => Err(SErr::Overflow),
        },
        Op::Mul => match Num::spec_mul(a, b) {
            Some(q) => Ok(q),
            None => Err(SErr::Overflow),
        },
        Op::Div => if b.n == 0 {
            Err(SErr::DivByZero)
        } else {
            match Num::spec_div(a, b) {
                Some(q) => Ok(q),
                None => Err(SErr::Overflow),
            }
        },
        Op::Gt => Ok(bool_num(Num::spec_lt(b, a))),
        Op::Gte => Ok(bool_num(!Num::spec_lt(a, b))),
        Op::Lt => Ok(bool_num(Num::spec_lt(a, b))),
        Op::Lte => Ok(bool_num(!Num::spec_lt(b, a))),
        Op::Eq => Ok(bool_num(Num::spec_eq(a, b))),
    }
}

/// The left fold of `op` across the operands, seeded by the first.
pub open spec fn sp_fold(op: Op, acc: Num, rest: Seq<Num>) -> Result<Num, SErr>
    decreases rest.len(),
{
    if rest.len() == 0 {
        Ok(acc)
    } else {
        match sp_apply(op, acc, rest[0]) {
            Ok(v) => sp_fold(op, v, rest.subrange(1, rest.len() as int)),
            Err(e) => Err(e),
        }
    }
}

/// All values as numbers, or nothing if one is not a number.
pub open spec fn sp_nums(vs: Seq<SpecVal>) -> Option<Seq<Num>>
    decreases vs.len(),
{
    if vs.len() == 0 {
        Some(Seq::empty())
    } else {
        match vs[0] {
            SpecVal::Number(q) => match sp_nums(vs.subrange(1, vs.len() as int)) {
                Some(r) => Some(seq![q] + r),
                None => None,
            },
            _ => None,
        }
    }
}

/// The parameter names of a `fn` form, or nothing if one is not a
/// symbol.
pub open spec fn sp_names(ps: Seq<SpecVal>) -> Option<Seq<Seq<char>>>
    decreases ps.len(),
{
    if ps.len() == 0 {
        Some(Seq::empty())
    } else {
        match ps[0] {
            SpecVal::Symbol(s) => match sp_names(ps.subrange(1, ps.len() as int)) {
                Some(r) => Some(seq![s] + r),
                None => None,
            },
            _ => None,
        }
    }
}

/// A `fn` form made into a function value; nothing is evaluated.
pub open spec fn sp_fn(es: Seq<SpecVal>) -> Result<SpecVal, SErr> {
    if es.len() != 3 {
        Err(SErr::Arity)
    } else {
        match es[1] {
            SpecVal::List(ps) => match sp_names(ps) {
                Some(names) => match es[2] {
                    SpecVal::List(body) => Ok(SpecVal::Lambda(names, body)),
                    _ => Err(SErr::FnShape),
                },
                None => Err(SErr::FnShape),
            },
            _ => Err(SErr::FnShape),
        }
    }
}

/// The call frame: each parameter bound in turn, later bindings of a
/// repeated name replacing earlier ones.
pub open spec fn sp_bind(ps: Seq<Seq<char>>, vals: Seq<SpecVal>, k: int, f: SpecFrame) -> SpecFrame
    decreases ps.len() - k,
{
    if k < 0 || k >= ps.len() || k >= vals.len() {
        f
    } else {
        sp_bind(ps, vals, k + 1, frame_set(f, ps[k], vals[k]))
    }
}

} // verus!

verus! {

/// The whole evaluation state: a result or error, and the environment
/// as the step left it.
pub type SOut = (Result<SpecVal, SErr>, Seq<SpecFrame>);

/// One tree-walking evaluation step. `fuel` bounds how deeply calls
/// may nest; everything else is structural recursion.
pub open spec fn sp_eval(node: SpecVal, env: Seq<SpecFrame>, fuel: nat) -> SOut
    decreases fuel, node, 1int, 0int,
{
    match node {
        SpecVal::Number(q) => (Ok(SpecVal::Number(q)), env),
        SpecVal::Symbol(s) => match env_get(env, s) {
            Some(v) => (Ok(v), env),
            None => (Err(SErr::Unbound(s)), env),
        },
        SpecVal::Nil => (Ok(SpecVal::Nil), env),
        SpecVal::Lambda(ps, body) => (Ok(SpecVal::Nil), env),
        SpecVal::List(es) => {
            if es.len() == 0 {
                (Ok(SpecVal::List(Seq::empty())), env)
            } else {
                match es[0] {
                    SpecVal::Symbol(s) => {
                        if s == "not"@ {
                            if es.len() != 2 {
                                (Err(SErr::Arity), env)
                            } else {
                                let (r, e2) = sp_eval(es[1], env, fuel);
                                match r {
                                    Ok(SpecVal::Number(q)) => (
                                        Ok(SpecVal::Number(bool_num(q.n == 0))),
                                        e2,
                                    ),
                                    _ => (Err(SErr::NotANumber), e2),
                                }
                            }
                        } else {
                            match op_of(s) {
                                Some(op) => sp_binop(op, es, env, fuel),
                                None => {
                                    if s == "let"@ {
                                        if es.len() != 3 {
                                            (Err(SErr::Arity), env)
                                        } else {
                                            match es[1] {
                                                SpecVal::Symbol(name) => {
                                                    let (r, e2) = sp_eval(es[2], env, fuel);
                                                    match r {
                                                        Ok(v) => (
                                                            Ok(SpecVal::Nil),
                                                            env_set(e2, name, v),
                                                        ),
                                                        Err(er) => (Err(er), e2),
                                                    }
                                                },
                                                _ => (Err(SErr::LetName), env),
                                            }
                                        }
                                    } else if s == "fn"@ {
                                        (sp_fn(es), env)
                                    } else if s == "cond"@ {
                                        sp_cond(es, 1, env, fuel)
                                    } else {
                                        sp_call(s, es, env, fuel)
                                    }
                                },
                            }
                        }
                    },
                    _ => match sp_items(es, 0, env, fuel) {
                        (Ok(vs), e2) => (Ok(SpecVal::List(vs)), e2),
                        (Err(er), e2) => (Err(er), e2),
                    },
                }
            }
        },
    }
}

/// The elements of a bare list, each evaluated in turn, results that
/// are `Nil` dropped.
pub open spec fn sp_items(es: Seq<SpecVal>, k: int, env: Seq<SpecFrame>, fuel: nat) -> (Result<
    Seq<SpecVal>,
    SErr,
>, Seq<SpecFrame>)
    decreases fuel, es, 0int, es.len() - k,
{
    if k < 0 || k >= es.len() {
        (Ok(Seq::empty()), env)
    } else {
        let (r, e2) = sp_eval(es[k], env, fuel);
        match r {
            Ok(v) => match sp_items(es, k + 1, e2, fuel) {
                (Ok(vs), e3) => (
                    Ok(
                        if v is Nil {
                            vs
                        } else {
                            seq![v] + vs
                        },
                    ),
                    e3,
                ),
                (Err(er), e3) => (Err(er), e3),
            },
            Err(er) => (Err(er), e2),
        }
    }
}

/// The operands of an operator form, each evaluated in turn.
pub open spec fn sp_operands(es: Seq<SpecVal>, k: int, env: Seq<SpecFrame>, fuel: nat) -> (Result<
    Seq<SpecVal>,
    SErr,
>, Seq<SpecFrame>)
    decreases fuel, es, 0int, es.len() - k,
{
    if k < 1 || k >= es.len() {
        (Ok(Seq::empty()), env)
    } else {
        let (r, e2) = sp_eval(es[k], env, fuel);
        match r {
            Ok(v) => match sp_operands(es, k + 1, e2, fuel) {
                (Ok(vs), e3) => (Ok(seq![v] + vs), e3),
                (Err(er), e3) => (Err(er), e3),
            },
            Err(er) => (Err(er), e2),
        }
    }
}

/// An operator form: at least two operands, all numbers, folded left
/// to right.
pub open spec fn sp_binop(op: Op, es: Seq<SpecVal>, env: Seq<SpecFrame>, fuel: nat) -> SOut
    decreases fuel, es, 1int, 0int,
{
    if es.len() < 3 {
        (Err(SErr::Arity), env)
    } else {
        match sp_operands(es, 1, env, fuel) {
            (Ok(vs), e2) => match sp_nums(vs) {
                Some(nums) => if nums.len() == 0 {
                    (Err(SErr::NotANumber), e2)
                } else {
                    match sp_fold(op, nums[0], nums.subrange(1, nums.len() as int)) {
                        Ok(q) => (Ok(SpecVal::Number(q)), e2),
                        Err(er) => (Err(er), e2),
                    }
                },
                None => (Err(SErr::NotANumber), e2),
            },
            (Err(er), e2) => (Err(er), e2),
        }
    }
}

/// The clauses of a `cond` form from `idx` on: all but the last
/// element are tried as `(test result)` pairs; the last is the
/// fallback.
pub open spec fn sp_cond(es: Seq<SpecVal>, idx: int, env: Seq<SpecFrame>, fuel: nat) -> SOut
    decreases fuel, es, 0int, es.len() - idx,
{
    if idx < 1 || idx >= es.len() - 1 || es.len() < 2 {
        if es.len() == 0 {
            (Err(SErr::CondClause), env)
        } else {
            sp_eval(es[es.len() - 1], env, fuel)
        }
    } else {
        match es[idx] {
            SpecVal::List(cs) => {
                if cs.len() == 0 {
                    (Err(SErr::CondClause), env)
                } else {
                    let (r, e2) = sp_eval(cs[0], env, fuel);
                    match r {
                        Ok(SpecVal::Number(q)) => if q.n != 0 {
                            if cs.len() < 2 {
                                (Err(SErr::CondClause), e2)
                            } else {
                                sp_eval(cs[1], e2, fuel)
                            }
                        } else {
                            sp_cond(es, idx + 1, e2, fuel)
                        },
                        Ok(_) => sp_cond(es, idx + 1, e2, fuel),
                        Err(er) => (Err(er), e2),
                    }
                }
            },
            _ => sp_cond(es, idx + 1, env, fuel),
        }
    }
}

/// The arguments of a call, one for each parameter, each evaluated in
/// the caller's environment.
pub open spec fn sp_args(es: Seq<SpecVal>, n: int, k: int, env: Seq<SpecFrame>, fuel: nat) -> (
    Result<Seq<SpecVal>, SErr>,
    Seq<SpecFrame>,
)
    decreases fuel, es, 0int, n - k,
{
    if k < 0 || k >= n || 1 + k >= es.len() {
        (Ok(Seq::empty()), env)
    } else {
        let (r, e2) = sp_eval(es[1 + k], env, fuel);
        match r {
            Ok(v) => match sp_args(es, n, k + 1, e2, fuel) {
                (Ok(vs), e3) => (Ok(seq![v] + vs), e3),
                (Err(er), e3) => (Err(er), e3),
            },
            Err(er) => (Err(er), e2),
        }
    }
}

/// A call through a bound name: the name must hold a function, each
/// parameter gets one evaluated argument in a fresh innermost frame,
/// and the body runs there as a bare list; the frame is dropped on
/// return.
pub open spec fn sp_call(s: Seq<char>, es: Seq<SpecVal>, env: Seq<SpecFrame>, fuel: nat) -> SOut
    decreases fuel, es, 1int, 0int,
{
    match env_get(env, s) {
        None => (Err(SErr::Unbound(s)), env),
        Some(SpecVal::Lambda(ps, body)) => {
            if es.len() < ps.len() + 1 {
                (Err(SErr::MissingArg), env)
            } else {
                match sp_args(es, ps.len() as int, 0, env, fuel) {
                    (Ok(vals), e2) => {
                        if fuel == 0 {
                            (Err(SErr::Depth), e2)
                        } else {
                            let e3 = e2.push(sp_bind(ps, vals, 0, Seq::empty()));
                            let (r, e4) = sp_eval(
                                SpecVal::List(body),
                                e3,
                                (fuel - 1) as nat,
                            );
                            if e4.len() == e3.len() {
                                (r, e4.drop_last())
                            } else {
                                (r, e2)
                            }
                        }
                    },
                    (Err(er), e2) => (Err(er), e2),
                }
            }
        },
        Some(_) => (Err(SErr::NotALambda(s)), env),
    }
}

} // verus!

verus! {

fn is_sym(s: &String, lit: &str) -> (r: bool)
    ensures
        r == (s@ == lit@),
{
    let ls = String::from_str(lit);
    *s == ls
}

fn sym_op(s: &String) -> (r: Option<Op>)
    ensures
        r == op_of(s@),
{
    if is_sym(s, "+") {
        Some(Op::Add)
    } else if is_sym(s, "-") {
        Some(Op::Sub)
    } else if is_sym(s, "*") {
        Some(Op::Mul)
    } else if is_sym(s, "/") {
        Some(Op::Div)
    } else if is_sym(s, "gt") {
        Some(Op::Gt)
    } else if is_sym(s, "gte") {
        Some(Op::Gte)
    } else if is_sym(s, "lt") {
        Some(Op::Lt)
    } else if is_sym(s, "lte") {
        Some(Op::Lte)
    } else if is_sym(s, "eq") {
        Some(Op::Eq)
    } else {
        None
    }
}

fn apply_op(op: Op, a: Num, b: Num) -> (r: Result<Num, EvalError>)
    requires
        a.wf(),
        b.wf(),
    ensures
        match sp_apply(op, a, b) {
            Ok(q) => r matches Ok(rq) && rq == q && q.wf(),
            Err(se) => r matches Err(e) && e.dv() == se,
        },
{
    match op {
        Op::Add => match a.add(b) {
            Some(q) => Ok(q),
            None => Err(EvalError::Overflow),
        },
        Op::Sub => match a.sub(b) {
            Some(q) => Ok(q),
            None => Err(EvalError::Overflow),
        },
        Op::Mul => match a.mul(b) {
            Some(q) => Ok(q),
            None => Err(EvalError::Overflow),
        },
        Op::Div => if b.n == 0 {
            Err(EvalError::DivByZero)
        } else {
            match a.div(b) {
                Some(q) => Ok(q),
                None => Err(EvalError::Overflow),
            }
        },
        Op::Gt => Ok(
            if b.lt(a) {
                Num { n: 1, d: 1 }
            } else {
                Num { n: 0, d: 1 }
            },
        ),
        Op::Gte => Ok(
            if a.lt(b) {
                Num { n: 0, d: 1 }
            } else {
                Num { n: 1, d: 1 }
            },
        ),
        Op::Lt => Ok(
            if a.lt(b) {
                Num { n: 1, d: 1 }
            } else {
                Num { n: 0, d: 1 }
            },
        ),
        Op::Lte => Ok(
            if b.lt(a) {
                Num { n: 0, d: 1 }
            } else {
                Num { n: 1, d: 1 }
            },
        ),
        Op::Eq => Ok(
            if a.num_eq(b) {
                Num { n: 1, d: 1 }
            } else {
                Num { n: 0, d: 1 }
            },
        ),
    }
}

fn fold_nums(op: Op, acc: Num, ns: &Vec<Num>, k: usize) -> (r: Result<Num, EvalError>)
    requires
        k <= ns@.len(),
        acc.wf(),
        forall|i: int| 0 <= i < ns@.len() ==> (#[trigger] ns@[i]).wf(),
    ensures
        match sp_fold(op, acc, ns@.subrange(k as int, ns@.len() as int)) {
            Ok(q) => r matches Ok(rq) && rq == q && q.wf(),
            Err(se) => r matches Err(e) && e.dv() == se,
        },
    decreases ns@.len() - k,
{
    if k >= ns.len() {
        proof {
            assert(ns@.subrange(k as int, ns@.len() as int) =~= Seq::<Num>::empty());
        }
        Ok(acc)
    } else {
        let ghost tail = ns@.subrange(k as int, ns@.len() as int);
        proof {
            assert(tail[0] == ns@[k as int]);
            assert(tail.subrange(1, tail.len() as int) =~= ns@.subrange(
                k as int + 1,
                ns@.len() as int,
            ));
        }
        match apply_op(op, acc, ns[k]) {
            Ok(v) => fold_nums(op, v, ns, k + 1),
            Err(e) => Err(e),
        }
    }
}

fn nums_from(vs: &Vec<Value>, k: usize) -> (r: Option<Vec<Num>>)
    requires
        k <= vs@.len(),
        svs_wf(dv_seq(vs@)),
    ensures
        match sp_nums(dv_seq(vs@).subrange(k as int, dv_seq(vs@).len() as int)) {
            Some(ns) => r matches Some(v) && v@ == ns && (forall|i: int|
                0 <= i < v@.len() ==> (#[trigger] v@[i]).wf()),
            None => r is None,
        },
    decreases vs@.len() - k,
{
    proof {
        lemma_dv_seq(vs@);
        lemma_svs_wf(dv_seq(vs@));
    }
    let ghost dvs = dv_seq(vs@);
    if k >= vs.len() {
        proof {
            assert(dvs.subrange(k as int, dvs.len() as int) =~= Seq::<SpecVal>::empty());
        }
        Some(Vec::new())
    } else {
        let ghost tail = dvs.subrange(k as int, dvs.len() as int);
        proof {
            assert(tail[0] == dvs[k as int]);
            assert(dvs[k as int] == vs@[k as int].dv());
            assert(tail.subrange(1, tail.len() as int) =~= dvs.subrange(
                k as int + 1,
                dvs.len() as int,
            ));
        }
        match &vs[k] {
            Value::Number(q) => {
                match nums_from(vs, k + 1) {
                    Some(mut v) => {
                        let ghost v0 = v@;
                        v.insert(0, *q);
                        proof {
                            assert(v@ =~= seq![*q] + v0);
                            assert(sv_wf(dvs[k as int]));
                        }
                        Some(v)
                    },
                    None => None,
                }
            },
            _ => None,
        }
    }
}

fn names_from(ps: &Vec<Value>, k: usize) -> (r: Option<Vec<String>>)
    requires
        k <= ps@.len(),
    ensures
        match sp_names(dv_seq(ps@).subrange(k as int, dv_seq(ps@).len() as int)) {
            Some(ns) => r matches Some(v) && names_dv(v@) == ns,
            None => r is None,
        },
    decreases ps@.len() - k,
{
    proof {
        lemma_dv_seq(ps@);
    }
    let ghost dvs = dv_seq(ps@);
    if k >= ps.len() {
        proof {
            assert(dvs.subrange(k as int, dvs.len() as int) =~= Seq::<SpecVal>::empty());
            assert(names_dv(Seq::<String>::empty()) =~= Seq::<Seq<char>>::empty());
        }
        Some(Vec::new())
    } else {
        let ghost tail = dvs.subrange(k as int, dvs.len() as int);
        proof {
            assert(tail[0] == dvs[k as int]);
            assert(dvs[k as int] == ps@[k as int].dv());
            assert(tail.subrange(1, tail.len() as int) =~= dvs.subrange(
                k as int + 1,
                dvs.len() as int,
            ));
        }
        match &ps[k] {
            Value::Symbol(s) => {
                match names_from(ps, k + 1) {
                    Some(mut v) => {
                        let ghost v0 = v@;
                        let sc = s.clone();
                        let ghost scv = sc@;
                        v.insert(0, sc);
                        proof {
                            assert(v@.subrange(1, v@.len() as int) =~= v0);
                            assert forall|m: int| 0 <= m < v@.len() implies names_dv(v@)[m] == (seq![
                                scv,
                            ] + names_dv(v0))[m] by {
                                if m > 0 {
                                    assert(v@[m] == v@.subrange(1, v@.len() as int)[m - 1]);
                                }
                            }
                            assert(names_dv(v@) =~= seq![scv] + names_dv(v0));
                        }
                        Some(v)
                    },
                    None => None,
                }
            },
            _ => None,
        }
    }
}

fn eval_fn(es: &Vec<Value>) -> (r: Result<Value, EvalError>)
    requires
        svs_wf(dv_seq(es@)),
    ensures
        match sp_fn(dv_seq(es@)) {
            Ok(sv) => r matches Ok(v) && v.dv() == sv && sv_wf(sv),
            Err(se) => r matches Err(e) && e.dv() == se,
        },
{
    proof {
        lemma_dv_seq(es@);
        lemma_svs_wf(dv_seq(es@));
    }
    if es.len() != 3 {
        return Err(EvalError::Arity);
    }
    proof {
        assert(dv_seq(es@)[1] == es@[1].dv());
        assert(dv_seq(es@)[2] == es@[2].dv());
        assert(sv_wf(dv_seq(es@)[2]));
    }
    match &es[1] {
        Value::List(ps) => {
            proof {
                assert(dv_seq(ps@).subrange(0, dv_seq(ps@).len() as int) =~= dv_seq(ps@));
            }
            match names_from(ps, 0) {
                Some(names) => match &es[2] {
                    Value::List(body) => {
                        let bodyc = crate::value::clone_values(body);
                        proof {
                            assert(sv_wf(dv_seq(es@)[2]));
                        }
                        Ok(Value::Lambda(names, bodyc))
                    },
                    _ => Err(EvalError::FnShape),
                },
                None => Err(EvalError::FnShape),
            }
        },
        _ => Err(EvalError::FnShape),
    }
}

pub proof fn lemma_sp_bind_wf(ps: Seq<Seq<char>>, vals: Seq<SpecVal>, k: int, f: SpecFrame)
    requires
        crate::environment::frame_wf(f),
        forall|i: int| 0 <= i < vals.len() ==> sv_wf(#[trigger] vals[i]),
    ensures
        crate::environment::frame_wf(sp_bind(ps, vals, k, f)),
    decreases ps.len() - k,
{
    if !(k < 0 || k >= ps.len() || k >= vals.len()) {
        crate::environment::lemma_frame_set_wf(f, ps[k], vals[k]);
        lemma_sp_bind_wf(ps, vals, k + 1, frame_set(f, ps[k], vals[k]));
    }
}

} // verus!

verus! {

fn as_num(v: &Value) -> (r: Option<Num>)
    ensures
        match v.dv() {
            SpecVal::Number(q) => r == Some(q),
            _ => r is None,
        },
{
    match v {
        Value::Number(q) => Some(*q),
        Value::Symbol(_) => None,
        Value::List(_) => None,
        Value::Nil => None,
        Value::Lambda(_, _) => None,
    }
}

fn is_nil(v: &Value) -> (r: bool)
    ensures
        r == (v.dv() is Nil),
{
    match v {
        Value::Nil => true,
        Value::Number(_) => false,
        Value::Symbol(_) => false,
        Value::List(_) => false,
        Value::Lambda(_, _) => false,
    }
}

/// Evaluates one node. The result and the environment it leaves
/// behind are exactly those of `sp_eval`.
fn eval(node: &Value, env: &mut Environment, fuel: u64) -> (r: Result<Value, EvalError>)
    requires
        old(env).dv().len() >= 1,
        env_wf(old(env).dv()),
        sv_wf(node.dv()),
    ensures
        ({
            let (sr, senv) = sp_eval(node.dv(), old(env).dv(), fuel as nat);
            &&& final(env).dv() == senv
            &&& final(env).dv().len() == old(env).dv().len()
            &&& env_wf(final(env).dv())
            &&& match sr {
                Ok(sv) => r matches Ok(v) && v.dv() == sv && sv_wf(sv),
                Err(se) => r matches Err(e) && e.dv() == se,
            }
        }),
    decreases fuel, node, 1int, 0int,
{
    match node {
        Value::Number(q) => Ok(Value::Number(*q)),
        Value::Symbol(s) => {
            proof {
                crate::environment::lemma_env_get_wf(old(env).dv(), s@);
            }
            match env.get(s.as_str()) {
                Some(v) => Ok(v),
                None => Err(EvalError::Unbound(s.clone())),
            }
        },
        Value::Nil => Ok(Value::Nil),
        Value::Lambda(_, _) => Ok(Value::Nil),
        Value::List(es) => {
            proof {
                lemma_dv_seq(es@);
                lemma_svs_wf(dv_seq(es@));
            }
            if es.len() == 0 {
                let empty: Vec<Value> = Vec::new();
                return Ok(Value::List(empty));
            }
            proof {
                assert(dv_seq(es@)[0] == es@[0].dv());
            }
            match &es[0] {
                Value::Symbol(s) => {
                    if is_sym(s, "not") {
                        if es.len() != 2 {
                            return Err(EvalError::Arity);
                        }
                        proof {
                            assert(dv_seq(es@)[1] == es@[1].dv());
                            assert(sv_wf(dv_seq(es@)[1]));
                        }
                        let r1 = eval(&es[1], env, fuel);
                        match r1 {
                            Ok(v) => match as_num(&v) {
                                Some(q) => Ok(
                                    Value::Number(
                                        if q.n == 0 {
                                            Num { n: 1, d: 1 }
                                        } else {
                                            Num { n: 0, d: 1 }
                                        },
                                    ),
                                ),
                                None => Err(EvalError::NotANumber),
                            },
                            Err(_) => Err(EvalError::NotANumber),
                        }
                    } else {
                        match sym_op(s) {
                            Some(op) => eval_binop(op, es, env, fuel),
                            None => {
                                if is_sym(s, "let") {
                                    if es.len() != 3 {
                                        return Err(EvalError::Arity);
                                    }
                                    proof {
                                        assert(dv_seq(es@)[1] == es@[1].dv());
                                        assert(dv_seq(es@)[2] == es@[2].dv());
                                        assert(sv_wf(dv_seq(es@)[2]));
                                    }
                                    match &es[1] {
                                        Value::Symbol(name) => {
                                            let r1 = eval(&es[2], env, fuel);
                                            match r1 {
                                                Ok(v) => {
                                                    proof {
                                                        crate::environment::lemma_env_set_wf(
                                                            env.dv(),
                                                            name@,
                                                            v.dv(),
                                                        );
                                                    }
                                                    env.set(name.as_str(), v);
                                                    Ok(Value::Nil)
                                                },
                                                Err(e) => Err(e),
                                            }
                                        },
                                        _ => Err(EvalError::LetName),
                                    }
                                } else if is_sym(s, "fn") {
                                    eval_fn(es)
                                } else if is_sym(s, "cond") {
                                    eval_cond(es, 1, env, fuel)
                                } else {
                                    eval_call(s, es, env, fuel)
                                }
                            },
                        }
                    }
                },
                _ => {
                    match eval_items(es, 0, env, fuel) {
                        Ok(vs) => Ok(Value::List(vs)),
                        Err(e) => Err(e),
                    }
                },
            }
        },
    }
}

/// The elements of a bare list, evaluated in turn, `Nil` results
/// dropped.
fn eval_items(es: &Vec<Value>, k: usize, env: &mut Environment, fuel: u64) -> (r: Result<
    Vec<Value>,
    EvalError,
>)
    requires
        k <= es@.len(),
        old(env).dv().len() >= 1,
        env_wf(old(env).dv()),
        svs_wf(dv_seq(es@)),
    ensures
        ({
            let (sr, senv) = sp_items(dv_seq(es@), k as int, old(env).dv(), fuel as nat);
            &&& final(env).dv() == senv
            &&& final(env).dv().len() == old(env).dv().len()
            &&& env_wf(final(env).dv())
            &&& match sr {
                Ok(vs) => r matches Ok(v) && dv_seq(v@) == vs && svs_wf(vs),
                Err(se) => r matches Err(e) && e.dv() == se,
            }
        }),
    decreases fuel, es, 0int, es@.len() - k,
{
    proof {
        lemma_dv_seq(es@);
        lemma_svs_wf(dv_seq(es@));
    }
    if k >= es.len() {
        let empty: Vec<Value> = Vec::new();
        return Ok(empty);
    }
    proof {
        assert(dv_seq(es@)[k as int] == es@[k as int].dv());
        assert(sv_wf(dv_seq(es@)[k as int]));
    }
    let r1 = eval(&es[k], env, fuel);
    match r1 {
        Ok(v) => {
            match eval_items(es, k + 1, env, fuel) {
                Ok(mut vs) => {
                    if is_nil(&v) {
                        Ok(vs)
                    } else {
                        let ghost vs0 = vs@;
                        let ghost vd = v.dv();
                        let ghost vsnap = v;
                        vs.insert(0, v);
                        proof {
                            lemma_dv_seq(vs@);
                            lemma_dv_seq(vs0);
                            assert(vs@.subrange(1, vs@.len() as int) =~= vs0);
                            assert forall|m: int| 0 <= m < vs@.len() implies dv_seq(vs@)[m] == (seq![
                                vd,
                            ] + dv_seq(vs0))[m] by {
                                assert(dv_seq(vs@)[m] == vs@[m].dv());
                                if m == 0 {
                                    assert(vs@[0] == vsnap);
                                } else {
                                    assert(vs@[m] == vs@.subrange(1, vs@.len() as int)[m - 1]);
                                    assert(dv_seq(vs0)[m - 1] == vs0[m - 1].dv());
                                }
                            }
                            assert(dv_seq(vs@) =~= seq![vd] + dv_seq(vs0));
                            lemma_svs_wf(dv_seq(vs@));
                            lemma_svs_wf(dv_seq(vs0));
                        }
                        Ok(vs)
                    }
                },
                Err(e) => Err(e),
            }
        },
        Err(e) => Err(e),
    }
}

/// The operands of an operator form, evaluated in turn.
fn eval_operands(es: &Vec<Value>, k: usize, env: &mut Environment, fuel: u64) -> (r: Result<
    Vec<Value>,
    EvalError,
>)
    requires
        1 <= k <= es@.len(),
        old(env).dv().len() >= 1,
        env_wf(old(env).dv()),
        svs_wf(dv_seq(es@)),
    ensures
        ({
            let (sr, senv) = sp_operands(dv_seq(es@), k as int, old(env).dv(), fuel as nat);
            &&& final(env).dv() == senv
            &&& final(env).dv().len() == old(env).dv().len()
            &&& env_wf(final(env).dv())
            &&& match sr {
                Ok(vs) => r matches Ok(v) && dv_seq(v@) == vs && svs_wf(vs),
                Err(se) => r matches Err(e) && e.dv() == se,
            }
        }),
    decreases fuel, es, 0int, es@.len() - k,
{
    proof {
        lemma_dv_seq(es@);
        lemma_svs_wf(dv_seq(es@));
    }
    if k >= es.len() {
        let empty: Vec<Value> = Vec::new();
        return Ok(empty);
    }
    proof {
        assert(dv_seq(es@)[k as int] == es@[k as int].dv());
        assert(sv_wf(dv_seq(es@)[k as int]));
    }
    let r1 = eval(&es[k], env, fuel);
    match r1 {
        Ok(v) => {
            match eval_operands(es, k + 1, env, fuel) {
                Ok(mut vs) => {
                    let ghost vs0 = vs@;
                    let ghost vd = v.dv();
                    let ghost vsnap = v;
                    vs.insert(0, v);
                    proof {
                        lemma_dv_seq(vs@);
                        lemma_dv_seq(vs0);
                        assert(vs@.subrange(1, vs@.len() as int) =~= vs0);
                        assert forall|m: int| 0 <= m < vs@.len() implies dv_seq(vs@)[m] == (seq![vd]
                            + dv_seq(vs0))[m] by {
                            assert(dv_seq(vs@)[m] == vs@[m].dv());
                            if m == 0 {
                                assert(vs@[0] == vsnap);
                            } else {
                                assert(vs@[m] == vs@.subrange(1, vs@.len() as int)[m - 1]);
                                assert(dv_seq(vs0)[m - 1] == vs0[m - 1].dv());
                            }
                        }
                        assert(dv_seq(vs@) =~= seq![vd] + dv_seq(vs0));
                        lemma_svs_wf(dv_seq(vs@));
                        lemma_svs_wf(dv_seq(vs0));
                    }
                    Ok(vs)
                },
                Err(e) => Err(e),
            }
        },
        Err(e) => Err(e),
    }
}

/// An operator form, mirrored on `sp_binop`.
fn eval_binop(op: Op, es: &Vec<Value>, env: &mut Environment, fuel: u64) -> (r: Result<
    Value,
    EvalError,
>)
    requires
        old(env).dv().len() >= 1,
        env_wf(old(env).dv()),
        svs_wf(dv_seq(es@)),
    ensures
        ({
            let (sr, senv) = sp_binop(op, dv_seq(es@), old(env).dv(), fuel as nat);
            &&& final(env).dv() == senv
            &&& final(env).dv().len() == old(env).dv().len()
            &&& env_wf(final(env).dv())
            &&& match sr {
                Ok(sv) => r matches Ok(v) && v.dv() == sv && sv_wf(sv),
                Err(se) => r matches Err(e) && e.dv() == se,
            }
        }),
    decreases fuel, es, 1int, 0int,
{
    proof {
        lemma_dv_seq(es@);
    }
    if es.len() < 3 {
        return Err(EvalError::Arity);
    }
    match eval_operands(es, 1, env, fuel) {
        Ok(vs) => {
            proof {
                assert(dv_seq(vs@).subrange(0, dv_seq(vs@).len() as int) =~= dv_seq(vs@));
            }
            match nums_from(&vs, 0) {
                Some(ns) => {
                    if ns.len() == 0 {
                        Err(EvalError::NotANumber)
                    } else {
                        proof {
                            assert(ns@.subrange(1, ns@.len() as int) == ns@.subrange(
                                1,
                                ns@.len() as int,
                            ));
                        }
                        match fold_nums(op, ns[0], &ns, 1) {
                            Ok(q) => Ok(Value::Number(q)),
                            Err(e) => Err(e),
                        }
                    }
                },
                None => Err(EvalError::NotANumber),
            }
        },
        Err(e) => Err(e),
    }
}

/// The clauses of a `cond` form, mirrored on `sp_cond`.
fn eval_cond(es: &Vec<Value>, idx: usize, env: &mut Environment, fuel: u64) -> (r: Result<
    Value,
    EvalError,
>)
    requires
        1 <= idx <= es@.len(),
        es@.len() >= 1,
        old(env).dv().len() >= 1,
        env_wf(old(env).dv()),
        svs_wf(dv_seq(es@)),
    ensures
        ({
            let (sr, senv) = sp_cond(dv_seq(es@), idx as int, old(env).dv(), fuel as nat);
            &&& final(env).dv() == senv
            &&& final(env).dv().len() == old(env).dv().len()
            &&& env_wf(final(env).dv())
            &&& match sr {
                Ok(sv) => r matches Ok(v) && v.dv() == sv && sv_wf(sv),
                Err(se) => r matches Err(e) && e.dv() == se,
            }
        }),
    decreases fuel, es, 0int, es@.len() - idx,
{
    proof {
        lemma_dv_seq(es@);
        lemma_svs_wf(dv_seq(es@));
    }
    if es.len() < 2 || idx >= es.len() - 1 {
        proof {
            assert(dv_seq(es@)[es@.len() - 1] == es@[es@.len() - 1].dv());
            assert(sv_wf(dv_seq(es@)[es@.len() - 1]));
        }
        return eval(&es[es.len() - 1], env, fuel);
    }
    proof {
        assert(dv_seq(es@)[idx as int] == es@[idx as int].dv());
        assert(sv_wf(dv_seq(es@)[idx as int]));
    }
    match &es[idx] {
        Value::List(cs) => {
            proof {
                lemma_dv_seq(cs@);
                lemma_svs_wf(dv_seq(cs@));
            }
            if cs.len() == 0 {
                return Err(EvalError::CondClause);
            }
            proof {
                assert(dv_seq(cs@)[0] == cs@[0].dv());
            }
            let r1 = eval(&cs[0], env, fuel);
            match r1 {
                Ok(v) => match as_num(&v) {
                    Some(q) => {
                        if q.n != 0 {
                            if cs.len() < 2 {
                                Err(EvalError::CondClause)
                            } else {
                                proof {
                                    assert(dv_seq(cs@)[1] == cs@[1].dv());
                                }
                                eval(&cs[1], env, fuel)
                            }
                        } else {
                            eval_cond(es, idx + 1, env, fuel)
                        }
                    },
                    None => eval_cond(es, idx + 1, env, fuel),
                },
                Err(e) => Err(e),
            }
        },
        _ => eval_cond(es, idx + 1, env, fuel),
    }
}

/// The arguments of a call, mirrored on `sp_args`.
fn eval_args(es: &Vec<Value>, n: usize, k: usize, env: &mut Environment, fuel: u64) -> (r: Result<
    Vec<Value>,
    EvalError,
>)
    requires
        k <= n,
        n + 1 <= es@.len(),
        old(env).dv().len() >= 1,
        env_wf(old(env).dv()),
        svs_wf(dv_seq(es@)),
    ensures
        ({
            let (sr, senv) = sp_args(dv_seq(es@), n as int, k as int, old(env).dv(), fuel as nat);
            &&& final(env).dv() == senv
            &&& final(env).dv().len() == old(env).dv().len()
            &&& env_wf(final(env).dv())
            &&& match sr {
                Ok(vs) => r matches Ok(v) && dv_seq(v@) == vs && svs_wf(vs) && v@.len() == n - k,
                Err(se) => r matches Err(e) && e.dv() == se,
            }
        }),
    decreases fuel, es, 0int, n - k,
{
    proof {
        lemma_dv_seq(es@);
        lemma_svs_wf(dv_seq(es@));
    }
    if k >= n {
        let empty: Vec<Value> = Vec::new();
        return Ok(empty);
    }
    proof {
        assert(dv_seq(es@)[1 + k as int] == es@[1 + k as int].dv());
        assert(sv_wf(dv_seq(es@)[1 + k as int]));
    }
    let r1 = eval(&es[1 + k], env, fuel);
    match r1 {
        Ok(v) => {
            match eval_args(es, n, k + 1, env, fuel) {
                Ok(mut vs) => {
                    let ghost vs0 = vs@;
                    let ghost vd = v.dv();
                    let ghost vsnap = v;
                    vs.insert(0, v);
                    proof {
                        lemma_dv_seq(vs@);
                        lemma_dv_seq(vs0);
                        assert(vs@.subrange(1, vs@.len() as int) =~= vs0);
                        assert forall|m: int| 0 <= m < vs@.len() implies dv_seq(vs@)[m] == (seq![vd]
                            + dv_seq(vs0))[m] by {
                            assert(dv_seq(vs@)[m] == vs@[m].dv());
                            if m == 0 {
                                assert(vs@[0] == vsnap);
                            } else {
                                assert(vs@[m] == vs@.subrange(1, vs@.len() as int)[m - 1]);
                                assert(dv_seq(vs0)[m - 1] == vs0[m - 1].dv());
                            }
                        }
                        assert(dv_seq(vs@) =~= seq![vd] + dv_seq(vs0));
                        lemma_svs_wf(dv_seq(vs@));
                        lemma_svs_wf(dv_seq(vs0));
                    }
                    Ok(vs)
                },
                Err(e) => Err(e),
            }
        },
        Err(e) => Err(e),
    }
}

/// A call through a bound name, mirrored on `sp_call`.
fn eval_call(s: &String, es: &Vec<Value>, env: &mut Environment, fuel: u64) -> (r: Result<
    Value,
    EvalError,
>)
    requires
        es@.len() >= 1,
        old(env).dv().len() >= 1,
        env_wf(old(env).dv()),
        svs_wf(dv_seq(es@)),
    ensures
        ({
            let (sr, senv) = sp_call(s@, dv_seq(es@), old(env).dv(), fuel as nat);
            &&& final(env).dv() == senv
            &&& final(env).dv().len() == old(env).dv().len()
            &&& env_wf(final(env).dv())
            &&& match sr {
                Ok(sv) => r matches Ok(v) && v.dv() == sv && sv_wf(sv),
                Err(se) => r matches Err(e) && e.dv() == se,
            }
        }),
    decreases fuel, es, 1int, 0int,
{
    proof {
        lemma_dv_seq(es@);
        crate::environment::lemma_env_get_wf(old(env).dv(), s@);
    }
    let looked = env.get(s.as_str());
    match looked {
        None => Err(EvalError::Unbound(s.clone())),
        Some(func) => match func {
            Value::Lambda(ps, body) => {
                let ghost psd = names_dv(ps@);
                let ghost bodyd = dv_seq(body@);
                if es.len() <= ps.len() {
                    return Err(EvalError::MissingArg);
                }
                match eval_args(es, ps.len(), 0, env, fuel) {
                    Ok(vals) => {
                        if fuel == 0 {
                            return Err(EvalError::Depth);
                        }
                        let ghost e2 = env.dv();
                        let ghost valsd = dv_seq(vals@);
                        proof {
                            lemma_dv_seq(vals@);
                            lemma_svs_wf(valsd);
                            assert(crate::environment::frame_wf(Seq::<(Seq<char>,
                                SpecVal,
                            )>::empty()));
                            crate::environment::lemma_env_wf_push(
                                e2,
                                Seq::<(Seq<char>, SpecVal)>::empty(),
                            );
                        }
                        env.extend();
                        let mut k: usize = 0;
                        while k < ps.len()
                            invariant
                                k <= ps@.len(),
                                vals@.len() == ps@.len(),
                                psd == names_dv(ps@),
                                valsd == dv_seq(vals@),
                                valsd.len() == vals@.len(),
                                forall|i: int|
                                    0 <= i < vals@.len() ==> valsd[i] == (#[trigger] vals@[i]).dv(),
                                forall|i: int| 0 <= i < valsd.len() ==> sv_wf(#[trigger] valsd[i]),
                                env.dv().len() == e2.len() + 1,
                                env.dv().drop_last() =~= e2,
                                sp_bind(psd, valsd, 0, Seq::empty()) == sp_bind(
                                    psd,
                                    valsd,
                                    k as int,
                                    env.dv().last(),
                                ),
                                crate::environment::frame_wf(env.dv().last()),
                                env_wf(env.dv()),
                            decreases ps@.len() - k,
                        {
                            let ghost fk = env.dv().last();
                            let v = crate::value::clone_one(&vals[k]);
                            proof {
                                crate::environment::lemma_env_set_wf(env.dv(), ps@[k as int]@, v.dv());
                            }
                            env.set(ps[k].as_str(), v);
                            proof {
                                assert(env.dv() =~= env_set(e2.push(fk), psd[k as int], valsd[k as int]));
                                assert((e2.push(fk)).drop_last() =~= e2);
                                assert((e2.push(fk)).last() == fk);
                                assert(env.dv() =~= e2.push(
                                    frame_set(fk, psd[k as int], valsd[k as int]),
                                ));
                                assert(env.dv().drop_last() =~= e2);
                                assert(env.dv().last() == frame_set(fk, psd[k as int], valsd[k as int]));
                                assert(sp_bind(psd, valsd, k as int, fk) == sp_bind(
                                    psd,
                                    valsd,
                                    k as int + 1,
                                    frame_set(fk, psd[k as int], valsd[k as int]),
                                ));
                            }
                            k += 1;
                        }
                        let ghost e3 = env.dv();
                        proof {
                            assert(e3 =~= e2.push(sp_bind(psd, valsd, 0, Seq::empty())));
                            assert(svs_wf(bodyd));
                            lemma_svs_wf(bodyd);
                        }
                        let bodyv = Value::List(body);
                        let r = eval(&bodyv, env, fuel - 1);
                        proof {
                            crate::environment::lemma_env_wf_drop(env.dv());
                        }
                        env.retract();
                        r
                    },
                    Err(e) => Err(e),
                }
            },
            Value::Number(_) => Err(EvalError::NotALambda(s.clone())),
            Value::Symbol(_) => Err(EvalError::NotALambda(s.clone())),
            Value::Nil => Err(EvalError::NotALambda(s.clone())),
            Value::List(_) => Err(EvalError::NotALambda(s.clone())),
        },
    }
}

/// Parses and evaluates one input against the session environment:
/// the single entry point the shell calls.
pub fn evaluate(source: &str, env: &mut Environment) -> (r: Result<Value, EvalError>)
    requires
        old(env).dv().len() >= 1,
        env_wf(old(env).dv()),
    ensures
        final(env).dv().len() == old(env).dv().len(),
        env_wf(final(env).dv()),
        match sp_parse(source@) {
            Err(k) => r matches Err(e) && e.dv() == SErr::Parse(k) && final(env).dv() == old(
                env,
            ).dv(),
            Ok(sv) => ({
                let (sr, senv) = sp_eval(sv, old(env).dv(), CALL_DEPTH as nat);
                &&& final(env).dv() == senv
                &&& match sr {
                    Ok(v_) => r matches Ok(v) && v.dv() == v_ && sv_wf(v_),
                    Err(se) => r matches Err(e) && e.dv() == se,
                }
            }),
        },
{
    match parse(source) {
        Ok(node) => eval(&node, env, CALL_DEPTH),
        Err(e) => Err(EvalError::Parse(e.kind)),
    }
}

} // verus!
