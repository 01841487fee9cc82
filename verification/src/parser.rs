use vstd::prelude::*;

use crate::lexer::STok;
use crate::lexer::Token;
use crate::lexer::lemma_toks_dv;
use crate::lexer::spec_tokens;
use crate::lexer::stok_wf;
use crate::lexer::stoks_wf;
use crate::lexer::tokenize;
use crate::lexer::toks_dv;
use crate::value::SpecVal;
use crate::value::Value;
use crate::value::dv_seq;
use crate::value::lemma_dv_seq;
use crate::value::lemma_svs_wf;
use crate::value::sv_wf;
use crate::value::svs_wf;

verus! {

broadcast use vstd::std_specs::vec::group_vec_axioms;

/// Why a parse failed.
#[derive(Clone, Copy, Debug, PartialEq, Eq)]
pub enum ParseErrorKind {
    /// A character that fits no rule of the token grammar.
    UnexpectedChar(char),
    /// An expression was expected and the input ended.
    UnexpectedEnd,
    /// A closing parenthesis with no open one.
    UnexpectedClose,
    /// The input ended inside a parenthesized form.
    Unbalanced,
}

#[derive(Debug)]
pub struct ParseError {
    pub kind: ParseErrorKind,
}

/// One expression parsed from position `i` of the token stream, with
/// the position that follows it.
pub open spec fn sp_expr(ts: Seq<STok>, i: int) -> Result<(SpecVal, int), ParseErrorKind>
    decreases ts.len() - i, 0int,
{
    if i < 0 || i >= ts.len() {
        Err(ParseErrorKind::UnexpectedEnd)
    } else {
        match ts[i] {
            STok::Number(q) => Ok((SpecVal::Number(q), i + 1)),
            STok::Symbol(s) => Ok((SpecVal::Symbol(s), i + 1)),
            STok::RParen => Err(ParseErrorKind::UnexpectedClose),
            STok::LParen => match sp_items(ts, i + 1) {
                Ok((es, j)) => Ok((SpecVal::List(es), j)),
                Err(e) => Err(e),
            },
        }
    }
}

/// The elements of a parenthesized form, up to and past its closing
/// parenthesis.
pub open spec fn sp_items(ts: Seq<STok>, i: int) -> Result<(Seq<SpecVal>, int), ParseErrorKind>
    decreases ts.len() - i, 1int,
{
    if i < 0 || i >= ts.len() {
        Err(ParseErrorKind::Unbalanced)
    } else if ts[i] is RParen {
        Ok((Seq::empty(), i + 1))
    } else {
        match sp_expr(ts, i) {
            Ok((v, j)) => if i < j <= ts.len() {
                match sp_items(ts, j) {
                    Ok((es, k)) => Ok((seq![v] + es, k)),
                    Err(e) => Err(e),
                }
            } else {
                Err(ParseErrorKind::Unbalanced)
            },
            Err(e) => Err(e),
        }
    }
}

/// Every top-level expression from position `i` to the end.
pub open spec fn sp_program(ts: Seq<STok>, i: int) -> Result<Seq<SpecVal>, ParseErrorKind>
    decreases ts.len() - i,
{
    if i < 0 || i >= ts.len() {
        Ok(Seq::empty())
    } else {
        match sp_expr(ts, i) {
            Ok((v, j)) => if i < j <= ts.len() {
                match sp_program(ts, j) {
                    Ok(es) => Ok(seq![v] + es),
                    Err(e) => Err(e),
                }
            } else {
                Err(ParseErrorKind::Unbalanced)
            },
            Err(e) => Err(e),
        }
    }
}

/// The parse of a whole text: its token stream read as top-level
/// expressions; a single expression stands alone, several are wrapped
/// in one list.
pub open spec fn sp_parse(s: Seq<char>) -> Result<SpecVal, ParseErrorKind> {
    match spec_tokens(s, 0) {
        Err(c) => Err(ParseErrorKind::UnexpectedChar(c)),
        Ok(ts) => match sp_program(ts, 0) {
            Ok(es) => if es.len() == 1 {
                Ok(es[0])
            } else {
                Ok(SpecVal::List(es))
            },
            Err(e) => Err(e),
        },
    }
}

fn parse_expression(ts: &Vec<Token>, i: usize) -> (r: Result<(Value, usize), ParseError>)
    requires
        i <= ts@.len(),
        stoks_wf(toks_dv(ts@)),
    ensures
        match sp_expr(toks_dv(ts@), i as int) {
            Ok((sv, j)) => r matches Ok(p) && p.0.dv() == sv && p.1 == j && i < j <= ts@.len()
                && sv_wf(sv),
            Err(k) => r matches Err(e) && e.kind == k,
        },
    decreases ts@.len() - i, 0int,
{
    proof {
        lemma_toks_dv(ts@);
    }
    if i >= ts.len() {
        return Err(ParseError { kind: ParseErrorKind::UnexpectedEnd });
    }
    proof {
        assert(toks_dv(ts@)[i as int] == ts@[i as int].dv());
    }
    match &ts[i] {
        Token::Number(q) => {
            proof {
                assert(stok_wf(toks_dv(ts@)[i as int]));
            }
            Ok((Value::Number(*q), i + 1))
        },
        Token::Symbol(s) => Ok((Value::Symbol(s.clone()), i + 1)),
        Token::RParen => Err(ParseError { kind: ParseErrorKind::UnexpectedClose }),
        Token::LParen => {
            match parse_items(ts, i + 1) {
                Ok((es, j)) => Ok((Value::List(es), j)),
                Err(e) => Err(e),
            }
        },
    }
}

fn parse_items(ts: &Vec<Token>, i: usize) -> (r: Result<(Vec<Value>, usize), ParseError>)
    requires
        i <= ts@.len(),
        stoks_wf(toks_dv(ts@)),
    ensures
        match sp_items(toks_dv(ts@), i as int) {
            Ok((svs, j)) => r matches Ok(p) && dv_seq(p.0@) == svs && p.1 == j && i < j
                <= ts@.len() && svs_wf(svs),
            Err(k) => r matches Err(e) && e.kind == k,
        },
    decreases ts@.len() - i, 1int,
{
    proof {
        lemma_toks_dv(ts@);
    }
    if i >= ts.len() {
        return Err(ParseError { kind: ParseErrorKind::Unbalanced });
    }
    proof {
        assert(toks_dv(ts@)[i as int] == ts@[i as int].dv());
    }
    if matches!(&ts[i], Token::RParen) {
        let es: Vec<Value> = Vec::new();
        return Ok((es, i + 1));
    }
    match parse_expression(ts, i) {
        Ok((v, j)) => match parse_items(ts, j) {
            Ok((mut es, k)) => {
                let ghost es0 = es@;
                let ghost vd = v.dv();
                let ghost vsnap = v;
                es.insert(0, v);
                proof {
                    lemma_dv_seq(es@);
                    lemma_dv_seq(es0);
                    assert(es@.subrange(1, es@.len() as int) =~= es0);
                    assert forall|m: int| 0 <= m < es@.len() implies dv_seq(es@)[m] == (seq![vd]
                        + dv_seq(es0))[m] by {
                        assert(dv_seq(es@)[m] == es@[m].dv());
                        if m == 0 {
                            assert(es@[0] == vsnap);
                        } else {
                            assert(es@[m] == es@.subrange(1, es@.len() as int)[m - 1]);
                            assert(dv_seq(es0)[m - 1] == es0[m - 1].dv());
                        }
                    }
                    assert(dv_seq(es@) =~= seq![vd] + dv_seq(es0));
                    lemma_svs_wf(dv_seq(es@));
                    lemma_svs_wf(dv_seq(es0));
                }
                Ok((es, k))
            },
            Err(e) => Err(e),
        },
        Err(e) => Err(e),
    }
}

fn parse_program(ts: &Vec<Token>, i: usize) -> (r: Result<Vec<Value>, ParseError>)
    requires
        i <= ts@.len(),
        stoks_wf(toks_dv(ts@)),
    ensures
        match sp_program(toks_dv(ts@), i as int) {
            Ok(svs) => r matches Ok(v) && dv_seq(v@) == svs && svs_wf(svs),
            Err(k) => r matches Err(e) && e.kind == k,
        },
    decreases ts@.len() - i,
{
    proof {
        lemma_toks_dv(ts@);
    }
    if i >= ts.len() {
        let es: Vec<Value> = Vec::new();
        return Ok(es);
    }
    proof {
        assert(toks_dv(ts@)[i as int] == ts@[i as int].dv());
    }
    match parse_expression(ts, i) {
        Ok((v, j)) => match parse_program(ts, j) {
            Ok(mut es) => {
                let ghost es0 = es@;
                let ghost vd = v.dv();
                let ghost vsnap = v;
                es.insert(0, v);
                proof {
                    lemma_dv_seq(es@);
                    lemma_dv_seq(es0);
                    assert(es@.subrange(1, es@.len() as int) =~= es0);
                    assert forall|m: int| 0 <= m < es@.len() implies dv_seq(es@)[m] == (seq![vd]
                        + dv_seq(es0))[m] by {
                        assert(dv_seq(es@)[m] == es@[m].dv());
                        if m == 0 {
                            assert(es@[0] == vsnap);
                        } else {
                            assert(es@[m] == es@.subrange(1, es@.len() as int)[m - 1]);
                            assert(dv_seq(es0)[m - 1] == es0[m - 1].dv());
                        }
                    }
                    assert(dv_seq(es@) =~= seq![vd] + dv_seq(es0));
                    lemma_svs_wf(dv_seq(es@));
                    lemma_svs_wf(dv_seq(es0));
                }
                Ok(es)
            },
            Err(e) => Err(e),
        },
        Err(e) => Err(e),
    }
}

/// Parses a whole text into one value.
pub fn parse(program: &str) -> (r: Result<Value, ParseError>)
    ensures
        match sp_parse(program@) {
            Ok(sv) => r matches Ok(v) && v.dv() == sv && sv_wf(sv),
            Err(k) => r matches Err(e) && e.kind == k,
        },
{
    let toks = match tokenize(program) {
        Ok(v) => v,
        Err(e) => {
            return Err(ParseError { kind: ParseErrorKind::UnexpectedChar(e.ch) });
        },
    };
    match parse_program(&toks, 0) {
        Ok(mut es) => {
            proof {
                lemma_dv_seq(es@);
            }
            if es.len() == 1 {
                let ghost es0 = es@;
                proof {
                    lemma_dv_seq(es0);
                }
                let v = es.pop().unwrap();
                proof {
                    assert(v == es0[0]);
                    assert(dv_seq(es0)[0] == es0[0].dv());
                }
                Ok(v)
            } else {
                Ok(Value::List(es))
            }
        },
        Err(e) => Err(e),
    }
}

} // verus!
