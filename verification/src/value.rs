use vstd::prelude::*;

use crate::num::Num;

verus! {

broadcast use vstd::std_specs::vec::group_vec_axioms;

/// The single homoiconic value type: both parse trees and results.
#[derive(Debug, PartialEq)]
pub enum Value {
    Number(Num),
    Symbol(String),
    List(Vec<Value>),
    Nil,
    Lambda(Vec<String>, Vec<Value>),
}

/// The mathematical shape of a `Value`: sequences in place of vectors,
/// character sequences in place of strings.
#[verifier::ext_equal]
pub enum SpecVal {
    Number(Num),
    Symbol(Seq<char>),
    List(Seq<SpecVal>),
    Nil,
    Lambda(Seq<Seq<char>>, Seq<SpecVal>),
}

/// The views of a sequence of parameter names.
pub open spec fn names_dv(s: Seq<String>) -> Seq<Seq<char>> {
    Seq::new(s.len(), |i: int| s[i]@)
}

impl Value {
    /// The deep view of a value.
    pub open spec fn dv(&self) -> SpecVal
        decreases self,
    {
        match self {
            Value::Number(q) => SpecVal::Number(*q),
            Value::Symbol(s) => SpecVal::Symbol(s@),
            Value::List(es) => SpecVal::List(dv_seq(es@)),
            Value::Nil => SpecVal::Nil,
            Value::Lambda(ps, body) => SpecVal::Lambda(names_dv(ps@), dv_seq(body@)),
        }
    }
}

/// The deep views of a sequence of values.
pub open spec fn dv_seq(s: Seq<Value>) -> Seq<SpecVal>
    decreases s,
{
    if s.len() == 0 {
        Seq::empty()
    } else {
        dv_seq(s.drop_last()).push(s.last().dv())
    }
}

/// `dv_seq` maps `dv` over the sequence, element by element.
pub proof fn lemma_dv_seq(s: Seq<Value>)
    ensures
        dv_seq(s).len() == s.len(),
        forall|i: int| 0 <= i < s.len() ==> dv_seq(s)[i] == #[trigger] s[i].dv(),
    decreases s.len(),
{
    if s.len() > 0 {
        lemma_dv_seq(s.drop_last());
        assert forall|i: int| 0 <= i < s.len() implies dv_seq(s)[i] == #[trigger] s[i].dv() by {
            if i < s.len() - 1 {
                assert(s.drop_last()[i] == s[i]);
                assert(dv_seq(s.drop_last())[i] == s.drop_last()[i].dv());
            } else {
                assert(s.last() == s[i]);
            }
        }
    }
}

/// A value is well formed when every number in it is a reduced
/// rational within range.
pub open spec fn sv_wf(v: SpecVal) -> bool
    decreases v,
{
    match v {
        SpecVal::Number(q) => q.wf(),
        SpecVal::Symbol(_) => true,
        SpecVal::List(es) => svs_wf(es),
        SpecVal::Nil => true,
        SpecVal::Lambda(_, body) => svs_wf(body),
    }
}

pub open spec fn svs_wf(es: Seq<SpecVal>) -> bool
    decreases es,
{
    if es.len() == 0 {
        true
    } else {
        svs_wf(es.drop_last()) && sv_wf(es.last())
    }
}

/// Elementwise reading of `svs_wf`.
pub proof fn lemma_svs_wf(es: Seq<SpecVal>)
    ensures
        svs_wf(es) <==> (forall|i: int| 0 <= i < es.len() ==> sv_wf(#[trigger] es[i])),
    decreases es.len(),
{
    if es.len() > 0 {
        lemma_svs_wf(es.drop_last());
        assert forall|i: int| 0 <= i < es.len() - 1 implies (#[trigger] es[i])
            == es.drop_last()[i] by {}
        assert(es.last() == es[es.len() - 1]);
        if svs_wf(es) {
            assert forall|i: int| 0 <= i < es.len() implies sv_wf(#[trigger] es[i]) by {
                if i < es.len() - 1 {
                    assert(sv_wf(es.drop_last()[i]));
                }
            }
        }
        if forall|i: int| 0 <= i < es.len() ==> sv_wf(#[trigger] es[i]) {
            assert forall|i: int| 0 <= i < es.drop_last().len() implies sv_wf(
                #[trigger] es.drop_last()[i],
            ) by {
                assert(es.drop_last()[i] == es[i]);
            }
            assert(svs_wf(es.drop_last()));
        }
    }
}

pub(crate) fn clone_values(es: &Vec<Value>) -> (res: Vec<Value>)
    ensures
        dv_seq(res@) == dv_seq(es@),
    decreases es,
{
    let mut out: Vec<Value> = Vec::new();
    let mut i: usize = 0;
    while i < es.len()
        invariant
            0 <= i <= es.len(),
            out@.len() == i,
            forall|j: int| 0 <= j < i ==> out@[j].dv() == #[trigger] es@[j].dv(),
        decreases es.len() - i,
    {
        let c = es[i].clone();
        out.push(c);
        i += 1;
    }
    proof {
        lemma_dv_seq(out@);
        lemma_dv_seq(es@);
        assert forall|j: int| 0 <= j < out@.len() implies dv_seq(out@)[j] == dv_seq(es@)[j] by {
            assert(out@[j].dv() == es@[j].dv());
        }
        assert(dv_seq(out@) =~= dv_seq(es@));
    }
    out
}

fn clone_names(ps: &Vec<String>) -> (res: Vec<String>)
    ensures
        names_dv(res@) == names_dv(ps@),
{
    let mut out: Vec<String> = Vec::new();
    let mut i: usize = 0;
    while i < ps.len()
        invariant
            0 <= i <= ps.len(),
            out@.len() == i,
            forall|j: int| 0 <= j < i ==> out@[j]@ == #[trigger] ps@[j]@,
        decreases ps.len() - i,
    {
        let c = ps[i].clone();
        out.push(c);
        i += 1;
    }
    proof {
        assert(names_dv(out@) =~= names_dv(ps@));
    }
    out
}

/// A deep copy, usable where the borrow rules make `clone` awkward.
pub(crate) fn clone_one(v: &Value) -> (res: Value)
    ensures
        res.dv() == v.dv(),
{
    v.clone()
}

impl Clone for Value {
    /// A deep copy with the same view.
    fn clone(&self) -> (res: Self)
        ensures
            res.dv() == self.dv(),
        decreases self,
    {
        match self {
            Value::Number(q) => Value::Number(*q),
            Value::Symbol(s) => Value::Symbol(s.clone()),
            Value::List(es) => Value::List(clone_values(es)),
            Value::Nil => Value::Nil,
            Value::Lambda(ps, body) => Value::Lambda(clone_names(ps), clone_values(body)),
        }
    }
}

} // verus!
